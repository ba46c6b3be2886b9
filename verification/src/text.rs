use vstd::prelude::*;
use vstd::string::StrSliceExecFns;

verus! {

/// `String::push` appends one character.
pub assume_specification[ String::push ](s: &mut String, ch: char)
    ensures
        final(s)@ == old(s)@.push(ch),
;

/// `String::push_str` appends the characters of a string slice.
pub assume_specification[ String::push_str ](s: &mut String, string: &str)
    ensures
        final(s)@ == old(s)@ + string@,
;

/// The character of a decimal digit.
pub open spec fn digit_char(d: int) -> char {
    (48 + d) as char
}

/// Decimal notation of a natural number, without leading zeros.
pub open spec fn decimal(n: nat) -> Seq<char>
    decreases n,
{
    if n < 10 {
        seq![digit_char(n as int)]
    } else {
        decimal(n / 10).push(digit_char((n % 10) as int))
    }
}

/// Decimal notation of `n`, with leading zeros up to `width` characters.
pub open spec fn zero_padded(n: nat, width: nat) -> Seq<char> {
    let s = decimal(n);
    if s.len() < width {
        Seq::new((width - s.len()) as nat, |i: int| '0') + s
    } else {
        s
    }
}

/// Ten to the power `k`.
pub open spec fn pow10(k: nat) -> nat
    decreases k,
{
    if k == 0 {
        1
    } else {
        10 * pow10((k - 1) as nat)
    }
}

/// A number below `10^k` has at most `k` digits.
proof fn lemma_decimal_len_bound(n: nat, k: nat)
    requires
        k >= 1,
        n < pow10(k),
    ensures
        decimal(n).len() <= k,
    decreases k,
{
    if n >= 10 {
        assert(pow10(1) == 10) by {
            reveal_with_fuel(pow10, 2);
        }
        assert(k >= 2);
        lemma_decimal_len_bound(n / 10, (k - 1) as nat);
    }
}

/// Every character of a decimal notation is a digit `0`..`9`.
pub proof fn lemma_decimal_digits(n: nat)
    ensures
        forall|i: int| 0 <= i < decimal(n).len() ==> '0' <= #[trigger] decimal(n)[i] <= '9',
    decreases n,
{
    assert(((48 + n % 10) as char) as u32 == 48 + n % 10);
    if n >= 10 {
        lemma_decimal_digits(n / 10);
        assert forall|i: int| 0 <= i < decimal(n).len() implies '0' <= #[trigger] decimal(n)[i]
            <= '9' by {
            if i < decimal(n / 10).len() {
                assert(decimal(n)[i] == decimal(n / 10)[i]);
            }
        }
    } else {
        assert(((48 + n) as char) as u32 == 48 + n);
    }
}

/// Every character of a zero-padded decimal notation is a digit `0`..`9`.
pub proof fn lemma_zero_padded_digits(n: nat, width: nat)
    ensures
        forall|i: int|
            0 <= i < zero_padded(n, width).len() ==> '0' <= #[trigger] zero_padded(n, width)[i]
                <= '9',
{
    lemma_decimal_digits(n);
    let s = decimal(n);
    if s.len() < width {
        let z = Seq::new((width - s.len()) as nat, |i: int| '0');
        assert forall|i: int| 0 <= i < zero_padded(n, width).len() implies '0'
            <= #[trigger] zero_padded(n, width)[i] <= '9' by {
            if i >= z.len() {
                assert(zero_padded(n, width)[i] == s[i - z.len()]);
            }
        }
    }
}

/// Number of decimal digits of `n`.
pub fn decimal_len(n: u64) -> (len: usize)
    ensures
        len == decimal(n as nat).len(),
        len <= 20,
    decreases n,
{
    proof {
        reveal_with_fuel(pow10, 21);
        assert(pow10(20) == 100000000000000000000nat);
        lemma_decimal_len_bound(n as nat, 20);
    }
    if n < 10 {
        1
    } else {
        decimal_len(n / 10) + 1
    }
}

/// Appends the decimal notation of `n`.
pub fn push_decimal(out: &mut String, n: u64)
    ensures
        final(out)@ == old(out)@ + decimal(n as nat),
    decreases n,
{
    if n >= 10 {
        push_decimal(out, n / 10);
    }
    let digit = (48 + (n % 10) as u8) as char;
    out.push(digit);
    proof {
        assert(n < 10 ==> n % 10 == n);
    }
}

/// Appends the decimal notation of `n`, padded with leading zeros to `width` characters.
pub fn push_zero_padded(out: &mut String, n: u64, width: usize)
    ensures
        final(out)@ == old(out)@ + zero_padded(n as nat, width as nat),
{
    let len = decimal_len(n);
    let ghost start = out@;
    let mut i = len;
    while i < width
        invariant
            len <= i <= width || (width < len && i == len),
            out@ == start + Seq::new((i - len) as nat, |k: int| '0'),
        decreases width - i,
    {
        out.push('0');
        i = i + 1;
        proof {
            assert(out@ =~= start + Seq::new((i - len) as nat, |k: int| '0'));
        }
    }
    push_decimal(out, n);
    proof {
        assert(out@ =~= start + zero_padded(n as nat, width as nat));
    }
}

/// Lexicographic order of character sequences (as `str` orders them: by code point, a
/// proper prefix first).
pub open spec fn lex_less(a: Seq<char>, b: Seq<char>) -> bool
    decreases a.len(),
{
    if a.len() == 0 {
        b.len() > 0
    } else if b.len() == 0 {
        false
    } else if a[0] != b[0] {
        a[0] < b[0]
    } else {
        lex_less(a.drop_first(), b.drop_first())
    }
}

/// Comparing concatenations whose first parts have the same length compares the first
/// parts, then the second parts.
pub proof fn lemma_lex_less_concat(a1: Seq<char>, a2: Seq<char>, b1: Seq<char>, b2: Seq<char>)
    requires
        a1.len() == b1.len(),
    ensures
        lex_less(a1 + a2, b1 + b2) <==> (lex_less(a1, b1) || (a1 == b1 && lex_less(a2, b2))),
    decreases a1.len(),
{
    if a1.len() == 0 {
        assert(a1 + a2 =~= a2);
        assert(b1 + b2 =~= b2);
        assert(a1 =~= b1);
    } else {
        lemma_lex_less_concat(a1.drop_first(), a2, b1.drop_first(), b2);
        assert((a1 + a2).drop_first() =~= a1.drop_first() + a2);
        assert((b1 + b2).drop_first() =~= b1.drop_first() + b2);
        if a1[0] == b1[0] && a1.drop_first() == b1.drop_first() {
            assert forall|i: int| 0 <= i < a1.len() implies a1[i] == b1[i] by {
                if i > 0 {
                    assert(a1[i] == a1.drop_first()[i - 1]);
                    assert(b1[i] == b1.drop_first()[i - 1]);
                }
            }
            assert(a1 =~= b1);
        }
    }
}

/// Concatenations whose first parts have the same length are equal exactly when both
/// parts are.
pub proof fn lemma_concat_eq(a1: Seq<char>, a2: Seq<char>, b1: Seq<char>, b2: Seq<char>)
    requires
        a1.len() == b1.len(),
    ensures
        (a1 + a2 == b1 + b2) <==> (a1 == b1 && a2 == b2),
{
    if a1 + a2 == b1 + b2 {
        assert((a1 + a2).take(a1.len() as int) =~= a1);
        assert((b1 + b2).take(a1.len() as int) =~= b1);
        assert((a1 + a2).skip(a1.len() as int) =~= a2);
        assert((b1 + b2).skip(a1.len() as int) =~= b2);
    }
}

/// Zero-padded notation of a number below `10^width` splits into that of `n / 10` and a
/// last digit.
proof fn lemma_zero_padded_last_digit(n: nat, width: nat)
    requires
        width >= 2,
        n < pow10(width),
    ensures
        zero_padded(n, width) == zero_padded(n / 10, (width - 1) as nat).push(
            digit_char((n % 10) as int),
        ),
{
    lemma_decimal_len_bound(n, width);
    if n >= 10 {
        lemma_decimal_len_bound(n / 10, (width - 1) as nat);
        assert(zero_padded(n, width) =~= zero_padded(n / 10, (width - 1) as nat).push(
            digit_char((n % 10) as int),
        ));
    } else {
        assert(decimal(0) == seq![digit_char(0)]);
        assert(zero_padded(n, width) =~= zero_padded(n / 10, (width - 1) as nat).push(
            digit_char((n % 10) as int),
        ));
    }
}

/// The number that a string of decimal digits denotes.
pub open spec fn digits_value(s: Seq<char>) -> int
    decreases s.len(),
{
    if s.len() == 0 {
        0
    } else {
        digits_value(s.drop_last()) * 10 + (s.last() as int - 48)
    }
}

/// Reading a zero-padded notation back gives the number.
pub proof fn lemma_zero_padded_value(n: nat, width: nat)
    requires
        width >= 1,
        n < pow10(width),
    ensures
        digits_value(zero_padded(n, width)) == n,
    decreases width,
{
    reveal_with_fuel(pow10, 2);
    if width == 1 {
        assert(zero_padded(n, 1) == seq![digit_char(n as int)]);
        assert(seq![digit_char(n as int)].drop_last() =~= Seq::<char>::empty());
        assert(((48 + n) as char) as int == 48 + n);
        let one = seq![digit_char(n as int)];
        assert(digits_value(one) == digits_value(one.drop_last()) * 10 + (one.last() as int - 48));
        assert(digits_value(Seq::<char>::empty()) == 0);
    } else {
        let w1 = (width - 1) as nat;
        assert(pow10(width) == 10 * pow10(w1));
        lemma_zero_padded_last_digit(n, width);
        lemma_zero_padded_value(n / 10, w1);
        let a = zero_padded(n / 10, w1);
        assert(a.push(digit_char((n % 10) as int)).drop_last() =~= a);
        assert(((48 + n % 10) as char) as int == 48 + n % 10);
        let full = a.push(digit_char((n % 10) as int));
        assert(digits_value(full) == digits_value(full.drop_last()) * 10 + (full.last() as int
            - 48));
    }
}

/// Zero-padded notations of numbers below `10^width` have length `width` and compare as the
/// numbers do.
pub proof fn lemma_zero_padded_order(x: nat, y: nat, width: nat)
    requires
        width >= 1,
        x < pow10(width),
        y < pow10(width),
    ensures
        zero_padded(x, width).len() == width,
        zero_padded(y, width).len() == width,
        lex_less(zero_padded(x, width), zero_padded(y, width)) <==> x < y,
        zero_padded(x, width) == zero_padded(y, width) <==> x == y,
    decreases width,
{
    reveal_with_fuel(pow10, 2);
    reveal_with_fuel(lex_less, 2);
    if width == 1 {
        assert(((48 + x) as char) as u32 == 48 + x);
        assert(((48 + y) as char) as u32 == 48 + y);
        assert(zero_padded(x, 1) == seq![digit_char(x as int)]);
        assert(zero_padded(y, 1) == seq![digit_char(y as int)]);
        assert(seq![digit_char(x as int)].drop_first() =~= Seq::<char>::empty());
        assert(seq![digit_char(y as int)].drop_first() =~= Seq::<char>::empty());
        if x != y {
            assert(seq![digit_char(x as int)][0] != seq![digit_char(y as int)][0]);
        }
    } else {
        let w1 = (width - 1) as nat;
        assert(pow10(width) == 10 * pow10(w1));
        assert(((48 + x % 10) as char) as u32 == 48 + x % 10);
        assert(((48 + y % 10) as char) as u32 == 48 + y % 10);
        lemma_zero_padded_last_digit(x, width);
        lemma_zero_padded_last_digit(y, width);
        lemma_zero_padded_order(x / 10, y / 10, w1);
        let a = zero_padded(x / 10, w1);
        let b = zero_padded(y / 10, w1);
        let cx = seq![digit_char((x % 10) as int)];
        let cy = seq![digit_char((y % 10) as int)];
        assert(x / 10 < pow10(w1));
        assert(a.len() == w1);
        assert(b.len() == w1);
        assert(a.push(digit_char((x % 10) as int)) =~= a + cx);
        assert(b.push(digit_char((y % 10) as int)) =~= b + cy);
        lemma_lex_less_concat(a, cx, b, cy);
        assert(cx.drop_first() =~= Seq::<char>::empty());
        assert(cy.drop_first() =~= Seq::<char>::empty());
        if x % 10 != y % 10 {
            assert(cx[0] != cy[0]);
        }
        if a + cx == b + cy {
            assert((a + cx)[width - 1] == (b + cy)[width - 1]);
            assert((a + cx).take(w1 as int) =~= a);
            assert((b + cy).take(w1 as int) =~= b);
        }
    }
}

/// The characters with the Unicode `White_Space` property (those `char::is_whitespace` accepts).
pub open spec fn is_whitespace(c: char) -> bool {
    ('\t' <= c && c <= '\r') || c == ' ' || c == '\u{85}' || c == '\u{a0}' || c == '\u{1680}' || (
    '\u{2000}' <= c && c <= '\u{200a}') || c == '\u{2028}' || c == '\u{2029}' || c == '\u{202f}'
        || c == '\u{205f}' || c == '\u{3000}'
}

/// Whether `c` is white space.
pub fn char_is_whitespace(c: char) -> (ws: bool)
    ensures
        ws == is_whitespace(c),
{
    ('\t' <= c && c <= '\r') || c == ' ' || c == '\u{85}' || c == '\u{a0}' || c == '\u{1680}' || (
    '\u{2000}' <= c && c <= '\u{200a}') || c == '\u{2028}' || c == '\u{2029}' || c == '\u{202f}'
        || c == '\u{205f}' || c == '\u{3000}'
}

/// `s` without its leading white space.
pub open spec fn trim_start(s: Seq<char>) -> Seq<char>
    decreases s.len(),
{
    if s.len() > 0 && is_whitespace(s[0]) {
        trim_start(s.drop_first())
    } else {
        s
    }
}

/// `s` without its trailing white space.
pub open spec fn trim_end(s: Seq<char>) -> Seq<char>
    decreases s.len(),
{
    if s.len() > 0 && is_whitespace(s.last()) {
        trim_end(s.drop_last())
    } else {
        s
    }
}

/// `s` without leading and trailing white space (as `str::trim` gives it).
pub open spec fn trim(s: Seq<char>) -> Seq<char> {
    trim_end(trim_start(s))
}

/// When `v[lo..k]` is white space and `v[k]` is not (or `k == hi`), trimming the start of
/// `v[lo..hi]` leaves `v[k..hi]`.
pub proof fn lemma_trim_start_run(v: Seq<char>, lo: int, k: int, hi: int)
    requires
        0 <= lo <= k <= hi <= v.len(),
        forall|j: int| lo <= j < k ==> is_whitespace(v[j]),
        k == hi || !is_whitespace(v[k]),
    ensures
        trim_start(v.subrange(lo, hi)) == v.subrange(k, hi),
    decreases k - lo,
{
    if lo < k {
        lemma_trim_start_run(v, lo + 1, k, hi);
        assert(v.subrange(lo, hi).drop_first() =~= v.subrange(lo + 1, hi));
    }
}

/// When `v[k..hi]` is white space and `v[k - 1]` is not (or `k == lo`), trimming the end of
/// `v[lo..hi]` leaves `v[lo..k]`.
pub proof fn lemma_trim_end_run(v: Seq<char>, lo: int, k: int, hi: int)
    requires
        0 <= lo <= k <= hi <= v.len(),
        forall|j: int| k <= j < hi ==> is_whitespace(v[j]),
        k == lo || !is_whitespace(v[k - 1]),
    ensures
        trim_end(v.subrange(lo, hi)) == v.subrange(lo, k),
    decreases hi - k,
{
    if k < hi {
        lemma_trim_end_run(v, lo, k, hi - 1);
        assert(v.subrange(lo, hi).drop_last() =~= v.subrange(lo, hi - 1));
    }
}

/// Bounds of the trimmed part of `v[lo..hi]`.
pub fn trim_range(v: &Vec<char>, lo: usize, hi: usize) -> (r: (usize, usize))
    requires
        lo <= hi <= v@.len(),
    ensures
        lo <= r.0 <= r.1 <= hi,
        v@.subrange(r.0 as int, r.1 as int) == trim(v@.subrange(lo as int, hi as int)),
{
    let mut a = lo;
    while a < hi && char_is_whitespace(v[a])
        invariant
            lo <= a <= hi <= v@.len(),
            forall|j: int| lo <= j < a ==> is_whitespace(v@[j]),
        decreases hi - a,
    {
        a = a + 1;
    }
    proof {
        lemma_trim_start_run(v@, lo as int, a as int, hi as int);
    }
    let mut b = hi;
    while b > a && char_is_whitespace(v[b - 1])
        invariant
            a <= b <= hi <= v@.len(),
            forall|j: int| b <= j < hi ==> is_whitespace(v@[j]),
        decreases b - a,
    {
        b = b - 1;
    }
    proof {
        lemma_trim_end_run(v@, a as int, b as int, hi as int);
    }
    (a, b)
}

/// Index of the first `c` in `s`, or the length of `s` when there is none.
pub open spec fn find_char(s: Seq<char>, c: char) -> int
    decreases s.len(),
{
    if s.len() == 0 {
        0
    } else if s[0] == c {
        0
    } else {
        1 + find_char(s.drop_first(), c)
    }
}

/// `find_char` is the first position holding `c`, or the length.
pub proof fn lemma_find_char(s: Seq<char>, c: char, k: int)
    requires
        0 <= k <= s.len(),
        forall|j: int| 0 <= j < k ==> s[j] != c,
        k == s.len() || s[k] == c,
    ensures
        find_char(s, c) == k,
    decreases k,
{
    if k > 0 {
        lemma_find_char(s.drop_first(), c, k - 1);
    }
}

/// `find_char` lies within the sequence.
pub proof fn lemma_find_char_bounds(s: Seq<char>, c: char)
    ensures
        0 <= find_char(s, c) <= s.len(),
        find_char(s, c) < s.len() ==> s[find_char(s, c)] == c,
        forall|j: int| 0 <= j < find_char(s, c) ==> s[j] != c,
    decreases s.len(),
{
    if s.len() > 0 && s[0] != c {
        lemma_find_char_bounds(s.drop_first(), c);
        assert forall|j: int| 0 <= j < find_char(s, c) implies s[j] != c by {
            if j > 0 {
                assert(s[j] == s.drop_first()[j - 1]);
            }
        }
    }
}

/// The characters of `s`.
pub fn chars_of(s: &str) -> (v: Vec<char>)
    ensures
        v@ == s@,
{
    let n = s.unicode_len();
    let mut v: Vec<char> = Vec::new();
    let mut i: usize = 0;
    while i < n
        invariant
            i <= n,
            n == s@.len(),
            v@ == s@.take(i as int),
        decreases n - i,
    {
        v.push(s.get_char(i));
        i = i + 1;
        proof {
            assert(v@ =~= s@.take(i as int));
        }
    }
    proof {
        assert(v@ =~= s@);
    }
    v
}

/// A new string holding `v[lo..hi]`.
pub fn string_of_range(v: &Vec<char>, lo: usize, hi: usize) -> (s: String)
    requires
        lo <= hi <= v@.len(),
    ensures
        s@ == v@.subrange(lo as int, hi as int),
{
    let mut s = String::new();
    let mut i = lo;
    while i < hi
        invariant
            lo <= i <= hi <= v@.len(),
            s@ == v@.subrange(lo as int, i as int),
        decreases hi - i,
    {
        s.push(v[i]);
        i = i + 1;
        proof {
            assert(s@ =~= v@.subrange(lo as int, i as int));
        }
    }
    s
}

/// Past a common prefix, `lex_less` is decided by what follows it.
proof fn lemma_lex_less_skip(a: Seq<char>, b: Seq<char>, i: int)
    requires
        0 <= i <= a.len(),
        i <= b.len(),
        forall|j: int| 0 <= j < i ==> a[j] == b[j],
    ensures
        lex_less(a, b) == lex_less(a.skip(i), b.skip(i)),
    decreases i,
{
    if i > 0 {
        lemma_lex_less_skip(a.drop_first(), b.drop_first(), i - 1);
        assert(a.drop_first().skip(i - 1) =~= a.skip(i));
        assert(b.drop_first().skip(i - 1) =~= b.skip(i));
    } else {
        assert(a.skip(0) =~= a);
        assert(b.skip(0) =~= b);
    }
}

/// Whether `a` sorts before `b` (the `<` of `str`).
pub fn str_less(a: &str, b: &str) -> (less: bool)
    ensures
        less == lex_less(a@, b@),
{
    let va = chars_of(a);
    let vb = chars_of(b);
    let mut i: usize = 0;
    while i < va.len() && i < vb.len() && va[i] == vb[i]
        invariant
            i <= va@.len(),
            i <= vb@.len(),
            va@ == a@,
            vb@ == b@,
            forall|j: int| 0 <= j < i ==> va@[j] == vb@[j],
        decreases va@.len() - i,
    {
        i = i + 1;
    }
    proof {
        lemma_lex_less_skip(va@, vb@, i as int);
        reveal_with_fuel(lex_less, 2);
    }
    if i == va.len() {
        i < vb.len()
    } else if i == vb.len() {
        false
    } else {
        proof {
            assert(va@.skip(i as int)[0] == va@[i as int]);
            assert(vb@.skip(i as int)[0] == vb@[i as int]);
        }
        va[i] < vb[i]
    }
}

/// Whether the two strings hold the same characters.
pub fn str_equal(a: &str, b: &str) -> (eq: bool)
    ensures
        eq == (a@ == b@),
{
    let va = chars_of(a);
    let vb = chars_of(b);
    if va.len() != vb.len() {
        return false;
    }
    let mut i: usize = 0;
    while i < va.len()
        invariant
            i <= va@.len(),
            va@.len() == vb@.len(),
            va@ == a@,
            vb@ == b@,
            forall|j: int| 0 <= j < i ==> va@[j] == vb@[j],
        decreases va@.len() - i,
    {
        if va[i] != vb[i] {
            return false;
        }
        i = i + 1;
    }
    proof {
        assert(va@ =~= vb@);
    }
    true
}

/// `s` without leading and trailing white space (`str::trim`), as a new string.
pub fn trim_str(s: &str) -> (t: String)
    ensures
        t@ == trim(s@),
{
    let v = chars_of(s);
    let (a, b) = trim_range(&v, 0, v.len());
    proof {
        assert(v@.subrange(0, v@.len() as int) =~= v@);
    }
    string_of_range(&v, a, b)
}

} // verus!
