use vstd::prelude::*;
use vstd::utf8::encode_utf8_decode_utf8;
use crate::datetime::{format_timestamp, timestamp_text, year_10000_start, lemma_timestamp_text_order};
use crate::server::{Reply, Lookup};
use crate::text::{
    decimal,
    trim, find_char, lemma_find_char, lemma_find_char_bounds, trim_range, chars_of,
    string_of_range, lex_less, str_less, is_whitespace,
};

verus! {

/// The name part `session=` of the session cookie.
pub open spec fn session_prefix() -> Seq<char> {
    seq!['s', 'e', 's', 's', 'i', 'o', 'n', '=']
}

/// The session token that one `;`-separated part of a `Cookie` header carries: the part,
/// trimmed, must start with `session=`, and the rest, trimmed, must not be empty.
pub open spec fn session_value_of(part: Seq<char>) -> Option<Seq<char>> {
    let t = trim(part);
    if t.len() >= 8 && t.take(8) == session_prefix() && trim(t.skip(8)).len() > 0 {
        Some(trim(t.skip(8)))
    } else {
        None
    }
}

/// The session tokens of a `Cookie` header, in order: one for each `;`-separated part that
/// carries one.
pub open spec fn session_values(header: Seq<char>) -> Seq<Seq<char>>
    decreases header.len(),
{
    let i = find_char(header, ';');
    let rest = if i < header.len() {
        proof {
            lemma_find_char_bounds(header, ';');
        }
        session_values(header.skip(i + 1))
    } else {
        Seq::empty()
    };
    match session_value_of(header.take(i)) {
        Some(v) => seq![v] + rest,
        None => rest,
    }
}

/// The session token of `v[lo..hi]`, one part of a `Cookie` header, as the bounds of its
/// characters.
fn part_session_value(v: &Vec<char>, lo: usize, hi: usize) -> (r: Option<(usize, usize)>)
    requires
        lo <= hi <= v@.len(),
    ensures
        match r {
            Some((a, b)) => a <= b <= v@.len() && session_value_of(v@.subrange(lo as int, hi as int))
                == Some(v@.subrange(a as int, b as int)),
            None => session_value_of(v@.subrange(lo as int, hi as int)) is None,
        },
{
    let (a, b) = trim_range(v, lo, hi);
    let ghost t = v@.subrange(a as int, b as int);
    if b - a >= 8 && v[a] == 's' && v[a + 1] == 'e' && v[a + 2] == 's' && v[a + 3] == 's' && v[a
        + 4] == 'i' && v[a + 5] == 'o' && v[a + 6] == 'n' && v[a + 7] == '=' {
        proof {
            assert(t.take(8) =~= session_prefix());
            assert(t.skip(8) =~= v@.subrange(a + 8, b as int));
        }
        let (c, d) = trim_range(v, a + 8, b);
        if c < d {
            Some((c, d))
        } else {
            None
        }
    } else {
        proof {
            if t.len() >= 8 && t.take(8) == session_prefix() {
                assert(t.take(8)[0] == v@[a as int]);
                assert(t.take(8)[1] == v@[a + 1]);
                assert(t.take(8)[2] == v@[a + 2]);
                assert(t.take(8)[3] == v@[a + 3]);
                assert(t.take(8)[4] == v@[a + 4]);
                assert(t.take(8)[5] == v@[a + 5]);
                assert(t.take(8)[6] == v@[a + 6]);
                assert(t.take(8)[7] == v@[a + 7]);
            }
        }
        None
    }
}

/// The session tokens of a `Cookie` header, in order (the sessions a logout ends).
pub fn session_cookie_values(header: &str) -> (tokens: Vec<String>)
    ensures
        tokens@.map_values(|t: String| t@) == session_values(header@),
{
    let v = chars_of(header);
    let n = v.len();
    let mut tokens: Vec<String> = Vec::new();
    let mut pos: usize = 0;
    proof {
        assert(v@.skip(0) =~= v@);
        assert(tokens@.map_values(|t: String| t@) =~= Seq::<Seq<char>>::empty());
    }
    loop
        invariant
            n == v@.len(),
            v@ == header@,
            pos <= n,
            session_values(header@) == tokens@.map_values(|t: String| t@) + session_values(
                v@.skip(pos as int),
            ),
        decreases n - pos,
    {
        let ghost rest = v@.skip(pos as int);
        let mut i = pos;
        while i < n && v[i] != ';'
            invariant
                pos <= i <= n,
                n == v@.len(),
                forall|j: int| pos <= j < i ==> v@[j] != ';',
            decreases n - i,
        {
            i = i + 1;
        }
        proof {
            lemma_find_char(rest, ';', i - pos);
            assert(rest.take(i - pos) =~= v@.subrange(pos as int, i as int));
        }
        let found = part_session_value(&v, pos, i);
        let ghost before = tokens@.map_values(|t: String| t@);
        match found {
            Some((a, b)) => {
                let token = string_of_range(&v, a, b);
                tokens.push(token);
                proof {
                    assert(tokens@.map_values(|t: String| t@) =~= before.push(
                        v@.subrange(a as int, b as int),
                    ));
                }
            },
            None => {},
        }
        if i == n {
            proof {
                assert(tokens@.map_values(|t: String| t@) =~= session_values(header@));
            }
            return tokens;
        }
        proof {
            assert(rest.skip(i - pos + 1) =~= v@.skip(i + 1));
        }
        pos = i + 1;
    }
}

/// The first session token of a `Cookie` header, if any.
pub open spec fn first_session_value(header: Seq<char>) -> Option<Seq<char>> {
    if session_values(header).len() > 0 {
        Some(session_values(header)[0])
    } else {
        None
    }
}

/// The session token that a request's `Cookie` header (absent, or not visible ASCII: `None`)
/// carries: the first `;`-separated part that, trimmed, starts with `session=` and has a
/// non-empty trimmed value.
pub fn extract_session_cookie(cookie_header: Option<&str>) -> (token: Option<String>)
    ensures
        match cookie_header {
            None => token is None,
            Some(h) => match token {
                Some(t) => session_values(h@).len() > 0 && t@ == session_values(h@)[0],
                None => session_values(h@).len() == 0,
            },
        },
{
    match cookie_header {
        None => None,
        Some(h) => {
            let tokens = session_cookie_values(h);
            proof {
                assert(tokens@.map_values(|t: String| t@).len() == tokens@.len());
            }
            if tokens.len() == 0 {
                None
            } else {
                let first = tokens[0].clone();
                proof {
                    assert(tokens@.map_values(|t: String| t@)[0] == first@);
                }
                Some(first)
            }
        },
    }
}

/// `subtle::ConstantTimeEq::ct_eq` on byte slices, turned into a `bool` by
/// `From<subtle::Choice> for bool`: true exactly when the slices have the same length and
/// the same bytes.
#[verifier::external_body]
fn ct_eq_bytes(a: &[u8], b: &[u8]) -> (eq: bool)
    ensures
        eq == (a@ == b@),
{
    subtle::ConstantTimeEq::ct_eq(a, b).into()
}

/// `BitAnd` of two `subtle::Choice` values made from the two booleans by `From<u8>`, turned
/// back into a `bool`: the conjunction, computed without branching on the inputs.
#[verifier::external_body]
fn ct_and(a: bool, b: bool) -> (both: bool)
    ensures
        both == (a && b),
{
    (subtle::Choice::from(a as u8) & subtle::Choice::from(b as u8)).into()
}

/// Compares a submitted password with the expected one without branching on their bytes:
/// true exactly when they are the same string.
pub fn verify_password(input: &str, expected: &str) -> (ok: bool)
    ensures
        ok == (input@ == expected@),
{
    let ib = input.as_bytes();
    let eb = expected.as_bytes();
    let lengths_match = ib.len() == eb.len();
    let bytes_match = ct_eq_bytes(ib, eb);
    proof {
        if ib@ == eb@ {
            encode_utf8_decode_utf8(input@);
            encode_utf8_decode_utf8(expected@);
        }
    }
    ct_and(lengths_match, bytes_match)
}

/// `rand::RngCore::try_fill_bytes` of `rand::rngs::OsRng` on the buffer: true when the
/// operating system's generator filled it. What the bytes are is left unsaid: they come from
/// the operating system. The buffer keeps its length.
#[verifier::external_body]
fn fill_os_random(buf: &mut Vec<u8>) -> (filled: bool)
    ensures
        final(buf)@.len() == old(buf)@.len(),
{
    rand::RngCore::try_fill_bytes(&mut rand::rngs::OsRng, buf.as_mut_slice()).is_ok()
}

/// Lower-case hexadecimal digit of a value below 16.
pub open spec fn hex_digit(n: int) -> char {
    if n < 10 {
        (48 + n) as char
    } else {
        (87 + n) as char
    }
}

/// Lower-case hexadecimal notation of bytes, two digits per byte.
pub open spec fn hex_lower(bytes: Seq<u8>) -> Seq<char>
    decreases bytes.len(),
{
    if bytes.len() == 0 {
        Seq::empty()
    } else {
        hex_lower(bytes.drop_last()) + seq![
            hex_digit(bytes.last() as int / 16),
            hex_digit(bytes.last() as int % 16),
        ]
    }
}

fn hex_digit_char(n: u8) -> (c: char)
    requires
        n < 16,
    ensures
        c == hex_digit(n as int),
{
    if n < 10 {
        (48 + n) as char
    } else {
        (87 + n) as char
    }
}

/// Lower-case hexadecimal notation of `bytes` (`{:02x}` for each byte).
pub fn hex_encode(bytes: &[u8]) -> (text: String)
    ensures
        text@ == hex_lower(bytes@),
{
    let mut text = String::new();
    let mut i: usize = 0;
    while i < bytes.len()
        invariant
            i <= bytes@.len(),
            text@ == hex_lower(bytes@.take(i as int)),
        decreases bytes@.len() - i,
    {
        let b = bytes[i];
        text.push(hex_digit_char(b / 16));
        text.push(hex_digit_char(b % 16));
        proof {
            assert(bytes@.take(i + 1).drop_last() =~= bytes@.take(i as int));
            assert(text@ =~= hex_lower(bytes@.take(i + 1)));
        }
        i = i + 1;
    }
    proof {
        assert(bytes@.take(bytes@.len() as int) =~= bytes@);
    }
    text
}

/// Number of random bytes in a session token.
pub const SESSION_TOKEN_BYTES: usize = 32;

/// A fresh session token: 32 bytes from the operating system's random generator, in
/// lower-case hexadecimal. `None` when the operating system could not provide them.
pub fn generate_session_token() -> (token: Option<String>)
    ensures
        token matches Some(t) ==> exists|bytes: Seq<u8>|
            bytes.len() == SESSION_TOKEN_BYTES && t@ == hex_lower(bytes),
{
    let mut bytes: Vec<u8> = Vec::new();
    while bytes.len() < SESSION_TOKEN_BYTES
        invariant
            bytes@.len() <= SESSION_TOKEN_BYTES,
        decreases SESSION_TOKEN_BYTES - bytes@.len(),
    {
        bytes.push(0u8);
    }
    if fill_os_random(&mut bytes) {
        let token = hex_encode(bytes.as_slice());
        Some(token)
    } else {
        None
    }
}

/// Lifetime of a session, in seconds (seven days).
pub const SESSION_LIFETIME_SECS: u64 = 604800;

/// The `Set-Cookie` value that hands `token` to the browser.
pub open spec fn session_cookie_text(token: Seq<char>, secure: bool) -> Seq<char> {
    "session="@ + token + "; HttpOnly; SameSite=Strict; Path=/; Max-Age=604800"@ + (if secure {
        "; Secure"@
    } else {
        Seq::empty()
    })
}

/// The `Set-Cookie` value for a new session: `session=<token>` with `HttpOnly`,
/// `SameSite=Strict`, `Path=/` and a `Max-Age` of seven days, and `Secure` when asked for.
pub fn build_session_cookie(token: &str, secure: bool) -> (cookie: String)
    ensures
        cookie@ == session_cookie_text(token@, secure),
{
    let mut cookie = String::new();
    cookie.push_str("session=");
    cookie.push_str(token);
    cookie.push_str("; HttpOnly; SameSite=Strict; Path=/; Max-Age=604800");
    if secure {
        cookie.push_str("; Secure");
    }
    proof {
        assert(cookie@ =~= session_cookie_text(token@, secure));
    }
    cookie
}

/// The `Set-Cookie` value that removes the session cookie: an empty value with a `Max-Age`
/// of zero.
pub fn clear_session_cookie() -> (cookie: String)
    ensures
        cookie@ == "session=; HttpOnly; SameSite=Strict; Path=/; Max-Age=0"@,
{
    "session=; HttpOnly; SameSite=Strict; Path=/; Max-Age=0".to_owned()
}

/// When a session created at `now_secs` expires, as stored beside it: the timestamp text of
/// `now_secs` plus seven days.
pub fn session_expiry(now_secs: u64) -> (expires_at: String)
    requires
        now_secs <= u64::MAX - SESSION_LIFETIME_SECS,
    ensures
        expires_at@ == timestamp_text((now_secs + SESSION_LIFETIME_SECS) as nat),
{
    format_timestamp(now_secs + SESSION_LIFETIME_SECS)
}

/// Whether the session whose expiry the store gave back is still live at `now_secs`: only
/// when the lookup found an expiry text that sorts after the timestamp text of now.
pub fn is_valid_session(expires_at: &Lookup<String>, now_secs: u64) -> (valid: bool)
    ensures
        valid == (match expires_at {
            Lookup::Found(e) => lex_less(timestamp_text(now_secs as nat), e@),
            _ => false,
        }),
{
    match expires_at {
        Lookup::Found(e) => {
            let now = format_timestamp(now_secs);
            str_less(now.as_str(), e.as_str())
        },
        _ => false,
    }
}

/// A session stays live for exactly seven days: checked at `now_secs`, the expiry stored for
/// a login at `login_secs` is later than now exactly when less than seven days have passed
/// (for instants before year 10000, where the timestamp texts have four-digit years).
pub proof fn lemma_session_lifetime(login_secs: nat, now_secs: nat)
    requires
        login_secs + SESSION_LIFETIME_SECS < year_10000_start(),
        now_secs < year_10000_start(),
    ensures
        lex_less(timestamp_text(now_secs), timestamp_text((login_secs + SESSION_LIFETIME_SECS) as nat))
            <==> now_secs < login_secs + SESSION_LIFETIME_SECS,
{
    lemma_timestamp_text_order(now_secs, (login_secs + SESSION_LIFETIME_SECS) as nat);
}

/// Proof that a request carries a live session.
pub struct AuthSession;

/// Admits a request when its session token (if it had one) maps to an expiry that is still
/// live at `now_secs`; otherwise redirects to `/login`.
pub fn authorize(expires_at: Option<&Lookup<String>>, now_secs: u64) -> (r: Result<
    AuthSession,
    Reply,
>)
    ensures
        r is Ok <==> (match expires_at {
            Some(l) => match l {
                Lookup::Found(e) => lex_less(timestamp_text(now_secs as nat), e@),
                _ => false,
            },
            None => false,
        }),
        r matches Err(reply) ==> reply.is_redirect_to("/login"@),
{
    if let Some(l) = expires_at {
        if is_valid_session(l, now_secs) {
            return Ok(AuthSession);
        }
    }
    Err(Reply::Redirect { location: "/login".to_owned() })
}

/// A token without white space or `;`, sent back as `session=<token>`, is read back unchanged.
pub proof fn lemma_session_cookie_round_trip(token: Seq<char>)
    requires
        token.len() > 0,
        forall|i: int| 0 <= i < token.len() ==> !is_whitespace(#[trigger] token[i]) && token[i]
            != ';',
    ensures
        session_values(session_prefix() + token) == seq![token],
        first_session_value(session_prefix() + token) == Some(token),
{
    let h = session_prefix() + token;
    let n = h.len() as int;
    assert forall|j: int| 0 <= j < n implies h[j] != ';' by {
        if j >= 8 {
            assert(h[j] == token[j - 8]);
        }
    }
    lemma_find_char(h, ';', n);
    assert(h.take(n) =~= h);
    assert(h.subrange(0, n) =~= h);
    crate::text::lemma_trim_start_run(h, 0, 0, n);
    crate::text::lemma_trim_end_run(h, 0, n, n);
    assert(h[n - 1] == token[token.len() - 1]);
    assert(trim(h) == h);
    assert(h.take(8) =~= session_prefix());
    assert(h.skip(8) =~= token);
    assert(token.subrange(0, token.len() as int) =~= token);
    crate::text::lemma_trim_start_run(token, 0, 0, token.len() as int);
    crate::text::lemma_trim_end_run(token, 0, token.len() as int, token.len() as int);
    assert(session_values(h) =~= seq![token]);
}

/// Hexadecimal notation has two characters per byte, none of them white space or `;`.
pub proof fn lemma_hex_lower_chars(bytes: Seq<u8>)
    ensures
        hex_lower(bytes).len() == 2 * bytes.len(),
        forall|i: int|
            0 <= i < hex_lower(bytes).len() ==> !is_whitespace(#[trigger] hex_lower(bytes)[i])
                && hex_lower(bytes)[i] != ';',
    decreases bytes.len(),
{
    if bytes.len() > 0 {
        lemma_hex_lower_chars(bytes.drop_last());
        let hi = bytes.last() as int / 16;
        let lo = bytes.last() as int % 16;
        assert(hex_digit(hi) as u32 == (if hi < 10 { 48 + hi } else { 87 + hi }));
        assert(hex_digit(lo) as u32 == (if lo < 10 { 48 + lo } else { 87 + lo }));
        let prev = hex_lower(bytes.drop_last());
        assert forall|i: int| 0 <= i < hex_lower(bytes).len() implies !is_whitespace(
            #[trigger] hex_lower(bytes)[i],
        ) && hex_lower(bytes)[i] != ';' by {
            if i < prev.len() {
                assert(hex_lower(bytes)[i] == prev[i]);
            }
        }
    }
}

/// A generated session token, once the browser sends it back in its `Cookie` header, is read
/// back unchanged.
pub proof fn lemma_generated_token_round_trip(bytes: Seq<u8>)
    requires
        bytes.len() == SESSION_TOKEN_BYTES,
    ensures
        first_session_value(session_prefix() + hex_lower(bytes)) == Some(hex_lower(bytes)),
{
    lemma_hex_lower_chars(bytes);
    lemma_session_cookie_round_trip(hex_lower(bytes));
}

/// The name-value pair of the session cookie (its text before the first `;`, which a browser
/// sends back in its `Cookie` header) is `session=<token>`, for a token without `;`.
pub proof fn lemma_session_cookie_pair(token: Seq<char>, secure: bool)
    requires
        forall|i: int| 0 <= i < token.len() ==> #[trigger] token[i] != ';',
    ensures
        ({
            let c = session_cookie_text(token, secure);
            c.take(find_char(c, ';')) == session_prefix() + token
        }),
{
    reveal_strlit("session=");
    reveal_strlit("; HttpOnly; SameSite=Strict; Path=/; Max-Age=604800");
    let c = session_cookie_text(token, secure);
    let k: int = 8 + token.len() as int;
    assert forall|j: int| 0 <= j < k implies c[j] != ';' by {
        if j >= 8 {
            assert(c[j] == token[j - 8]);
        }
    }
    assert(c[k] == ';');
    lemma_find_char(c, ';', k);
    assert(c.take(k) =~= session_prefix() + token);
}

/// The cookie that logout sets has the name-value pair `session=`, which carries no session.
pub proof fn lemma_cleared_cookie_pair()
    ensures
        ({
            let c = "session=; HttpOnly; SameSite=Strict; Path=/; Max-Age=0"@;
            &&& c.take(find_char(c, ';')) == session_prefix()
            &&& session_values(session_prefix()).len() == 0
        }),
{
    reveal_strlit("session=; HttpOnly; SameSite=Strict; Path=/; Max-Age=0");
    let c = "session=; HttpOnly; SameSite=Strict; Path=/; Max-Age=0"@;
    assert forall|j: int| 0 <= j < 8 implies c[j] != ';' by {}
    lemma_find_char(c, ';', 8);
    assert(c.take(8) =~= session_prefix());
    let p = session_prefix();
    assert forall|j: int| 0 <= j < 8 implies p[j] != ';' by {}
    lemma_find_char(p, ';', 8);
    assert(p.take(8) =~= p);
    assert(p.subrange(0, 8) =~= p);
    crate::text::lemma_trim_start_run(p, 0, 0, 8);
    crate::text::lemma_trim_end_run(p, 0, 8, 8);
    assert(p.skip(8) =~= Seq::<char>::empty());
    assert(trim(Seq::<char>::empty()) == Seq::<char>::empty());
}

/// Splitting a `Cookie` header at one of its `;`: its session tokens are those of the text
/// before it followed by those of the text after it.
pub proof fn lemma_session_values_split(p: Seq<char>, q: Seq<char>)
    ensures
        session_values(p + seq![';'] + q) == session_values(p) + session_values(q),
    decreases p.len(),
{
    let h = p + seq![';'] + q;
    lemma_find_char_bounds(p, ';');
    let i = find_char(p, ';');
    assert forall|j: int| 0 <= j < i implies h[j] != ';' by {
        assert(h[j] == p[j]);
    }
    if i == p.len() {
        lemma_find_char(h, ';', i);
        assert(h.take(i) =~= p);
        assert(h.skip(i + 1) =~= q);
        assert(p.take(i) =~= p);
        assert(session_values(p) =~= match session_value_of(p) {
            Some(v) => seq![v],
            None => Seq::<Seq<char>>::empty(),
        });
    } else {
        assert(h[i] == ';');
        lemma_find_char(h, ';', i);
        assert(h.take(i) =~= p.take(i));
        let p2 = p.skip(i + 1);
        assert(h.skip(i + 1) =~= p2 + seq![';'] + q);
        lemma_session_values_split(p2, q);
        match session_value_of(p.take(i)) {
            Some(v) => {
                assert(session_values(h) =~= seq![v] + (session_values(p2) + session_values(q)));
                assert(session_values(p) =~= seq![v] + session_values(p2));
            },
            None => {},
        }
    }
}

/// The part ` session=<token>` (a space, the cookie name and a token without white space or
/// `;`) carries exactly that token.
proof fn lemma_spaced_session_part(token: Seq<char>)
    requires
        token.len() > 0,
        forall|i: int| 0 <= i < token.len() ==> !is_whitespace(#[trigger] token[i]) && token[i]
            != ';',
    ensures
        session_values(seq![' '] + session_prefix() + token) == seq![token],
{
    let q = seq![' '] + session_prefix() + token;
    let n = q.len() as int;
    assert forall|j: int| 0 <= j < n implies q[j] != ';' by {
        if j >= 9 {
            assert(q[j] == token[j - 9]);
        }
    }
    lemma_find_char(q, ';', n);
    assert(q.take(n) =~= q);
    assert(q.subrange(0, n) =~= q);
    crate::text::lemma_trim_start_run(q, 0, 1, n);
    assert(q[n - 1] == token[token.len() - 1]);
    crate::text::lemma_trim_end_run(q, 1, n, n);
    let t = q.subrange(1, n);
    assert(trim(q) == t);
    assert(t.take(8) =~= session_prefix());
    assert(t.skip(8) =~= token);
    assert(token.subrange(0, token.len() as int) =~= token);
    crate::text::lemma_trim_start_run(token, 0, 0, token.len() as int);
    crate::text::lemma_trim_end_run(token, 0, token.len() as int, token.len() as int);
    assert(session_values(q) =~= seq![token]);
}

/// A session cookie after other cookies that carry no session is read, whatever the lengths:
/// for a header `<others>; session=<token>` followed by nothing or by `;<rest>`, the token read
/// is `<token>`, and the tokens a logout ends are `<token>` and those of `<rest>`.
pub proof fn lemma_session_after_other_cookies(others: Seq<char>, token: Seq<char>, rest: Seq<char>)
    requires
        session_values(others).len() == 0,
        token.len() > 0,
        forall|i: int| 0 <= i < token.len() ==> !is_whitespace(#[trigger] token[i]) && token[i]
            != ';',
    ensures
        ({
            let h = others + seq![';', ' ', 's', 'e', 's', 's', 'i', 'o', 'n', '='] + token;
            &&& session_values(h) == seq![token]
            &&& first_session_value(h) == Some(token)
            &&& session_values(h + seq![';'] + rest) == seq![token] + session_values(rest)
            &&& first_session_value(h + seq![';'] + rest) == Some(token)
        }),
{
    let q = seq![' '] + session_prefix() + token;
    let h = others + seq![';', ' ', 's', 'e', 's', 's', 'i', 'o', 'n', '='] + token;
    lemma_spaced_session_part(token);
    assert(h =~= others + seq![';'] + q);
    lemma_session_values_split(others, q);
    assert(session_values(h) =~= seq![token]);
    assert(h + seq![';'] + rest =~= others + seq![';'] + (q + seq![';'] + rest));
    lemma_session_values_split(q, rest);
    lemma_session_values_split(others, q + seq![';'] + rest);
    assert(session_values(h + seq![';'] + rest) =~= seq![token] + session_values(rest));
}

/// The session cookie is `session=`, then the token, then attributes that do not depend on the
/// token: `HttpOnly`, `SameSite=Strict`, `Path=/` and a `Max-Age` equal to the session
/// lifetime in seconds, then `Secure` exactly when asked for.
pub proof fn lemma_session_cookie_shape(token: Seq<char>, secure: bool)
    ensures
        ({
            let c = session_cookie_text(token, secure);
            let attributes = "; HttpOnly; SameSite=Strict; Path=/; Max-Age="@ + decimal(
                SESSION_LIFETIME_SECS as nat,
            ) + (if secure {
                "; Secure"@
            } else {
                Seq::empty()
            });
            &&& c.take(8) == seq!['s', 'e', 's', 's', 'i', 'o', 'n', '=']
            &&& c.subrange(8, 8 + token.len() as int) == token
            &&& c.skip(8 + token.len() as int) == attributes
        }),
{
    reveal_strlit("session=");
    reveal_strlit("; HttpOnly; SameSite=Strict; Path=/; Max-Age=604800");
    reveal_strlit("; HttpOnly; SameSite=Strict; Path=/; Max-Age=");
    reveal_with_fuel(decimal, 7);
    assert(((48 + 6) as char) == '6');
    assert(((48 + 0) as char) == '0');
    assert(((48 + 4) as char) == '4');
    assert(((48 + 8) as char) == '8');
    assert(decimal(604800) =~= seq!['6', '0', '4', '8', '0', '0']);
    assert("; HttpOnly; SameSite=Strict; Path=/; Max-Age=604800"@ =~= "; HttpOnly; SameSite=Strict; Path=/; Max-Age="@
        + decimal(604800));
    let c = session_cookie_text(token, secure);
    assert(c.take(8) =~= seq!['s', 'e', 's', 's', 'i', 'o', 'n', '=']);
    assert(c.subrange(8, 8 + token.len() as int) =~= token);
    assert(c.skip(8 + token.len() as int) =~= "; HttpOnly; SameSite=Strict; Path=/; Max-Age="@ + decimal(
        SESSION_LIFETIME_SECS as nat,
    ) + (if secure {
        "; Secure"@
    } else {
        Seq::empty()
    }));
}

} // verus!
