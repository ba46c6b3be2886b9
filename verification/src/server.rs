use vstd::prelude::*;
use crate::auth::{session_cookie_text, verify_password, build_session_cookie, clear_session_cookie};
use crate::text::{trim, trim_str, chars_of, string_of_range, str_equal};

verus! {

/// What a handler answers: a redirect (possibly setting a cookie), or an error page.
#[derive(Debug, PartialEq, Eq)]
pub enum Reply {
    /// `303 See Other` to `location`.
    Redirect { location: String },
    /// `303 See Other` to `location`, with a `Set-Cookie` header.
    RedirectWithCookie { location: String, set_cookie: String },
    /// `404 Not Found` with the HTML body `Note not found`.
    NoteNotFound,
    /// `500 Internal Server Error` with the HTML body `Server error`.
    ServerError,
}

impl Reply {
    /// A plain redirect to `target`.
    pub open spec fn is_redirect_to(self, target: Seq<char>) -> bool {
        self matches Reply::Redirect { location } && location@ == target
    }

    /// A redirect to `target` that sets the cookie `cookie`.
    pub open spec fn is_redirect_setting(self, target: Seq<char>, cookie: Seq<char>) -> bool {
        self matches Reply::RedirectWithCookie { location, set_cookie } && location@ == target
            && set_cookie@ == cookie
    }
}

/// The outcome of looking something up in the note store.
#[derive(Debug, PartialEq, Eq)]
pub enum Lookup<T> {
    Found(T),
    Missing,
    Failed,
}

/// Settings the handlers share.
pub struct AppState {
    /// The password that logs in.
    pub app_password: String,
    /// Whether session cookies carry `Secure`.
    pub cookie_secure: bool,
}

/// The password used when `JOTTS_PASSWORD` is not set.
pub open spec fn default_password() -> Seq<char> {
    "changeme"@
}

impl AppState {
    /// Settings from the values of `JOTTS_PASSWORD` and `COOKIE_SECURE` (`None` when unset):
    /// the password defaults to `changeme`, and cookies are `Secure` only when
    /// `COOKIE_SECURE` is exactly `true`.
    pub fn from_env_values(password: Option<String>, cookie_secure: Option<String>) -> (state:
        AppState)
        ensures
            state.app_password@ == (match password {
                Some(p) => p@,
                None => default_password(),
            }),
            state.cookie_secure == (match cookie_secure {
                Some(v) => v@ == "true"@,
                None => false,
            }),
    {
        let app_password = match password {
            Some(p) => p,
            None => "changeme".to_owned(),
        };
        let cookie_secure = match cookie_secure {
            Some(v) => str_equal(v.as_str(), "true"),
            None => false,
        };
        AppState { app_password, cookie_secure }
    }
}

/// The `error` message that a page shows, taken from its query string.
pub struct FlashQuery {
    pub error: Option<String>,
}

impl Default for FlashQuery {
    fn default() -> (q: Self)
        ensures
            q.error is None,
    {
        FlashQuery { error: None }
    }
}

/// A redirect to a fixed location.
fn redirect_to(location: &str) -> (reply: Reply)
    ensures
        reply.is_redirect_to(location@),
{
    Reply::Redirect { location: location.to_owned() }
}

/// First step of a login: `None` when the submitted password is accepted, otherwise the
/// redirect back to the login page with `Invalid password`.
pub fn login_rejection(password: &str, app_password: &str) -> (r: Option<Reply>)
    ensures
        r is None <==> password@ == app_password@,
        r matches Some(reply) ==> reply.is_redirect_to("/login?error=Invalid+password"@),
{
    if verify_password(password, app_password) {
        None
    } else {
        Some(redirect_to("/login?error=Invalid+password"))
    }
}

/// Last step of a login, once the store was asked to keep the new session: home with the
/// session cookie when it did, back to the login page with `Server error` when it did not.
pub fn login_completion(stored: bool, token: &str, cookie_secure: bool) -> (reply: Reply)
    ensures
        stored ==> reply.is_redirect_setting("/"@, session_cookie_text(token@, cookie_secure)),
        !stored ==> reply.is_redirect_to("/login?error=Server+error"@),
{
    if stored {
        Reply::RedirectWithCookie {
            location: "/".to_owned(),
            set_cookie: build_session_cookie(token, cookie_secure),
        }
    } else {
        redirect_to("/login?error=Server+error")
    }
}

/// The answer to a logout: to the login page, clearing the session cookie.
pub fn logout_reply() -> (reply: Reply)
    ensures
        reply.is_redirect_setting(
            "/login"@,
            "session=; HttpOnly; SameSite=Strict; Path=/; Max-Age=0"@,
        ),
{
    Reply::RedirectWithCookie { location: "/login".to_owned(), set_cookie: clear_session_cookie() }
}

/// The error page for a store lookup that did not find its note: `None` when it was found,
/// `Note not found` when it is missing, `Server error` when the store failed.
pub fn lookup_failure_reply<T>(lookup: &Lookup<T>) -> (r: Option<Reply>)
    ensures
        match lookup {
            Lookup::Found(_) => r is None,
            Lookup::Missing => r == Some(Reply::NoteNotFound),
            Lookup::Failed => r == Some(Reply::ServerError),
        },
{
    match lookup {
        Lookup::Found(_) => None,
        Lookup::Missing => Some(Reply::NoteNotFound),
        Lookup::Failed => Some(Reply::ServerError),
    }
}

/// The path of a note's page.
pub open spec fn note_path(short_id: Seq<char>) -> Seq<char> {
    "/notes/"@ + short_id
}

fn note_page(short_id: &str) -> (location: String)
    ensures
        location@ == note_path(short_id@),
{
    let mut location = "/notes/".to_owned();
    location.push_str(short_id);
    location
}

fn note_location(short_id: &str, suffix: &str) -> (location: String)
    ensures
        location@ == note_path(short_id@) + suffix@,
{
    let mut location = "/notes/".to_owned();
    location.push_str(short_id);
    location.push_str(suffix);
    location
}

/// The title a new note is created with: the submitted title trimmed, or, when nothing is
/// left of it, the redirect back to the form with `Title is required`.
pub fn create_note_title(title: &str) -> (r: Result<String, Reply>)
    ensures
        match r {
            Ok(t) => t@ == trim(title@) && t@.len() > 0,
            Err(reply) => trim(title@).len() == 0 && reply.is_redirect_to(
                "/notes/new?error=Title+is+required"@,
            ),
        },
{
    let t = trim_str(title);
    if t.unicode_len() == 0 {
        Err(redirect_to("/notes/new?error=Title+is+required"))
    } else {
        Ok(t)
    }
}

/// The answer once the store was asked to create a note: its page when it gave back the
/// new note's short id, the form with `Failed to create note` otherwise.
pub fn create_note_reply(created: Option<&str>) -> (reply: Reply)
    ensures
        reply.is_redirect_to(
            match created {
                Some(id) => note_path(id@),
                None => "/notes/new?error=Failed+to+create+note"@,
            },
        ),
{
    match created {
        Some(id) => Reply::Redirect { location: note_page(id) },
        None => redirect_to("/notes/new?error=Failed+to+create+note"),
    }
}

/// The title a note is updated with: the submitted title trimmed, or, when nothing is left
/// of it, the redirect back to the note's edit form with `Title is required`.
pub fn update_note_title(short_id: &str, title: &str) -> (r: Result<String, Reply>)
    ensures
        match r {
            Ok(t) => t@ == trim(title@) && t@.len() > 0,
            Err(reply) => trim(title@).len() == 0 && reply.is_redirect_to(
                note_path(short_id@) + "/edit?error=Title+is+required"@,
            ),
        },
{
    let t = trim_str(title);
    if t.unicode_len() == 0 {
        Err(Reply::Redirect { location: note_location(short_id, "/edit?error=Title+is+required") })
    } else {
        Ok(t)
    }
}

/// The answer once the store was asked to update a note: its page when it was updated,
/// `Note not found` when there is no such note, its edit form with `Failed to update note`
/// when the store failed.
pub fn update_note_reply(short_id: &str, updated: &Lookup<()>) -> (reply: Reply)
    ensures
        match updated {
            Lookup::Found(_) => reply.is_redirect_to(note_path(short_id@)),
            Lookup::Missing => reply == Reply::NoteNotFound,
            Lookup::Failed => reply.is_redirect_to(
                note_path(short_id@) + "/edit?error=Failed+to+update+note"@,
            ),
        },
{
    match updated {
        Lookup::Found(_) => Reply::Redirect { location: note_page(short_id) },
        Lookup::Missing => Reply::NoteNotFound,
        Lookup::Failed => Reply::Redirect {
            location: note_location(short_id, "/edit?error=Failed+to+update+note"),
        },
    }
}

/// The answer once the store was asked to delete a note: home, whether or not it did.
pub fn delete_note_reply(_deleted: bool) -> (reply: Reply)
    ensures
        reply.is_redirect_to("/"@),
{
    redirect_to("/")
}

/// The part of a path after its last `.` (all of it when it has none).
pub open spec fn path_extension(path: Seq<char>) -> Seq<char>
    decreases path.len(),
{
    if path.len() == 0 {
        path
    } else if path.last() == '.' {
        Seq::empty()
    } else {
        path_extension(path.drop_last()).push(path.last())
    }
}

/// The content type served for a file extension.
pub open spec fn mime_for_extension(ext: Seq<char>) -> Seq<char> {
    if ext == "css"@ {
        "text/css"@
    } else if ext == "js"@ {
        "application/javascript"@
    } else if ext == "html"@ {
        "text/html"@
    } else if ext == "png"@ {
        "image/png"@
    } else if ext == "ico"@ {
        "image/x-icon"@
    } else if ext == "svg"@ {
        "image/svg+xml"@
    } else if ext == "woff"@ || ext == "woff2"@ {
        "font/woff2"@
    } else if ext == "ttf"@ {
        "font/ttf"@
    } else if ext == "otf"@ {
        "font/otf"@
    } else if ext == "json"@ || ext == "webmanifest"@ {
        "application/json"@
    } else {
        "application/octet-stream"@
    }
}

/// `path_extension` is what follows position `k`, when `k` follows the last `.`.
proof fn lemma_path_extension(v: Seq<char>, k: int)
    requires
        0 <= k <= v.len(),
        forall|j: int| k <= j < v.len() ==> v[j] != '.',
        k == 0 || v[k - 1] == '.',
    ensures
        path_extension(v) == v.subrange(k, v.len() as int),
    decreases v.len(),
{
    if v.len() > 0 {
        if k == v.len() {
            if k > 0 {
                assert(v.last() == '.');
            }
        } else {
            lemma_path_extension(v.drop_last(), k);
            assert(v.drop_last().subrange(k, v.len() - 1).push(v.last()) =~= v.subrange(
                k,
                v.len() as int,
            ));
        }
    } else {
        assert(v.subrange(0, 0) =~= v);
    }
}

/// The content type of a static file, from the extension of its path.
pub fn mime_from_path(path: &str) -> (mime: &'static str)
    ensures
        mime@ == mime_for_extension(path_extension(path@)),
{
    let v = chars_of(path);
    let mut k = v.len();
    while k > 0 && v[k - 1] != '.'
        invariant
            k <= v@.len(),
            forall|j: int| k <= j < v@.len() ==> v@[j] != '.',
        decreases k,
    {
        k = k - 1;
    }
    proof {
        lemma_path_extension(v@, k as int);
    }
    let ext = string_of_range(&v, k, v.len());
    let e = ext.as_str();
    if str_equal(e, "css") {
        "text/css"
    } else if str_equal(e, "js") {
        "application/javascript"
    } else if str_equal(e, "html") {
        "text/html"
    } else if str_equal(e, "png") {
        "image/png"
    } else if str_equal(e, "ico") {
        "image/x-icon"
    } else if str_equal(e, "svg") {
        "image/svg+xml"
    } else if str_equal(e, "woff") || str_equal(e, "woff2") {
        "font/woff2"
    } else if str_equal(e, "ttf") {
        "font/ttf"
    } else if str_equal(e, "otf") {
        "font/otf"
    } else if str_equal(e, "json") || str_equal(e, "webmanifest") {
        "application/json"
    } else {
        "application/octet-stream"
    }
}

/// HTML that `pulldown_cmark::html::push_html` writes for `markdown` parsed with the
/// `pulldown_cmark::Options` whose bits are `option_bits`.
pub uninterp spec fn commonmark_html(markdown: Seq<char>, option_bits: u32) -> Seq<char>;

/// `pulldown_cmark::html::push_html`, given a `pulldown_cmark::Parser::new_ext` over
/// `markdown` with `Options::from_bits_truncate(option_bits)`: it appends the HTML of the
/// document to `out`, which the contract names `commonmark_html` and does not spell out.
#[verifier::external_body]
fn push_markdown_html(out: &mut String, markdown: &str, option_bits: u32)
    ensures
        final(out)@ == old(out)@ + commonmark_html(markdown@, option_bits),
{
    let options = pulldown_cmark::Options::from_bits_truncate(option_bits);
    pulldown_cmark::html::push_html(out, pulldown_cmark::Parser::new_ext(markdown, options));
}

/// `pulldown_cmark::Options::ENABLE_TABLES`.
pub const ENABLE_TABLES: u32 = 2;

/// `pulldown_cmark::Options::ENABLE_STRIKETHROUGH`.
pub const ENABLE_STRIKETHROUGH: u32 = 8;

/// `pulldown_cmark::Options::ENABLE_TASKLISTS`.
pub const ENABLE_TASKLISTS: u32 = 16;

/// The Markdown extensions notes are rendered with: strikethrough, tables and task lists.
pub open spec fn note_markdown_options() -> u32 {
    ENABLE_STRIKETHROUGH | ENABLE_TABLES | ENABLE_TASKLISTS
}

/// Renders a note's Markdown to HTML, with strikethrough, tables and task lists.
pub fn render_markdown(content: &str) -> (html: String)
    ensures
        html@ == commonmark_html(content@, note_markdown_options()),
        html@ == commonmark_html(content@, 26),
{
    let mut html = String::new();
    push_markdown_html(&mut html, content, ENABLE_STRIKETHROUGH | ENABLE_TABLES | ENABLE_TASKLISTS);
    proof {
        assert(html@ =~= commonmark_html(content@, note_markdown_options()));
        lemma_note_markdown_options();
    }
    html
}

/// Notes are rendered with exactly three pulldown-cmark extensions: strikethrough (bit 8),
/// tables (bit 2) and task lists (bit 16), and no other (such as subscript, bit 16384).
pub proof fn lemma_note_markdown_options()
    ensures
        note_markdown_options() == 26,
        note_markdown_options() & 16384 == 0,
{
    assert(8u32 | 2u32 | 16u32 == 26u32) by (bit_vector);
    assert(26u32 & 16384u32 == 0u32) by (bit_vector);
}

/// A note's page is `/notes/` followed by its short id, for every short id: the location that
/// creating or updating a note redirects to.
pub proof fn lemma_note_path(short_id: Seq<char>)
    ensures
        note_path(short_id).len() == 7 + short_id.len(),
        note_path(short_id).take(7) == seq!['/', 'n', 'o', 't', 'e', 's', '/'],
        note_path(short_id).skip(7) == short_id,
{
    reveal_strlit("/notes/");
    assert(note_path(short_id).take(7) =~= seq!['/', 'n', 'o', 't', 'e', 's', '/']);
    assert(note_path(short_id).skip(7) =~= short_id);
}

} // verus!
