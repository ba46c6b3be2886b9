use jotts::server::{
    create_note_reply, create_note_title, delete_note_reply, login_completion, login_rejection,
    logout_reply, lookup_failure_reply, mime_from_path, render_markdown, update_note_reply,
    update_note_title, AppState, FlashQuery, Lookup, Reply,
};

fn redirect(location: &str) -> Reply {
    Reply::Redirect { location: location.to_string() }
}

#[test]
fn content_types_by_extension() {
    assert_eq!(mime_from_path("styles.css"), "text/css");
    assert_eq!(mime_from_path("app.min.js"), "application/javascript");
    assert_eq!(mime_from_path("index.html"), "text/html");
    assert_eq!(mime_from_path("og.png"), "image/png");
    assert_eq!(mime_from_path("favicon.ico"), "image/x-icon");
    assert_eq!(mime_from_path("logo.svg"), "image/svg+xml");
    assert_eq!(mime_from_path("CommitMono.woff"), "font/woff2");
    assert_eq!(mime_from_path("CommitMono.woff2"), "font/woff2");
    assert_eq!(mime_from_path("CommitMono.ttf"), "font/ttf");
    assert_eq!(mime_from_path("CommitMono.otf"), "font/otf");
    assert_eq!(mime_from_path("data.json"), "application/json");
    assert_eq!(mime_from_path("site.webmanifest"), "application/json");
}

#[test]
fn unknown_or_missing_extension() {
    assert_eq!(mime_from_path("README"), "application/octet-stream");
    assert_eq!(mime_from_path("archive.tar.gz"), "application/octet-stream");
    assert_eq!(mime_from_path("dir.v2/file"), "application/octet-stream");
    assert_eq!(mime_from_path("file."), "application/octet-stream");
    assert_eq!(mime_from_path(""), "application/octet-stream");
    assert_eq!(mime_from_path("STYLE.CSS"), "application/octet-stream");
}

#[test]
fn path_without_dot_is_its_own_extension() {
    assert_eq!(mime_from_path("css"), "text/css");
    assert_eq!(mime_from_path(".json"), "application/json");
}

#[test]
fn markdown_heading() {
    assert_eq!(render_markdown("# hi"), "<h1>hi</h1>\n");
}

#[test]
fn markdown_strikethrough_enabled() {
    assert_eq!(render_markdown("~~gone~~"), "<p><del>gone</del></p>\n");
}

#[test]
fn markdown_tables_and_task_lists_enabled() {
    let table = render_markdown("| a | b |\n|---|---|\n| 1 | 2 |\n");
    assert!(table.contains("<table>"));
    let tasks = render_markdown("- [x] done\n- [ ] todo\n");
    assert!(tasks.contains("type=\"checkbox\""));
}

#[test]
fn settings_defaults() {
    let state = AppState::from_env_values(None, None);
    assert_eq!(state.app_password, "changeme");
    assert!(!state.cookie_secure);
}

#[test]
fn settings_from_values() {
    let state = AppState::from_env_values(Some("s3cret".to_string()), Some("true".to_string()));
    assert_eq!(state.app_password, "s3cret");
    assert!(state.cookie_secure);
    let state = AppState::from_env_values(None, Some("TRUE".to_string()));
    assert!(!state.cookie_secure);
    let state = AppState::from_env_values(None, Some("1".to_string()));
    assert!(!state.cookie_secure);
}

#[test]
fn flash_query_default_has_no_error() {
    assert_eq!(FlashQuery::default().error, None);
}

#[test]
fn login_with_wrong_password() {
    assert_eq!(login_rejection("nope", "changeme"), Some(redirect("/login?error=Invalid+password")));
    assert_eq!(login_rejection("changeme", "changeme"), None);
}

#[test]
fn login_completed() {
    assert_eq!(
        login_completion(true, "tok", false),
        Reply::RedirectWithCookie {
            location: "/".to_string(),
            set_cookie: "session=tok; HttpOnly; SameSite=Strict; Path=/; Max-Age=604800".to_string(),
        }
    );
    assert_eq!(login_completion(false, "tok", false), redirect("/login?error=Server+error"));
}

#[test]
fn logout_clears_cookie() {
    assert_eq!(
        logout_reply(),
        Reply::RedirectWithCookie {
            location: "/login".to_string(),
            set_cookie: "session=; HttpOnly; SameSite=Strict; Path=/; Max-Age=0".to_string(),
        }
    );
}

#[test]
fn lookup_outcomes() {
    assert_eq!(lookup_failure_reply(&Lookup::Found(3)), None);
    assert_eq!(lookup_failure_reply::<u8>(&Lookup::Missing), Some(Reply::NoteNotFound));
    assert_eq!(lookup_failure_reply::<u8>(&Lookup::Failed), Some(Reply::ServerError));
}

#[test]
fn new_note_title_is_trimmed() {
    assert_eq!(create_note_title("  Groceries \n"), Ok("Groceries".to_string()));
}

#[test]
fn new_note_title_required() {
    assert_eq!(create_note_title(" \t "), Err(redirect("/notes/new?error=Title+is+required")));
    assert_eq!(create_note_title(""), Err(redirect("/notes/new?error=Title+is+required")));
}

#[test]
fn created_note_replies() {
    assert_eq!(create_note_reply(Some("ab12")), redirect("/notes/ab12"));
    assert_eq!(create_note_reply(None), redirect("/notes/new?error=Failed+to+create+note"));
}

#[test]
fn updated_note_title() {
    assert_eq!(update_note_title("ab12", " New "), Ok("New".to_string()));
    assert_eq!(
        update_note_title("ab12", "   "),
        Err(redirect("/notes/ab12/edit?error=Title+is+required"))
    );
}

#[test]
fn updated_note_replies() {
    assert_eq!(update_note_reply("ab12", &Lookup::Found(())), redirect("/notes/ab12"));
    assert_eq!(update_note_reply("ab12", &Lookup::Missing), Reply::NoteNotFound);
    assert_eq!(
        update_note_reply("ab12", &Lookup::Failed),
        redirect("/notes/ab12/edit?error=Failed+to+update+note")
    );
}

#[test]
fn deleted_note_goes_home() {
    assert_eq!(delete_note_reply(true), redirect("/"));
    assert_eq!(delete_note_reply(false), redirect("/"));
}
