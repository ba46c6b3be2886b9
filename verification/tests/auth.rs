use jotts::auth::{
    authorize, build_session_cookie, clear_session_cookie, extract_session_cookie,
    generate_session_token, hex_encode, is_valid_session, session_cookie_values, session_expiry,
    verify_password,
};
use jotts::server::{Lookup, Reply};

#[test]
fn password_accepted_for_itself() {
    assert!(verify_password("hunter2", "hunter2"));
    assert!(verify_password("", ""));
}

#[test]
fn password_rejected_when_different() {
    assert!(!verify_password("hunter2", "hunter3"));
    assert!(!verify_password("Hunter2", "hunter2"));
}

#[test]
fn password_rejected_when_lengths_differ() {
    assert!(!verify_password("abc", "abcd"));
    assert!(!verify_password("abcd", "abc"));
}

#[test]
fn password_rejected_when_only_padding_agrees() {
    assert!(!verify_password("a", "a\0"));
    assert!(!verify_password("", "\0"));
}

#[test]
fn password_with_multibyte_characters() {
    assert!(verify_password("pässwörd", "pässwörd"));
    assert!(!verify_password("pässwörd", "passwörd"));
}

#[test]
fn long_passwords_are_compared_in_full() {
    let a = format!("{}x", "p".repeat(300));
    let b = format!("{}y", "p".repeat(300));
    assert!(!verify_password(&a, &b));
    assert!(verify_password(&a, &a.clone()));
    let c = format!("{}x{}", "p".repeat(255), "q".repeat(45));
    assert!(!verify_password(&a, &c));
}

#[test]
fn hex_encoding_of_bytes() {
    assert_eq!(hex_encode(&[0x00, 0xff, 0x1a, 0x09]), "00ff1a09");
    assert_eq!(hex_encode(&[]), "");
}

#[test]
fn generated_tokens_are_64_hex_digits() {
    let t = generate_session_token().expect("random source");
    assert_eq!(t.len(), 64);
    assert!(t.chars().all(|c| c.is_ascii_digit() || ('a'..='f').contains(&c)));
    assert_ne!(t, "0".repeat(64));
    let u = generate_session_token().expect("random source");
    assert_ne!(t, u);
}

#[test]
fn generated_token_reads_back_from_cookie_header() {
    let t = generate_session_token().expect("random source");
    let header = format!("session={}", t);
    assert_eq!(extract_session_cookie(Some(&header)), Some(t));
}

#[test]
fn session_cookie_plain() {
    assert_eq!(
        build_session_cookie("abc", false),
        "session=abc; HttpOnly; SameSite=Strict; Path=/; Max-Age=604800"
    );
}

#[test]
fn session_cookie_secure() {
    assert_eq!(
        build_session_cookie("abc", true),
        "session=abc; HttpOnly; SameSite=Strict; Path=/; Max-Age=604800; Secure"
    );
}

#[test]
fn cleared_session_cookie() {
    assert_eq!(clear_session_cookie(), "session=; HttpOnly; SameSite=Strict; Path=/; Max-Age=0");
}

#[test]
fn no_cookie_header_no_token() {
    assert_eq!(extract_session_cookie(None), None);
}

#[test]
fn token_among_other_cookies() {
    assert_eq!(
        extract_session_cookie(Some("theme=dark; session= xyz ; lang=en")),
        Some("xyz".to_string())
    );
}

#[test]
fn empty_session_values_are_skipped() {
    assert_eq!(extract_session_cookie(Some("session=; session=  ;session=t2")), Some("t2".to_string()));
    assert_eq!(extract_session_cookie(Some("session=")), None);
}

#[test]
fn cookie_names_are_matched_exactly() {
    assert_eq!(extract_session_cookie(Some("Session=abc")), None);
    assert_eq!(extract_session_cookie(Some("my_session=abc")), None);
    assert_eq!(extract_session_cookie(Some("foo=bar")), None);
    assert_eq!(extract_session_cookie(Some("")), None);
}

#[test]
fn unicode_white_space_is_trimmed() {
    assert_eq!(
        extract_session_cookie(Some("\u{3000}session=\u{a0}tok\t")),
        Some("tok".to_string())
    );
}

#[test]
fn set_cookie_value_reads_back_its_token() {
    let cookie = build_session_cookie("tok", true);
    assert_eq!(extract_session_cookie(Some(&cookie)), Some("tok".to_string()));
    assert_eq!(extract_session_cookie(Some(&clear_session_cookie())), None);
}

#[test]
fn all_session_values_in_order() {
    assert_eq!(
        session_cookie_values("session=a; x=1;session=b ;session="),
        vec!["a".to_string(), "b".to_string()]
    );
    assert!(session_cookie_values("x=1").is_empty());
}

#[test]
fn session_expires_seven_days_later() {
    assert_eq!(session_expiry(0), "1970-01-08 00:00:00");
    assert_eq!(session_expiry(1700000000), "2023-11-21 22:13:20");
}

#[test]
fn session_live_until_expiry() {
    let expiry = Lookup::Found(session_expiry(1700000000));
    assert!(is_valid_session(&expiry, 1700000000));
    assert!(is_valid_session(&expiry, 1700000000 + 604799));
    assert!(!is_valid_session(&expiry, 1700000000 + 604800));
    assert!(!is_valid_session(&expiry, 1800000000));
}

#[test]
fn missing_or_failed_lookup_is_not_live() {
    assert!(!is_valid_session(&Lookup::Missing, 0));
    assert!(!is_valid_session(&Lookup::Failed, 0));
}

#[test]
fn authorize_live_session() {
    let expiry = Lookup::Found("2023-11-14 22:13:21".to_string());
    assert!(authorize(Some(&expiry), 1700000000).is_ok());
}

#[test]
fn authorize_redirects_to_login() {
    let expired = Lookup::Found("2023-11-14 22:13:20".to_string());
    let login = || Reply::Redirect { location: "/login".to_string() };
    assert_eq!(authorize(Some(&expired), 1700000000).err(), Some(login()));
    assert_eq!(authorize(None, 0).err(), Some(login()));
    assert_eq!(authorize(Some(&Lookup::Missing), 0).err(), Some(login()));
    assert_eq!(authorize(Some(&Lookup::Failed), 0).err(), Some(login()));
}

fn first_session_token(header: &str) -> Option<String> {
    for part in header.split(';') {
        let part = part.trim();
        if let Some(val) = part.strip_prefix("session=") {
            let val = val.trim().to_string();
            if !val.is_empty() {
                return Some(val);
            }
        }
    }
    None
}

#[test]
fn token_reading_agrees_with_str_trim_for_every_char() {
    for code in 0u32..=0x10FFFF {
        if let Some(c) = char::from_u32(code) {
            let header = format!("{c}session={c}x{c};{c}");
            assert_eq!(
                extract_session_cookie(Some(&header)),
                first_session_token(&header),
                "{:?}",
                header
            );
        }
    }
}
