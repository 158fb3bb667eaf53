use offkilter::auth::{clear_cookie, session_cookie, AuthError, UserStore};

#[test]
fn register_login_session_logout() {
    let mut s = UserStore::new();
    let (u, tok) = s.register("alice", "correct horse").unwrap();
    assert_eq!(s.session_user(&tok).unwrap().id, u.id);
    assert!(matches!(
        s.register("Alice", "another one"),
        Err(AuthError::Taken)
    ));
    assert!(matches!(
        s.register("a", "longenough"),
        Err(AuthError::BadName)
    ));
    assert!(matches!(
        s.register("bob", "short"),
        Err(AuthError::BadPassword)
    ));
    assert!(matches!(s.login("alice", "wrong"), Err(AuthError::Denied)));
    let (u2, tok2) = s.login("ALICE", "correct horse").unwrap();
    assert_eq!(u2.id, u.id);
    assert_ne!(tok, tok2);
    s.logout(&tok);
    assert!(s.session_user(&tok).is_none());
    assert!(s.session_user(&tok2).is_some());
    // Restoring what the store would save keeps users and sessions.
    let mut again = UserStore::restore(s.user_list().clone(), s.session_list().clone());
    assert!(again.session_user(&tok2).is_some());
    assert_eq!(again.user_by_name("alice").unwrap().id, u.id);
}

#[test]
fn names_are_checked_before_anything_else() {
    assert!(UserStore::valid_name("al"));
    assert!(UserStore::valid_name("a_b-9"));
    assert!(!UserStore::valid_name("a"));
    assert!(!UserStore::valid_name("has space"));
    assert!(!UserStore::valid_name("é"));
    assert!(UserStore::valid_name(&"x".repeat(32)));
    assert!(!UserStore::valid_name(&"x".repeat(33)));
}

#[test]
fn sessions_expire_after_thirty_days_without_use() {
    let mut s = UserStore::new();
    let (u, _) = s
        .register_with("carol", "password1", Some("hash".to_string()), "abc".to_string(), "t1".to_string(), 1000)
        .unwrap();
    assert_eq!(u.id, "abc");
    assert_eq!(u.created, 1000);
    // Used within the window: still good, and touched.
    assert_eq!(s.session_user_at("t1", 1000 + 7200).unwrap().id, "abc");
    // 30 days after the last use: gone.
    assert!(s.session_user_at("t1", 1000 + 7200 + 2_592_000).is_none());
    assert!(s.session_user_at("t1", 1000 + 7200).is_none());
}

#[test]
fn a_failed_hash_is_a_bad_password_and_a_taken_name_changes_nothing() {
    let mut s = UserStore::new();
    assert!(matches!(
        s.register_with("dave", "password1", None, "d".to_string(), "t".to_string(), 5),
        Err(AuthError::BadPassword)
    ));
    s.register_with("dave", "password1", Some("h".to_string()), "d".to_string(), "t".to_string(), 5)
        .unwrap();
    assert!(matches!(
        s.register_with("DAVE", "password2", Some("h".to_string()), "e".to_string(), "u".to_string(), 6),
        Err(AuthError::Taken)
    ));
    assert_eq!(s.user_list().len(), 1);
    assert_eq!(s.user("d").unwrap().name, "dave");
    assert!(s.user("e").is_none());
}

#[test]
fn cookies_carry_the_token_and_the_flags() {
    assert_eq!(
        session_cookie("abc", false),
        "ok_session=abc; Path=/; HttpOnly; SameSite=Lax; Max-Age=2592000"
    );
    assert_eq!(
        session_cookie("abc", true),
        "ok_session=abc; Path=/; HttpOnly; SameSite=Lax; Secure; Max-Age=2592000"
    );
    assert_eq!(clear_cookie(false), "ok_session=; Path=/; HttpOnly; SameSite=Lax; Max-Age=0");
}

fn lower_hex(s: &str, len: usize) -> bool {
    s.len() == len && s.chars().all(|c| c.is_ascii_digit() || ('a'..='f').contains(&c))
}

#[test]
fn ids_and_tokens_are_random_hex() {
    let mut s = UserStore::new();
    let (u, tok) = s.register("erin", "password1").unwrap();
    assert!(lower_hex(&u.id, 16));
    assert!(lower_hex(&tok, 64));
    let (_, tok2) = s.login("erin", "password1").unwrap();
    assert!(lower_hex(&tok2, 64));
    assert_ne!(tok, tok2);
    let tok3 = s.start_session(&u.id);
    assert!(lower_hex(&tok3, 64));
}

#[test]
fn a_clock_set_back_marks_the_session_used() {
    let mut s = UserStore::new();
    s.register_with("fay", "password1", Some("h".to_string()), "f".to_string(), "t".to_string(), 10_000)
        .unwrap();
    s.take_changes();
    assert_eq!(s.session_user_at("t", 9_000).unwrap().id, "f");
    assert_eq!(s.take_changes(), (false, true));
    assert_eq!(s.session_list()[0].1.last_used, 9_000);
    // Within the hour after the last use: not marked again.
    assert_eq!(s.session_user_at("t", 9_100).unwrap().id, "f");
    assert_eq!(s.take_changes(), (false, false));
}
