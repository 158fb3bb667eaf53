use offkilter::access::{
    accessible, auth_status, branch_name, editable, manageable, team_status, token_from_cookie_header,
    visible_docs,
};
use offkilter::auth::{AuthError, User, UserInfo};
use offkilter::store::{doc_id, newest_first, DocMeta, DocStore, ShareRole};
use offkilter::teams::TeamError;

fn user(id: &str) -> User {
    User {
        id: id.to_string(),
        name: id.to_string(),
        password_hash: String::new(),
        created: 0,
        teams: Vec::new(),
    }
}

fn info(id: &str) -> UserInfo {
    UserInfo {
        id: id.to_string(),
        name: id.to_string(),
    }
}

fn shared() -> DocMeta {
    let m = DocMeta::new("a1".to_string(), "Doc", Some(info("o")), 1);
    let (m, _) = DocStore::share(Some(m), info("v"), ShareRole::Viewer).unwrap();
    let (m, _) = DocStore::create_invite_with(Some(m), ShareRole::Editor, "tok".to_string(), 2).unwrap();
    m
}

#[test]
fn refused_requests_get_their_status_and_message() {
    assert_eq!(auth_status(AuthError::BadName), 400);
    assert_eq!(auth_status(AuthError::BadPassword), 400);
    assert_eq!(auth_status(AuthError::Taken), 409);
    assert_eq!(auth_status(AuthError::Denied), 401);
    assert_eq!(team_status(TeamError::BadName), 400);
    assert_eq!(team_status(TeamError::NotFound), 404);
    assert_eq!(team_status(TeamError::NotOwner), 403);
    assert_eq!(AuthError::Denied.message(), "wrong name or password");
    assert_eq!(AuthError::BadName.message(), "names are 2–32 letters, digits, '_' or '-'");
    assert_eq!(TeamError::BadName.message(), "team names are 2–48 characters");
    assert_eq!(TeamError::NotOwner.message(), "only the team's owner can do that");
}

#[test]
fn viewers_can_read_but_not_write() {
    let (o, v, x) = (user("o"), user("v"), user("x"));
    assert!(accessible(Some(shared()), Some(&v)).is_ok());
    assert_eq!(editable(Some(shared()), Some(&v)).unwrap_err(), 403);
    assert_eq!(manageable(Some(shared()), Some(&v)).unwrap_err(), 403);
    assert_eq!(accessible(Some(shared()), Some(&x)).unwrap_err(), 404);
    assert_eq!(accessible(Some(shared()), None).unwrap_err(), 404);
    assert_eq!(accessible(None, Some(&o)).unwrap_err(), 404);
    assert!(manageable(Some(shared()), Some(&o)).is_ok());
}

#[test]
fn the_document_list_hides_what_a_user_may_not_see() {
    let open = DocMeta::new("b2".to_string(), "Open", None, 3);
    let all = vec![shared(), open];
    let seen = visible_docs(all, Some(&user("v")));
    assert_eq!(seen.len(), 2);
    assert!(seen[0].invites.is_empty());
    let all = vec![shared(), DocMeta::new("b2".to_string(), "Open", None, 3)];
    let owner_view = visible_docs(all, Some(&user("o")));
    assert_eq!(owner_view[0].invites.len(), 1);
    let all = vec![shared(), DocMeta::new("b2".to_string(), "Open", None, 3)];
    let anonymous = visible_docs(all, None);
    assert_eq!(anonymous.len(), 1);
    assert_eq!(anonymous[0].name, "Open");
}

#[test]
fn branches_are_named_after_their_source() {
    assert_eq!(branch_name(None, "Bracket", None), "Bracket (branch)");
    assert_eq!(branch_name(None, "Bracket", Some("v2")), "Bracket (v2)");
    assert_eq!(branch_name(Some("Mine".to_string()), "Bracket", Some("v2")), "Mine");
}

#[test]
fn the_session_token_comes_from_the_cookie_header() {
    assert_eq!(token_from_cookie_header("ok_session=abc"), Some("abc".to_string()));
    assert_eq!(
        token_from_cookie_header("theme=dark; ok_session=x=y ; other=1"),
        Some("x=y".to_string())
    );
    assert_eq!(token_from_cookie_header("ok_sessionx=1; a=b"), None);
    assert_eq!(token_from_cookie_header(""), None);
    assert_eq!(
        token_from_cookie_header(" ok_session=first;ok_session=second"),
        Some("first".to_string())
    );
}

#[test]
fn ids_are_hex_clock_and_counter_and_lists_go_newest_first() {
    assert_eq!(doc_id(0x1234, 0), "123400");
    assert_eq!(doc_id(0, 0x1ff), "1ff000000000000ff");
    assert!(DocStore::valid_id(&doc_id(987654321, 77)));
    let t: u128 = 1_700_000_000_123_456_789;
    let c: u64 = 5;
    assert_eq!(doc_id(t as u64, c), format!("{:x}{:02x}", t as u64 ^ (c << 48), c & 0xff));
    assert_eq!(newest_first(&vec![5, 9, 5, 1, 9]), vec![1, 4, 0, 2, 3]);
    assert!(newest_first(&vec![]).is_empty());
}
