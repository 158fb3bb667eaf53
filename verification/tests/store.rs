use offkilter::auth::{User, UserInfo};
use offkilter::store::{first_prefix, prefix_walk_step, PREFIX_HOPS, BranchOrigin, DocMeta, DocStore, ShareRole, StoreError};
use offkilter::teams::TeamShare;

fn user(id: &str, teams: &[&str]) -> User {
    User {
        id: id.to_string(),
        name: id.to_string(),
        password_hash: String::new(),
        created: 0,
        teams: teams.iter().map(|t| t.to_string()).collect(),
    }
}

fn info(id: &str) -> UserInfo {
    UserInfo {
        id: id.to_string(),
        name: id.to_string(),
    }
}

fn owned() -> DocMeta {
    DocMeta::new("ab12".to_string(), "Part", Some(info("o")), 7)
}

#[test]
fn documents_without_an_owner_are_open_to_everyone() {
    let m = DocMeta::new("1".to_string(), "Open", None, 1);
    assert!(m.can_access(None));
    assert!(m.can_edit(None));
    assert!(m.can_manage(None));
    assert_eq!(m.next_prefix, first_prefix());
}

#[test]
fn owner_editors_viewers_and_teams_get_their_rights() {
    let m = owned();
    let (m, w) = DocStore::share(Some(m), info("e"), ShareRole::Editor).unwrap();
    assert!(w);
    let (m, _) = DocStore::share(Some(m), info("v"), ShareRole::Viewer).unwrap();
    let m = DocStore::share_team(
        Some(m),
        TeamShare {
            id: "t".to_string(),
            name: "T".to_string(),
            role: ShareRole::Viewer,
        },
    )
    .unwrap();
    let o = user("o", &[]);
    let e = user("e", &[]);
    let v = user("v", &[]);
    let tm = user("x", &["t"]);
    let stranger = user("s", &[]);
    assert!(m.can_manage(Some(&o)) && m.can_edit(Some(&o)) && m.can_access(Some(&o)));
    assert!(!m.can_manage(Some(&e)) && m.can_edit(Some(&e)) && m.can_access(Some(&e)));
    assert!(!m.can_edit(Some(&v)) && m.can_access(Some(&v)));
    assert!(!m.can_edit(Some(&tm)) && m.can_access(Some(&tm)));
    assert!(!m.can_access(Some(&stranger)));
    assert!(!m.can_access(None));
}

#[test]
fn sharing_again_replaces_the_role_and_the_owner_is_left_alone() {
    let (m, _) = DocStore::share(Some(owned()), info("e"), ShareRole::Editor).unwrap();
    let (m, _) = DocStore::share(Some(m), info("e"), ShareRole::Viewer).unwrap();
    assert!(m.collaborators.is_empty());
    assert_eq!(m.viewers, vec![info("e")]);
    let (m, w) = DocStore::share(Some(m), info("o"), ShareRole::Viewer).unwrap();
    assert!(!w);
    assert_eq!(m.viewers.len(), 1);
    let m = DocStore::unshare(Some(m), "e").unwrap();
    assert!(m.viewers.is_empty());
    assert!(!m.can_access(Some(&user("e", &[]))));
}

#[test]
fn invitations_join_in_their_role_and_only_the_owner_sees_them() {
    let (m, inv) = DocStore::create_invite_with(Some(owned()), ShareRole::Editor, "tok".to_string(), 9).unwrap();
    assert_eq!(inv.token, "tok");
    assert_eq!(inv.created, 9);
    assert_eq!(m.invites.len(), 1);
    assert_eq!(
        DocStore::accept_invite(Some(m.clone()), "nope", info("j")).unwrap_err(),
        StoreError::NoSuchInvitation
    );
    let (joined, _) = DocStore::accept_invite(Some(m.clone()), "tok", info("j")).unwrap();
    assert_eq!(joined.collaborators, vec![info("j")]);
    let seen = joined.visible_to(Some(&user("j", &[])));
    assert!(seen.invites.is_empty());
    let revoked = DocStore::revoke_invite(Some(m), "tok").unwrap();
    assert!(revoked.invites.is_empty());
    assert_eq!(
        DocStore::accept_invite(None, "tok", info("j")).unwrap_err(),
        StoreError::NoSuchDocument
    );
}

#[test]
fn prefixes_count_up_and_wrap_to_one() {
    let mut m = owned();
    m.next_prefix = 4094;
    let (m, p) = DocStore::take_prefix(Some(m)).unwrap();
    assert_eq!(p, 4094);
    let (m, p) = DocStore::take_prefix(Some(m)).unwrap();
    assert_eq!(p, 4095);
    assert_eq!(m.next_prefix, 1);
}

#[test]
fn ids_are_hex_and_paths_follow_them() {
    assert!(DocStore::valid_id("19a0ff"));
    assert!(!DocStore::valid_id(""));
    assert!(!DocStore::valid_id("../x"));
    assert_eq!(DocStore::doc_path("ab"), "docs/ab.okpart");
    assert_eq!(DocStore::meta_path("ab"), "docs/ab.meta.json");
    assert_eq!(DocStore::base_path("ab"), "docs/ab.base.okpart");
    assert_eq!(DocStore::versions_dir("ab"), "docs/ab.versions");
}

#[test]
fn branches_record_their_origin_and_saves_rename() {
    let origin = BranchOrigin {
        doc: "aa".to_string(),
        doc_name: "A".to_string(),
        version: None,
        version_name: None,
    };
    let m = DocStore::set_parent(Some(owned()), origin.clone()).unwrap();
    assert_eq!(m.parent, Some(origin));
    let m = DocStore::write(Some(m), Some("New"), 99).unwrap();
    assert_eq!(m.name, "New");
    assert_eq!(m.updated, 99);
    assert_eq!(m.created, 7);
    assert_eq!(DocStore::set_parent(None, BranchOrigin {
        doc: String::new(),
        doc_name: String::new(),
        version: None,
        version_name: None,
    }).unwrap_err(), StoreError::NoSuchDocument);
}

#[test]
fn sharing_twice_is_sharing_once() {
    let (once, _) = DocStore::share(Some(owned()), info("e"), ShareRole::Editor).unwrap();
    let (twice, _) = DocStore::share(Some(once.clone()), info("e"), ShareRole::Editor).unwrap();
    assert_eq!(once.collaborators, twice.collaborators);
    assert_eq!(once.viewers, twice.viewers);
}

#[test]
fn invitation_tokens_are_random_hex() {
    let (m, inv) = DocStore::create_invite(Some(owned()), ShareRole::Editor).unwrap();
    assert_eq!(inv.token.len(), 64);
    assert!(inv.token.chars().all(|c| c.is_ascii_digit() || ('a'..='f').contains(&c)));
    assert_eq!(inv.role, ShareRole::Editor);
    assert_eq!(m.invites.len(), 1);
    let (_, other) = DocStore::create_invite(Some(m), ShareRole::Viewer).unwrap();
    assert_ne!(other.token, inv.token);
}

#[test]
fn the_prefix_walk_follows_existing_origins_for_sixteen_hops() {
    assert_eq!(prefix_walk_step(0, Some("a1".to_string()), true), Some("a1".to_string()));
    assert_eq!(prefix_walk_step(0, Some("a1".to_string()), false), None);
    assert_eq!(prefix_walk_step(3, None, false), None);
    assert_eq!(prefix_walk_step(PREFIX_HOPS - 1, Some("b".to_string()), true), Some("b".to_string()));
    assert_eq!(prefix_walk_step(PREFIX_HOPS, Some("b".to_string()), true), None);
}
