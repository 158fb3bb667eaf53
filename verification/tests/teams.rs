use offkilter::auth::{User, UserInfo};
use offkilter::teams::{TeamError, TeamStore};

fn user(id: &str) -> User {
    User {
        id: id.to_string(),
        name: format!("{id}-name"),
        password_hash: String::new(),
        created: 0,
        teams: Vec::new(),
    }
}

fn info(id: &str) -> UserInfo {
    UserInfo {
        id: id.to_string(),
        name: format!("{id}-name"),
    }
}

#[test]
fn team_names_are_trimmed_and_two_to_forty_eight_characters() {
    let mut s = TeamStore::restore(Vec::new());
    let owner = user("o");
    let t = s.create_with("  Shop  ", &owner, "t1".to_string(), 3).unwrap();
    assert_eq!(t.name, "Shop");
    assert_eq!(t.owner, info("o"));
    assert!(t.members.is_empty());
    assert_eq!(t.created, 3);
    assert!(matches!(
        s.create_with(" x ", &owner, "t2".to_string(), 3),
        Err(TeamError::BadName)
    ));
    assert!(matches!(
        s.create_with(&"y".repeat(49), &owner, "t3".to_string(), 3),
        Err(TeamError::BadName)
    ));
    assert!(s.create_with(&"é".repeat(48), &owner, "t4".to_string(), 3).is_ok());
    assert_eq!(s.team_list().len(), 2);
    assert!(s.take_changes());
    assert!(!s.take_changes());
}

#[test]
fn only_the_owner_changes_a_team_and_members_come_once() {
    let mut s = TeamStore::restore(Vec::new());
    let owner = user("o");
    s.create_with("Shop", &owner, "t1".to_string(), 0).unwrap();
    assert!(matches!(
        s.add_member("t1", &user("m"), info("m")),
        Err(TeamError::NotOwner)
    ));
    assert!(matches!(
        s.add_member("zz", &owner, info("m")),
        Err(TeamError::NotFound)
    ));
    let t = s.add_member("t1", &owner, info("m")).unwrap();
    assert_eq!(t.members, vec![info("m")]);
    let t = s.add_member("t1", &owner, info("m")).unwrap();
    assert_eq!(t.members.len(), 1);
    let t = s.add_member("t1", &owner, info("o")).unwrap();
    assert_eq!(t.members.len(), 1);
    assert!(t.has_member("o") && t.has_member("m") && !t.has_member("x"));
    assert_eq!(s.ids_for("m"), vec!["t1".to_string()]);
    assert_eq!(s.for_user("o").len(), 1);
    assert!(s.for_user("x").is_empty());
    let t = s.remove_member("t1", &owner, "m").unwrap();
    assert!(t.members.is_empty());
    assert!(s.ids_for("m").is_empty());
    assert!(matches!(s.delete("t1", &user("m")), Err(TeamError::NotOwner)));
    s.delete("t1", &owner).unwrap();
    assert!(s.team("t1").is_none());
    assert!(matches!(s.delete("t1", &owner), Err(TeamError::NotFound)));
}

#[test]
fn a_new_team_gets_a_random_hex_id_and_is_saved() {
    let mut s = TeamStore::restore(Vec::new());
    let owner = user("o");
    assert!(matches!(s.create(" x ", &owner), Err(TeamError::BadName)));
    assert!(!s.take_changes());
    let t = s.create(" Shop ", &owner).unwrap();
    assert_eq!(t.id.len(), 16);
    assert!(t.id.chars().all(|c| c.is_ascii_digit() || ('a'..='f').contains(&c)));
    assert_eq!(t.name, "Shop");
    assert!(s.take_changes());
    assert_eq!(s.for_user("o").len(), 1);
}
