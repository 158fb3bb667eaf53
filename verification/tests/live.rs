use offkilter::live::{greeting, reply_to, sorted_names, ClientEvent, Reply, Roster};

#[test]
fn clients_get_fresh_ids_and_default_names() {
    let mut r = Roster::new();
    let a = r.join(Some("ann".to_string()));
    let b = r.join(None);
    let c = r.join(Some("Bob".to_string()));
    assert_eq!((a, b, c), (1, 2, 3));
    let (n, names) = r.presence();
    assert_eq!(n, 3);
    assert_eq!(names, vec!["Bob", "ann", "client 2"]);
    r.leave(b);
    r.leave(42);
    let (n, names) = r.presence();
    assert_eq!(n, 2);
    assert_eq!(names, vec!["Bob", "ann"]);
    assert_eq!(r.join(None), 4);
}

#[test]
fn names_sort_as_strings_do() {
    let mut v = vec!["b", "a", "ab", "", "B", "é", "a"].into_iter().map(String::from).collect::<Vec<_>>();
    let sorted = sorted_names(v.clone());
    v.sort();
    assert_eq!(sorted, v);
}

#[test]
fn read_only_clients_cannot_send_ops() {
    assert_eq!(
        reply_to(true, ClientEvent::Op(7)),
        Reply::Refuse(7, "this document is shared with you read-only".to_string())
    );
    assert_eq!(reply_to(false, ClientEvent::Op(7)), Reply::Apply(7));
    assert_eq!(reply_to(true, ClientEvent::Snapshot), Reply::SendSnapshot);
    assert_eq!(reply_to(false, ClientEvent::Hello(None)), Reply::Nothing);
}

#[test]
fn a_hello_names_the_client_unless_its_account_does() {
    let (name, pending) = greeting(None, Some(ClientEvent::Hello(Some("guest".to_string()))));
    assert_eq!(name, Some("guest".to_string()));
    assert_eq!(pending, None);
    let (name, _) = greeting(Some("alice".to_string()), Some(ClientEvent::Hello(Some("guest".to_string()))));
    assert_eq!(name, Some("alice".to_string()));
    let (name, pending) = greeting(None, Some(ClientEvent::Snapshot));
    assert_eq!(name, None);
    assert_eq!(pending, Some(ClientEvent::Snapshot));
}
