//! Who is editing a live document, and what the server does with each
//! message a client sends over its socket.

use crate::text::{chars_of, decimal, push_decimal, push_str, text};
use vstd::prelude::*;
use vstd::seq_lib::{to_multiset_build, to_multiset_insert};

verus! {

// ------------------------------------------------------------------ names

/// `a` sorts before or with `b`: character by character, a prefix first
/// (the order of `str`'s `Ord`, as UTF-8 keeps the order of code points).
pub open spec fn text_le(a: Seq<char>, b: Seq<char>) -> bool
    decreases a.len(),
{
    if a.len() == 0 {
        true
    } else if b.len() == 0 {
        false
    } else if a[0] != b[0] {
        (a[0] as u32) < (b[0] as u32)
    } else {
        text_le(a.drop_first(), b.drop_first())
    }
}

/// `names` is in order.
pub open spec fn names_sorted(names: Seq<Seq<char>>) -> bool {
    forall|i: int, j: int| 0 <= i < j < names.len() ==> text_le(#[trigger] names[i], #[trigger] names[j])
}

proof fn lemma_text_le_total(a: Seq<char>, b: Seq<char>)
    ensures
        text_le(a, b) || text_le(b, a),
    decreases a.len(),
{
    if a.len() > 0 && b.len() > 0 {
        if a[0] == b[0] {
            lemma_text_le_total(a.drop_first(), b.drop_first());
        } else {
            vstd::utf8::char_u32_cast(a[0], a[0] as u32);
            vstd::utf8::char_u32_cast(b[0], b[0] as u32);
        }
    }
}

proof fn lemma_text_le_trans(a: Seq<char>, b: Seq<char>, c: Seq<char>)
    requires
        text_le(a, b),
        text_le(b, c),
    ensures
        text_le(a, c),
    decreases a.len(),
{
    if a.len() > 0 && b.len() > 0 && c.len() > 0 && a[0] == b[0] && b[0] == c[0] {
        lemma_text_le_trans(a.drop_first(), b.drop_first(), c.drop_first());
    }
}

/// Whether `a` sorts before or with `b`.
fn le_text(a: &String, b: &String) -> (r: bool)
    ensures
        r == text_le(a@, b@),
{
    let x = chars_of(a.as_str());
    let y = chars_of(b.as_str());
    let mut i: usize = 0;
    assert(x@.skip(0) =~= x@);
    assert(y@.skip(0) =~= y@);
    while i < x.len() && i < y.len() && x[i] == y[i]
        invariant
            x@ == a@,
            y@ == b@,
            i <= x@.len(),
            i <= y@.len(),
            text_le(a@, b@) == text_le(x@.skip(i as int), y@.skip(i as int)),
        decreases x@.len() - i,
    {
        assert(x@.skip(i as int).drop_first() =~= x@.skip(i + 1));
        assert(y@.skip(i as int).drop_first() =~= y@.skip(i + 1));
        i = i + 1;
    }
    if i == x.len() {
        true
    } else if i == y.len() {
        false
    } else {
        (x[i] as u32) < (y[i] as u32)
    }
}

/// The views of a list of names.
pub open spec fn texts(v: Seq<String>) -> Seq<Seq<char>> {
    v.map_values(|s: String| s@)
}

/// `names` in order.
pub fn sorted_names(names: Vec<String>) -> (out: Vec<String>)
    ensures
        names_sorted(texts(out@)),
        texts(out@).to_multiset() == texts(names@).to_multiset(),
{
    let ghost all = texts(names@);
    let mut rest = names;
    let mut out: Vec<String> = Vec::new();
    let n = rest.len();
    let mut k: usize = 0;
    proof {
        assert(all.take(0) =~= Seq::<Seq<char>>::empty());
        assert(texts(out@) =~= Seq::<Seq<char>>::empty());
    }
    while k < n
        invariant
            n == all.len(),
            k <= n,
            texts(rest@) == all.subrange(k as int, n as int),
            rest@.len() == n - k,
            names_sorted(texts(out@)),
            texts(out@).to_multiset() == all.take(k as int).to_multiset(),
        decreases n - k,
    {
        let ghost old_rest = rest@;
        assert(texts(old_rest)[0] == old_rest[0]@);
        assert(all.subrange(k as int, n as int)[0] == all[k as int]);
        let name = rest.remove(0);
        assert(name@ == all[k as int]);
        assert(texts(rest@) =~= texts(old_rest).drop_first());
        let mut p: usize = 0;
        while p < out.len() && le_text(&out[p], &name)
            invariant
                p <= out@.len(),
                forall|i: int| 0 <= i < p ==> text_le(#[trigger] texts(out@)[i], name@),
            decreases out@.len() - p,
        {
            p = p + 1;
        }
        let ghost before = texts(out@);
        let ghost x = name@;
        assert(p == before.len() || !text_le(before[p as int], x));
        out.insert(p, name);
        proof {
            let after = texts(out@);
            assert(after =~= before.insert(p as int, all[k as int]));
            assert forall|i: int, j: int| 0 <= i < j < after.len() implies text_le(
                #[trigger] after[i],
                #[trigger] after[j],
            ) by {
                if j < p {
                    assert(after[i] == before[i] && after[j] == before[j]);
                } else if j == p {
                    assert(after[i] == before[i]);
                } else if i < p {
                    assert(after[i] == before[i] && after[j] == before[j - 1]);
                } else if i == p {
                    assert(after[j] == before[j - 1]);
                    lemma_text_le_total(x, before[p as int]);
                    if j - 1 > p {
                        lemma_text_le_trans(x, before[p as int], before[j - 1]);
                    }
                } else {
                    assert(after[i] == before[i - 1] && after[j] == before[j - 1]);
                }
            }
            to_multiset_insert(before, p as int, all[k as int]);
            assert(all.take(k + 1) =~= all.take(k as int).push(all[k as int]));
            to_multiset_build(all.take(k as int), all[k as int]);
        }
        k = k + 1;
        assert(all.subrange(k - 1, n as int).drop_first() =~= all.subrange(k as int, n as int));
    }
    assert(all.take(n as int) =~= all);
    out
}


// ----------------------------------------------------------------- roster

/// No client id occurs twice.
pub open spec fn ids_distinct(clients: Seq<(u64, Seq<char>)>) -> bool {
    forall|i: int, j: int| 0 <= i < j < clients.len() ==> (#[trigger] clients[i]).0 != (#[trigger] clients[j]).0
}

/// The name a client joins under: the one it gave, else `client n`.
pub open spec fn join_name(name: Option<Seq<char>>, client: u64) -> Seq<char> {
    match name {
        Some(n) => n,
        None => "client "@ + decimal(client as nat),
    }
}

/// The views of the entries.
pub open spec fn entries_view(v: Seq<(u64, String)>) -> Seq<(u64, Seq<char>)> {
    v.map_values(|e: (u64, String)| (e.0, e.1@))
}

/// The clients connected to one live document, each with its display
/// name, in the order they joined.
pub struct Roster {
    next_client: u64,
    clients: Vec<(u64, String)>,
}

impl Roster {
    /// The clients, in the order they joined.
    pub closed spec fn clients(&self) -> Seq<(u64, Seq<char>)> {
        entries_view(self.clients@)
    }

    /// The id the next client gets.
    pub closed spec fn next_id(&self) -> u64 {
        self.next_client
    }

    #[verifier::type_invariant]
    spec fn ids_below_next(&self) -> bool {
        &&& self.next_client >= 1
        &&& forall|i: int| 0 <= i < self.clients@.len() ==> (#[trigger] self.clients@[i]).0 < self.next_client
        &&& ids_distinct(entries_view(self.clients@))
    }

    /// Nobody connected; the first client gets id 1.
    pub fn new() -> (r: Roster)
        ensures
            r.clients() == Seq::<(u64, Seq<char>)>::empty(),
            r.next_id() == 1,
    {
        let r = Roster { next_client: 1, clients: Vec::new() };
        assert(entries_view(r.clients@) =~= Seq::<(u64, Seq<char>)>::empty());
        r
    }

    /// Adds a client under `name` (or `client n`) and returns its id.
    pub fn join(&mut self, name: Option<String>) -> (client: u64)
        requires
            old(self).next_id() < u64::MAX,
        ensures
            client == old(self).next_id(),
            final(self).next_id() == client + 1,
            final(self).clients() == old(self).clients().push(
                (
                    client,
                    join_name(
                        match name {
                            Some(n) => Some(n@),
                            None => None,
                        },
                        client,
                    ),
                ),
            ),
            ids_distinct(final(self).clients()),
    {
        proof {
            use_type_invariant(&*self);
        }
        let client = self.next_client;
        let label = match name {
            Some(n) => n,
            None => {
                let mut l = text("client ");
                push_decimal(&mut l, client);
                l
            },
        };
        let ghost before = self.clients@;
        let mut clients: Vec<(u64, String)> = Vec::new();
        std::mem::swap(&mut clients, &mut self.clients);
        clients.push((client, label));
        let ghost after = entries_view(clients@);
        proof {
            assert(after =~= entries_view(before).push(after.last()));
            assert forall|i: int, j: int| 0 <= i < j < after.len() implies (#[trigger] after[i]).0
                != (#[trigger] after[j]).0 by {
                if j == after.len() - 1 {
                    assert(before[i].0 < client);
                } else {
                    assert(after[i] == entries_view(before)[i]);
                    assert(after[j] == entries_view(before)[j]);
                }
            }
        }
        self.next_client = client + 1;
        self.clients = clients;
        client
    }

    /// Removes the client `client`, if it is connected.
    pub fn leave(&mut self, client: u64)
        ensures
            final(self).next_id() == old(self).next_id(),
            ids_distinct(final(self).clients()),
            (exists|i: int|
                0 <= i < old(self).clients().len() && old(self).clients()[i].0 == client
                    && final(self).clients() == old(self).clients().remove(i))
                || ((forall|i: int|
                0 <= i < old(self).clients().len() ==> (#[trigger] old(self).clients()[i]).0
                    != client) && final(self).clients() == old(self).clients()),
    {
        proof {
            use_type_invariant(&*self);
        }
        let mut i: usize = 0;
        while i < self.clients.len()
            invariant
                i <= self.clients@.len(),
                self.clients@ == old(self).clients@,
                self.next_client == old(self).next_client,
                forall|j: int| 0 <= j < i ==> (#[trigger] self.clients@[j]).0 != client,
            decreases self.clients@.len() - i,
        {
            proof {
                use_type_invariant(&*self);
            }
            if self.clients[i].0 == client {
                let ghost before = self.clients@;
                let mut clients: Vec<(u64, String)> = Vec::new();
                std::mem::swap(&mut clients, &mut self.clients);
                clients.remove(i);
                proof {
                    let a = entries_view(clients@);
                    assert(a =~= entries_view(before).remove(i as int));
                    assert forall|x: int, y: int| 0 <= x < y < a.len() implies (#[trigger] a[x]).0
                        != (#[trigger] a[y]).0 by {
                        let xx = if x < i { x } else { x + 1 };
                        let yy = if y < i { y } else { y + 1 };
                        assert(a[x] == entries_view(before)[xx]);
                        assert(a[y] == entries_view(before)[yy]);
                    }
                    assert forall|x: int| 0 <= x < clients@.len() implies (#[trigger] clients@[x]).0
                        < self.next_client by {
                        let xx = if x < i { x } else { x + 1 };
                        assert(clients@[x] == before[xx]);
                    }
                    assert(entries_view(before)[i as int].0 == client);
                }
                self.clients = clients;
                return;
            }
            i = i + 1;
        }
        proof {
            assert forall|j: int| 0 <= j < old(self).clients().len() implies (#[trigger] old(self).clients()[j]).0 != client by {
                assert(old(self).clients()[j].0 == self.clients@[j].0);
            }
        }
    }

    /// How many clients are connected, and their names in order.
    pub fn presence(&self) -> (p: (usize, Vec<String>))
        ensures
            p.0 == self.clients().len(),
            names_sorted(texts(p.1@)),
            texts(p.1@).to_multiset() == self.clients().map_values(|e: (u64, Seq<char>)| e.1).to_multiset(),
    {
        let mut names: Vec<String> = Vec::new();
        let mut i: usize = 0;
        while i < self.clients.len()
            invariant
                i <= self.clients@.len(),
                texts(names@) == self.clients().take(i as int).map_values(|e: (u64, Seq<char>)| e.1),
            decreases self.clients@.len() - i,
        {
            let ghost before = texts(names@);
            let name = self.clients[i].1.clone();
            assert(name@ == self.clients()[i as int].1);
            names.push(name);
            assert(texts(names@) =~= before.push(self.clients()[i as int].1));
            assert(self.clients().take(i + 1) =~= self.clients().take(i as int).push(self.clients()[i as int]));
            i = i + 1;
            assert(texts(names@) =~= self.clients().take(i as int).map_values(|e: (u64, Seq<char>)| e.1));
        }
        assert(self.clients().take(i as int) =~= self.clients());
        (self.clients.len(), sorted_names(names))
    }
}

// ----------------------------------------------------------------- socket

/// A message a client sent, as read; an op's content stays with the caller.
#[derive(Debug, PartialEq, Eq)]
pub enum ClientEvent {
    Hello(Option<String>),
    /// An op with the client's id for it.
    Op(u64),
    Snapshot,
}

/// What the server does with a client's message.
#[derive(Debug, PartialEq, Eq)]
pub enum Reply {
    Nothing,
    /// Refuses the op `id`, saying why.
    Refuse(u64, String),
    /// Applies the op `id` and broadcasts it (or reports its failure).
    Apply(u64),
    /// Sends the document as it is now.
    SendSnapshot,
}

/// What the server does with a client's message: ops from a read-only
/// client are refused, ops from others applied, snapshots sent, hellos
/// after the first message ignored.
pub fn reply_to(read_only: bool, e: ClientEvent) -> (r: Reply)
    ensures
        match e {
            ClientEvent::Hello(_) => r == Reply::Nothing,
            ClientEvent::Op(id) => if read_only {
                r matches Reply::Refuse(i, m) && i == id && m@
                    == "this document is shared with you read-only"@
            } else {
                r == Reply::Apply(id)
            },
            ClientEvent::Snapshot => r == Reply::SendSnapshot,
        },
{
    match e {
        ClientEvent::Hello(_) => Reply::Nothing,
        ClientEvent::Op(id) => if read_only {
            Reply::Refuse(id, text("this document is shared with you read-only"))
        } else {
            Reply::Apply(id)
        },
        ClientEvent::Snapshot => Reply::SendSnapshot,
    }
}

/// The name a client goes by and the message left to handle after it
/// joins, from its account's name and its first message: a hello gives
/// the name when the account does not, anything else waits.
pub fn greeting(account: Option<String>, first: Option<ClientEvent>) -> (r: (Option<String>, Option<ClientEvent>))
    ensures
        match first {
            Some(ClientEvent::Hello(n)) => r.1 is None && r.0 == match account {
                Some(a) => Some(a),
                None => n,
            },
            Some(other) => r.0 == account && r.1 == Some(other),
            None => r.0 == account && r.1 is None,
        },
{
    match first {
        Some(ClientEvent::Hello(n)) => {
            let name = match account {
                Some(a) => Some(a),
                None => n,
            };
            (name, None)
        },
        Some(other) => (account, Some(other)),
        None => (account, None),
    }
}

} // verus!
