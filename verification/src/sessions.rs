//! The session table: one entry per session token, naming the account
//! and when the session was last used.

use crate::text::str_eq;
use vstd::prelude::*;

verus! {

/// A signed-in browser: whose session it is and when it was last used.
#[derive(Debug)]
pub struct Session {
    pub user: String,
    pub last_used: u64,
}

impl Clone for Session {
    fn clone(&self) -> (r: Session)
        ensures
            r.user@ == self.user@,
            r.last_used == self.last_used,
    {
        Session { user: self.user.clone(), last_used: self.last_used }
    }
}

/// What the table records of one session: the account id and the time
/// of last use.
pub type SessionView = (Seq<char>, u64);

/// Sessions by token, each token at most once.
pub struct SessionTable {
    entries: Vec<(String, Session)>,
}

/// The key of an entry.
pub open spec fn key_of(e: (String, Session)) -> Seq<char> {
    e.0@
}

/// The value of an entry.
pub open spec fn value_of(e: (String, Session)) -> SessionView {
    (e.1.user@, e.1.last_used)
}

/// The entries as a map, later entries over earlier ones.
pub open spec fn entries_map(s: Seq<(String, Session)>) -> Map<Seq<char>, SessionView>
    decreases s.len(),
{
    if s.len() == 0 {
        Map::empty()
    } else {
        entries_map(s.drop_last()).insert(key_of(s.last()), value_of(s.last()))
    }
}

/// No token occurs twice.
pub open spec fn keys_unique(s: Seq<(String, Session)>) -> bool {
    forall|i: int, j: int|
        0 <= i < s.len() && 0 <= j < s.len() && i != j ==> key_of(#[trigger] s[i]) != key_of(
            #[trigger] s[j],
        )
}

proof fn lemma_map_has_index(s: Seq<(String, Session)>, i: int)
    requires
        keys_unique(s),
        0 <= i < s.len(),
    ensures
        entries_map(s).contains_key(key_of(s[i])),
        entries_map(s)[key_of(s[i])] == value_of(s[i]),
    decreases s.len(),
{
    if i < s.len() - 1 {
        lemma_map_has_index(s.drop_last(), i);
        assert(key_of(s.last()) != key_of(s[i]));
    }
}

proof fn lemma_map_dom(s: Seq<(String, Session)>, k: Seq<char>)
    ensures
        entries_map(s).contains_key(k) <==> exists|i: int| 0 <= i < s.len() && key_of(s[i]) == k,
    decreases s.len(),
{
    if s.len() > 0 {
        lemma_map_dom(s.drop_last(), k);
        if entries_map(s.drop_last()).contains_key(k) {
            let i = choose|i: int| 0 <= i < s.drop_last().len() && key_of(s.drop_last()[i]) == k;
            assert(key_of(s[i]) == k);
        }
        if exists|i: int| 0 <= i < s.len() && key_of(s[i]) == k {
            let i = choose|i: int| 0 <= i < s.len() && key_of(s[i]) == k;
            if i < s.len() - 1 {
                assert(key_of(s.drop_last()[i]) == k);
            }
        }
    }
}

proof fn lemma_map_remove(s: Seq<(String, Session)>, i: int)
    requires
        keys_unique(s),
        0 <= i < s.len(),
    ensures
        keys_unique(s.remove(i)),
        entries_map(s.remove(i)) == entries_map(s).remove(key_of(s[i])),
    decreases s.len(),
{
    let k = key_of(s[i]);
    let t = s.remove(i);
    assert forall|a: int, b: int|
        0 <= a < t.len() && 0 <= b < t.len() && a != b implies key_of(#[trigger] t[a]) != key_of(
        #[trigger] t[b],
    ) by {
        let a0 = if a < i { a } else { a + 1 };
        let b0 = if b < i { b } else { b + 1 };
        assert(t[a] == s[a0]);
        assert(t[b] == s[b0]);
    }
    if i == s.len() - 1 {
        assert(t =~= s.drop_last());
        lemma_map_dom(s.drop_last(), k);
        if entries_map(s.drop_last()).contains_key(k) {
            let j = choose|j: int| 0 <= j < s.drop_last().len() && key_of(s.drop_last()[j]) == k;
            assert(key_of(s[j]) == k);
        }
        assert(entries_map(t) =~= entries_map(s).remove(k));
    } else {
        let d = s.drop_last();
        assert(keys_unique(d));
        lemma_map_remove(d, i);
        assert(t =~= d.remove(i).push(s.last()));
        assert(t.drop_last() =~= d.remove(i));
        assert(key_of(s.last()) != k);
        assert(entries_map(t) =~= entries_map(s).remove(k));
    }
}

proof fn lemma_map_push(s: Seq<(String, Session)>, e: (String, Session))
    requires
        keys_unique(s),
        !entries_map(s).contains_key(key_of(e)),
    ensures
        keys_unique(s.push(e)),
        entries_map(s.push(e)) == entries_map(s).insert(key_of(e), value_of(e)),
{
    let t = s.push(e);
    assert(t.drop_last() =~= s);
    assert forall|a: int, b: int|
        0 <= a < t.len() && 0 <= b < t.len() && a != b implies key_of(#[trigger] t[a]) != key_of(
        #[trigger] t[b],
    ) by {
        if a == s.len() {
            lemma_map_has_index(s, b);
        } else if b == s.len() {
            lemma_map_has_index(s, a);
        }
    }
}

/// Sessions last used `SESSION_SECS` or more before `t` are stale.
pub open spec fn fresh_at(last_used: u64, t: u64, limit: u64) -> bool {
    (if t >= last_used { t - last_used } else { 0 }) < limit
}

/// The sessions of `m` that are still fresh at `t`.
pub open spec fn fresh_part(m: Map<Seq<char>, SessionView>, t: u64, limit: u64) -> Map<
    Seq<char>,
    SessionView,
> {
    Map::new(|k: Seq<char>| m.contains_key(k) && fresh_at(m[k].1, t, limit), |k: Seq<char>| m[k])
}

impl View for SessionTable {
    type V = Map<Seq<char>, SessionView>;

    closed spec fn view(&self) -> Map<Seq<char>, SessionView> {
        entries_map(self.entries@)
    }
}

impl SessionTable {
    #[verifier::type_invariant]
    spec fn unique(&self) -> bool {
        keys_unique(self.entries@)
    }

    /// An empty table.
    pub fn new() -> (t: SessionTable)
        ensures
            t@ == Map::<Seq<char>, SessionView>::empty(),
    {
        SessionTable { entries: Vec::new() }
    }

    fn index_of(&self, tok: &str) -> (r: Option<usize>)
        ensures
            match r {
                Some(i) => i < self.entries@.len() && key_of(self.entries@[i as int]) == tok@,
                None => !self@.contains_key(tok@),
            },
    {
        proof {
            use_type_invariant(self);
        }
        let mut i: usize = 0;
        while i < self.entries.len()
            invariant
                i <= self.entries@.len(),
                forall|j: int| 0 <= j < i ==> key_of(#[trigger] self.entries@[j]) != tok@,
            decreases self.entries@.len() - i,
        {
            if str_eq(self.entries[i].0.as_str(), tok) {
                return Some(i);
            }
            i = i + 1;
        }
        proof {
            lemma_map_dom(self.entries@, tok@);
        }
        None
    }

    /// The account and last use of the session `tok`, if there is one.
    pub fn get(&self, tok: &str) -> (r: Option<(String, u64)>)
        ensures
            match r {
                Some((user, last)) => self@.contains_key(tok@) && self@[tok@] == (user@, last),
                None => !self@.contains_key(tok@),
            },
    {
        proof {
            use_type_invariant(self);
        }
        match self.index_of(tok) {
            Some(i) => {
                proof {
                    lemma_map_has_index(self.entries@, i as int);
                }
                let e = &self.entries[i];
                Some((e.1.user.clone(), e.1.last_used))
            },
            None => None,
        }
    }

    /// Removes the session `tok`; says whether there was one.
    pub fn remove(&mut self, tok: &str) -> (removed: bool)
        ensures
            removed == old(self)@.contains_key(tok@),
            final(self)@ == old(self)@.remove(tok@),
    {
        proof {
            use_type_invariant(&*self);
        }
        match self.index_of(tok) {
            Some(i) => {
                proof {
                    lemma_map_has_index(self.entries@, i as int);
                    lemma_map_remove(self.entries@, i as int);
                }
                let mut es: Vec<(String, Session)> = Vec::new();
                std::mem::swap(&mut es, &mut self.entries);
                es.remove(i);
                self.entries = es;
                true
            },
            None => {
                assert(old(self)@.remove(tok@) =~= old(self)@);
                false
            },
        }
    }

    /// Records the session `tok`, replacing any earlier one of that token.
    pub fn insert(&mut self, tok: String, session: Session)
        ensures
            final(self)@ == old(self)@.insert(tok@, (session.user@, session.last_used)),
    {
        self.remove(tok.as_str());
        proof {
            use_type_invariant(&*self);
            lemma_map_push(self.entries@, (tok, session));
        }
        let ghost k = tok@;
        let ghost v = (session.user@, session.last_used);
        let mut es: Vec<(String, Session)> = Vec::new();
        std::mem::swap(&mut es, &mut self.entries);
        es.push((tok, session));
        self.entries = es;
        assert(final(self)@ =~= old(self)@.insert(k, v));
    }

    /// Sets the last use of the existing session `tok` to `t`.
    pub fn touch(&mut self, tok: &str, t: u64)
        requires
            old(self)@.contains_key(tok@),
        ensures
            final(self)@ == old(self)@.insert(tok@, (old(self)@[tok@].0, t)),
    {
        let got = self.get(tok);
        match got {
            Some((user, _)) => {
                let key = crate::text::text(tok);
                self.insert(key, Session { user, last_used: t });
            },
            None => {},
        }
    }

    /// Drops every session not used within `limit` seconds before `t`.
    pub fn retain_fresh(&mut self, t: u64, limit: u64)
        ensures
            final(self)@ == fresh_part(old(self)@, t, limit),
    {
        proof {
            use_type_invariant(&*self);
        }
        let mut kept: Vec<(String, Session)> = Vec::new();
        let mut old_entries: Vec<(String, Session)> = Vec::new();
        std::mem::swap(&mut old_entries, &mut self.entries);
        let ghost all = old_entries@;
        let n = old_entries.len();
        let mut i: usize = 0;
        while i < n
            invariant
                n == all.len(),
                i <= n,
                keys_unique(all),
                old_entries@ == all.subrange(i as int, n as int),
                keys_unique(kept@),
                entries_map(kept@) == fresh_part(entries_map(all.take(i as int)), t, limit),
                forall|k: Seq<char>| #[trigger]
                    entries_map(kept@).contains_key(k) ==> entries_map(all.take(i as int)).contains_key(k),
            decreases n - i,
        {
            let e = old_entries.remove(0);
            let ghost m0 = entries_map(all.take(i as int));
            proof {
                assert(e == all[i as int]);
                assert(all.take(i + 1).drop_last() =~= all.take(i as int));
                assert(all.take(i + 1).last() == all[i as int]);
                lemma_map_dom(all.take(i as int), key_of(e));
                if m0.contains_key(key_of(e)) {
                    let j = choose|j: int|
                        0 <= j < all.take(i as int).len() && key_of(all.take(i as int)[j])
                            == key_of(e);
                    assert(all[j] == all.take(i as int)[j]);
                }
                assert(!m0.contains_key(key_of(e)));
            }
            let keep = if t >= e.1.last_used {
                t - e.1.last_used < limit
            } else {
                0 < limit
            };
            if keep {
                proof {
                    lemma_map_push(kept@, e);
                }
                kept.push(e);
            }
            i = i + 1;
            proof {
                assert(old_entries@ =~= all.subrange(i as int, n as int));
                assert(entries_map(kept@) =~= fresh_part(entries_map(all.take(i as int)), t, limit));
            }
        }
        assert(all.take(n as int) =~= all);
        self.entries = kept;
    }

    /// The entries, for saving: each token once, and as a map they are
    /// the table.
    pub fn entries(&self) -> (es: &Vec<(String, Session)>)
        ensures
            keys_unique(es@),
            entries_map(es@) == self@,
    {
        proof {
            use_type_invariant(self);
        }
        &self.entries
    }
}

} // verus!
