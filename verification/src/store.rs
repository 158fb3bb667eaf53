//! Document metadata and the rules of the document store: who may open,
//! change or manage a document, and what sharing, invitations and
//! branching do to its metadata. Reading and writing the files is left
//! to the caller; every operation here takes the metadata as read and
//! returns the metadata to write.

use crate::auth::{User, UserInfo, UserView};
use crate::teams::TeamShare;
use crate::text::{hex_char, hex_of, lower_hex, push_hex, push_lower_hex, push_str, str_eq, text};
use vstd::prelude::*;

verus! {

/// What a shared account may do with a document.
#[derive(Debug, Clone, Copy, PartialEq, Eq, Structural)]
pub enum ShareRole {
    Editor,
    Viewer,
}

/// The document (and version, when one was chosen) a branch was made from.
#[derive(Debug, PartialEq)]
pub struct BranchOrigin {
    pub doc: String,
    pub doc_name: String,
    pub version: Option<String>,
    pub version_name: Option<String>,
}

/// The view of an optional string.
pub open spec fn opt_text(s: Option<String>) -> Option<Seq<char>> {
    match s {
        Some(t) => Some(t@),
        None => None,
    }
}

/// What metadata records of a branch's origin.
pub struct BranchView {
    pub doc: Seq<char>,
    pub doc_name: Seq<char>,
    pub version: Option<Seq<char>>,
    pub version_name: Option<Seq<char>>,
}

impl View for BranchOrigin {
    type V = BranchView;

    open spec fn view(&self) -> BranchView {
        BranchView {
            doc: self.doc@,
            doc_name: self.doc_name@,
            version: opt_text(self.version),
            version_name: opt_text(self.version_name),
        }
    }
}

fn clone_opt(s: &Option<String>) -> (r: Option<String>)
    ensures
        opt_text(r) == opt_text(*s),
{
    match s {
        Some(t) => Some(t.clone()),
        None => None,
    }
}

impl Clone for BranchOrigin {
    fn clone(&self) -> (r: BranchOrigin)
        ensures
            r@ == self@,
    {
        BranchOrigin {
            doc: self.doc.clone(),
            doc_name: self.doc_name.clone(),
            version: clone_opt(&self.version),
            version_name: clone_opt(&self.version_name),
        }
    }
}

/// An invitation link to a document.
#[derive(Debug, PartialEq, Eq)]
pub struct Invite {
    pub token: String,
    pub role: ShareRole,
    pub created: u64,
}

impl View for Invite {
    type V = (Seq<char>, ShareRole, u64);

    open spec fn view(&self) -> (Seq<char>, ShareRole, u64) {
        (self.token@, self.role, self.created)
    }
}

impl Clone for Invite {
    fn clone(&self) -> (r: Invite)
        ensures
            r@ == self@,
    {
        Invite { token: self.token.clone(), role: self.role, created: self.created }
    }
}

/// A saved version of a document.
#[derive(Debug)]
pub struct VersionMeta {
    pub id: String,
    pub name: String,
    pub created: u64,
}

/// A document's metadata.
#[derive(Debug)]
pub struct DocMeta {
    pub id: String,
    pub name: String,
    pub created: u64,
    pub updated: u64,
    /// Next id-range prefix to hand to a connecting client.
    pub next_prefix: u32,
    /// The account that created the document; `None` means open to all.
    pub owner: Option<UserInfo>,
    /// Accounts the owner shared the document with, who may edit it.
    pub collaborators: Vec<UserInfo>,
    /// Accounts the owner shared the document with read-only.
    pub viewers: Vec<UserInfo>,
    /// Open invitation links.
    pub invites: Vec<Invite>,
    /// Teams the owner shared the document with, each in a role.
    pub teams: Vec<TeamShare>,
    /// Where a branched document came from.
    pub parent: Option<BranchOrigin>,
}

/// An account as metadata records it: id and name.
pub type Person = (Seq<char>, Seq<char>);

/// A team share as metadata records it: team id, team name, role.
pub type TeamEntry = (Seq<char>, Seq<char>, ShareRole);

/// What metadata says of a document.
pub struct DocMetaView {
    pub id: Seq<char>,
    pub name: Seq<char>,
    pub created: u64,
    pub updated: u64,
    pub next_prefix: u32,
    pub owner: Option<Person>,
    pub collaborators: Seq<Person>,
    pub viewers: Seq<Person>,
    pub invites: Seq<(Seq<char>, ShareRole, u64)>,
    pub teams: Seq<TeamEntry>,
    pub parent: Option<BranchView>,
}

/// The people of a list.
pub open spec fn people(v: Seq<UserInfo>) -> Seq<Person> {
    v.map_values(|u: UserInfo| u@)
}

impl View for DocMeta {
    type V = DocMetaView;

    open spec fn view(&self) -> DocMetaView {
        DocMetaView {
            id: self.id@,
            name: self.name@,
            created: self.created,
            updated: self.updated,
            next_prefix: self.next_prefix,
            owner: match self.owner {
                Some(o) => Some(o@),
                None => None,
            },
            collaborators: people(self.collaborators@),
            viewers: people(self.viewers@),
            invites: self.invites@.map_values(|i: Invite| i@),
            teams: self.teams@.map_values(|t: TeamShare| t@),
            parent: match self.parent {
                Some(p) => Some(p@),
                None => None,
            },
        }
    }
}

fn clone_owner(o: &Option<UserInfo>) -> (r: Option<UserInfo>)
    ensures
        match r {
            Some(a) => o.is_some() && a@ == o->0@,
            None => o.is_none(),
        },
{
    match o {
        Some(u) => Some(u.clone()),
        None => None,
    }
}

fn clone_parent(p: &Option<BranchOrigin>) -> (r: Option<BranchOrigin>)
    ensures
        match r {
            Some(a) => p.is_some() && a@ == p->0@,
            None => p.is_none(),
        },
{
    match p {
        Some(b) => Some(b.clone()),
        None => None,
    }
}

impl Clone for DocMeta {
    fn clone(&self) -> (r: DocMeta)
        ensures
            r@ == self@,
    {
        let collaborators = self.collaborators.clone();
        let viewers = self.viewers.clone();
        let invites = self.invites.clone();
        let teams = self.teams.clone();
        assert(people(collaborators@) =~= people(self.collaborators@));
        assert(people(viewers@) =~= people(self.viewers@));
        assert(invites@.map_values(|i: Invite| i@) =~= self.invites@.map_values(|i: Invite| i@));
        assert(teams@.map_values(|t: TeamShare| t@) =~= self.teams@.map_values(|t: TeamShare| t@));
        DocMeta {
            id: self.id.clone(),
            name: self.name.clone(),
            created: self.created,
            updated: self.updated,
            next_prefix: self.next_prefix,
            owner: clone_owner(&self.owner),
            collaborators,
            viewers,
            invites,
            teams,
            parent: clone_parent(&self.parent),
        }
    }
}

impl Clone for VersionMeta {
    fn clone(&self) -> (r: VersionMeta)
        ensures
            r.id@ == self.id@,
            r.name@ == self.name@,
            r.created == self.created,
    {
        VersionMeta { id: self.id.clone(), name: self.name.clone(), created: self.created }
    }
}

// ---------------------------------------------------------- who may what

/// `id` is one of the accounts in `list`.
pub open spec fn listed(list: Seq<Person>, id: Seq<char>) -> bool {
    exists|i: int| 0 <= i < list.len() && (#[trigger] list[i]).0 == id
}

/// The document is shared with one of `user_teams` (as editors, when
/// `editors` is set).
pub open spec fn shared_with_team(teams: Seq<TeamEntry>, user_teams: Seq<Seq<char>>, editors: bool) -> bool {
    exists|i: int, j: int|
        0 <= i < teams.len() && 0 <= j < user_teams.len() && (#[trigger] teams[i]).0
            == #[trigger] user_teams[j] && (!editors || teams[i].2 == ShareRole::Editor)
}

/// Whether `user` may open the document (and edit it, when it has no
/// owner): the owner, collaborators, viewers and members of the teams it
/// is shared with.
pub open spec fn may_access(m: DocMetaView, user: Option<UserView>) -> bool {
    match m.owner {
        None => true,
        Some(o) => match user {
            None => false,
            Some(u) => u.id == o.0 || listed(m.collaborators, u.id) || listed(m.viewers, u.id)
                || shared_with_team(m.teams, u.teams, false),
        },
    }
}

/// Whether `user` may change the document: the owner, collaborators and
/// members of teams it is shared with as editors; anyone for a document
/// without an owner.
pub open spec fn may_edit(m: DocMetaView, user: Option<UserView>) -> bool {
    match m.owner {
        None => true,
        Some(o) => match user {
            None => false,
            Some(u) => u.id == o.0 || listed(m.collaborators, u.id) || shared_with_team(
                m.teams,
                u.teams,
                true,
            ),
        },
    }
}

/// Whether `user` may delete or share the document: the owner; anyone
/// for a document without an owner.
pub open spec fn may_manage(m: DocMetaView, user: Option<UserView>) -> bool {
    match m.owner {
        None => true,
        Some(o) => match user {
            None => false,
            Some(u) => u.id == o.0,
        },
    }
}

/// The view of an optional user.
pub open spec fn user_view(user: Option<&User>) -> Option<UserView> {
    match user {
        Some(u) => Some(u@),
        None => None,
    }
}

fn is_listed(list: &Vec<UserInfo>, id: &String) -> (b: bool)
    ensures
        b == listed(people(list@), id@),
{
    let mut i: usize = 0;
    while i < list.len()
        invariant
            i <= list@.len(),
            forall|j: int| 0 <= j < i ==> (#[trigger] people(list@)[j]).0 != id@,
        decreases list@.len() - i,
    {
        if str_eq(list[i].id.as_str(), id.as_str()) {
            assert(people(list@)[i as int].0 == id@);
            return true;
        }
        i = i + 1;
    }
    false
}

fn in_teams(teams: &Vec<TeamShare>, user_teams: &Vec<String>, editors: bool) -> (b: bool)
    ensures
        b == shared_with_team(
            teams@.map_values(|t: TeamShare| t@),
            user_teams@.map_values(|s: String| s@),
            editors,
        ),
{
    let ghost ts = teams@.map_values(|t: TeamShare| t@);
    let ghost us = user_teams@.map_values(|s: String| s@);
    let mut i: usize = 0;
    while i < teams.len()
        invariant
            i <= teams@.len(),
            ts == teams@.map_values(|t: TeamShare| t@),
            us == user_teams@.map_values(|s: String| s@),
            forall|a: int, b: int|
                0 <= a < i && 0 <= b < us.len() && (#[trigger] ts[a]).0 == #[trigger] us[b]
                    ==> editors && ts[a].2 != ShareRole::Editor,
        decreases teams@.len() - i,
    {
        if !editors || teams[i].role == ShareRole::Editor {
            let mut j: usize = 0;
            while j < user_teams.len()
                invariant
                    i < teams@.len(),
                    j <= user_teams@.len(),
                    ts == teams@.map_values(|t: TeamShare| t@),
                    us == user_teams@.map_values(|s: String| s@),
                    !editors || ts[i as int].2 == ShareRole::Editor,
                    forall|b: int| 0 <= b < j ==> ts[i as int].0 != #[trigger] us[b],
                decreases user_teams@.len() - j,
            {
                if str_eq(teams[i].id.as_str(), user_teams[j].as_str()) {
                    assert(ts[i as int].0 == us[j as int]);
                    return true;
                }
                j = j + 1;
            }
        }
        i = i + 1;
    }
    false
}

impl DocMeta {
    /// Whether `user` may open the document.
    pub fn can_access(&self, user: Option<&User>) -> (b: bool)
        ensures
            b == may_access(self@, user_view(user)),
    {
        match &self.owner {
            None => true,
            Some(o) => match user {
                None => false,
                Some(u) => str_eq(u.id.as_str(), o.id.as_str()) || is_listed(
                    &self.collaborators,
                    &u.id,
                ) || is_listed(&self.viewers, &u.id) || in_teams(&self.teams, &u.teams, false),
            },
        }
    }

    /// Whether `user` may change the document (owner and editors; anyone
    /// for a document without an owner).
    pub fn can_edit(&self, user: Option<&User>) -> (b: bool)
        ensures
            b == may_edit(self@, user_view(user)),
    {
        match &self.owner {
            None => true,
            Some(o) => match user {
                None => false,
                Some(u) => str_eq(u.id.as_str(), o.id.as_str()) || is_listed(
                    &self.collaborators,
                    &u.id,
                ) || in_teams(&self.teams, &u.teams, true),
            },
        }
    }

    /// Whether `user` may delete or share the document.
    pub fn can_manage(&self, user: Option<&User>) -> (b: bool)
        ensures
            b == may_manage(self@, user_view(user)),
    {
        match &self.owner {
            None => true,
            Some(o) => match user {
                None => false,
                Some(u) => str_eq(u.id.as_str(), o.id.as_str()),
            },
        }
    }

    /// The metadata as `user` may see it: invitation tokens are the
    /// owner's business only.
    pub fn visible_to(self, user: Option<&User>) -> (m: DocMeta)
        ensures
            m@ == if may_manage(self@, user_view(user)) {
                self@
            } else {
                DocMetaView { invites: Seq::empty(), ..self@ }
            },
    {
        let mut m = self;
        let ghost before = m@;
        if !m.can_manage(user) {
            m.invites.clear();
            assert(m@.invites =~= Seq::<(Seq<char>, ShareRole, u64)>::empty());
        }
        assert(m@.collaborators =~= before.collaborators);
        assert(m@.viewers =~= before.viewers);
        assert(m@.teams =~= before.teams);
        m
    }

    /// The metadata of a new document `id` named `name`, created at `t`,
    /// owned by `owner` and shared with nobody.
    pub fn new(id: String, name: &str, owner: Option<UserInfo>, t: u64) -> (m: DocMeta)
        ensures
            m@ == (DocMetaView {
                id: id@,
                name: name@,
                created: t,
                updated: t,
                next_prefix: 1,
                owner: match owner {
                    Some(o) => Some(o@),
                    None => None,
                },
                collaborators: Seq::empty(),
                viewers: Seq::empty(),
                invites: Seq::empty(),
                teams: Seq::empty(),
                parent: None,
            }),
    {
        let m = DocMeta {
            id,
            name: text(name),
            created: t,
            updated: t,
            next_prefix: first_prefix(),
            owner,
            collaborators: Vec::new(),
            viewers: Vec::new(),
            invites: Vec::new(),
            teams: Vec::new(),
            parent: None,
        };
        assert(m@.collaborators =~= Seq::<Person>::empty());
        assert(m@.viewers =~= Seq::<Person>::empty());
        assert(m@.invites =~= Seq::<(Seq<char>, ShareRole, u64)>::empty());
        assert(m@.teams =~= Seq::<TeamEntry>::empty());
        m
    }
}

/// The id made from a clock reading of `nanos` and the `counter`th id of
/// the process: `nanos` with the counter in its top bits, in hexadecimal,
/// then the counter's low byte in two hexadecimal digits.
pub open spec fn id_text(nanos: u64, counter: u64) -> Seq<char> {
    let mixed = nanos ^ (counter << 48u64);
    let low = counter & 0xffu64;
    lower_hex(mixed as nat) + seq![hex_char((low / 16) as nat), hex_char((low % 16) as nat)]
}

/// A new document or version id from the clock and a counter.
pub fn doc_id(nanos: u64, counter: u64) -> (id: String)
    ensures
        id@ == id_text(nanos, counter),
{
    let mut id = String::new();
    push_lower_hex(&mut id, nanos ^ (counter << 48));
    let low = counter & 0xff;
    assert(low < 256) by (bit_vector)
        requires
            low == counter & 0xffu64,
    ;
    let lb: u8 = low as u8;
    let mut b: Vec<u8> = Vec::new();
    b.push(lb);
    let ghost before = id@;
    push_hex(&mut id, b.as_slice());
    proof {
        reveal_with_fuel(hex_of, 2);
        assert(b@.drop_last() =~= Seq::<u8>::empty());
    }
    assert(id@ =~= id_text(nanos, counter));
    id
}

proof fn lemma_lower_hex_digits(n: nat)
    ensures
        lower_hex(n).len() > 0,
        forall|i: int| 0 <= i < lower_hex(n).len() ==> #[trigger] hex_digit(lower_hex(n)[i]),
    decreases n,
{
    if n >= 16 {
        lemma_lower_hex_digits(n / 16);
    }
}

/// Every id the store makes is one it accepts.
pub proof fn law_made_ids_are_valid(nanos: u64, counter: u64)
    ensures
        is_valid_id(id_text(nanos, counter)),
{
    lemma_lower_hex_digits((nanos ^ (counter << 48u64)) as nat);
    let low = counter & 0xffu64;
    assert(low < 256) by (bit_vector)
        requires
            low == counter & 0xffu64,
    ;
}

/// How many times `take_prefix` follows a branch to the document it came
/// from.
pub const PREFIX_HOPS: usize = 16;

/// In a list sorted newest first, the entry `a` comes before `b`: it is
/// newer, or as new and earlier in the unsorted list.
pub open spec fn precedes(keys: Seq<u64>, a: int, b: int) -> bool {
    keys[a] > keys[b] || (keys[a] == keys[b] && a < b)
}

/// `order` lists each of `0..n` once.
pub open spec fn is_permutation(order: Seq<usize>, n: nat) -> bool {
    &&& order.len() == n
    &&& forall|i: int| 0 <= i < order.len() ==> #[trigger] order[i] < n
    &&& forall|i: int, j: int| 0 <= i < j < order.len() ==> order[i] != order[j]
}

/// Every entry of `order` comes before the ones after it.
pub open spec fn newest_first_order(keys: Seq<u64>, order: Seq<usize>) -> bool {
    forall|i: int, j: int|
        0 <= i < j < order.len() ==> precedes(keys, #[trigger] order[i] as int, #[trigger] order[j] as int)
}

/// The order that sorts entries with times `keys` newest first, keeping
/// entries of the same time in their order: the positions of the entries
/// in that order.
pub fn newest_first(keys: &Vec<u64>) -> (order: Vec<usize>)
    ensures
        is_permutation(order@, keys@.len()),
        newest_first_order(keys@, order@),
{
    let mut order: Vec<usize> = Vec::new();
    let n = keys.len();
    let mut k: usize = 0;
    while k < n
        invariant
            n == keys@.len(),
            k <= n,
            is_permutation(order@, k as nat),
            newest_first_order(keys@, order@),
        decreases n - k,
    {
        let key = keys[k];
        let mut p: usize = 0;
        while p < order.len() && keys[order[p]] >= key
            invariant
                n == keys@.len(),
                k < n,
                p <= order@.len(),
                is_permutation(order@, k as nat),
                forall|i: int| 0 <= i < p ==> keys@[#[trigger] order@[i] as int] >= key,
            decreases order@.len() - p,
        {
            p = p + 1;
        }
        let ghost old_order = order@;
        proof {
            assert forall|j: int| p <= j < old_order.len() implies keys@[#[trigger] old_order[j] as int] < key by {
                if j > p {
                    assert(precedes(keys@, old_order[p as int] as int, old_order[j] as int));
                }
            }
        }
        order.insert(p, k);
        proof {
            assert(order@ == old_order.insert(p as int, k));
            assert forall|i: int, j: int|
                0 <= i < j < order@.len() implies precedes(keys@, #[trigger] order@[i] as int, #[trigger] order@[j] as int) by {
                if j < p {
                    assert(order@[i] == old_order[i] && order@[j] == old_order[j]);
                } else if j == p {
                    assert(order@[i] == old_order[i]);
                } else if i < p {
                    assert(order@[i] == old_order[i] && order@[j] == old_order[j - 1]);
                } else if i == p {
                    assert(order@[j] == old_order[j - 1]);
                } else {
                    assert(order@[i] == old_order[i - 1] && order@[j] == old_order[j - 1]);
                }
            }
        }
        k = k + 1;
    }
    order
}

/// The prefix a new document starts handing out.
pub fn first_prefix() -> (p: u32)
    ensures
        p == 1,
{
    1
}

// ------------------------------------------------------------- the store

/// Why a metadata operation failed.
#[derive(Debug, Clone, Copy, PartialEq, Eq, Structural)]
pub enum StoreError {
    /// No such document.
    NoSuchDocument,
    /// No such invitation.
    NoSuchInvitation,
}

/// The rules of the document store.
pub struct DocStore;

/// `list` without the accounts with id `id`.
pub open spec fn without(list: Seq<Person>, id: Seq<char>) -> Seq<Person> {
    list.filter(|p: Person| p.0 != id)
}

/// `teams` without the team `id`.
pub open spec fn without_team(teams: Seq<TeamEntry>, id: Seq<char>) -> Seq<TeamEntry> {
    teams.filter(|t: TeamEntry| t.0 != id)
}

/// `invites` without the link `token`.
pub open spec fn without_invite(invites: Seq<(Seq<char>, ShareRole, u64)>, token: Seq<char>) -> Seq<
    (Seq<char>, ShareRole, u64),
> {
    invites.filter(other_token(token))
}

/// Picks the invitation links whose token is not `token`.
pub open spec fn other_token(token: Seq<char>) -> spec_fn((Seq<char>, ShareRole, u64)) -> bool {
    |i: (Seq<char>, ShareRole, u64)| i.0 != token
}

/// The metadata after sharing with `user` in `role`: an owner stays as
/// they are; anyone else leaves both lists and joins the one of `role`.
pub open spec fn shared(m: DocMetaView, user: Person, role: ShareRole) -> DocMetaView {
    if m.owner matches Some(o) && o.0 == user.0 {
        m
    } else {
        let c = without(m.collaborators, user.0);
        let v = without(m.viewers, user.0);
        DocMetaView {
            collaborators: if role == ShareRole::Editor {
                c.push(user)
            } else {
                c
            },
            viewers: if role == ShareRole::Viewer {
                v.push(user)
            } else {
                v
            },
            ..m
        }
    }
}

/// Whether sharing with `user` changes the metadata file: always but for
/// the owner.
pub open spec fn share_writes(m: DocMetaView, user: Person) -> bool {
    !(m.owner matches Some(o) && o.0 == user.0)
}

pub(crate) proof fn lemma_filter_step<A>(s: Seq<A>, i: int, pred: spec_fn(A) -> bool)
    requires
        0 <= i < s.len(),
    ensures
        s.take(i + 1).filter(pred) == if pred(s[i]) {
            s.take(i).filter(pred).push(s[i])
        } else {
            s.take(i).filter(pred)
        },
{
    reveal_with_fuel(Seq::<_>::filter, 1);
    assert(s.take(i + 1).drop_last() =~= s.take(i));
    assert(s.take(i + 1).last() == s[i]);
}

/// The next id-range prefix after `p`: one more, kept to 12 bits and
/// never 0.
pub open spec fn prefix_after(p: u32) -> u32 {
    let q = ((p as int + 1) % 0x1_0000_0000) as u32 & 0xfffu32;
    if q < 1 {
        1
    } else {
        q
    }
}

pub(crate) fn people_without(list: Vec<UserInfo>, id: &String) -> (r: Vec<UserInfo>)
    ensures
        people(r@) == without(people(list@), id@),
{
    let ghost all = people(list@);
    let mut out: Vec<UserInfo> = Vec::new();
    let mut rest = list;
    let n = rest.len();
    let mut i: usize = 0;
    let ghost orig = rest@;
    while i < n
        invariant
            n == orig.len(),
            i <= n,
            all == people(orig),
            rest@ == orig.subrange(i as int, n as int),
            people(out@) == without(all.take(i as int), id@),
        decreases n - i,
    {
        let p = rest.remove(0);
        assert(p == orig[i as int]);
        assert(all.take(i + 1).drop_last() =~= all.take(i as int));
        assert(all[i as int] == p@);
        proof {
            lemma_filter_step(all, i as int, |q: Person| q.0 != id@);
        }
        let ghost before = out@;
        if !str_eq(p.id.as_str(), id.as_str()) {
            out.push(p);
            assert(people(out@) =~= people(before).push(all[i as int]));
        }
        i = i + 1;
        assert(rest@ =~= orig.subrange(i as int, n as int));
    }
    assert(all.take(n as int) =~= all);
    out
}

fn teams_without(list: Vec<TeamShare>, id: &String) -> (r: Vec<TeamShare>)
    ensures
        r@.map_values(|t: TeamShare| t@) == without_team(list@.map_values(|t: TeamShare| t@), id@),
{
    let ghost all = list@.map_values(|t: TeamShare| t@);
    let mut out: Vec<TeamShare> = Vec::new();
    let mut rest = list;
    let n = rest.len();
    let mut i: usize = 0;
    let ghost orig = rest@;
    while i < n
        invariant
            n == orig.len(),
            i <= n,
            all == orig.map_values(|t: TeamShare| t@),
            rest@ == orig.subrange(i as int, n as int),
            out@.map_values(|t: TeamShare| t@) == without_team(all.take(i as int), id@),
        decreases n - i,
    {
        let p = rest.remove(0);
        assert(p == orig[i as int]);
        assert(all.take(i + 1).drop_last() =~= all.take(i as int));
        assert(all[i as int] == p@);
        proof {
            lemma_filter_step(all, i as int, |q: TeamEntry| q.0 != id@);
        }
        let ghost before = out@;
        if !str_eq(p.id.as_str(), id.as_str()) {
            out.push(p);
            assert(out@.map_values(|t: TeamShare| t@) =~= before.map_values(|t: TeamShare| t@).push(
                all[i as int],
            ));
        }
        i = i + 1;
        assert(rest@ =~= orig.subrange(i as int, n as int));
    }
    assert(all.take(n as int) =~= all);
    out
}

fn invites_without(list: Vec<Invite>, token: &str) -> (r: Vec<Invite>)
    ensures
        r@.map_values(|i: Invite| i@) == without_invite(list@.map_values(|i: Invite| i@), token@),
{
    let ghost all = list@.map_values(|i: Invite| i@);
    let mut out: Vec<Invite> = Vec::new();
    let mut rest = list;
    let n = rest.len();
    let mut i: usize = 0;
    let ghost orig = rest@;
    while i < n
        invariant
            n == orig.len(),
            i <= n,
            all == orig.map_values(|i: Invite| i@),
            rest@ == orig.subrange(i as int, n as int),
            out@.map_values(|i: Invite| i@) == without_invite(all.take(i as int), token@),
        decreases n - i,
    {
        let p = rest.remove(0);
        assert(p == orig[i as int]);
        assert(all.take(i + 1).drop_last() =~= all.take(i as int));
        assert(all[i as int] == p@);
        proof {
            lemma_filter_step(all, i as int, other_token(token@));
        }
        let ghost before = out@;
        if !str_eq(p.token.as_str(), token) {
            out.push(p);
            assert(out@.map_values(|i: Invite| i@) =~= before.map_values(|i: Invite| i@).push(
                all[i as int],
            ));
        }
        i = i + 1;
        assert(rest@ =~= orig.subrange(i as int, n as int));
    }
    assert(all.take(n as int) =~= all);
    out
}

impl DocStore {
    /// Whether `id` can name a document: non-empty ASCII hexadecimal.
    pub fn valid_id(id: &str) -> (b: bool)
        ensures
            b == is_valid_id(id@),
    {
        let mut n: usize = 0;
        let mut all = true;
        for c in it: id.chars()
            invariant
                n == if it.index() == 0 { 0int } else { 1 },
                it.seq() == id@,
                all == (forall|i: int| 0 <= i < it.index() ==> #[trigger] hex_digit(id@[i])),
        {
            if !is_hex(c) {
                all = false;
            }
            n = 1;
        }
        all && n == 1
    }

    /// The document file of `id`, under the data directory.
    pub fn doc_path(id: &str) -> (p: String)
        ensures
            p@ == "docs/"@ + id@ + ".okpart"@,
    {
        let mut p = text("docs/");
        push_str(&mut p, id);
        push_str(&mut p, ".okpart");
        p
    }

    /// The metadata file of `id`, under the data directory.
    pub fn meta_path(id: &str) -> (p: String)
        ensures
            p@ == "docs/"@ + id@ + ".meta.json"@,
    {
        let mut p = text("docs/");
        push_str(&mut p, id);
        push_str(&mut p, ".meta.json");
        p
    }

    /// The file holding the state a branch was made from.
    pub fn base_path(id: &str) -> (p: String)
        ensures
            p@ == "docs/"@ + id@ + ".base.okpart"@,
    {
        let mut p = text("docs/");
        push_str(&mut p, id);
        push_str(&mut p, ".base.okpart");
        p
    }

    /// The directory of the saved versions of `id`.
    pub fn versions_dir(id: &str) -> (p: String)
        ensures
            p@ == "docs/"@ + id@ + ".versions"@,
    {
        let mut p = text("docs/");
        push_str(&mut p, id);
        push_str(&mut p, ".versions");
        p
    }

    /// The metadata, or `NoSuchDocument` when there is none.
    pub fn meta_or_not_found(meta: Option<DocMeta>) -> (r: Result<DocMeta, StoreError>)
        ensures
            match meta {
                None => r == Err::<DocMeta, StoreError>(StoreError::NoSuchDocument),
                Some(m) => r matches Ok(m2) && m2@ == m@,
            },
    {
        match meta {
            None => Err(StoreError::NoSuchDocument),
            Some(m) => Ok(m),
        }
    }

    /// Shares the document with `user` in `role`, replacing any earlier
    /// role; the owner is left as is. Says whether the metadata file is
    /// to be written.
    pub fn share(meta: Option<DocMeta>, user: UserInfo, role: ShareRole) -> (r: Result<
        (DocMeta, bool),
        StoreError,
    >)
        ensures
            match meta {
                None => r == Err::<(DocMeta, bool), StoreError>(StoreError::NoSuchDocument),
                Some(m) => r matches Ok((m2, w)) && m2@ == shared(m@, user@, role) && w
                    == share_writes(m@, user@),
            },
    {
        let mut m = match meta {
            None => {
                return Err(StoreError::NoSuchDocument);
            },
            Some(m) => m,
        };
        let owner_is_user = match &m.owner {
            Some(o) => str_eq(o.id.as_str(), user.id.as_str()),
            None => false,
        };
        if owner_is_user {
            return Ok((m, false));
        }
        let ghost before = m@;
        let mut collaborators: Vec<UserInfo> = Vec::new();
        std::mem::swap(&mut collaborators, &mut m.collaborators);
        let mut collaborators = people_without(collaborators, &user.id);
        let mut viewers: Vec<UserInfo> = Vec::new();
        std::mem::swap(&mut viewers, &mut m.viewers);
        let mut viewers = people_without(viewers, &user.id);
        let ghost u = user@;
        match role {
            ShareRole::Editor => {
                collaborators.push(user);
            },
            ShareRole::Viewer => {
                viewers.push(user);
            },
        }
        m.collaborators = collaborators;
        m.viewers = viewers;
        assert(m@.collaborators =~= shared(before, u, role).collaborators);
        assert(m@.viewers =~= shared(before, u, role).viewers);
        assert(m@.invites =~= before.invites);
        assert(m@.teams =~= before.teams);
        Ok((m, true))
    }

    /// Takes `user_id` off both sharing lists.
    pub fn unshare(meta: Option<DocMeta>, user_id: &str) -> (r: Result<DocMeta, StoreError>)
        ensures
            match meta {
                None => r == Err::<DocMeta, StoreError>(StoreError::NoSuchDocument),
                Some(m) => r matches Ok(m2) && m2@ == (DocMetaView {
                    collaborators: without(m@.collaborators, user_id@),
                    viewers: without(m@.viewers, user_id@),
                    ..m@
                }),
            },
    {
        let mut m = match meta {
            None => {
                return Err(StoreError::NoSuchDocument);
            },
            Some(m) => m,
        };
        let ghost before = m@;
        let id = text(user_id);
        let mut collaborators: Vec<UserInfo> = Vec::new();
        std::mem::swap(&mut collaborators, &mut m.collaborators);
        m.collaborators = people_without(collaborators, &id);
        let mut viewers: Vec<UserInfo> = Vec::new();
        std::mem::swap(&mut viewers, &mut m.viewers);
        m.viewers = people_without(viewers, &id);
        assert(m@.invites =~= before.invites);
        assert(m@.teams =~= before.teams);
        Ok(m)
    }

    /// Records where a branched document came from.
    pub fn set_parent(meta: Option<DocMeta>, parent: BranchOrigin) -> (r: Result<
        DocMeta,
        StoreError,
    >)
        ensures
            match meta {
                None => r == Err::<DocMeta, StoreError>(StoreError::NoSuchDocument),
                Some(m) => r matches Ok(m2) && m2@ == (DocMetaView { parent: Some(parent@), ..m@ }),
            },
    {
        let mut m = Self::meta_or_not_found(meta)?;
        let ghost before = m@;
        m.parent = Some(parent);
        assert(m@.collaborators =~= before.collaborators);
        assert(m@.viewers =~= before.viewers);
        assert(m@.invites =~= before.invites);
        assert(m@.teams =~= before.teams);
        Ok(m)
    }

    /// Shares with a team in its role, replacing any earlier role.
    pub fn share_team(meta: Option<DocMeta>, team: TeamShare) -> (r: Result<DocMeta, StoreError>)
        ensures
            match meta {
                None => r == Err::<DocMeta, StoreError>(StoreError::NoSuchDocument),
                Some(m) => r matches Ok(m2) && m2@ == (DocMetaView {
                    teams: without_team(m@.teams, team@.0).push(team@),
                    ..m@
                }),
            },
    {
        let mut m = Self::meta_or_not_found(meta)?;
        let ghost before = m@;
        let mut teams: Vec<TeamShare> = Vec::new();
        std::mem::swap(&mut teams, &mut m.teams);
        let mut teams = teams_without(teams, &team.id);
        let ghost t = team@;
        teams.push(team);
        m.teams = teams;
        assert(m@.teams =~= without_team(before.teams, t.0).push(t));
        assert(m@.collaborators =~= before.collaborators);
        assert(m@.viewers =~= before.viewers);
        assert(m@.invites =~= before.invites);
        Ok(m)
    }

    /// Stops sharing with the team `team_id`.
    pub fn unshare_team(meta: Option<DocMeta>, team_id: &str) -> (r: Result<DocMeta, StoreError>)
        ensures
            match meta {
                None => r == Err::<DocMeta, StoreError>(StoreError::NoSuchDocument),
                Some(m) => r matches Ok(m2) && m2@ == (DocMetaView {
                    teams: without_team(m@.teams, team_id@),
                    ..m@
                }),
            },
    {
        let mut m = Self::meta_or_not_found(meta)?;
        let ghost before = m@;
        let id = text(team_id);
        let mut teams: Vec<TeamShare> = Vec::new();
        std::mem::swap(&mut teams, &mut m.teams);
        m.teams = teams_without(teams, &id);
        assert(m@.collaborators =~= before.collaborators);
        assert(m@.viewers =~= before.viewers);
        assert(m@.invites =~= before.invites);
        Ok(m)
    }

    /// Adds an invitation link with token `token`, made at `t`, in `role`.
    pub fn create_invite_with(meta: Option<DocMeta>, role: ShareRole, token: String, t: u64) -> (r:
        Result<(DocMeta, Invite), StoreError>)
        ensures
            match meta {
                None => r == Err::<(DocMeta, Invite), StoreError>(StoreError::NoSuchDocument),
                Some(m) => r matches Ok((m2, inv)) && inv@ == (token@, role, t) && m2@
                    == (DocMetaView { invites: m@.invites.push(inv@), ..m@ }),
            },
    {
        let mut m = Self::meta_or_not_found(meta)?;
        let ghost before = m@;
        let invite = Invite { token, role, created: t };
        m.invites.push(invite.clone());
        assert(m@.invites =~= before.invites.push(invite@));
        assert(m@.collaborators =~= before.collaborators);
        assert(m@.viewers =~= before.viewers);
        assert(m@.teams =~= before.teams);
        Ok((m, invite))
    }

    /// Adds an invitation link with a fresh token, made now.
    pub fn create_invite(meta: Option<DocMeta>, role: ShareRole) -> (r: Result<
        (DocMeta, Invite),
        StoreError,
    >)
        ensures
            match meta {
                None => r == Err::<(DocMeta, Invite), StoreError>(StoreError::NoSuchDocument),
                Some(m) => r matches Ok((m2, inv)) && inv.role == role && (exists|b: Seq<u8>|
                    b.len() == 32 && inv.token@ == crate::text::hex_of(b)) && m2@ == (DocMetaView {
                    invites: m@.invites.push(inv@),
                    ..m@
                }),
            },
    {
        let token = crate::auth::token();
        let t = crate::auth::now();
        Self::create_invite_with(meta, role, token, t)
    }

    /// Withdraws an invitation link; accounts that already joined stay.
    pub fn revoke_invite(meta: Option<DocMeta>, token: &str) -> (r: Result<DocMeta, StoreError>)
        ensures
            match meta {
                None => r == Err::<DocMeta, StoreError>(StoreError::NoSuchDocument),
                Some(m) => r matches Ok(m2) && m2@ == (DocMetaView {
                    invites: without_invite(m@.invites, token@),
                    ..m@
                }),
            },
    {
        let mut m = Self::meta_or_not_found(meta)?;
        let ghost before = m@;
        let mut invites: Vec<Invite> = Vec::new();
        std::mem::swap(&mut invites, &mut m.invites);
        m.invites = invites_without(invites, token);
        assert(m@.collaborators =~= before.collaborators);
        assert(m@.viewers =~= before.viewers);
        assert(m@.teams =~= before.teams);
        Ok(m)
    }

    /// Joins `user` to the document in the role of the invitation
    /// `token` (its first link of that token), or `NoSuchInvitation` when
    /// the document has no such link.
    pub fn accept_invite(meta: Option<DocMeta>, token: &str, user: UserInfo) -> (r: Result<
        (DocMeta, bool),
        StoreError,
    >)
        ensures
            match meta {
                None => r == Err::<(DocMeta, bool), StoreError>(StoreError::NoSuchDocument),
                Some(m) => match first_invite(m@.invites, token@) {
                    None => r == Err::<(DocMeta, bool), StoreError>(StoreError::NoSuchInvitation),
                    Some(role) => r matches Ok((m2, w)) && m2@ == shared(m@, user@, role) && w
                        == share_writes(m@, user@),
                },
            },
    {
        let m = Self::meta_or_not_found(meta)?;
        let mut i: usize = 0;
        let ghost invs = m@.invites;
        while i < m.invites.len()
            invariant
                i <= m.invites@.len(),
                invs == m@.invites,
                meta is Some && meta->0@ == m@,
                forall|j: int| 0 <= j < i ==> (#[trigger] invs[j]).0 != token@,
            decreases m.invites@.len() - i,
        {
            if str_eq(m.invites[i].token.as_str(), token) {
                let role = m.invites[i].role;
                proof {
                    lemma_first_invite(invs, token@, i as int);
                }
                return Self::share(Some(m), user, role);
            }
            i = i + 1;
        }
        proof {
            lemma_no_invite(invs, token@);
        }
        Err(StoreError::NoSuchInvitation)
    }

    /// Hands out the document's next client id-range prefix and advances
    /// it.
    pub fn take_prefix(meta: Option<DocMeta>) -> (r: Result<(DocMeta, u32), StoreError>)
        ensures
            match meta {
                None => r == Err::<(DocMeta, u32), StoreError>(StoreError::NoSuchDocument),
                Some(m) => r matches Ok((m2, p)) && p == m@.next_prefix && m2@ == (DocMetaView {
                    next_prefix: prefix_after(m@.next_prefix),
                    ..m@
                }),
            },
    {
        let mut m = Self::meta_or_not_found(meta)?;
        let ghost before = m@;
        let prefix = m.next_prefix;
        let q = prefix.wrapping_add(1) & 0xfff;
        m.next_prefix = if q < 1 {
            1
        } else {
            q
        };
        assert(m@.collaborators =~= before.collaborators);
        assert(m@.viewers =~= before.viewers);
        assert(m@.invites =~= before.invites);
        assert(m@.teams =~= before.teams);
        Ok((m, prefix))
    }

    /// The metadata after the document is saved at `t`, renamed when a
    /// name is given.
    pub fn write(meta: Option<DocMeta>, name: Option<&str>, t: u64) -> (r: Result<
        DocMeta,
        StoreError,
    >)
        ensures
            match meta {
                None => r == Err::<DocMeta, StoreError>(StoreError::NoSuchDocument),
                Some(m) => r matches Ok(m2) && m2@ == (DocMetaView {
                    name: match name {
                        Some(n) => n@,
                        None => m@.name,
                    },
                    updated: t,
                    ..m@
                }),
            },
    {
        let mut m = Self::meta_or_not_found(meta)?;
        let ghost before = m@;
        match name {
            Some(n) => {
                m.name = text(n);
            },
            None => {},
        }
        m.updated = t;
        assert(m@.collaborators =~= before.collaborators);
        assert(m@.viewers =~= before.viewers);
        assert(m@.invites =~= before.invites);
        assert(m@.teams =~= before.teams);
        Ok(m)
    }
}

fn is_hex(c: char) -> (b: bool)
    ensures
        b == hex_digit(c),
{
    ('0' <= c && c <= '9') || ('a' <= c && c <= 'f') || ('A' <= c && c <= 'F')
}

/// An ASCII hexadecimal digit.
pub open spec fn hex_digit(c: char) -> bool {
    ('0' <= c && c <= '9') || ('a' <= c && c <= 'f') || ('A' <= c && c <= 'F')
}

/// A document or version id: non-empty ASCII hexadecimal.
pub open spec fn is_valid_id(id: Seq<char>) -> bool {
    id.len() > 0 && forall|i: int| 0 <= i < id.len() ==> #[trigger] hex_digit(id[i])
}

/// The role of the first invitation link with `token`.
pub open spec fn first_invite(invites: Seq<(Seq<char>, ShareRole, u64)>, token: Seq<char>) -> Option<
    ShareRole,
> {
    if exists|i: int| 0 <= i < invites.len() && (#[trigger] invites[i]).0 == token {
        let i = choose|i: int|
            0 <= i < invites.len() && invites[i].0 == token && forall|j: int|
                0 <= j < i ==> (#[trigger] invites[j]).0 != token;
        Some(invites[i].1)
    } else {
        None
    }
}

proof fn lemma_first_invite(invites: Seq<(Seq<char>, ShareRole, u64)>, token: Seq<char>, i: int)
    requires
        0 <= i < invites.len(),
        invites[i].0 == token,
        forall|j: int| 0 <= j < i ==> (#[trigger] invites[j]).0 != token,
    ensures
        first_invite(invites, token) == Some(invites[i].1),
{
    let k = choose|k: int|
        0 <= k < invites.len() && invites[k].0 == token && forall|j: int|
            0 <= j < k ==> (#[trigger] invites[j]).0 != token;
    assert(0 <= k < invites.len() && invites[k].0 == token && forall|j: int|
        0 <= j < k ==> (#[trigger] invites[j]).0 != token) by {
        assert(invites[i].0 == token);
    }
    if k < i {
        assert(invites[k].0 != token);
    } else if k > i {
        assert(invites[i].0 != token);
    }
}

proof fn lemma_no_invite(invites: Seq<(Seq<char>, ShareRole, u64)>, token: Seq<char>)
    requires
        forall|j: int| 0 <= j < invites.len() ==> (#[trigger] invites[j]).0 != token,
    ensures
        first_invite(invites, token) is None,
{
}


// ------------------------------------------------------------------ laws

/// A filter keeps nothing its predicate refuses.
proof fn lemma_filtered_out(list: Seq<Person>, id: Seq<char>)
    ensures
        !listed(without(list, id), id),
{
    let f = without(list, id);
    if listed(f, id) {
        let i = choose|i: int| 0 <= i < f.len() && (#[trigger] f[i]).0 == id;
        list.lemma_filter_pred(|p: Person| p.0 != id, i);
    }
}

/// Filtering twice by the same predicate is filtering once.
proof fn lemma_filter_twice<A>(s: Seq<A>, pred: spec_fn(A) -> bool)
    ensures
        s.filter(pred).filter(pred) == s.filter(pred),
    decreases s.len(),
{
    reveal_with_fuel(Seq::<_>::filter, 1);
    if s.len() > 0 {
        lemma_filter_twice(s.drop_last(), pred);
        let f = s.drop_last().filter(pred);
        if pred(s.last()) {
            assert(f.push(s.last()).drop_last() =~= f);
        }
    }
}

/// Who may manage may edit, and who may edit may open.
pub proof fn law_rights_are_nested(m: DocMetaView, user: Option<UserView>)
    ensures
        may_manage(m, user) ==> may_edit(m, user),
        may_edit(m, user) ==> may_access(m, user),
{
    if may_edit(m, user) && m.owner is Some && user is Some {
        let u = user->0;
        if shared_with_team(m.teams, u.teams, true) {
            let (i, j) = choose|i: int, j: int|
                0 <= i < m.teams.len() && 0 <= j < u.teams.len() && (#[trigger] m.teams[i]).0
                    == #[trigger] u.teams[j] && (!true || m.teams[i].2 == ShareRole::Editor);
            assert(m.teams[i].0 == u.teams[j]);
        }
    }
}

/// A document without an owner is open to everyone, signed in or not.
pub proof fn law_unowned_documents_are_open(m: DocMetaView, user: Option<UserView>)
    requires
        m.owner is None,
    ensures
        may_access(m, user),
        may_edit(m, user),
        may_manage(m, user),
{
}

/// Hiding the invitations changes nobody's rights, and hides them from
/// everyone who may not manage the document.
pub proof fn law_visible_to_keeps_rights(m: DocMetaView, viewer: Option<UserView>, user: Option<UserView>)
    ensures
        ({
            let v = if may_manage(m, viewer) {
                m
            } else {
                DocMetaView { invites: Seq::empty(), ..m }
            };
            &&& may_access(v, user) == may_access(m, user)
            &&& may_edit(v, user) == may_edit(m, user)
            &&& may_manage(v, user) == may_manage(m, user)
            &&& !may_manage(m, viewer) ==> v.invites.len() == 0
            &&& may_manage(m, viewer) ==> v.invites == m.invites
        }),
{
}

/// Sharing with an account lets it open the document, and change it
/// when shared as an editor.
pub proof fn law_share_grants_the_role(m: DocMetaView, p: Person, role: ShareRole, u: UserView)
    requires
        u.id == p.0,
    ensures
        may_access(shared(m, p, role), Some(u)),
        role == ShareRole::Editor ==> may_edit(shared(m, p, role), Some(u)),
{
    let s = shared(m, p, role);
    if share_writes(m, p) {
        if role == ShareRole::Editor {
            assert(s.collaborators[s.collaborators.len() - 1].0 == u.id);
        } else {
            assert(s.viewers[s.viewers.len() - 1].0 == u.id);
        }
    }
}

/// Sharing with a team lets every member open the document, and change
/// it when the team is shared as editors.
pub proof fn law_team_share_reaches_every_member(m: DocMetaView, t: TeamEntry, u: UserView, j: int)
    requires
        m.owner is Some,
        0 <= j < u.teams.len(),
        u.teams[j] == t.0,
    ensures
        may_access(DocMetaView { teams: without_team(m.teams, t.0).push(t), ..m }, Some(u)),
        t.2 == ShareRole::Editor ==> may_edit(
            DocMetaView { teams: without_team(m.teams, t.0).push(t), ..m },
            Some(u),
        ),
{
    let ts = without_team(m.teams, t.0).push(t);
    let i = ts.len() - 1;
    assert(ts[i].0 == u.teams[j]);
}

/// Sharing replaces an earlier role: shared as a viewer, an account is
/// no collaborator; shared as an editor, it is no viewer.
pub proof fn law_share_replaces_the_role(m: DocMetaView, p: Person, role: ShareRole)
    requires
        share_writes(m, p),
    ensures
        role == ShareRole::Viewer ==> !listed(shared(m, p, role).collaborators, p.0),
        role == ShareRole::Editor ==> !listed(shared(m, p, role).viewers, p.0),
{
    lemma_filtered_out(m.collaborators, p.0);
    lemma_filtered_out(m.viewers, p.0);
}

/// Sharing twice with one account in one role is sharing once.
pub proof fn law_share_is_idempotent(m: DocMetaView, p: Person, role: ShareRole)
    ensures
        shared(shared(m, p, role), p, role) == shared(m, p, role),
{
    let s = shared(m, p, role);
    if share_writes(m, p) {
        let pred = |q: Person| q.0 != p.0;
        lemma_filter_twice(m.collaborators, pred);
        lemma_filter_twice(m.viewers, pred);
        reveal_with_fuel(Seq::<_>::filter, 1);
        let c = without(m.collaborators, p.0);
        let v = without(m.viewers, p.0);
        assert(c.push(p).drop_last() =~= c);
        assert(v.push(p).drop_last() =~= v);
        assert(without(s.collaborators, p.0) =~= c);
        assert(without(s.viewers, p.0) =~= v);
        assert(shared(s, p, role).collaborators =~= s.collaborators);
        assert(shared(s, p, role).viewers =~= s.viewers);
    }
}

/// Taking an account off the sharing lists takes its access away, unless
/// it owns the document or one of its teams has it.
pub proof fn law_unshare_revokes_access(m: DocMetaView, id: Seq<char>, u: UserView)
    requires
        u.id == id,
        m.owner matches Some(o) && o.0 != id,
        !shared_with_team(m.teams, u.teams, false),
    ensures
        !may_access(
            DocMetaView {
                collaborators: without(m.collaborators, id),
                viewers: without(m.viewers, id),
                ..m
            },
            Some(u),
        ),
{
    lemma_filtered_out(m.collaborators, id);
    lemma_filtered_out(m.viewers, id);
}

/// A withdrawn invitation link cannot be accepted any more.
pub proof fn law_revoked_invitations_are_gone(invites: Seq<(Seq<char>, ShareRole, u64)>, token: Seq<char>)
    ensures
        first_invite(without_invite(invites, token), token) is None,
{
    let pred = other_token(token);
    let f = invites.filter(pred);
    assert forall|j: int| 0 <= j < f.len() implies (#[trigger] f[j]).0 != token by {
        invites.lemma_filter_pred(pred, j);
    }
}

/// An invitation link made with a token no other link of the document
/// has joins whoever accepts it in the role it was made for: the account
/// may open the document, and may change it when the link was for
/// editors.
pub proof fn law_invitation_links_join_in_their_role(
    m: DocMetaView,
    inv: (Seq<char>, ShareRole, u64),
    p: Person,
    u: UserView,
)
    requires
        first_invite(m.invites, inv.0) is None,
        u.id == p.0,
    ensures
        first_invite(m.invites.push(inv), inv.0) == Some(inv.1),
        may_access(shared(DocMetaView { invites: m.invites.push(inv), ..m }, p, inv.1), Some(u)),
        inv.1 == ShareRole::Editor ==> may_edit(
            shared(DocMetaView { invites: m.invites.push(inv), ..m }, p, inv.1),
            Some(u),
        ),
{
    let invs = m.invites.push(inv);
    let i = m.invites.len() as int;
    assert forall|j: int| 0 <= j < i implies (#[trigger] invs[j]).0 != inv.0 by {
        assert(invs[j] == m.invites[j]);
    }
    lemma_first_invite(invs, inv.0, i);
    law_share_grants_the_role(DocMetaView { invites: invs, ..m }, p, inv.1, u);
}

/// The id-range prefixes handed out after the first stay within 1 to
/// 4095.
pub proof fn law_prefixes_stay_in_range(p: u32)
    ensures
        1 <= prefix_after(p) <= 0xfff,
{
    let q = ((p as int + 1) % 0x1_0000_0000) as u32;
    assert(q & 0xfffu32 <= 0xfffu32) by (bit_vector);
}


// ------------------------------------------------------- prefix families

/// One step of the walk `take_prefix` makes from a document to the one
/// its branch family started from: after `hops` steps, a document whose
/// recorded origin `parent` exists is left for that origin, unless
/// `PREFIX_HOPS` steps have been taken; otherwise the walk stops here.
pub open spec fn walk_step(hops: nat, parent: Option<Seq<char>>, parent_exists: bool) -> Option<Seq<char>> {
    if hops < PREFIX_HOPS && parent is Some && parent_exists {
        parent
    } else {
        None
    }
}

/// Decides one step of the walk to a branch family's first document:
/// the document to go on to, or `None` to take the prefix here.
/// `parent` is the origin the current document records, and
/// `parent_exists` whether that document is there.
pub fn prefix_walk_step(hops: usize, parent: Option<String>, parent_exists: bool) -> (next: Option<String>)
    ensures
        match next {
            Some(p) => walk_step(hops as nat, match parent {
                Some(q) => Some(q@),
                None => None,
            }, parent_exists) == Some(p@),
            None => walk_step(hops as nat, match parent {
                Some(q) => Some(q@),
                None => None,
            }, parent_exists) is None,
        },
{
    if hops < PREFIX_HOPS && parent_exists {
        parent
    } else {
        None
    }
}

/// The documents of a store as the walk sees them: each existing
/// document's id, with the origin it records.
pub type Origins = Map<Seq<char>, Option<Seq<char>>>;

/// Whether the walk goes on from `id`: it exists, records an origin, and
/// that origin exists.
pub open spec fn has_origin(docs: Origins, id: Seq<char>) -> bool {
    docs.contains_key(id) && docs[id] is Some && docs.contains_key(docs[id]->0)
}

/// Where the walk that has taken `hops` steps and stands at `id` ends:
/// the document whose prefix counter is used.
pub open spec fn walk_end(docs: Origins, id: Seq<char>, hops: nat) -> Seq<char>
    decreases PREFIX_HOPS - hops,
{
    if hops < PREFIX_HOPS && has_origin(docs, id) {
        walk_end(docs, docs[id]->0, hops + 1)
    } else {
        id
    }
}

/// The first document of `id`'s branch family, if following origins from
/// `id` reaches one without an origin in at most `k` steps.
pub open spec fn family_root(docs: Origins, id: Seq<char>, k: nat) -> Option<Seq<char>>
    decreases k,
{
    if !has_origin(docs, id) {
        Some(id)
    } else if k == 0 {
        None
    } else {
        family_root(docs, docs[id]->0, (k - 1) as nat)
    }
}

proof fn lemma_walk_reaches_root(docs: Origins, id: Seq<char>, k: nat, hops: nat)
    requires
        family_root(docs, id, k) is Some,
        hops + k <= PREFIX_HOPS,
    ensures
        walk_end(docs, id, hops) == family_root(docs, id, k)->0,
    decreases k,
{
    if has_origin(docs, id) {
        lemma_walk_reaches_root(docs, docs[id]->0, (k - 1) as nat, hops + 1);
    }
}

/// A branch family of fewer than `PREFIX_HOPS` generations draws its
/// prefixes from one counter: from a document whose origins lead within
/// `k < PREFIX_HOPS` steps to a first document, and from a branch made of
/// it, the walk ends at that first document.
pub proof fn law_a_branch_draws_from_its_family(docs: Origins, origin: Seq<char>, branch: Seq<char>, k: nat)
    requires
        family_root(docs, origin, k) is Some,
        k < PREFIX_HOPS,
        docs.contains_key(branch),
        docs[branch] == Some(origin),
        docs.contains_key(origin),
    ensures
        walk_end(docs, origin, 0) == family_root(docs, origin, k)->0,
        walk_end(docs, branch, 0) == family_root(docs, origin, k)->0,
{
    lemma_walk_reaches_root(docs, origin, k, 0);
    lemma_walk_reaches_root(docs, origin, k, 1);
    assert(has_origin(docs, branch));
}

/// The prefix after `n` more draws from a counter standing at `p`.
pub open spec fn prefix_after_n(p: u32, n: nat) -> u32
    decreases n,
{
    if n == 0 {
        p
    } else {
        prefix_after(prefix_after_n(p, (n - 1) as nat))
    }
}

proof fn lemma_prefix_step(p: u32)
    requires
        1 <= p <= 0xfff,
    ensures
        prefix_after(p) == if p < 0xfff {
            p + 1
        } else {
            1
        },
{
    let q = ((p as int + 1) % 0x1_0000_0000) as u32;
    assert(q == p + 1);
    assert(q == p + 1 && 1 <= p < 0xfff ==> q & 0xfffu32 == q) by (bit_vector);
    assert(q == p + 1 && p == 0xfff ==> q & 0xfffu32 == 0) by (bit_vector);
}

proof fn lemma_prefix_after_n(p: u32, n: nat)
    requires
        1 <= p <= 0xfff,
    ensures
        prefix_after_n(p, n) == ((p - 1 + n) % 0xfff) + 1,
    decreases n,
{
    if n > 0 {
        lemma_prefix_after_n(p, (n - 1) as nat);
        let x = p - 1 + n - 1;
        lemma_prefix_step(prefix_after_n(p, (n - 1) as nat));
        assert((x + 1) % 0xfff == if x % 0xfff == 0xffe {
            0
        } else {
            x % 0xfff + 1
        }) by (nonlinear_arith)
            requires
                x >= 0,
        ;
    }
}

/// Prefixes drawn one after another from one counter are all different
/// until 4095 have been drawn: ids made under them stay distinct.
pub proof fn law_prefixes_repeat_only_after_4095_draws(p: u32, i: nat, j: nat)
    requires
        1 <= p <= 0xfff,
        i < j < 0xfff,
    ensures
        prefix_after_n(p, i) != prefix_after_n(p, j),
        1 <= prefix_after_n(p, j) <= 0xfff,
{
    lemma_prefix_after_n(p, i);
    lemma_prefix_after_n(p, j);
    let a = p - 1 + i;
    let b = p - 1 + j;
    assert(a % 0xfff != b % 0xfff) by (nonlinear_arith)
        requires
            0 <= a < b,
            b - a < 0xfff,
    ;
}

} // verus!
