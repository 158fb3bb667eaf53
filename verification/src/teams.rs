//! Teams: named groups of accounts a document can be shared with at once.

use crate::auth::{User, UserInfo};
use crate::store::ShareRole;
use crate::text::{str_eq, trim, trimmed};
use vstd::prelude::*;

verus! {

/// A team a document is shared with, and how.
#[derive(Debug, PartialEq)]
pub struct TeamShare {
    pub id: String,
    pub name: String,
    pub role: ShareRole,
}

impl View for TeamShare {
    type V = (Seq<char>, Seq<char>, ShareRole);

    open spec fn view(&self) -> (Seq<char>, Seq<char>, ShareRole) {
        (self.id@, self.name@, self.role)
    }
}

impl Clone for TeamShare {
    fn clone(&self) -> (r: TeamShare)
        ensures
            r@ == self@,
    {
        TeamShare { id: self.id.clone(), name: self.name.clone(), role: self.role }
    }
}


/// A named group of accounts; its creator owns it.
#[derive(Debug, PartialEq)]
pub struct Team {
    pub id: String,
    pub name: String,
    pub owner: UserInfo,
    /// Members besides the owner.
    pub members: Vec<UserInfo>,
    pub created: u64,
}

/// What the store knows of a team.
pub struct TeamView {
    pub id: Seq<char>,
    pub name: Seq<char>,
    pub owner: (Seq<char>, Seq<char>),
    pub members: Seq<(Seq<char>, Seq<char>)>,
    pub created: u64,
}

impl View for Team {
    type V = TeamView;

    open spec fn view(&self) -> TeamView {
        TeamView {
            id: self.id@,
            name: self.name@,
            owner: self.owner@,
            members: self.members@.map_values(|m: UserInfo| m@),
            created: self.created,
        }
    }
}

fn clone_people(v: &Vec<UserInfo>) -> (r: Vec<UserInfo>)
    ensures
        r@.map_values(|m: UserInfo| m@) == v@.map_values(|m: UserInfo| m@),
{
    let mut r: Vec<UserInfo> = Vec::new();
    let mut i: usize = 0;
    while i < v.len()
        invariant
            i <= v@.len(),
            r@.map_values(|m: UserInfo| m@) == v@.take(i as int).map_values(|m: UserInfo| m@),
        decreases v@.len() - i,
    {
        let ghost before = r@;
        r.push(v[i].clone());
        assert(r@.map_values(|m: UserInfo| m@) =~= before.map_values(|m: UserInfo| m@).push(
            v@[i as int]@,
        ));
        assert(v@.take(i + 1).map_values(|m: UserInfo| m@) =~= v@.take(i as int).map_values(
            |m: UserInfo| m@,
        ).push(v@[i as int]@));
        i = i + 1;
    }
    assert(v@.take(i as int) =~= v@);
    r
}

impl Clone for Team {
    fn clone(&self) -> (r: Team)
        ensures
            r@ == self@,
    {
        Team {
            id: self.id.clone(),
            name: self.name.clone(),
            owner: self.owner.clone(),
            members: clone_people(&self.members),
            created: self.created,
        }
    }
}

/// `user_id` is the owner or a member of the team.
pub open spec fn team_has(t: TeamView, user_id: Seq<char>) -> bool {
    t.owner.0 == user_id || exists|i: int|
        0 <= i < t.members.len() && (#[trigger] t.members[i]).0 == user_id
}

impl Team {
    /// Whether `user_id` owns the team or belongs to it.
    pub fn has_member(&self, user_id: &str) -> (b: bool)
        ensures
            b == team_has(self@, user_id@),
    {
        if str_eq(self.owner.id.as_str(), user_id) {
            return true;
        }
        let mut i: usize = 0;
        while i < self.members.len()
            invariant
                i <= self.members@.len(),
                forall|j: int| 0 <= j < i ==> (#[trigger] self@.members[j]).0 != user_id@,
            decreases self.members@.len() - i,
        {
            if str_eq(self.members[i].id.as_str(), user_id) {
                assert(self@.members[i as int].0 == user_id@);
                return true;
            }
            i = i + 1;
        }
        false
    }
}

/// Why a team operation failed.
#[derive(Debug, Clone, Copy, PartialEq, Eq, Structural)]
pub enum TeamError {
    /// Team names are 2–48 characters.
    BadName,
    /// No such team.
    NotFound,
    /// Only the team's owner can do that.
    NotOwner,
}

/// The teams of a server.
pub struct TeamStore {
    teams: Vec<Team>,
    changed: bool,
}

/// The first team with id `id`, if any.
pub open spec fn first_team(teams: Seq<TeamView>, id: Seq<char>, i: int) -> bool {
    &&& 0 <= i < teams.len()
    &&& teams[i].id == id
    &&& forall|j: int| 0 <= j < i ==> (#[trigger] teams[j]).id != id
}

/// No team has id `id`.
pub open spec fn no_team(teams: Seq<TeamView>, id: Seq<char>) -> bool {
    forall|j: int| 0 <= j < teams.len() ==> (#[trigger] teams[j]).id != id
}

/// The team after adding `member`: unchanged when they are the owner or
/// already a member.
pub open spec fn with_member(t: TeamView, member: (Seq<char>, Seq<char>)) -> TeamView {
    if team_has(t, member.0) {
        t
    } else {
        TeamView { members: t.members.push(member), ..t }
    }
}

/// The team after removing the member `member_id`.
pub open spec fn without_member(t: TeamView, member_id: Seq<char>) -> TeamView {
    TeamView { members: t.members.filter(|m: (Seq<char>, Seq<char>)| m.0 != member_id), ..t }
}

/// How an edit of team `id` by `by` turns out: `NotFound` without such a
/// team, `NotOwner` unless `by` owns the first one, else `Ok` with the
/// team's index.
pub open spec fn edit_outcome(teams: Seq<TeamView>, id: Seq<char>, by: Seq<char>) -> Result<
    int,
    TeamError,
> {
    if no_team(teams, id) {
        Err(TeamError::NotFound)
    } else {
        let i = choose|i: int| first_team(teams, id, i);
        if teams[i].owner.0 != by {
            Err(TeamError::NotOwner)
        } else {
            Ok(i)
        }
    }
}

proof fn lemma_first_team_unique(teams: Seq<TeamView>, id: Seq<char>, i: int)
    requires
        first_team(teams, id, i),
    ensures
        !no_team(teams, id),
        (choose|k: int| first_team(teams, id, k)) == i,
{
    let k = choose|k: int| first_team(teams, id, k);
    assert(first_team(teams, id, k));
    if k < i {
        assert(teams[k].id != id);
    }
    if k > i {
        assert(teams[i].id != id);
    }
}

impl TeamStore {
    /// The teams, in creation order.
    pub closed spec fn teams(&self) -> Seq<TeamView> {
        self.teams@.map_values(|t: Team| t@)
    }

    /// The teams changed since the last `take_changes`.
    pub closed spec fn dirty(&self) -> bool {
        self.changed
    }

    /// A store of the saved `teams`.
    pub fn restore(teams: Vec<Team>) -> (s: TeamStore)
        ensures
            s.teams() == teams@.map_values(|t: Team| t@),
            !s.dirty(),
    {
        TeamStore { teams, changed: false }
    }

    /// The teams, for saving.
    pub fn team_list(&self) -> (ts: &Vec<Team>)
        ensures
            ts@.map_values(|t: Team| t@) == self.teams(),
    {
        &self.teams
    }

    /// Whether the teams changed since the last call; forgets it.
    pub fn take_changes(&mut self) -> (changed: bool)
        ensures
            changed == old(self).dirty(),
            !final(self).dirty(),
            final(self).teams() == old(self).teams(),
    {
        let c = self.changed;
        self.changed = false;
        c
    }

    /// Creates the team `name` (trimmed) owned by `owner`, with id `id`,
    /// made at `t`.
    pub fn create_with(&mut self, name: &str, owner: &User, id: String, t: u64) -> (r: Result<
        Team,
        TeamError,
    >)
        ensures
            !(2 <= trimmed(name@).len() <= 48) ==> r == Err::<Team, TeamError>(TeamError::BadName)
                && final(self).teams() == old(self).teams() && final(self).dirty() == old(
                self).dirty(),
            2 <= trimmed(name@).len() <= 48 ==> (r matches Ok(team) && team@ == (TeamView {
                id: id@,
                name: trimmed(name@),
                owner: (owner.id@, owner.name@),
                members: Seq::empty(),
                created: t,
            }) && final(self).teams() == old(self).teams().push(team@) && final(self).dirty()),
    {
        let name = trim(name);
        let n = crate::text::chars_of(name.as_str()).len();
        if n < 2 || n > 48 {
            return Err(TeamError::BadName);
        }
        let team = Team {
            id,
            name,
            owner: UserInfo::of(owner),
            members: Vec::new(),
            created: t,
        };
        assert(team@.members =~= Seq::<(Seq<char>, Seq<char>)>::empty());
        self.teams.push(team.clone());
        self.changed = true;
        assert(self.teams() =~= old(self).teams().push(team@));
        Ok(team)
    }

    /// Creates the team `name` (trimmed) owned by `owner`, with a fresh
    /// id, made now.
    pub fn create(&mut self, name: &str, owner: &User) -> (r: Result<Team, TeamError>)
        ensures
            !(2 <= trimmed(name@).len() <= 48) ==> r == Err::<Team, TeamError>(TeamError::BadName)
                && final(self).teams() == old(self).teams() && final(self).dirty() == old(
                self).dirty(),
            2 <= trimmed(name@).len() <= 48 ==> (r matches Ok(team) && team@.name == trimmed(name@)
                && team@.owner == (owner.id@, owner.name@) && team@.members.len() == 0 && (exists|
                b: Seq<u8>,
            | b.len() == 8 && team@.id == crate::text::hex_of(b)) && final(self).teams() == old(
                self).teams().push(team@) && final(self).dirty()),
    {
        let id = crate::auth::short_id();
        let t = crate::auth::now();
        self.create_with(name, owner, id, t)
    }

    fn index_of(&self, id: &str) -> (r: Option<usize>)
        ensures
            match r {
                Some(i) => first_team(self.teams(), id@, i as int),
                None => no_team(self.teams(), id@),
            },
    {
        let mut i: usize = 0;
        while i < self.teams.len()
            invariant
                i <= self.teams@.len(),
                forall|j: int| 0 <= j < i ==> (#[trigger] self.teams()[j]).id != id@,
            decreases self.teams@.len() - i,
        {
            if str_eq(self.teams[i].id.as_str(), id) {
                return Some(i);
            }
            i = i + 1;
        }
        None
    }

    /// The team with id `id`.
    pub fn team(&self, id: &str) -> (r: Option<Team>)
        ensures
            match r {
                Some(t) => exists|i: int| first_team(self.teams(), id@, i) && self.teams()[i] == t@,
                None => no_team(self.teams(), id@),
            },
    {
        match self.index_of(id) {
            Some(i) => Some(self.teams[i].clone()),
            None => None,
        }
    }

    /// Teams the user owns or belongs to, in creation order.
    pub fn for_user(&self, user_id: &str) -> (r: Vec<Team>)
        ensures
            r@.map_values(|t: Team| t@) == self.teams().filter(
                |t: TeamView| team_has(t, user_id@),
            ),
    {
        let ghost all = self.teams();
        let ghost pred = |t: TeamView| team_has(t, user_id@);
        let mut out: Vec<Team> = Vec::new();
        let mut i: usize = 0;
        while i < self.teams.len()
            invariant
                i <= self.teams@.len(),
                all == self.teams(),
                pred == (|t: TeamView| team_has(t, user_id@)),
                out@.map_values(|t: Team| t@) == all.take(i as int).filter(pred),
            decreases self.teams@.len() - i,
        {
            proof {
                crate::store::lemma_filter_step(all, i as int, pred);
            }
            let ghost before = out@;
            if self.teams[i].has_member(user_id) {
                out.push(self.teams[i].clone());
                assert(out@.map_values(|t: Team| t@) =~= before.map_values(|t: Team| t@).push(
                    all[i as int],
                ));
            }
            i = i + 1;
        }
        assert(all.take(i as int) =~= all);
        out
    }

    /// Ids of the teams the user owns or belongs to.
    pub fn ids_for(&self, user_id: &str) -> (r: Vec<String>)
        ensures
            r@.map_values(|s: String| s@) == self.teams().filter(
                |t: TeamView| team_has(t, user_id@),
            ).map_values(|t: TeamView| t.id),
    {
        let teams = self.for_user(user_id);
        let ghost ts = teams@.map_values(|t: Team| t@);
        let mut out: Vec<String> = Vec::new();
        let mut i: usize = 0;
        while i < teams.len()
            invariant
                i <= teams@.len(),
                ts == teams@.map_values(|t: Team| t@),
                out@.map_values(|s: String| s@) == ts.take(i as int).map_values(|t: TeamView| t.id),
            decreases teams@.len() - i,
        {
            let ghost before = out@;
            out.push(teams[i].id.clone());
            assert(out@.map_values(|s: String| s@) =~= before.map_values(|s: String| s@).push(
                ts[i as int].id,
            ));
            assert(ts.take(i + 1).map_values(|t: TeamView| t.id) =~= ts.take(i as int).map_values(
                |t: TeamView| t.id,
            ).push(ts[i as int].id));
            i = i + 1;
        }
        assert(ts.take(i as int) =~= ts);
        out
    }

    /// Adds `member` to team `id`, if `by` owns it; the owner and existing
    /// members are not added again.
    pub fn add_member(&mut self, id: &str, by: &User, member: UserInfo) -> (r: Result<
        Team,
        TeamError,
    >)
        ensures
            match edit_outcome(old(self).teams(), id@, by.id@) {
                Err(e) => r == Err::<Team, TeamError>(e) && final(self).teams() == old(self).teams()
                    && final(self).dirty() == old(self).dirty(),
                Ok(i) => {
                    let t = with_member(old(self).teams()[i], member@);
                    &&& r matches Ok(team) && team@ == t
                    &&& final(self).teams() == old(self).teams().update(i, t)
                    &&& final(self).dirty()
                },
            },
    {
        let i = match self.index_of(id) {
            None => {
                return Err(TeamError::NotFound);
            },
            Some(i) => i,
        };
        proof {
            lemma_first_team_unique(self.teams(), id@, i as int);
        }
        if !str_eq(self.teams[i].owner.id.as_str(), by.id.as_str()) {
            return Err(TeamError::NotOwner);
        }
        let present = self.teams[i].has_member(member.id.as_str());
        let mut ts: Vec<Team> = Vec::new();
        std::mem::swap(&mut ts, &mut self.teams);
        let mut team = ts.remove(i);
        let ghost before = team@;
        assert(before == old(self).teams()[i as int]);
        let ghost m = member@;
        if !present {
            team.members.push(member);
            assert(team@.members =~= before.members.push(m));
        }
        assert(team@ == with_member(before, m));
        let out = team.clone();
        ts.insert(i, team);
        self.teams = ts;
        self.changed = true;
        assert(self.teams() =~= old(self).teams().update(i as int, out@));
        Ok(out)
    }

    /// Removes the member `member_id` from team `id`, if `by` owns it.
    pub fn remove_member(&mut self, id: &str, by: &User, member_id: &str) -> (r: Result<
        Team,
        TeamError,
    >)
        ensures
            match edit_outcome(old(self).teams(), id@, by.id@) {
                Err(e) => r == Err::<Team, TeamError>(e) && final(self).teams() == old(self).teams()
                    && final(self).dirty() == old(self).dirty(),
                Ok(i) => {
                    let t = without_member(old(self).teams()[i], member_id@);
                    &&& r matches Ok(team) && team@ == t
                    &&& final(self).teams() == old(self).teams().update(i, t)
                    &&& final(self).dirty()
                },
            },
    {
        let i = match self.index_of(id) {
            None => {
                return Err(TeamError::NotFound);
            },
            Some(i) => i,
        };
        proof {
            lemma_first_team_unique(self.teams(), id@, i as int);
        }
        if !str_eq(self.teams[i].owner.id.as_str(), by.id.as_str()) {
            return Err(TeamError::NotOwner);
        }
        let mut ts: Vec<Team> = Vec::new();
        std::mem::swap(&mut ts, &mut self.teams);
        let mut team = ts.remove(i);
        let ghost before = team@;
        let mut members: Vec<UserInfo> = Vec::new();
        std::mem::swap(&mut members, &mut team.members);
        let key = crate::text::text(member_id);
        team.members = crate::store::people_without(members, &key);
        assert(team@.members =~= without_member(before, member_id@).members);
        assert(team@ == without_member(before, member_id@));
        let out = team.clone();
        ts.insert(i, team);
        self.teams = ts;
        self.changed = true;
        assert(self.teams() =~= old(self).teams().update(i as int, out@));
        Ok(out)
    }

    /// Deletes team `id`, if `by` owns it.
    pub fn delete(&mut self, id: &str, by: &User) -> (r: Result<(), TeamError>)
        ensures
            match edit_outcome(old(self).teams(), id@, by.id@) {
                Err(e) => r == Err::<(), TeamError>(e) && final(self).teams() == old(self).teams()
                    && final(self).dirty() == old(self).dirty(),
                Ok(i) => r is Ok && final(self).teams() == old(self).teams().remove(i) && final(
                    self).dirty(),
            },
    {
        let i = match self.index_of(id) {
            None => {
                return Err(TeamError::NotFound);
            },
            Some(i) => i,
        };
        proof {
            lemma_first_team_unique(self.teams(), id@, i as int);
        }
        if !str_eq(self.teams[i].owner.id.as_str(), by.id.as_str()) {
            return Err(TeamError::NotOwner);
        }
        self.teams.remove(i);
        self.changed = true;
        assert(self.teams() =~= old(self).teams().remove(i as int));
        Ok(())
    }
}


/// Adding a member makes them one.
pub proof fn law_added_member_belongs(t: TeamView, member: (Seq<char>, Seq<char>))
    ensures
        team_has(with_member(t, member), member.0),
{
    if !team_has(t, member.0) {
        let w = with_member(t, member);
        assert(w.members[w.members.len() - 1].0 == member.0);
    }
}

/// Removing a member who does not own the team takes them out.
pub proof fn law_removed_member_is_gone(t: TeamView, member_id: Seq<char>)
    requires
        t.owner.0 != member_id,
    ensures
        !team_has(without_member(t, member_id), member_id),
{
    let w = without_member(t, member_id);
    if team_has(w, member_id) {
        let i = choose|i: int| 0 <= i < w.members.len() && (#[trigger] w.members[i]).0 == member_id;
        t.members.lemma_filter_pred(|m: (Seq<char>, Seq<char>)| m.0 != member_id, i);
    }
}

/// Only a team's owner gets to change it.
pub proof fn law_only_the_owner_edits(teams: Seq<TeamView>, id: Seq<char>, by: Seq<char>)
    ensures
        edit_outcome(teams, id, by) matches Ok(i) ==> teams[i].owner.0 == by && teams[i].id == id,
{
    if !no_team(teams, id) {
        let j = choose|j: int| 0 <= j < teams.len() && !((#[trigger] teams[j]).id != id);
        lemma_first_exists(teams, id, j);
    }
}

proof fn lemma_first_exists(teams: Seq<TeamView>, id: Seq<char>, j: int)
    requires
        0 <= j < teams.len(),
        teams[j].id == id,
    ensures
        exists|i: int| first_team(teams, id, i),
    decreases j,
{
    if forall|k: int| 0 <= k < j ==> (#[trigger] teams[k]).id != id {
        assert(first_team(teams, id, j));
    } else {
        let k = choose|k: int| 0 <= k < j && !((#[trigger] teams[k]).id != id);
        lemma_first_exists(teams, id, k);
    }
}

} // verus!
