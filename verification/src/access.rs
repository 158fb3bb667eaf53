//! What the HTTP interface answers: status codes and messages for refused
//! requests, the rights checked before every document request, the document list
//! a user sees, branch names, and the session token in a `Cookie` header.

use crate::auth::{AuthError, User, UserView};
use crate::store::{may_access, may_edit, may_manage, user_view, DocMeta, DocMetaView};
use crate::teams::TeamError;
use crate::text::{push_char, push_str, text};
use vstd::prelude::*;

verus! {

/// 400 Bad Request.
pub const BAD_REQUEST: u16 = 400;

/// 401 Unauthorized.
pub const UNAUTHORIZED: u16 = 401;

/// 403 Forbidden.
pub const FORBIDDEN: u16 = 403;

/// 404 Not Found.
pub const NOT_FOUND: u16 = 404;

/// 409 Conflict.
pub const CONFLICT: u16 = 409;

/// The status a failed sign-in or registration is answered with.
pub open spec fn auth_code(e: AuthError) -> u16 {
    match e {
        AuthError::BadName | AuthError::BadPassword => BAD_REQUEST,
        AuthError::Taken => CONFLICT,
        AuthError::Denied => UNAUTHORIZED,
    }
}

/// The status a failed sign-in or registration is answered with.
pub fn auth_status(e: AuthError) -> (code: u16)
    ensures
        code == auth_code(e),
{
    match e {
        AuthError::BadName | AuthError::BadPassword => BAD_REQUEST,
        AuthError::Taken => CONFLICT,
        AuthError::Denied => UNAUTHORIZED,
    }
}

/// What a failed sign-in or registration says.
pub open spec fn auth_message(e: AuthError) -> Seq<char> {
    match e {
        AuthError::BadName => "names are 2–32 letters, digits, '_' or '-'"@,
        AuthError::BadPassword => "passwords are at least 8 characters"@,
        AuthError::Taken => "that name is taken"@,
        AuthError::Denied => "wrong name or password"@,
    }
}

impl AuthError {
    /// The error's message.
    pub fn message(&self) -> (m: String)
        ensures
            m@ == auth_message(*self),
    {
        match self {
            AuthError::BadName => text("names are 2–32 letters, digits, '_' or '-'"),
            AuthError::BadPassword => text("passwords are at least 8 characters"),
            AuthError::Taken => text("that name is taken"),
            AuthError::Denied => text("wrong name or password"),
        }
    }
}

/// The status a failed team operation is answered with.
pub open spec fn team_code(e: TeamError) -> u16 {
    match e {
        TeamError::BadName => BAD_REQUEST,
        TeamError::NotFound => NOT_FOUND,
        TeamError::NotOwner => FORBIDDEN,
    }
}

/// The status a failed team operation is answered with.
pub fn team_status(e: TeamError) -> (code: u16)
    ensures
        code == team_code(e),
{
    match e {
        TeamError::BadName => BAD_REQUEST,
        TeamError::NotFound => NOT_FOUND,
        TeamError::NotOwner => FORBIDDEN,
    }
}

/// What a failed team operation says.
pub open spec fn team_message(e: TeamError) -> Seq<char> {
    match e {
        TeamError::BadName => "team names are 2–48 characters"@,
        TeamError::NotFound => "no such team"@,
        TeamError::NotOwner => "only the team's owner can do that"@,
    }
}

impl TeamError {
    /// The error's message.
    pub fn message(&self) -> (m: String)
        ensures
            m@ == team_message(*self),
    {
        match self {
            TeamError::BadName => text("team names are 2–48 characters"),
            TeamError::NotFound => text("no such team"),
            TeamError::NotOwner => text("only the team's owner can do that"),
        }
    }
}

/// How a request for a document is answered: 404 when there is no such
/// document or the user may not open it (so it does not learn that it
/// exists), else the metadata.
pub open spec fn access_outcome(meta: Option<DocMetaView>, user: Option<UserView>) -> Result<
    DocMetaView,
    u16,
> {
    match meta {
        None => Err(NOT_FOUND),
        Some(m) => if may_access(m, user) {
            Ok(m)
        } else {
            Err(NOT_FOUND)
        },
    }
}

/// As `access_outcome`, and then 403 unless the user may change it.
pub open spec fn edit_outcome(meta: Option<DocMetaView>, user: Option<UserView>) -> Result<
    DocMetaView,
    u16,
> {
    match access_outcome(meta, user) {
        Err(c) => Err(c),
        Ok(m) => if may_edit(m, user) {
            Ok(m)
        } else {
            Err(FORBIDDEN)
        },
    }
}

/// As `access_outcome`, and then 403 unless the user may manage it.
pub open spec fn manage_outcome(meta: Option<DocMetaView>, user: Option<UserView>) -> Result<
    DocMetaView,
    u16,
> {
    match access_outcome(meta, user) {
        Err(c) => Err(c),
        Ok(m) => if may_manage(m, user) {
            Ok(m)
        } else {
            Err(FORBIDDEN)
        },
    }
}

/// The view of stored metadata, if there is any.
pub open spec fn meta_view(meta: Option<DocMeta>) -> Option<DocMetaView> {
    match meta {
        Some(m) => Some(m@),
        None => None,
    }
}

/// The view of an outcome.
pub open spec fn outcome_view(r: Result<DocMeta, u16>) -> Result<DocMetaView, u16> {
    match r {
        Ok(m) => Ok(m@),
        Err(c) => Err(c),
    }
}

/// The document's metadata (`meta`, as read) if `user` may open it.
pub fn accessible(meta: Option<DocMeta>, user: Option<&User>) -> (r: Result<DocMeta, u16>)
    ensures
        outcome_view(r) == access_outcome(meta_view(meta), user_view(user)),
{
    match meta {
        None => Err(NOT_FOUND),
        Some(m) => if m.can_access(user) {
            Ok(m)
        } else {
            Err(NOT_FOUND)
        },
    }
}

/// The document's metadata if `user` may change it.
pub fn editable(meta: Option<DocMeta>, user: Option<&User>) -> (r: Result<DocMeta, u16>)
    ensures
        outcome_view(r) == edit_outcome(meta_view(meta), user_view(user)),
{
    let m = accessible(meta, user)?;
    if m.can_edit(user) {
        Ok(m)
    } else {
        Err(FORBIDDEN)
    }
}

/// The document's metadata if `user` may delete or share it.
pub fn manageable(meta: Option<DocMeta>, user: Option<&User>) -> (r: Result<DocMeta, u16>)
    ensures
        outcome_view(r) == manage_outcome(meta_view(meta), user_view(user)),
{
    let m = accessible(meta, user)?;
    if m.can_manage(user) {
        Ok(m)
    } else {
        Err(FORBIDDEN)
    }
}

/// Metadata as `user` sees it.
pub open spec fn seen_by(m: DocMetaView, user: Option<UserView>) -> DocMetaView {
    if may_manage(m, user) {
        m
    } else {
        DocMetaView { invites: Seq::empty(), ..m }
    }
}

/// The document list `user` gets from `all`: the documents it may open,
/// in order, each as it may see it.
pub open spec fn listing(all: Seq<DocMetaView>, user: Option<UserView>) -> Seq<DocMetaView>
    decreases all.len(),
{
    if all.len() == 0 {
        Seq::empty()
    } else {
        let rest = listing(all.drop_last(), user);
        if may_access(all.last(), user) {
            rest.push(seen_by(all.last(), user))
        } else {
            rest
        }
    }
}

/// The views of a list of metadata.
pub open spec fn metas_view(v: Seq<DocMeta>) -> Seq<DocMetaView> {
    v.map_values(|m: DocMeta| m@)
}

/// The documents of `all` that `user` may open, as it may see them.
pub fn visible_docs(all: Vec<DocMeta>, user: Option<&User>) -> (out: Vec<DocMeta>)
    ensures
        metas_view(out@) == listing(metas_view(all@), user_view(user)),
{
    let ghost whole = metas_view(all@);
    let ghost items = all@;
    let mut rest = all;
    let mut out: Vec<DocMeta> = Vec::new();
    let n = rest.len();
    let mut i: usize = 0;
    while i < n
        invariant
            n == whole.len(),
            n == items.len(),
            whole == metas_view(items),
            i <= n,
            rest@ == items.subrange(i as int, n as int),
            metas_view(out@) == listing(whole.take(i as int), user_view(user)),
        decreases n - i,
    {
        let m = rest.remove(0);
        assert(m@ == whole[i as int]);
        assert(whole.take(i + 1).drop_last() =~= whole.take(i as int));
        assert(whole.take(i + 1).last() == whole[i as int]);
        let ghost before = out@;
        if m.can_access(user) {
            let seen = m.visible_to(user);
            out.push(seen);
            assert(metas_view(out@) =~= metas_view(before).push(seen@));
        }
        i = i + 1;
        assert(rest@ =~= items.subrange(i as int, n as int));
    }
    assert(whole.take(n as int) =~= whole);
    out
}

/// The name of a branch: the one asked for, else the source's name with
/// the version's name, or "branch", in brackets.
pub open spec fn branch_title(asked: Option<Seq<char>>, source: Seq<char>, version: Option<Seq<char>>) -> Seq<char> {
    match asked {
        Some(n) => n,
        None => match version {
            Some(v) => source + " ("@ + v + ")"@,
            None => source + " (branch)"@,
        },
    }
}

/// The name a new branch of the document `source` gets.
pub fn branch_name(asked: Option<String>, source: &str, version: Option<&str>) -> (n: String)
    ensures
        n@ == branch_title(
            match asked {
                Some(a) => Some(a@),
                None => None,
            },
            source@,
            match version {
                Some(v) => Some(v@),
                None => None,
            },
        ),
{
    match asked {
        Some(a) => a,
        None => {
            let mut n = text(source);
            match version {
                Some(v) => {
                    push_str(&mut n, " (");
                    push_str(&mut n, v);
                    push_str(&mut n, ")");
                },
                None => {
                    push_str(&mut n, " (branch)");
                },
            }
            n
        },
    }
}

/// An account a document is shared with read-only may open it but not
/// change or manage it: its edits are refused with 403.
pub proof fn law_viewers_can_read_but_not_write(m: DocMetaView, u: UserView)
    requires
        m.owner matches Some(o) && o.0 != u.id,
        crate::store::listed(m.viewers, u.id),
        !crate::store::listed(m.collaborators, u.id),
        !crate::store::shared_with_team(m.teams, u.teams, true),
    ensures
        access_outcome(Some(m), Some(u)) == Ok::<DocMetaView, u16>(m),
        edit_outcome(Some(m), Some(u)) == Err::<DocMetaView, u16>(FORBIDDEN),
        manage_outcome(Some(m), Some(u)) == Err::<DocMetaView, u16>(FORBIDDEN),
{
}

/// A document nobody may open is answered as if it did not exist.
pub proof fn law_hidden_documents_are_not_found(m: DocMetaView, user: Option<UserView>)
    requires
        !may_access(m, user),
    ensures
        access_outcome(Some(m), user) == access_outcome(None, user),
        edit_outcome(Some(m), user) == Err::<DocMetaView, u16>(NOT_FOUND),
        manage_outcome(Some(m), user) == Err::<DocMetaView, u16>(NOT_FOUND),
{
}

/// The document list shows a user only documents it may open, and their
/// invitation links only when it may manage them.
pub proof fn law_the_list_shows_only_what_the_user_may_open(all: Seq<DocMetaView>, user: Option<UserView>)
    ensures
        forall|k: int|
            0 <= k < listing(all, user).len() ==> {
                let m = #[trigger] listing(all, user)[k];
                &&& may_access(m, user)
                &&& !may_manage(m, user) ==> m.invites.len() == 0
            },
    decreases all.len(),
{
    if all.len() > 0 {
        law_the_list_shows_only_what_the_user_may_open(all.drop_last(), user);
        let m = all.last();
        crate::store::law_visible_to_keeps_rights(m, user, user);
    }
}

/// Every document a user may open is in its list.
pub proof fn law_the_list_shows_everything_the_user_may_open(all: Seq<DocMetaView>, user: Option<UserView>, i: int)
    requires
        0 <= i < all.len(),
        may_access(all[i], user),
    ensures
        exists|k: int| 0 <= k < listing(all, user).len() && #[trigger] listing(all, user)[k] == seen_by(all[i], user),
    decreases all.len(),
{
    if i == all.len() - 1 {
        let l = listing(all, user);
        assert(l[l.len() - 1] == seen_by(all[i], user));
    } else {
        law_the_list_shows_everything_the_user_may_open(all.drop_last(), user, i);
        let r = listing(all.drop_last(), user);
        let k = choose|k: int| 0 <= k < r.len() && #[trigger] r[k] == seen_by(all.drop_last()[i], user);
        assert(listing(all, user)[k] == r[k]);
    }
}

// ----------------------------------------------------------------- cookies

/// The cookie pairs of a `Cookie` header: the text between semicolons.
pub open spec fn cookie_parts(h: Seq<char>) -> Seq<Seq<char>>
    decreases h.len(),
{
    if h.len() == 0 {
        seq![Seq::empty()]
    } else {
        let rest = cookie_parts(h.drop_last());
        if h.last() == ';' {
            rest.push(Seq::empty())
        } else {
            rest.update(rest.len() - 1, rest.last().push(h.last()))
        }
    }
}

/// Where the first `=` of `t` at or after `i` is, or -1.
pub open spec fn first_eq(t: Seq<char>, i: int) -> int
    decreases t.len() - i,
{
    if i < 0 || i >= t.len() {
        -1
    } else if t[i] == '=' {
        i
    } else {
        first_eq(t, i + 1)
    }
}

/// The session token a cookie pair carries: the pair trimmed, and split
/// at its first `=`, when the name before it is the session cookie's.
pub open spec fn session_in(pair: Seq<char>) -> Option<Seq<char>> {
    let t = crate::text::trimmed(pair);
    let k = first_eq(t, 0);
    if k >= 0 && t.take(k) == "ok_session"@ {
        Some(t.skip(k + 1))
    } else {
        None
    }
}

/// The token of the first pair of `parts` (from `from` on) that is the
/// session cookie.
pub open spec fn first_session(parts: Seq<Seq<char>>, from: int) -> Option<Seq<char>>
    decreases parts.len() - from,
{
    if from < 0 || from >= parts.len() {
        None
    } else {
        match session_in(parts[from]) {
            Some(t) => Some(t),
            None => first_session(parts, from + 1),
        }
    }
}

/// The session token in a `Cookie` header's value, if any.
pub open spec fn session_token_in(h: Seq<char>) -> Option<Seq<char>> {
    first_session(cookie_parts(h), 0)
}

proof fn lemma_first_eq_range(t: Seq<char>, i: int)
    requires
        0 <= i,
    ensures
        first_eq(t, i) == -1 || (i <= first_eq(t, i) < t.len() && t[first_eq(t, i)] == '='),
        forall|j: int| i <= j < t.len() && (first_eq(t, i) == -1 || j < first_eq(t, i)) ==> t[j] != '=',
    decreases t.len() - i,
{
    if i < t.len() && t[i] != '=' {
        lemma_first_eq_range(t, i + 1);
    }
}

proof fn lemma_parts_nonempty(h: Seq<char>)
    ensures
        cookie_parts(h).len() >= 1,
    decreases h.len(),
{
    if h.len() > 0 {
        lemma_parts_nonempty(h.drop_last());
    }
}

proof fn lemma_parts_prefix(h: Seq<char>, m: int)
    requires
        0 <= m <= h.len(),
    ensures
        cookie_parts(h).len() >= cookie_parts(h.take(m)).len(),
        forall|j: int|
            0 <= j < cookie_parts(h.take(m)).len() - 1 ==> cookie_parts(h)[j] == cookie_parts(
                h.take(m),
            )[j],
    decreases h.len(),
{
    lemma_parts_nonempty(h);
    if m == h.len() {
        assert(h.take(m) =~= h);
    } else {
        let d = h.drop_last();
        assert(d.take(m) =~= h.take(m));
        lemma_parts_prefix(d, m);
        lemma_parts_nonempty(d);
    }
}

/// The session token of one cookie pair.
fn session_of(pair: &str) -> (r: Option<String>)
    ensures
        match r {
            Some(t) => session_in(pair@) == Some(t@),
            None => session_in(pair@) is None,
        },
{
    let t = crate::text::trim(pair);
    let cs = crate::text::chars_of(t.as_str());
    let n = cs.len();
    let mut k: usize = 0;
    while k < n && cs[k] != '='
        invariant
            k <= n,
            n == cs@.len(),
            cs@ == crate::text::trimmed(pair@),
            first_eq(cs@, 0) == first_eq(cs@, k as int),
        decreases n - k,
    {
        k = k + 1;
    }
    if k == n {
        return None;
    }
    let name = crate::text::string_of(&cs, 0, k);
    if crate::text::str_eq(name.as_str(), "ok_session") {
        assert(cs@.subrange(0, k as int) =~= cs@.take(k as int));
        let v = crate::text::string_of(&cs, k + 1, n);
        assert(cs@.subrange(k + 1, n as int) =~= cs@.skip(k + 1));
        Some(v)
    } else {
        assert(cs@.subrange(0, k as int) =~= cs@.take(k as int));
        None
    }
}

proof fn lemma_first_session_skip(parts: Seq<Seq<char>>, k: int)
    requires
        0 <= k <= parts.len(),
        forall|j: int| 0 <= j < k ==> session_in(#[trigger] parts[j]) is None,
    ensures
        first_session(parts, 0) == first_session(parts, k),
    decreases k,
{
    if k > 0 {
        lemma_first_session_skip(parts, k - 1);
    }
}

/// The session token in the value of a request's `Cookie` header: the
/// value of the first `;`-separated pair named `ok_session`.
pub fn token_from_cookie_header(header: &str) -> (r: Option<String>)
    ensures
        match r {
            Some(t) => session_token_in(header@) == Some(t@),
            None => session_token_in(header@) is None,
        },
{
    let mut part = String::new();
    let ghost mut i: int = 0;
    for c in it: header.chars()
        invariant
            it.seq() == header@,
            i == it.index(),
            cookie_parts(header@.take(i)).len() >= 1,
            part@ == cookie_parts(header@.take(i)).last(),
            forall|j: int| 0 <= j < cookie_parts(header@.take(i)).len() - 1 ==> session_in(
                #[trigger] cookie_parts(header@.take(i))[j],
            ) is None,
    {
        let ghost before = cookie_parts(header@.take(i));
        assert(header@.take(i + 1).drop_last() =~= header@.take(i));
        if c == ';' {
            match session_of(part.as_str()) {
                Some(t) => {
                    proof {
                        let parts = cookie_parts(header@);
                        lemma_parts_prefix(header@, i + 1);
                        lemma_first_session_skip(parts, before.len() - 1);
                    }
                    return Some(t);
                },
                None => {},
            }
            part = String::new();
        } else {
            push_char(&mut part, c);
        }
        proof {
            i = i + 1;
        }
    }
    assert(header@.take(i) =~= header@);
    let r = session_of(part.as_str());
    proof {
        let parts = cookie_parts(header@);
        lemma_first_session_skip(parts, parts.len() - 1);
        assert(parts[parts.len() - 1] == part@);
        assert(first_session(parts, parts.len() as int) is None);
    }
    r
}

} // verus!
