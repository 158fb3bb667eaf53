//! Accounts: users with argon2id password hashes, and cookie sessions.
//!
//! The store holds the users and the session table in memory; whoever
//! keeps them on disk asks `take_changes` after each call whether the
//! users or the sessions have to be written again. Signing in is
//! optional: documents without an owner stay open to everyone.

use crate::sessions::{fresh_part, Session, SessionTable, SessionView};
use crate::text::{eq_ignore_ascii_case, push_hex, push_str, same_ignoring_ascii_case, str_eq, text};
use argon2::password_hash::{PasswordHash, PasswordHasher, PasswordVerifier, SaltString};
use rand::RngCore;
use vstd::prelude::*;
use vstd::string::StringSliceAdditionalSpecFns;
use vstd::utf8::encode_utf8;

verus! {

/// Name of the session cookie.
pub const COOKIE: &'static str = "ok_session";

/// Sessions expire after 30 days without use.
pub const SESSION_SECS: u64 = 2592000;

/// A session's last use is written back at most this often.
pub const TOUCH_SECS: u64 = 3600;

/// An account.
#[derive(Debug)]
pub struct User {
    pub id: String,
    /// Login name, unique, case-insensitive.
    pub name: String,
    /// argon2id PHC string; never sent to clients (they get `UserInfo`).
    pub password_hash: String,
    pub created: u64,
    /// Ids of the teams the user belongs to; filled in per request, never stored.
    pub teams: Vec<String>,
}

/// What the store knows of a user.
pub struct UserView {
    pub id: Seq<char>,
    pub name: Seq<char>,
    pub password_hash: Seq<char>,
    pub created: u64,
    pub teams: Seq<Seq<char>>,
}

impl View for User {
    type V = UserView;

    open spec fn view(&self) -> UserView {
        UserView {
            id: self.id@,
            name: self.name@,
            password_hash: self.password_hash@,
            created: self.created,
            teams: self.teams@.map_values(|t: String| t@),
        }
    }
}

impl Clone for User {
    fn clone(&self) -> (r: User)
        ensures
            r@ == self@,
    {
        let teams = self.teams.clone();
        assert(teams@.map_values(|t: String| t@) =~= self.teams@.map_values(|t: String| t@));
        User {
            id: self.id.clone(),
            name: self.name.clone(),
            password_hash: self.password_hash.clone(),
            created: self.created,
            teams,
        }
    }
}

/// What clients see of a user.
#[derive(Debug, PartialEq, Eq)]
pub struct UserInfo {
    pub id: String,
    pub name: String,
}

impl View for UserInfo {
    type V = (Seq<char>, Seq<char>);

    open spec fn view(&self) -> (Seq<char>, Seq<char>) {
        (self.id@, self.name@)
    }
}

impl Clone for UserInfo {
    fn clone(&self) -> (r: UserInfo)
        ensures
            r@ == self@,
    {
        UserInfo { id: self.id.clone(), name: self.name.clone() }
    }
}

impl UserInfo {
    /// The id and name of `u`.
    pub fn of(u: &User) -> (info: UserInfo)
        ensures
            info.id@ == u.id@,
            info.name@ == u.name@,
    {
        UserInfo { id: u.id.clone(), name: u.name.clone() }
    }
}

/// Why registering or signing in failed.
#[derive(Debug, Clone, Copy, PartialEq, Eq, Structural)]
pub enum AuthError {
    /// Names are 2–32 letters, digits, '_' or '-'.
    BadName,
    /// Passwords are at least 8 characters.
    BadPassword,
    /// That name is taken.
    Taken,
    /// Wrong name or password.
    Denied,
}

/// The signed-in user of a request, or `None` for anonymous requests.
pub struct CurrentUser(pub Option<User>);

/// A login-name character: an ASCII letter or digit, `_` or `-`.
pub open spec fn name_char(c: char) -> bool {
    ('a' <= c && c <= 'z') || ('A' <= c && c <= 'Z') || ('0' <= c && c <= '9') || c == '_' || c
        == '-'
}

/// A login name: 2 to 32 name characters.
pub open spec fn is_valid_name(name: Seq<char>) -> bool {
    &&& 2 <= name.len() <= 32
    &&& forall|i: int| 0 <= i < name.len() ==> #[trigger] name_char(name[i])
}

/// The ASCII code points of letters, digits, `_` and `-`.
pub open spec fn letter_digit_or_dash_code(k: int) -> bool {
    (48 <= k <= 57) || (65 <= k <= 90) || (97 <= k <= 122) || k == 95 || k == 45
}

/// Login names are exactly the texts of 2 to 32 characters each of which
/// is an ASCII letter (either case), an ASCII digit `0` to `9`, `_` or
/// `-`; so `user0` is one, and `a b` or `é1` are not.
pub proof fn law_login_names_are_letters_digits_and_dashes(name: Seq<char>)
    ensures
        is_valid_name(name) <==> (2 <= name.len() <= 32 && forall|i: int|
            0 <= i < name.len() ==> letter_digit_or_dash_code(#[trigger] name[i] as int)),
{
    assert forall|i: int| 0 <= i < name.len() implies (name_char(name[i])
        <==> letter_digit_or_dash_code(#[trigger] name[i] as int)) by {
        let c = name[i];
        assert(('0' as int) == 48 && ('9' as int) == 57 && ('A' as int) == 65 && ('Z' as int) == 90
            && ('a' as int) == 97 && ('z' as int) == 122 && ('_' as int) == 95 && ('-' as int)
            == 45);
    }
}

/// Two names that are the same login name: their UTF-8 bytes match,
/// ASCII letters compared without case.
pub open spec fn same_name(a: Seq<char>, b: Seq<char>) -> bool {
    same_ignoring_ascii_case(encode_utf8(a), encode_utf8(b))
}

/// Index `i` is the first user that `p` picks.
pub open spec fn first_where(users: Seq<UserView>, i: int, p: spec_fn(UserView) -> bool) -> bool {
    &&& 0 <= i < users.len()
    &&& p(users[i])
    &&& forall|j: int| 0 <= j < i ==> !p(#[trigger] users[j])
}

/// What a lookup over `users` with `p` returns: the first user `p`
/// picks, or `None` when it picks none.
pub open spec fn found(users: Seq<UserView>, p: spec_fn(UserView) -> bool, r: Option<User>) -> bool {
    match r {
        Some(u) => exists|i: int| first_where(users, i, p) && users[i] == u@,
        None => forall|i: int| 0 <= i < users.len() ==> !p(#[trigger] users[i]),
    }
}

/// Picks the user with id `id`.
pub open spec fn has_id(id: Seq<char>) -> spec_fn(UserView) -> bool {
    |u: UserView| u.id == id
}

/// Picks the user whose login name is `name`.
pub open spec fn has_name(name: Seq<char>) -> spec_fn(UserView) -> bool {
    |u: UserView| same_name(u.name, name)
}

fn is_name_char(c: char) -> (b: bool)
    ensures
        b == name_char(c),
{
    ('a' <= c && c <= 'z') || ('A' <= c && c <= 'Z') || ('0' <= c && c <= '9') || c == '_' || c
        == '-'
}

/// Whether `s` has at least `n` characters.
fn has_chars(s: &str, n: usize) -> (b: bool)
    ensures
        b == (s@.len() >= n),
{
    let mut k: usize = 0;
    for _c in it: s.chars()
        invariant
            k == if it.index() <= n { it.index() } else { n as int },
            it.seq() == s@,
    {
        if k < n {
            k = k + 1;
        }
    }
    k >= n
}

// --------------------------------------------------------- outside calls

/// Seconds since the Unix epoch by the system clock, 0 when the clock is
/// before it. Reads the clock: nothing is claimed of the value.
#[verifier::external_body]
pub(crate) fn now() -> u64 {
    std::time::SystemTime::now().duration_since(std::time::UNIX_EPOCH).map(|d| d.as_secs()).unwrap_or(
        0,
    )
}

/// 32 bytes from `rand::thread_rng()` (`RngCore::fill_bytes`); random,
/// so nothing is claimed of them.
#[verifier::external_body]
fn random_bytes() -> [u8; 32] {
    let mut bytes = [0u8; 32];
    rand::thread_rng().fill_bytes(&mut bytes);
    bytes
}

/// Whether argon2 accepts `password` for the PHC string `phc`: the string
/// parses (`PasswordHash::new`) and `Argon2::default().verify_password`
/// succeeds on the password's bytes.
pub uninterp spec fn argon2_accepts(password: Seq<char>, phc: Seq<char>) -> bool;

/// Checks a password against a stored argon2 PHC string
/// (`argon2::password_hash::PasswordHash::new`, then
/// `PasswordVerifier::verify_password` of `Argon2::default()`). Trusted:
/// the answer is `argon2_accepts` of the two strings.
#[verifier::external_body]
fn password_matches(password: &str, phc: &str) -> (ok: bool)
    ensures
        ok == argon2_accepts(password@, phc@),
{
    match PasswordHash::new(phc) {
        Ok(parsed) => argon2::Argon2::default().verify_password(password.as_bytes(), &parsed).is_ok(),
        Err(_) => false,
    }
}

/// Hashes `password` with argon2id under a fresh random salt
/// (`SaltString::generate` with `rand::thread_rng()`, then
/// `PasswordHasher::hash_password` of `Argon2::default()`), as a PHC
/// string; `None` when argon2 reports an error. The salt is random, so
/// the string itself is not named; what is claimed is the crate's
/// documented round trip: argon2 accepts the password for the string.
/// Argon2 refuses only passwords longer than `MAX_PWD_LEN` (2^32 - 1
/// bytes): the generated 16-byte salt always meets its salt checks, so
/// a shorter password always hashes.
#[verifier::external_body]
fn hash_password(password: &str) -> (h: Option<String>)
    ensures
        h matches Some(phc) ==> argon2_accepts(password@, phc@),
        password.spec_bytes().len() <= 0xFFFF_FFFF ==> h is Some,
{
    let salt = SaltString::generate(&mut rand::thread_rng());
    argon2::Argon2::default().hash_password(password.as_bytes(), &salt).ok().map(|h| h.to_string())
}

/// A session or invitation token: 32 random bytes as lower-case
/// hexadecimal.
pub fn token() -> (tok: String)
    ensures
        exists|b: Seq<u8>| b.len() == 32 && tok@ == crate::text::hex_of(b),
{
    let bytes = random_bytes();
    let mut tok = String::new();
    push_hex(&mut tok, bytes.as_slice());
    assert(tok@ == crate::text::hex_of(bytes@));
    tok
}

/// A short id: 8 random bytes as lower-case hexadecimal (the first 16
/// digits of a token).
pub fn short_id() -> (id: String)
    ensures
        exists|b: Seq<u8>| b.len() == 8 && id@ == crate::text::hex_of(b),
{
    let bytes = random_bytes();
    let mut id = String::new();
    let first = &bytes.as_slice()[0..8];
    push_hex(&mut id, first);
    assert(id@ == crate::text::hex_of(first@));
    id
}

// -------------------------------------------------------------- cookies

/// The attributes of the session cookie; `Secure` when the server is
/// reached over TLS.
pub open spec fn cookie_flags_text(secure: bool) -> Seq<char> {
    if secure {
        "; Path=/; HttpOnly; SameSite=Lax; Secure"@
    } else {
        "; Path=/; HttpOnly; SameSite=Lax"@
    }
}

/// The attributes of the session cookie.
pub fn cookie_flags(secure: bool) -> (f: String)
    ensures
        f@ == cookie_flags_text(secure),
{
    if secure {
        text("; Path=/; HttpOnly; SameSite=Lax; Secure")
    } else {
        text("; Path=/; HttpOnly; SameSite=Lax")
    }
}

/// The `Set-Cookie` value that stores a session token.
pub fn session_cookie(tok: &str, secure: bool) -> (c: String)
    ensures
        c@ == "ok_session="@ + tok@ + cookie_flags_text(secure) + "; Max-Age=2592000"@,
{
    let mut c = text("ok_session=");
    push_str(&mut c, tok);
    let flags = cookie_flags(secure);
    push_str(&mut c, flags.as_str());
    push_str(&mut c, "; Max-Age=2592000");
    c
}

/// The `Set-Cookie` value that removes the session cookie.
pub fn clear_cookie(secure: bool) -> (c: String)
    ensures
        c@ == "ok_session="@ + cookie_flags_text(secure) + "; Max-Age=0"@,
{
    let mut c = text("ok_session=");
    let flags = cookie_flags(secure);
    push_str(&mut c, flags.as_str());
    push_str(&mut c, "; Max-Age=0");
    c
}

// ---------------------------------------------------------------- store

/// The users and sessions of a server.
pub struct UserStore {
    users: Vec<User>,
    sessions: SessionTable,
    users_changed: bool,
    sessions_changed: bool,
}

/// Whether a session last used at `last` is still good at `t`.
pub open spec fn session_fresh(last: u64, t: u64) -> bool {
    crate::sessions::fresh_at(last, t, SESSION_SECS)
}

/// What looking up the session `tok` at time `t` does: no such session
/// gives no user and changes nothing; a stale one gives no user and is
/// dropped (the files keep it until the next change); a good one gives
/// its account, and is marked used at `t` when it was last used more than
/// an hour before.
/// The seconds from `last` to `t` as 64-bit arithmetic gives them: a
/// clock that reads earlier than the last use wraps round.
pub open spec fn since_use(t: u64, last: u64) -> int {
    if t >= last {
        t - last
    } else {
        t - last + 0x1_0000_0000_0000_0000
    }
}

pub open spec fn session_checked(before: UserStore, after: UserStore, tok: Seq<char>, t: u64, r: Option<User>) -> bool {
    &&& after.users() == before.users()
    &&& after.users_dirty() == before.users_dirty()
    &&& !before.sessions().contains_key(tok) ==> r is None && after.sessions() == before.sessions()
        && after.sessions_dirty() == before.sessions_dirty()
    &&& before.sessions().contains_key(tok) && !session_fresh(before.sessions()[tok].1, t) ==> r is None
        && after.sessions() == before.sessions().remove(tok) && after.sessions_dirty()
        == before.sessions_dirty()
    &&& before.sessions().contains_key(tok) && session_fresh(before.sessions()[tok].1, t) ==> {
        let (user, last) = before.sessions()[tok];
        let touch = since_use(t, last) > TOUCH_SECS;
        &&& found(before.users(), has_id(user), r)
        &&& after.sessions() == if touch {
            before.sessions().insert(tok, (user, t))
        } else {
            before.sessions()
        }
        &&& after.sessions_dirty() == (before.sessions_dirty() || touch)
    }
}

impl UserStore {
    /// The users, in registration order.
    pub closed spec fn users(&self) -> Seq<UserView> {
        self.users@.map_values(|u: User| u@)
    }

    /// The sessions by token: the account id and the time of last use.
    pub closed spec fn sessions(&self) -> Map<Seq<char>, SessionView> {
        self.sessions@
    }

    /// The users changed since the last `take_changes`.
    pub closed spec fn users_dirty(&self) -> bool {
        self.users_changed
    }

    /// The sessions changed since the last `take_changes`.
    pub closed spec fn sessions_dirty(&self) -> bool {
        self.sessions_changed
    }

    /// A store with no users and no sessions.
    pub fn new() -> (s: UserStore)
        ensures
            s.users() == Seq::<UserView>::empty(),
            s.sessions() == Map::<Seq<char>, SessionView>::empty(),
            !s.users_dirty(),
            !s.sessions_dirty(),
    {
        let users: Vec<User> = Vec::new();
        assert(users@.map_values(|u: User| u@) =~= Seq::<UserView>::empty());
        UserStore {
            users,
            sessions: SessionTable::new(),
            users_changed: false,
            sessions_changed: false,
        }
    }

    /// A store holding saved users and sessions (a later session of one
    /// token replaces an earlier one).
    pub fn restore(users: Vec<User>, sessions: Vec<(String, Session)>) -> (s: UserStore)
        ensures
            s.users() == users@.map_values(|u: User| u@),
            s.sessions() == crate::sessions::entries_map(sessions@),
            !s.users_dirty(),
            !s.sessions_dirty(),
    {
        let mut table = SessionTable::new();
        let mut rest = sessions;
        let ghost all = rest@;
        let n = rest.len();
        let mut i: usize = 0;
        while i < n
            invariant
                n == all.len(),
                i <= n,
                rest@ == all.subrange(i as int, n as int),
                table@ == crate::sessions::entries_map(all.take(i as int)),
            decreases n - i,
        {
            let (tok, s) = rest.remove(0);
            assert(all.take(i + 1).drop_last() =~= all.take(i as int));
            table.insert(tok, s);
            i = i + 1;
            assert(rest@ =~= all.subrange(i as int, n as int));
        }
        assert(all.take(n as int) =~= all);
        UserStore { users, sessions: table, users_changed: false, sessions_changed: false }
    }

    /// The users, for saving.
    pub fn user_list(&self) -> (us: &Vec<User>)
        ensures
            us@.map_values(|u: User| u@) == self.users(),
    {
        &self.users
    }

    /// The sessions, for saving: each token once, and together the table.
    pub fn session_list(&self) -> (es: &Vec<(String, Session)>)
        ensures
            crate::sessions::keys_unique(es@),
            crate::sessions::entries_map(es@) == self.sessions(),
    {
        self.sessions.entries()
    }

    /// Which of users and sessions changed since the last call, and
    /// forgets both.
    pub fn take_changes(&mut self) -> (changed: (bool, bool))
        ensures
            changed == (old(self).users_dirty(), old(self).sessions_dirty()),
            !final(self).users_dirty(),
            !final(self).sessions_dirty(),
            final(self).users() == old(self).users(),
            final(self).sessions() == old(self).sessions(),
    {
        let changed = (self.users_changed, self.sessions_changed);
        self.users_changed = false;
        self.sessions_changed = false;
        changed
    }

    /// Whether `name` is a login name: 2 to 32 ASCII letters, digits, `_`
    /// or `-`.
    pub fn valid_name(name: &str) -> (b: bool)
        ensures
            b == is_valid_name(name@),
    {
        let mut n: usize = 0;
        let mut all = true;
        for c in it: name.chars()
            invariant
                n == if it.index() <= 33 { it.index() } else { 33 },
                it.seq() == name@,
                all == (forall|i: int| 0 <= i < it.index() ==> #[trigger] name_char(name@[i])),
        {
            if !is_name_char(c) {
                all = false;
            }
            if n < 33 {
                n = n + 1;
            }
        }
        all && 2 <= n && n <= 32
    }

    /// The user with id `id`.
    pub fn user(&self, id: &str) -> (r: Option<User>)
        ensures
            found(self.users(), has_id(id@), r),
    {
        let mut i: usize = 0;
        while i < self.users.len()
            invariant
                i <= self.users@.len(),
                forall|j: int| 0 <= j < i ==> !(has_id(id@))(#[trigger] self.users()[j]),
            decreases self.users@.len() - i,
        {
            if str_eq(self.users[i].id.as_str(), id) {
                assert(first_where(self.users(), i as int, has_id(id@)));
                return Some(self.users[i].clone());
            }
            i = i + 1;
        }
        None
    }

    fn index_by_name(&self, name: &str) -> (r: Option<usize>)
        ensures
            match r {
                Some(i) => first_where(self.users(), i as int, has_name(name@)),
                None => forall|i: int|
                    0 <= i < self.users().len() ==> !(has_name(name@))(#[trigger] self.users()[i]),
            },
    {
        let mut i: usize = 0;
        while i < self.users.len()
            invariant
                i <= self.users@.len(),
                forall|j: int| 0 <= j < i ==> !(has_name(name@))(#[trigger] self.users()[j]),
            decreases self.users@.len() - i,
        {
            if eq_ignore_ascii_case(self.users[i].name.as_str(), name) {
                return Some(i);
            }
            i = i + 1;
        }
        None
    }

    /// The user whose login name is `name`, ignoring ASCII case.
    pub fn user_by_name(&self, name: &str) -> (r: Option<User>)
        ensures
            found(self.users(), has_name(name@), r),
    {
        match self.index_by_name(name) {
            Some(i) => Some(self.users[i].clone()),
            None => None,
        }
    }

    /// Opens the session `tok` for `user` at time `t`, first dropping the
    /// sessions that have gone stale by then.
    pub fn start_session_at(&mut self, user: &str, tok: String, t: u64)
        ensures
            final(self).sessions() == fresh_part(old(self).sessions(), t, SESSION_SECS).insert(
                tok@,
                (user@, t),
            ),
            final(self).users() == old(self).users(),
            final(self).users_dirty() == old(self).users_dirty(),
            final(self).sessions_dirty(),
    {
        self.sessions.retain_fresh(t, SESSION_SECS);
        self.sessions.insert(tok, Session { user: text(user), last_used: t });
        self.sessions_changed = true;
    }

    /// Opens a new session for `user` with a fresh token, and returns the
    /// token.
    pub fn start_session(&mut self, user: &str) -> (tok: String)
        ensures
            exists|b: Seq<u8>| b.len() == 32 && tok@ == crate::text::hex_of(b),
            exists|t: u64|
                final(self).sessions() == fresh_part(old(self).sessions(), t, SESSION_SECS).insert(
                    tok@,
                    (user@, t),
                ),
            final(self).users() == old(self).users(),
            final(self).users_dirty() == old(self).users_dirty(),
            final(self).sessions_dirty(),
    {
        let tok = token();
        let t = now();
        let key = tok.clone();
        self.start_session_at(user, key, t);
        tok
    }

    /// Ends the session `tok`.
    pub fn logout(&mut self, tok: &str)
        ensures
            final(self).sessions() == old(self).sessions().remove(tok@),
            final(self).users() == old(self).users(),
            final(self).users_dirty() == old(self).users_dirty(),
            final(self).sessions_dirty() == (old(self).sessions_dirty() || old(self).sessions().contains_key(tok@)),
    {
        if self.sessions.remove(tok) {
            self.sessions_changed = true;
        }
    }

    /// The user the session `tok` belongs to at time `t`, if the session
    /// is still good. A stale session is dropped; a good one last used
    /// more than an hour before `t` is marked used at `t` (the time since
    /// its last use taken in wrapping 64-bit arithmetic, so a clock set
    /// back also marks it).
    pub fn session_user_at(&mut self, tok: &str, t: u64) -> (r: Option<User>)
        ensures
            session_checked(*old(self), *final(self), tok@, t, r),
    {
        let (user_id, last) = match self.sessions.get(tok) {
            None => {
                return None;
            },
            Some(s) => s,
        };
        let age = if t >= last {
            t - last
        } else {
            0
        };
        if age >= SESSION_SECS {
            self.sessions.remove(tok);
            return None;
        }
        let since = if t >= last {
            t - last
        } else {
            u64::MAX - (last - t) + 1
        };
        if since > TOUCH_SECS {
            self.sessions.touch(tok, t);
            self.sessions_changed = true;
        }
        self.user(user_id.as_str())
    }

    /// The user the session `tok` belongs to, if it is still good (see
    /// `session_user_at`, here at the clock's time).
    pub fn session_user(&mut self, tok: &str) -> (r: Option<User>)
        ensures
            exists|t: u64| session_checked(*old(self), *final(self), tok@, t, r),
    {
        let t = now();
        self.session_user_at(tok, t)
    }

    /// Registers `name` with the password hash `hash` (`None` when hashing
    /// failed), the account id `id`, the session token `tok` and the time
    /// `t`: checks name and password, refuses a taken name, then adds the
    /// user and opens its session.
    pub fn register_with(
        &mut self,
        name: &str,
        password: &str,
        hash: Option<String>,
        id: String,
        tok: String,
        t: u64,
    ) -> (r: Result<(User, String), AuthError>)
        ensures
            !is_valid_name(name@) ==> r == Err::<(User, String), AuthError>(AuthError::BadName),
            is_valid_name(name@) && password@.len() < 8 ==> r == Err::<(User, String), AuthError>(
                AuthError::BadPassword,
            ),
            is_valid_name(name@) && password@.len() >= 8 && hash is None ==> r == Err::<
                (User, String),
                AuthError,
            >(AuthError::BadPassword),
            is_valid_name(name@) && password@.len() >= 8 && hash is Some && (exists|i: int|
                0 <= i < old(self).users().len() && (#[trigger] has_name(name@))(
                    old(self).users()[i],
                )) ==> r == Err::<(User, String), AuthError>(AuthError::Taken),
            r is Err ==> final(self).users() == old(self).users() && final(self).sessions()
                == old(self).sessions() && final(self).users_dirty() == old(self).users_dirty()
                && final(self).sessions_dirty() == old(self).sessions_dirty(),
            r is Ok <==> is_valid_name(name@) && password@.len() >= 8 && hash is Some && forall|i: int|
                0 <= i < old(self).users().len() ==> !(#[trigger] has_name(name@))(
                    old(self).users()[i],
                ),
            r matches Ok((u, tok2)) ==> {
                &&& is_valid_name(name@)
                &&& password@.len() >= 8
                &&& hash is Some
                &&& forall|i: int|
                    0 <= i < old(self).users().len() ==> !(#[trigger] has_name(name@))(
                        old(self).users()[i],
                    )
                &&& u.id@ == id@
                &&& u.name@ == name@
                &&& u.password_hash@ == hash->0@
                &&& u.created == t
                &&& u.teams@.len() == 0
                &&& tok2@ == tok@
                &&& final(self).users() == old(self).users().push(u@)
                &&& final(self).sessions() == fresh_part(
                    old(self).sessions(),
                    t,
                    SESSION_SECS,
                ).insert(tok@, (id@, t))
                &&& final(self).users_dirty()
                &&& final(self).sessions_dirty()
            },
    {
        if !Self::valid_name(name) {
            return Err(AuthError::BadName);
        }
        if !has_chars(password, 8) {
            return Err(AuthError::BadPassword);
        }
        let hash = match hash {
            Some(h) => h,
            None => {
                return Err(AuthError::BadPassword);
            },
        };
        if let Some(i) = self.index_by_name(name) {
            return Err(AuthError::Taken);
        }
        let user = User { id, name: text(name), password_hash: hash, created: t, teams: Vec::new() };
        let copy = user.clone();
        self.users.push(copy);
        assert(self.users() =~= old(self).users().push(user@));
        self.users_changed = true;
        let key = tok.clone();
        self.start_session_at(user.id.as_str(), key, t);
        Ok((user, tok))
    }

    /// Creates a user and returns them with a fresh session token. The
    /// password is hashed under a random salt, and id, token and time
    /// come from the random source and the clock.
    pub fn register(&mut self, name: &str, password: &str) -> (r: Result<(User, String), AuthError>)
        ensures
            !is_valid_name(name@) ==> r == Err::<(User, String), AuthError>(AuthError::BadName),
            is_valid_name(name@) && password@.len() < 8 ==> r == Err::<(User, String), AuthError>(
                AuthError::BadPassword,
            ),
            r is Err ==> final(self).users() == old(self).users() && final(self).sessions()
                == old(self).sessions(),
            r is Err && is_valid_name(name@) && password@.len() >= 8 ==> r == Err::<
                (User, String),
                AuthError,
            >(AuthError::BadPassword) || r == Err::<(User, String), AuthError>(AuthError::Taken),
            r == Err::<(User, String), AuthError>(AuthError::Taken) ==> exists|i: int|
                0 <= i < old(self).users().len() && (#[trigger] has_name(name@))(
                    old(self).users()[i],
                ),
            is_valid_name(name@) && password@.len() >= 8 && password.spec_bytes().len() <= 0xFFFF_FFFF
                && (exists|i: int|
                0 <= i < old(self).users().len() && (#[trigger] has_name(name@))(
                    old(self).users()[i],
                )) ==> r == Err::<(User, String), AuthError>(AuthError::Taken),
            is_valid_name(name@) && password@.len() >= 8 && password.spec_bytes().len() <= 0xFFFF_FFFF
                && (forall|i: int|
                0 <= i < old(self).users().len() ==> !(#[trigger] has_name(name@))(
                    old(self).users()[i],
                )) ==> r is Ok,
            r matches Ok((u, tok)) ==> {
                &&& is_valid_name(name@)
                &&& password@.len() >= 8
                &&& forall|i: int|
                    0 <= i < old(self).users().len() ==> !(#[trigger] has_name(name@))(
                        old(self).users()[i],
                    )
                &&& u.name@ == name@
                &&& u.teams@.len() == 0
                &&& exists|b: Seq<u8>| b.len() == 8 && u.id@ == crate::text::hex_of(b)
                &&& exists|b: Seq<u8>| b.len() == 32 && tok@ == crate::text::hex_of(b)
                &&& argon2_accepts(password@, u.password_hash@)
                &&& final(self).users() == old(self).users().push(u@)
                &&& exists|t: u64|
                    final(self).sessions() == fresh_part(old(self).sessions(), t, SESSION_SECS).insert(
                        tok@,
                        (u.id@, t),
                    )
            },
    {
        if !Self::valid_name(name) {
            return Err(AuthError::BadName);
        }
        if !has_chars(password, 8) {
            return Err(AuthError::BadPassword);
        }
        let hash = hash_password(password);
        let id = short_id();
        let tok = token();
        let t = now();
        self.register_with(name, password, hash, id, tok, t)
    }

    /// Signs `name` in with `password` at time `t` under the session token
    /// `tok`: the user with that login name, if argon2 accepts the
    /// password for its hash.
    pub fn login_with(&mut self, name: &str, password: &str, tok: String, t: u64) -> (r: Result<
        (User, String),
        AuthError,
    >)
        ensures
            r is Err ==> r == Err::<(User, String), AuthError>(AuthError::Denied) && final(self).users() == old(self).users() && final(self).sessions() == old(self).sessions()
                && final(self).sessions_dirty() == old(self).sessions_dirty(),
            final(self).users() == old(self).users(),
            final(self).users_dirty() == old(self).users_dirty(),
            r is Ok <==> exists|i: int|
                first_where(old(self).users(), i, has_name(name@)) && argon2_accepts(
                    password@,
                    old(self).users()[i].password_hash,
                ),
            r matches Ok((u, tok2)) ==> {
                &&& found(old(self).users(), has_name(name@), Some(u))
                &&& tok2@ == tok@
                &&& final(self).sessions() == fresh_part(
                    old(self).sessions(),
                    t,
                    SESSION_SECS,
                ).insert(tok@, (u.id@, t))
                &&& final(self).sessions_dirty()
            },
    {
        let i = match self.index_by_name(name) {
            Some(i) => i,
            None => {
                return Err(AuthError::Denied);
            },
        };
        if !password_matches(password, self.users[i].password_hash.as_str()) {
            proof {
                assert forall|j: int|
                    first_where(old(self).users(), j, has_name(name@)) implies !argon2_accepts(
                    password@,
                    old(self).users()[j].password_hash,
                ) by {
                    if j < i {
                        assert(!(has_name(name@))(old(self).users()[j]));
                    } else if j > i {
                        assert(!(has_name(name@))(old(self).users()[i as int]));
                    }
                }
            }
            return Err(AuthError::Denied);
        }
        let user = self.users[i].clone();
        let key = tok.clone();
        self.start_session_at(user.id.as_str(), key, t);
        Ok((user, tok))
    }

    /// Signs `name` in with `password` under a fresh session token.
    pub fn login(&mut self, name: &str, password: &str) -> (r: Result<(User, String), AuthError>)
        ensures
            r is Err ==> r == Err::<(User, String), AuthError>(AuthError::Denied) && final(self).sessions() == old(self).sessions(),
            final(self).users() == old(self).users(),
            r is Ok <==> exists|i: int|
                first_where(old(self).users(), i, has_name(name@)) && argon2_accepts(
                    password@,
                    old(self).users()[i].password_hash,
                ),
            r matches Ok((u, tok)) ==> exists|b: Seq<u8>| b.len() == 32 && tok@ == crate::text::hex_of(b),
            r matches Ok((u, tok)) ==> found(old(self).users(), has_name(name@), Some(u))
                && exists|t: u64|
                final(self).sessions() == fresh_part(old(self).sessions(), t, SESSION_SECS).insert(
                    tok@,
                    (u.id@, t),
                ),
    {
        let tok = token();
        let t = now();
        self.login_with(name, password, tok, t)
    }
}


/// Once `u` is registered under a name nobody had, signing in under that
/// name finds `u`, and argon2 accepts for it the password it was
/// registered with.
pub proof fn law_registered_account_signs_in(
    users: Seq<UserView>,
    u: UserView,
    name: Seq<char>,
    password: Seq<char>,
)
    requires
        forall|i: int| 0 <= i < users.len() ==> !(#[trigger] has_name(name))(users[i]),
        u.name == name,
        argon2_accepts(password, u.password_hash),
    ensures
        first_where(users.push(u), users.len() as int, has_name(name)),
        exists|i: int|
            first_where(users.push(u), i, has_name(name)) && argon2_accepts(
                password,
                users.push(u)[i].password_hash,
            ),
{
    let all = users.push(u);
    assert forall|j: int| 0 <= j < users.len() implies !(has_name(name))(#[trigger] all[j]) by {
        assert(all[j] == users[j]);
    }
    assert(all[users.len() as int] == u);
    assert(first_where(all, users.len() as int, has_name(name)));
}

/// A session opened at `t` is good at `t` and names its account.
pub proof fn law_new_session_is_good(
    before: Map<Seq<char>, SessionView>,
    tok: Seq<char>,
    user: Seq<char>,
    t: u64,
)
    ensures
        ({
            let after = fresh_part(before, t, SESSION_SECS).insert(tok, (user, t));
            &&& after.contains_key(tok)
            &&& after[tok] == (user, t)
            &&& session_fresh(after[tok].1, t)
        }),
{
}

/// After signing out, the token names no session.
pub proof fn law_logout_ends_the_session(before: Map<Seq<char>, SessionView>, tok: Seq<char>)
    ensures
        !before.remove(tok).contains_key(tok),
{
}

} // verus!
