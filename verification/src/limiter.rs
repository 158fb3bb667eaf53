//! A fixed-window counter of sign-in attempts per client address, so
//! passwords cannot be guessed at line rate.

use crate::text::str_eq;
use vstd::prelude::*;

verus! {

/// Sign-in attempts allowed per client address in each window.
pub const AUTH_ATTEMPTS_PER_WINDOW: u32 = 10;

/// The window, in nanoseconds (one minute).
pub const AUTH_WINDOW_NANOS: u64 = 60_000_000_000;

/// Past this many windows, old ones are dropped before counting.
pub const MAX_WINDOWS: usize = 10_000;

/// One client's window: when it started and the attempts in it.
pub type WindowView = (u64, u32);

/// The monotonic clock a limiter measures against.
#[verifier::external_type_specification]
#[verifier::external_body]
pub struct ExInstant(std::time::Instant);

/// `Instant::now()`: the monotonic clock's reading; nothing is claimed.
#[verifier::external_body]
fn instant_now() -> std::time::Instant {
    std::time::Instant::now()
}

/// Nanoseconds from `base` to now on the monotonic clock
/// (`Instant::elapsed`, saturated to 64 bits); nothing is claimed.
#[verifier::external_body]
fn nanos_since(base: &std::time::Instant) -> u64 {
    u64::try_from(base.elapsed().as_nanos()).unwrap_or(u64::MAX)
}

/// The windows, later entries over earlier ones.
pub open spec fn windows_map(s: Seq<(String, u64, u32)>) -> Map<Seq<char>, WindowView>
    decreases s.len(),
{
    if s.len() == 0 {
        Map::empty()
    } else {
        windows_map(s.drop_last()).insert(s.last().0@, (s.last().1, s.last().2))
    }
}

/// No client address occurs twice.
pub open spec fn addresses_unique(s: Seq<(String, u64, u32)>) -> bool {
    forall|i: int, j: int|
        0 <= i < s.len() && 0 <= j < s.len() && i != j ==> (#[trigger] s[i]).0@ != (
        #[trigger] s[j]).0@
}

proof fn lemma_has_index(s: Seq<(String, u64, u32)>, i: int)
    requires
        addresses_unique(s),
        0 <= i < s.len(),
    ensures
        windows_map(s).contains_key(s[i].0@),
        windows_map(s)[s[i].0@] == (s[i].1, s[i].2),
    decreases s.len(),
{
    if i < s.len() - 1 {
        lemma_has_index(s.drop_last(), i);
    }
}

proof fn lemma_dom(s: Seq<(String, u64, u32)>, k: Seq<char>)
    ensures
        windows_map(s).contains_key(k) <==> exists|i: int| 0 <= i < s.len() && s[i].0@ == k,
    decreases s.len(),
{
    if s.len() > 0 {
        lemma_dom(s.drop_last(), k);
        if windows_map(s.drop_last()).contains_key(k) {
            let i = choose|i: int| 0 <= i < s.drop_last().len() && s.drop_last()[i].0@ == k;
            assert(s[i].0@ == k);
        }
        if exists|i: int| 0 <= i < s.len() && s[i].0@ == k {
            let i = choose|i: int| 0 <= i < s.len() && s[i].0@ == k;
            if i < s.len() - 1 {
                assert(s.drop_last()[i].0@ == k);
            }
        }
    }
}

proof fn lemma_update(s: Seq<(String, u64, u32)>, i: int, e: (String, u64, u32))
    requires
        addresses_unique(s),
        0 <= i < s.len(),
        e.0@ == s[i].0@,
    ensures
        addresses_unique(s.update(i, e)),
        windows_map(s.update(i, e)) == windows_map(s).insert(e.0@, (e.1, e.2)),
    decreases s.len(),
{
    let t = s.update(i, e);
    assert forall|a: int, b: int|
        0 <= a < t.len() && 0 <= b < t.len() && a != b implies (#[trigger] t[a]).0@ != (
        #[trigger] t[b]).0@ by {
        assert(t[a].0@ == s[a].0@);
        assert(t[b].0@ == s[b].0@);
    }
    if i == s.len() - 1 {
        assert(t.drop_last() =~= s.drop_last());
        assert(windows_map(t) =~= windows_map(s).insert(e.0@, (e.1, e.2)));
    } else {
        lemma_update(s.drop_last(), i, e);
        assert(t.drop_last() =~= s.drop_last().update(i, e));
        assert(windows_map(t) =~= windows_map(s).insert(e.0@, (e.1, e.2)));
    }
}

proof fn lemma_push(s: Seq<(String, u64, u32)>, e: (String, u64, u32))
    requires
        addresses_unique(s),
        !windows_map(s).contains_key(e.0@),
    ensures
        addresses_unique(s.push(e)),
        windows_map(s.push(e)) == windows_map(s).insert(e.0@, (e.1, e.2)),
{
    let t = s.push(e);
    assert(t.drop_last() =~= s);
    assert forall|a: int, b: int|
        0 <= a < t.len() && 0 <= b < t.len() && a != b implies (#[trigger] t[a]).0@ != (
        #[trigger] t[b]).0@ by {
        if a == s.len() {
            lemma_has_index(s, b);
        } else if b == s.len() {
            lemma_has_index(s, a);
        }
    }
}

/// Nanoseconds from `start` to `now`, 0 when `now` is earlier.
pub open spec fn elapsed(start: u64, now: u64) -> u64 {
    if now >= start {
        (now - start) as u64
    } else {
        0
    }
}

/// The windows of `m` still open at `now`.
pub open spec fn open_windows(m: Map<Seq<char>, WindowView>, now: u64) -> Map<Seq<char>, WindowView> {
    Map::new(
        |k: Seq<char>| m.contains_key(k) && elapsed(m[k].0, now) < AUTH_WINDOW_NANOS,
        |k: Seq<char>| m[k],
    )
}

/// The window of `key` an attempt at `now` counts in: the current one
/// while it is open, else a new one starting at `now` with no attempts.
pub open spec fn current_window(m: Map<Seq<char>, WindowView>, key: Seq<char>, now: u64) -> WindowView {
    if m.contains_key(key) && elapsed(m[key].0, now) < AUTH_WINDOW_NANOS {
        m[key]
    } else {
        (now, 0)
    }
}

/// The windows an attempt sees: pruned to the open ones when there are
/// more than `MAX_WINDOWS`.
pub open spec fn pruned(m: Map<Seq<char>, WindowView>, n: nat, now: u64) -> Map<Seq<char>, WindowView> {
    if n > MAX_WINDOWS {
        open_windows(m, now)
    } else {
        m
    }
}

/// Counts sign-in attempts per client address.
pub struct RateLimiter {
    base: std::time::Instant,
    windows: Vec<(String, u64, u32)>,
}

impl View for RateLimiter {
    type V = Map<Seq<char>, WindowView>;

    closed spec fn view(&self) -> Map<Seq<char>, WindowView> {
        windows_map(self.windows@)
    }
}

impl RateLimiter {
    #[verifier::type_invariant]
    spec fn unique(&self) -> bool {
        addresses_unique(self.windows@)
    }

    /// How many windows the limiter holds.
    pub closed spec fn window_count(&self) -> nat {
        self.windows@.len()
    }

    /// A limiter with no windows.
    pub fn new() -> (l: RateLimiter)
        ensures
            l@ == Map::<Seq<char>, WindowView>::empty(),
            l.window_count() == 0,
    {
        RateLimiter { base: instant_now(), windows: Vec::new() }
    }

    fn index_of(&self, key: &str) -> (r: Option<usize>)
        ensures
            match r {
                Some(i) => i < self.windows@.len() && self.windows@[i as int].0@ == key@,
                None => !self@.contains_key(key@),
            },
    {
        let mut i: usize = 0;
        while i < self.windows.len()
            invariant
                i <= self.windows@.len(),
                forall|j: int| 0 <= j < i ==> (#[trigger] self.windows@[j]).0@ != key@,
            decreases self.windows@.len() - i,
        {
            if str_eq(self.windows[i].0.as_str(), key) {
                return Some(i);
            }
            i = i + 1;
        }
        proof {
            lemma_dom(self.windows@, key@);
        }
        None
    }

    /// Records an attempt from `key` at `now` (nanoseconds on the
    /// limiter's clock) and says whether it is within the limit.
    pub fn allow_at(&mut self, key: &str, now: u64) -> (ok: bool)
        requires
            current_window(pruned(old(self)@, old(self).window_count(), now), key@, now).1
                < u32::MAX,
        ensures
            ({
                let m = pruned(old(self)@, old(self).window_count(), now);
                let (start, count) = current_window(m, key@, now);
                &&& final(self)@ == m.insert(key@, (start, (count + 1) as u32))
                &&& ok == (count + 1 <= AUTH_ATTEMPTS_PER_WINDOW)
            }),
            (final(self)@, ok) == attempt(
                old(self)@,
                key@,
                now,
                old(self).window_count() > MAX_WINDOWS,
            ),
    {
        proof {
            use_type_invariant(&*self);
        }
        if self.windows.len() > MAX_WINDOWS {
            self.prune(now);
        }
        proof {
            use_type_invariant(&*self);
        }
        let ghost m = self@;
        assert(m == pruned(old(self)@, old(self).window_count(), now));
        let idx = self.index_of(key);
        let mut ws: Vec<(String, u64, u32)> = Vec::new();
        std::mem::swap(&mut ws, &mut self.windows);
        assert(windows_map(ws@) == m);
        let count = match idx {
            Some(i) => {
                proof {
                    lemma_has_index(ws@, i as int);
                }
                let (start, c) = (ws[i].1, ws[i].2);
                let age = if now >= start {
                    now - start
                } else {
                    0
                };
                let (start2, c2) = if age >= AUTH_WINDOW_NANOS {
                    (now, 0u32)
                } else {
                    (start, c)
                };
                let e = (crate::text::text(key), start2, c2 + 1);
                proof {
                    lemma_update(ws@, i as int, e);
                }
                ws.set(i, e);
                c2 + 1
            },
            None => {
                proof {
                    lemma_dom(ws@, key@);
                }
                let e = (crate::text::text(key), now, 1u32);
                proof {
                    lemma_push(ws@, e);
                }
                ws.push(e);
                1
            },
        };
        self.windows = ws;
        count <= AUTH_ATTEMPTS_PER_WINDOW
    }

    fn prune(&mut self, now: u64)
        ensures
            final(self)@ == open_windows(old(self)@, now),
    {
        proof {
            use_type_invariant(&*self);
        }
        let mut old_ws: Vec<(String, u64, u32)> = Vec::new();
        std::mem::swap(&mut old_ws, &mut self.windows);
        let ghost all = old_ws@;
        let n = old_ws.len();
        let mut kept: Vec<(String, u64, u32)> = Vec::new();
        let mut i: usize = 0;
        while i < n
            invariant
                n == all.len(),
                i <= n,
                addresses_unique(all),
                old_ws@ == all.subrange(i as int, n as int),
                addresses_unique(kept@),
                windows_map(kept@) == open_windows(windows_map(all.take(i as int)), now),
            decreases n - i,
        {
            let e = old_ws.remove(0);
            let ghost m0 = windows_map(all.take(i as int));
            proof {
                assert(e == all[i as int]);
                assert(all.take(i + 1).drop_last() =~= all.take(i as int));
                lemma_dom(all.take(i as int), e.0@);
                if m0.contains_key(e.0@) {
                    let j = choose|j: int|
                        0 <= j < all.take(i as int).len() && all.take(i as int)[j].0@ == e.0@;
                    assert(all[j] == all.take(i as int)[j]);
                }
            }
            let age = if now >= e.1 {
                now - e.1
            } else {
                0
            };
            if age < AUTH_WINDOW_NANOS {
                proof {
                    lemma_push(kept@, e);
                }
                kept.push(e);
            }
            i = i + 1;
            proof {
                assert(old_ws@ =~= all.subrange(i as int, n as int));
                assert(windows_map(kept@) =~= open_windows(windows_map(all.take(i as int)), now));
            }
        }
        assert(all.take(n as int) =~= all);
        self.windows = kept;
    }

    /// Whether the count of `key`'s window is below the largest a `u32`
    /// holds, so that one more attempt from it can be counted.
    pub fn can_count(&self, key: &str) -> (b: bool)
        ensures
            b == (self@.contains_key(key@) ==> self@[key@].1 < u32::MAX),
    {
        proof {
            use_type_invariant(self);
        }
        match self.index_of(key) {
            Some(i) => {
                proof {
                    lemma_has_index(self.windows@, i as int);
                }
                self.windows[i].2 < u32::MAX
            },
            None => true,
        }
    }

    /// Records an attempt from `key` now and says whether it is within the
    /// limit.
    pub fn allow(&mut self, key: &str) -> (ok: bool)
        requires
            old(self)@.contains_key(key@) ==> old(self)@[key@].1 < u32::MAX,
        ensures
            exists|now: u64|
                #![trigger pruned(old(self)@, old(self).window_count(), now)]
                {
                    let m = pruned(old(self)@, old(self).window_count(), now);
                    let (start, count) = current_window(m, key@, now);
                    &&& final(self)@ == m.insert(key@, (start, (count + 1) as u32))
                    &&& ok == (count + 1 <= AUTH_ATTEMPTS_PER_WINDOW)
                },
    {
        let now = nanos_since(&self.base);
        self.allow_at(key, now)
    }
}

/// Within one window, the attempt after the limit's is refused, and so is
/// every later one until the window closes.
pub proof fn law_attempts_past_the_limit_are_refused(
    m: Map<Seq<char>, WindowView>,
    key: Seq<char>,
    now: u64,
)
    requires
        m.contains_key(key),
        elapsed(m[key].0, now) < AUTH_WINDOW_NANOS,
        m[key].1 >= AUTH_ATTEMPTS_PER_WINDOW,
    ensures
        !(current_window(m, key, now).1 + 1 <= AUTH_ATTEMPTS_PER_WINDOW),
{
}

/// Once a window has closed, the next attempt starts a fresh count and is
/// allowed.
pub proof fn law_a_closed_window_starts_over(m: Map<Seq<char>, WindowView>, key: Seq<char>, now: u64)
    requires
        m.contains_key(key) ==> elapsed(m[key].0, now) >= AUTH_WINDOW_NANOS,
    ensures
        current_window(m, key, now) == (now, 0u32),
        current_window(m, key, now).1 + 1 <= AUTH_ATTEMPTS_PER_WINDOW,
{
}

/// One attempt from `key` at `now` on the windows `m`, as `allow_at`
/// makes it (its `ensures` says so), where `prune` says whether the
/// limiter first dropped its closed windows (it does when it holds more
/// than `MAX_WINDOWS`): the windows after it, and the answer.
pub open spec fn attempt(m: Map<Seq<char>, WindowView>, key: Seq<char>, now: u64, prune: bool) -> (
    Map<Seq<char>, WindowView>,
    bool,
) {
    let m1 = if prune {
        open_windows(m, now)
    } else {
        m
    };
    let (start, count) = current_window(m1, key, now);
    (m1.insert(key, (start, (count + 1) as u32)), count + 1 <= AUTH_ATTEMPTS_PER_WINDOW)
}

/// Attempts from `key` at the times `times`, one after another, each
/// with or without pruning first: the windows after them, and the
/// answers in order.
pub open spec fn attempts(
    m: Map<Seq<char>, WindowView>,
    key: Seq<char>,
    times: Seq<u64>,
    prunes: Seq<bool>,
) -> (Map<Seq<char>, WindowView>, Seq<bool>)
    decreases times.len(),
{
    if times.len() == 0 {
        (m, Seq::empty())
    } else {
        let (m0, answers) = attempts(m, key, times.drop_last(), prunes.drop_last());
        let (m1, ok) = attempt(m0, key, times.last(), prunes.last());
        (m1, answers.push(ok))
    }
}

proof fn lemma_attempts_in_one_window(
    m: Map<Seq<char>, WindowView>,
    key: Seq<char>,
    times: Seq<u64>,
    prunes: Seq<bool>,
)
    requires
        times.len() > 0,
        times.len() < u32::MAX,
        prunes.len() == times.len(),
        !(m.contains_key(key) && elapsed(m[key].0, times[0]) < AUTH_WINDOW_NANOS),
        forall|j: int| 0 <= j < times.len() ==> times[0] <= #[trigger] times[j],
        forall|j: int| 0 <= j < times.len() ==> #[trigger] times[j] - times[0] < AUTH_WINDOW_NANOS,
    ensures
        attempts(m, key, times, prunes).0.contains_key(key),
        attempts(m, key, times, prunes).0[key] == (times[0], times.len() as u32),
        attempts(m, key, times, prunes).1 == Seq::new(
            times.len(),
            |j: int| j + 1 <= AUTH_ATTEMPTS_PER_WINDOW,
        ),
    decreases times.len(),
{
    let n = times.len();
    let (m0, answers) = attempts(m, key, times.drop_last(), prunes.drop_last());
    let now = times.last();
    if n > 1 {
        let t = times.drop_last();
        assert forall|j: int| 0 <= j < t.len() implies t[0] <= #[trigger] t[j] by {
            assert(t[j] == times[j]);
        }
        assert forall|j: int| 0 <= j < t.len() implies #[trigger] t[j] - t[0] < AUTH_WINDOW_NANOS by {
            assert(t[j] == times[j]);
        }
        lemma_attempts_in_one_window(m, key, t, prunes.drop_last());
        assert(times[n - 1] == now);
        let m1 = if prunes.last() {
            open_windows(m0, now)
        } else {
            m0
        };
        assert(m1.contains_key(key) && m1[key] == m0[key]);
        assert(current_window(m1, key, now) == (times[0], (n - 1) as u32));
        assert(answers.push(n <= AUTH_ATTEMPTS_PER_WINDOW) =~= Seq::new(
            n,
            |j: int| j + 1 <= AUTH_ATTEMPTS_PER_WINDOW,
        ));
    } else {
        assert(times.drop_last().len() == 0);
        assert(m0 == m);
        assert(now == times[0]);
        let m1 = if prunes.last() {
            open_windows(m, now)
        } else {
            m
        };
        assert(current_window(m1, key, now) == (now, 0u32));
        assert(answers.push(true) =~= Seq::new(1, |j: int| j + 1 <= AUTH_ATTEMPTS_PER_WINDOW));
    }
}

/// Calls of `allow_at` from one address that has no open window, all
/// made within a window's length of the first, are answered in turn
/// (each call is one `attempt`, so a run of them is `attempts`): the `k`-th is
/// allowed exactly when `k` is at most the limit, so of 12 attempts the
/// last two are refused; the window then holds all of them, from the
/// first attempt's time. Whether the limiter prunes its windows on the
/// way changes none of this.
pub proof fn law_attempts_in_one_window_count_up(
    m: Map<Seq<char>, WindowView>,
    key: Seq<char>,
    times: Seq<u64>,
    prunes: Seq<bool>,
)
    requires
        times.len() > 0,
        times.len() < u32::MAX,
        prunes.len() == times.len(),
        !(m.contains_key(key) && elapsed(m[key].0, times[0]) < AUTH_WINDOW_NANOS),
        forall|j: int| 0 <= j < times.len() ==> times[0] <= #[trigger] times[j],
        forall|j: int| 0 <= j < times.len() ==> #[trigger] times[j] - times[0] < AUTH_WINDOW_NANOS,
    ensures
        forall|j: int|
            0 <= j < times.len() ==> #[trigger] attempts(m, key, times, prunes).1[j] == (j + 1
                <= AUTH_ATTEMPTS_PER_WINDOW),
        attempts(m, key, times, prunes).0[key] == (times[0], times.len() as u32),
{
    lemma_attempts_in_one_window(m, key, times, prunes);
}

/// An attempt from another address changes nothing for `key`: the
/// window an attempt from `key` at a time no earlier counts in is the
/// same, pruned or not.
pub proof fn law_other_addresses_do_not_count(
    m: Map<Seq<char>, WindowView>,
    key: Seq<char>,
    other: Seq<char>,
    t: u64,
    prune: bool,
    now: u64,
)
    requires
        other != key,
        t <= now,
    ensures
        current_window(attempt(m, other, t, prune).0, key, now) == current_window(m, key, now),
{
    let m1 = if prune {
        open_windows(m, t)
    } else {
        m
    };
    assert(current_window(m1, key, now) == current_window(m, key, now));
}

} // verus!
