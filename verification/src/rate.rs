//! Per-client rate limiting: at most `RATE_MAX` accepted requests per
//! client within a sliding window. Times are milliseconds of a monotonic
//! clock that the caller reads.

use vstd::prelude::*;

verus! {

/// Accepted requests per client within the window.
pub const RATE_MAX: usize = 12;

/// The window, in milliseconds.
pub const RATE_WINDOW_MS: u64 = 60_000;

/// Above this many clients, those without a recent request are forgotten.
pub const RATE_PRUNE_ABOVE: usize = 4096;

struct Bucket {
    ip: String,
    hits: Vec<u64>,
}

/// The clients seen and the times of their accepted requests.
pub struct RateLimiter {
    buckets: Vec<Bucket>,
}

spec fn bucket_views(v: Seq<Bucket>) -> Seq<(Seq<char>, Seq<u64>)> {
    v.map_values(|b: Bucket| (b.ip@, b.hits@))
}

impl View for RateLimiter {
    type V = Seq<(Seq<char>, Seq<u64>)>;

    closed spec fn view(&self) -> Seq<(Seq<char>, Seq<u64>)> {
        bucket_views(self.buckets@)
    }
}

/// Whether a request at `t` is within the window at `now` (a time after
/// `now` counts as no time elapsed).
pub open spec fn live(t: u64, now: u64) -> bool {
    now < t || now - t < RATE_WINDOW_MS
}

/// The request times still within the window, in order.
pub open spec fn live_hits(h: Seq<u64>, now: u64) -> Seq<u64>
    decreases h.len(),
{
    if h.len() == 0 {
        h
    } else {
        let r = live_hits(h.drop_last(), now);
        if live(h.last(), now) {
            r.push(h.last())
        } else {
            r
        }
    }
}

/// The clients with a request within the window, in order.
pub open spec fn keep_live(s: Seq<(Seq<char>, Seq<u64>)>, now: u64) -> Seq<(Seq<char>, Seq<u64>)>
    decreases s.len(),
{
    if s.len() == 0 {
        s
    } else {
        let r = keep_live(s.drop_last(), now);
        if live_hits(s.last().1, now).len() > 0 {
            r.push(s.last())
        } else {
            r
        }
    }
}

pub open spec fn ips_distinct(s: Seq<(Seq<char>, Seq<u64>)>) -> bool {
    forall|i: int, j: int| 0 <= i < j < s.len() ==> s[i].0 != s[j].0
}

pub open spec fn has_ip(s: Seq<(Seq<char>, Seq<u64>)>, ip: Seq<char>) -> bool {
    exists|i: int| 0 <= i < s.len() && s[i].0 == ip
}

pub open spec fn ip_index(s: Seq<(Seq<char>, Seq<u64>)>, ip: Seq<char>) -> int {
    choose|i: int| 0 <= i < s.len() && s[i].0 == ip
}

/// The recorded request times of a client (none for a client not seen).
pub open spec fn hits_of(s: Seq<(Seq<char>, Seq<u64>)>, ip: Seq<char>) -> Seq<u64> {
    if has_ip(s, ip) {
        s[ip_index(s, ip)].1
    } else {
        Seq::empty()
    }
}

/// The clients after setting the times of `ip`: in place, or appended.
pub open spec fn set_hits(s: Seq<(Seq<char>, Seq<u64>)>, ip: Seq<char>, h: Seq<u64>) -> Seq<(Seq<char>, Seq<u64>)> {
    if has_ip(s, ip) {
        s.update(ip_index(s, ip), (ip, h))
    } else {
        s.push((ip, h))
    }
}

/// The clients as `allow` sees them: forgotten when too many and idle.
pub open spec fn tidied(s: Seq<(Seq<char>, Seq<u64>)>, now: u64) -> Seq<(Seq<char>, Seq<u64>)> {
    if s.len() > RATE_PRUNE_ABOVE {
        keep_live(s, now)
    } else {
        s
    }
}

/// Whether `allow(ip, now)` accepts: fewer than `RATE_MAX` recent requests.
pub open spec fn allowed(s: Seq<(Seq<char>, Seq<u64>)>, ip: Seq<char>, now: u64) -> bool {
    live_hits(hits_of(tidied(s, now), ip), now).len() < RATE_MAX
}

/// The clients after `allow(ip, now)`.
pub open spec fn after_allow(s: Seq<(Seq<char>, Seq<u64>)>, ip: Seq<char>, now: u64) -> Seq<(Seq<char>, Seq<u64>)> {
    let t = tidied(s, now);
    let h = live_hits(hits_of(t, ip), now);
    set_hits(t, ip, if allowed(s, ip, now) {
        h.push(now)
    } else {
        h
    })
}

proof fn lemma_live_hits(h: Seq<u64>, now: u64)
    ensures
        live_hits(h, now).len() <= h.len(),
        (exists|i: int| 0 <= i < h.len() && live(#[trigger] h[i], now)) <==> live_hits(h, now).len() > 0,
    decreases h.len(),
{
    if h.len() > 0 {
        let d = h.drop_last();
        lemma_live_hits(d, now);
        if exists|i: int| 0 <= i < h.len() && live(#[trigger] h[i], now) {
            let i = choose|i: int| 0 <= i < h.len() && live(#[trigger] h[i], now);
            if i < d.len() {
                assert(live(d[i], now));
            }
        }
        if exists|i: int| 0 <= i < d.len() && live(#[trigger] d[i], now) {
            let i = choose|i: int| 0 <= i < d.len() && live(#[trigger] d[i], now);
            assert(live(h[i], now));
        }
        if live(h.last(), now) {
            assert(live(h[h.len() - 1], now));
        }
    }
}

proof fn lemma_keep_live(s: Seq<(Seq<char>, Seq<u64>)>, now: u64)
    ensures
        forall|x: (Seq<char>, Seq<u64>)| #[trigger] keep_live(s, now).contains(x) ==> s.contains(x),
        forall|i: int| 0 <= i < s.len() && live_hits(#[trigger] s[i].1, now).len() > 0 ==> keep_live(s, now).contains(s[i]),
        ips_distinct(s) ==> ips_distinct(keep_live(s, now)),
    decreases s.len(),
{
    if s.len() > 0 {
        let d = s.drop_last();
        lemma_keep_live(d, now);
        let r = keep_live(d, now);
        let k = keep_live(s, now);
        assert forall|x: (Seq<char>, Seq<u64>)| #[trigger] k.contains(x) implies s.contains(x) by {
            if r.contains(x) {
                let i = choose|i: int| 0 <= i < d.len() && d[i] == x;
                assert(s[i] == x);
            } else {
                assert(s[s.len() - 1] == x);
            }
        }
        assert forall|i: int| 0 <= i < s.len() && live_hits(#[trigger] s[i].1, now).len() > 0 implies k.contains(s[i]) by {
            if i < d.len() {
                assert(d[i] == s[i]);
                assert(r.contains(s[i]));
                if live_hits(s.last().1, now).len() > 0 {
                    let j = choose|j: int| 0 <= j < r.len() && r[j] == s[i];
                    assert(k[j] == s[i]);
                }
            } else {
                assert(k[k.len() - 1] == s[i]);
            }
        }
        if ips_distinct(s) {
            assert(ips_distinct(d));
            if live_hits(s.last().1, now).len() > 0 {
                assert forall|i: int, j: int| 0 <= i < j < k.len() implies k[i].0 != k[j].0 by {
                    if j == r.len() {
                        assert(r.contains(r[i]));
                        let m = choose|m: int| 0 <= m < d.len() && d[m] == r[i];
                        assert(s[m] == r[i]);
                    }
                }
            }
        }
    }
}

proof fn lemma_index(s: Seq<(Seq<char>, Seq<u64>)>, i: int)
    requires
        ips_distinct(s),
        0 <= i < s.len(),
    ensures
        has_ip(s, s[i].0),
        ip_index(s, s[i].0) == i,
{
    assert(has_ip(s, s[i].0));
    let m = ip_index(s, s[i].0);
    if m != i {
        if m < i {
            assert(s[m].0 != s[i].0);
        } else {
            assert(s[i].0 != s[m].0);
        }
    }
}

proof fn lemma_set_hits(s: Seq<(Seq<char>, Seq<u64>)>, ip: Seq<char>, h: Seq<u64>)
    requires
        ips_distinct(s),
    ensures
        ips_distinct(set_hits(s, ip, h)),
        hits_of(set_hits(s, ip, h), ip) == h,
        forall|ip2: Seq<char>| ip2 != ip ==> hits_of(#[trigger] set_hits(s, ip, h), ip2) == hits_of(s, ip2),
{
    let u = set_hits(s, ip, h);
    if has_ip(s, ip) {
        let k = ip_index(s, ip);
        assert forall|i: int, j: int| 0 <= i < j < u.len() implies u[i].0 != u[j].0 by {
            if i == k {
                assert(s[j].0 != s[k].0);
            } else if j == k {
                assert(s[i].0 != s[k].0);
            }
        }
        lemma_index(u, k);
        assert forall|ip2: Seq<char>| ip2 != ip implies hits_of(#[trigger] set_hits(s, ip, h), ip2) == hits_of(s, ip2) by {
            if has_ip(s, ip2) {
                let m = ip_index(s, ip2);
                assert(m != k);
                assert(u[m] == s[m]);
                lemma_index(u, m);
                lemma_index(s, m);
            } else if has_ip(u, ip2) {
                let m = ip_index(u, ip2);
                assert(m != k);
                assert(s[m] == u[m]);
            }
        }
    } else {
        assert forall|i: int, j: int| 0 <= i < j < u.len() implies u[i].0 != u[j].0 by {
            if j == s.len() {
                assert(s[i].0 != ip) by {
                    if s[i].0 == ip {
                        assert(has_ip(s, ip));
                    }
                }
            }
        }
        lemma_index(u, s.len() as int);
        assert forall|ip2: Seq<char>| ip2 != ip implies hits_of(#[trigger] set_hits(s, ip, h), ip2) == hits_of(s, ip2) by {
            if has_ip(s, ip2) {
                let m = ip_index(s, ip2);
                assert(u[m] == s[m]);
                lemma_index(u, m);
                lemma_index(s, m);
            } else if has_ip(u, ip2) {
                let m = ip_index(u, ip2);
                assert(m != s.len());
                assert(s[m] == u[m]);
                assert(has_ip(s, ip2));
            }
        }
    }
}

/// Forgetting idle clients changes no client's recent requests.
proof fn lemma_tidied(s: Seq<(Seq<char>, Seq<u64>)>, now: u64, ip: Seq<char>)
    requires
        ips_distinct(s),
    ensures
        ips_distinct(tidied(s, now)),
        live_hits(hits_of(tidied(s, now), ip), now) == live_hits(hits_of(s, ip), now),
        forall|i: int| 0 <= i < tidied(s, now).len() ==> tidied(s, now).contains(#[trigger] tidied(s, now)[i])
            && s.contains(tidied(s, now)[i]),
{
    let t = tidied(s, now);
    lemma_keep_live(s, now);
    assert forall|i: int| 0 <= i < t.len() implies t.contains(#[trigger] t[i]) && s.contains(t[i]) by {
        assert(t.contains(t[i]));
    }
    if s.len() > RATE_PRUNE_ABOVE {
        if has_ip(s, ip) {
            let m = ip_index(s, ip);
            lemma_live_hits(s[m].1, now);
            if live_hits(s[m].1, now).len() > 0 {
                assert(t.contains(s[m]));
                let j = choose|j: int| 0 <= j < t.len() && t[j] == s[m];
                lemma_index(t, j);
            } else if has_ip(t, ip) {
                let j = ip_index(t, ip);
                assert(t.contains(t[j]));
                assert(s.contains(t[j]));
                let m2 = choose|m2: int| 0 <= m2 < s.len() && s[m2] == t[j];
                lemma_index(s, m2);
            }
        } else if has_ip(t, ip) {
            let j = ip_index(t, ip);
            assert(t.contains(t[j]));
            let m2 = choose|m2: int| 0 <= m2 < s.len() && s[m2] == t[j];
            assert(has_ip(s, ip));
        }
    }
}

/// A request is accepted exactly when the client has fewer than
/// `RATE_MAX` accepted requests within the window; afterwards the client
/// keeps just those recent requests and, if accepted, this one; and no
/// other client's recent requests change.
pub proof fn lemma_allow(s: Seq<(Seq<char>, Seq<u64>)>, ip: Seq<char>, now: u64)
    requires
        ips_distinct(s),
    ensures
        allowed(s, ip, now) == (live_hits(hits_of(s, ip), now).len() < RATE_MAX),
        hits_of(after_allow(s, ip, now), ip) == if allowed(s, ip, now) {
            live_hits(hits_of(s, ip), now).push(now)
        } else {
            live_hits(hits_of(s, ip), now)
        },
        forall|ip2: Seq<char>|
            ip2 != ip ==> live_hits(hits_of(#[trigger] after_allow(s, ip, now), ip2), now) == live_hits(
                hits_of(s, ip2),
                now,
            ),
{
    lemma_tidied(s, now, ip);
    let t = tidied(s, now);
    let h = live_hits(hits_of(t, ip), now);
    let nh = if allowed(s, ip, now) {
        h.push(now)
    } else {
        h
    };
    lemma_set_hits(t, ip, nh);
    assert forall|ip2: Seq<char>| ip2 != ip implies live_hits(hits_of(#[trigger] after_allow(s, ip, now), ip2), now)
        == live_hits(hits_of(s, ip2), now) by {
        lemma_tidied(s, now, ip2);
        assert(hits_of(set_hits(t, ip, nh), ip2) == hits_of(t, ip2));
    }
}

/// A request time live at a later instant was live at an earlier one.
proof fn lemma_live_compose(h: Seq<u64>, n1: u64, n2: u64)
    requires
        n1 <= n2,
    ensures
        live_hits(live_hits(h, n1), n2) == live_hits(h, n2),
    decreases h.len(),
{
    if h.len() > 0 {
        let d = h.drop_last();
        lemma_live_compose(d, n1, n2);
        let r1 = live_hits(d, n1);
        if live(h.last(), n1) {
            assert(r1.push(h.last()).drop_last() =~= r1);
        }
    }
}

/// The limiter after each call `(client, time)` of `calls` in turn,
/// starting from `s`.
pub open spec fn replay(s: Seq<(Seq<char>, Seq<u64>)>, calls: Seq<(Seq<char>, u64)>) -> Seq<
    (Seq<char>, Seq<u64>),
>
    decreases calls.len(),
{
    if calls.len() == 0 {
        s
    } else {
        after_allow(replay(s, calls.drop_last()), calls.last().0, calls.last().1)
    }
}

/// Whether call `k` of `calls`, made on a fresh limiter after the calls
/// before it, is accepted.
pub open spec fn answer(calls: Seq<(Seq<char>, u64)>, k: int) -> bool {
    allowed(replay(Seq::empty(), calls.take(k)), calls[k].0, calls[k].1)
}

/// The times of the accepted calls of `ip` among the first `k` calls.
pub open spec fn accepted_times(calls: Seq<(Seq<char>, u64)>, ip: Seq<char>, k: nat) -> Seq<u64>
    decreases k,
{
    if k == 0 {
        Seq::empty()
    } else {
        let r = accepted_times(calls, ip, (k - 1) as nat);
        if calls[k - 1].0 == ip && answer(calls, k - 1) {
            r.push(calls[k - 1].1)
        } else {
            r
        }
    }
}

/// Calls made in time order.
pub open spec fn in_time_order(calls: Seq<(Seq<char>, u64)>) -> bool {
    forall|i: int, j: int| 0 <= i < j < calls.len() ==> calls[i].1 <= calls[j].1
}

/// After the first `k` calls the limiter knows, of each client, exactly
/// its accepted calls that are still within the window, and never more
/// than `RATE_MAX` of them.
proof fn lemma_replay(calls: Seq<(Seq<char>, u64)>, k: nat)
    requires
        in_time_order(calls),
        k <= calls.len(),
    ensures
        ips_distinct(replay(Seq::empty(), calls.take(k as int))),
        forall|ip: Seq<char>, now: u64|
            (k == 0 || now >= calls[k - 1].1) ==> live_hits(
                hits_of(replay(Seq::empty(), calls.take(k as int)), ip),
                now,
            ) == #[trigger] live_hits(accepted_times(calls, ip, k), now),
        forall|ip: Seq<char>, now: u64|
            (k == 0 || now >= calls[k - 1].1) ==> #[trigger] live_hits(accepted_times(calls, ip, k), now).len() <= RATE_MAX,
    decreases k,
{
    let e = Seq::<(Seq<char>, Seq<u64>)>::empty();
    if k == 0 {
        assert(calls.take(0) =~= Seq::<(Seq<char>, u64)>::empty());
        assert forall|ip: Seq<char>, now: u64| true implies live_hits(
            hits_of(replay(e, calls.take(0)), ip),
            now,
        ) == #[trigger] live_hits(accepted_times(calls, ip, 0), now) by {
            assert(!has_ip(e, ip));
        }
    } else {
        let j = (k - 1) as nat;
        lemma_replay(calls, j);
        let s = replay(e, calls.take(j as int));
        assert(calls.take(k as int).drop_last() =~= calls.take(j as int));
        assert(calls.take(k as int).last() == calls[j as int]);
        let ip0 = calls[j as int].0;
        let t = calls[j as int].1;
        assert(j == 0 || t >= calls[j - 1].1);
        lemma_allow(s, ip0, t);
        lemma_tidied(s, t, ip0);
        lemma_set_hits(
            tidied(s, t),
            ip0,
            if allowed(s, ip0, t) {
                live_hits(hits_of(tidied(s, t), ip0), t).push(t)
            } else {
                live_hits(hits_of(tidied(s, t), ip0), t)
            },
        );
        let n = replay(e, calls.take(k as int));
        assert(n == after_allow(s, ip0, t));
        assert(answer(calls, j as int) == allowed(s, ip0, t));
        assert forall|ip: Seq<char>, now: u64| now >= calls[k - 1].1 implies live_hits(
            hits_of(n, ip),
            now,
        ) == #[trigger] live_hits(accepted_times(calls, ip, k), now) && live_hits(
            accepted_times(calls, ip, k),
            now,
        ).len() <= RATE_MAX by {
            let a = accepted_times(calls, ip, j);
            lemma_live_compose(hits_of(s, ip), t, now);
            lemma_live_compose(a, t, now);
            assert(live_hits(hits_of(s, ip), t) == live_hits(a, t));
            assert(live_hits(a, t).len() <= RATE_MAX);
            lemma_live_hits(live_hits(a, t), now);
            if ip == ip0 {
                let h = live_hits(hits_of(s, ip0), t);
                if allowed(s, ip0, t) {
                    assert(accepted_times(calls, ip, k) == a.push(t));
                    assert(a.push(t).drop_last() =~= a);
                    assert(h.push(t).drop_last() =~= h);
                    lemma_live_compose(h, t, now);
                } else {
                    assert(accepted_times(calls, ip, k) == a);
                    lemma_live_compose(h, t, now);
                }
            } else {
                assert(accepted_times(calls, ip, k) == a);
                lemma_tidied(s, t, ip);
                assert(hits_of(n, ip) == hits_of(tidied(s, t), ip));
                lemma_live_compose(hits_of(tidied(s, t), ip), t, now);
            }
        }
    }
}

/// Over any run of calls in time order on a fresh limiter, a call is
/// accepted exactly when fewer than `RATE_MAX` earlier calls of the same
/// client were accepted within the window before it; a refused call is not
/// counted; and at no instant from a call on does one client have more
/// than `RATE_MAX` accepted calls within the window.
pub proof fn lemma_rate_sequence(calls: Seq<(Seq<char>, u64)>, k: int)
    requires
        in_time_order(calls),
        0 <= k < calls.len(),
    ensures
        answer(calls, k) == (live_hits(accepted_times(calls, calls[k].0, k as nat), calls[k].1).len()
            < RATE_MAX),
        accepted_times(calls, calls[k].0, (k + 1) as nat) == if answer(calls, k) {
            accepted_times(calls, calls[k].0, k as nat).push(calls[k].1)
        } else {
            accepted_times(calls, calls[k].0, k as nat)
        },
        forall|ip: Seq<char>, now: u64|
            now >= calls[k].1 ==> #[trigger] live_hits(accepted_times(calls, ip, (k + 1) as nat), now).len()
                <= RATE_MAX,
{
    lemma_replay(calls, k as nat);
    lemma_replay(calls, (k + 1) as nat);
    let s = replay(Seq::empty(), calls.take(k));
    lemma_allow(s, calls[k].0, calls[k].1);
    if k > 0 {
        assert(calls[k].1 >= calls[k - 1].1);
    }
}

impl RateLimiter {
    /// No two entries for one client, and at most `RATE_MAX` times kept
    /// for each.
    pub closed spec fn wf(&self) -> bool {
        &&& ips_distinct(self@)
        &&& forall|i: int| 0 <= i < self@.len() ==> (#[trigger] self@[i]).1.len() <= RATE_MAX
    }

    /// A limiter that has seen no client.
    pub fn new() -> (r: RateLimiter)
        ensures
            r.wf(),
            r@ == Seq::<(Seq<char>, Seq<u64>)>::empty(),
    {
        let r = RateLimiter { buckets: Vec::new() };
        assert(r@ =~= Seq::<(Seq<char>, Seq<u64>)>::empty());
        r
    }

    fn forget_idle(&mut self, now: u64)
        requires
            old(self).wf(),
        ensures
            final(self)@ == keep_live(old(self)@, now),
            final(self).wf(),
    {
        let mut rest: Vec<Bucket> = Vec::new();
        std::mem::swap(&mut rest, &mut self.buckets);
        let ghost orig = rest@;
        let n = rest.len();
        let mut k: usize = 0;
        assert(self.buckets@ =~= Seq::<Bucket>::empty());
        while rest.len() > 0
            invariant
                k <= n,
                n == orig.len(),
                rest@ == orig.skip(k as int),
                rest@.len() == n - k,
                bucket_views(self.buckets@) == keep_live(bucket_views(orig).take(k as int), now),
            decreases rest@.len(),
        {
            let b = rest.remove(0);
            proof {
                assert(b == orig[k as int]);
                assert(bucket_views(orig).take(k + 1).drop_last() =~= bucket_views(orig).take(k as int));
                assert(bucket_views(orig).take(k + 1).last() == (b.ip@, b.hits@));
                assert(rest@ =~= orig.skip(k + 1));
                lemma_live_hits(b.hits@, now);
            }
            let mut any = false;
            let mut j: usize = 0;
            while j < b.hits.len()
                invariant
                    j <= b.hits@.len(),
                    any == exists|i: int| 0 <= i < j && live(#[trigger] b.hits@[i], now),
                decreases b.hits@.len() - j,
            {
                let t = b.hits[j];
                if now < t || now - t < RATE_WINDOW_MS {
                    any = true;
                }
                j = j + 1;
            }
            if any {
                self.buckets.push(b);
                assert(bucket_views(self.buckets@) =~= keep_live(bucket_views(orig).take(k + 1), now));
            } else {
                assert(bucket_views(self.buckets@) =~= keep_live(bucket_views(orig).take(k + 1), now));
            }
            k = k + 1;
        }
        assert(bucket_views(orig).take(n as int) =~= bucket_views(orig));
        proof {
            lemma_keep_live(old(self)@, now);
            let s = self@;
            assert forall|i: int| 0 <= i < s.len() implies (#[trigger] s[i]).1.len() <= RATE_MAX by {
                assert(s.contains(s[i]));
                let m = choose|m: int| 0 <= m < old(self)@.len() && old(self)@[m] == s[i];
                assert(old(self)@[m].1.len() <= RATE_MAX);
            }
        }
    }

    fn find(&self, ip: &String) -> (r: Option<usize>)
        requires
            self.wf(),
        ensures
            match r {
                Some(i) => has_ip(self@, ip@) && i == ip_index(self@, ip@),
                None => !has_ip(self@, ip@),
            },
    {
        let n = self.buckets.len();
        let mut i: usize = 0;
        while i < n
            invariant
                i <= n,
                n == self@.len(),
                self.wf(),
                forall|k: int| 0 <= k < i ==> self@[k].0 != ip@,
            decreases n - i,
        {
            if self.buckets[i].ip == *ip {
                assert(self@[i as int].0 == ip@);
                proof {
                    lemma_index(self@, i as int);
                }
                return Some(i);
            }
            i = i + 1;
        }
        None
    }

    /// Records a request from `ip` at `now` and tells whether it is
    /// accepted: it is when the client has fewer than `RATE_MAX` requests
    /// within the window. Requests past the window are dropped first, and
    /// when more than `RATE_PRUNE_ABOVE` clients are known, clients without
    /// a recent request are forgotten.
    pub fn allow(&mut self, ip: &str, now: u64) -> (ok: bool)
        requires
            old(self).wf(),
        ensures
            final(self).wf(),
            ok == allowed(old(self)@, ip@, now),
            final(self)@ == after_allow(old(self)@, ip@, now),
            hits_of(final(self)@, ip@).len() <= RATE_MAX,
    {
        if self.buckets.len() > RATE_PRUNE_ABOVE {
            self.forget_idle(now);
        }
        let ghost t = self@;
        assert(t == tidied(old(self)@, now));
        let key = ip.to_owned();
        let found = self.find(&key);
        let mut h: Vec<u64> = Vec::new();
        match found {
            Some(i) => {
                h = live_copy(&self.buckets[i].hits, now);
            },
            None => {
                assert(h@ =~= live_hits(hits_of(t, ip@), now));
            },
        }
        proof {
            lemma_live_hits(hits_of(t, ip@), now);
            if has_ip(t, ip@) {
                let m = ip_index(t, ip@);
                assert(t[m].1.len() <= RATE_MAX);
            }
        }
        let ok = h.len() < RATE_MAX;
        if ok {
            h.push(now);
        }
        let ghost nh = h@;
        match found {
            Some(i) => {
                self.buckets.set(i, Bucket { ip: key, hits: h });
            },
            None => {
                self.buckets.push(Bucket { ip: key, hits: h });
            },
        }
        proof {
            assert(self@ =~= set_hits(t, ip@, nh));
            lemma_set_hits(t, ip@, nh);
            let s = self@;
            assert forall|i: int| 0 <= i < s.len() implies (#[trigger] s[i]).1.len() <= RATE_MAX by {
                if s[i].0 != ip@ {
                    assert(has_ip(s, s[i].0));
                    lemma_index(s, i);
                    assert(hits_of(s, s[i].0) == hits_of(t, s[i].0));
                    lemma_index(t, ip_index(t, s[i].0));
                } else {
                    lemma_index(s, i);
                }
            }
        }
        ok
    }
}

fn live_copy(v: &Vec<u64>, now: u64) -> (r: Vec<u64>)
    ensures
        r@ == live_hits(v@, now),
{
    let mut r: Vec<u64> = Vec::new();
    let mut i: usize = 0;
    while i < v.len()
        invariant
            i <= v@.len(),
            r@ == live_hits(v@.take(i as int), now),
        decreases v@.len() - i,
    {
        let t = v[i];
        assert(v@.take(i + 1).drop_last() =~= v@.take(i as int));
        assert(v@.take(i + 1).last() == t);
        if now < t || now - t < RATE_WINDOW_MS {
            r.push(t);
        }
        i = i + 1;
    }
    assert(v@.take(v@.len() as int) =~= v@);
    r
}

} // verus!
