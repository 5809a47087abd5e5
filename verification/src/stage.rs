//! Download staging: results wait under a random id for half an hour, at
//! most 64 at a time (the oldest leave first). Times are milliseconds of a
//! monotonic clock that the caller reads.

use vstd::prelude::*;

use crate::text::{hex2_lower, hex_lower, is_hex_digit};

verus! {

/// How long a staged file stays, in milliseconds.
pub const STAGE_TTL_MS: u64 = 1_800_000;

/// How many files stay staged after a clean-up.
pub const MAX_SLOTS: usize = 64;

/// A staged file, as handed out for a download.
#[derive(Debug, Clone)]
pub struct Staged {
    pub bytes: Vec<u8>,
    pub mime: String,
    pub filename: String,
}

/// A staged file with its id and the time it was staged.
pub struct SlotView {
    pub id: Seq<char>,
    pub bytes: Seq<u8>,
    pub mime: Seq<char>,
    pub filename: Seq<char>,
    pub at: u64,
}

struct Slot {
    id: String,
    bytes: Vec<u8>,
    mime: String,
    filename: String,
    at: u64,
}

impl View for Slot {
    type V = SlotView;

    closed spec fn view(&self) -> SlotView {
        SlotView { id: self.id@, bytes: self.bytes@, mime: self.mime@, filename: self.filename@, at: self.at }
    }
}

/// The staged files, in the order they were staged.
pub struct Stage {
    slots: Vec<Slot>,
}

spec fn views(v: Seq<Slot>) -> Seq<SlotView> {
    v.map_values(|s: Slot| s@)
}

impl View for Stage {
    type V = Seq<SlotView>;

    closed spec fn view(&self) -> Seq<SlotView> {
        views(self.slots@)
    }
}

/// Whether a file staged at `at` is still kept at `now` (a time before
/// `at` counts as no time elapsed).
pub open spec fn fresh(at: u64, now: u64) -> bool {
    now < at || now - at < STAGE_TTL_MS
}

/// The slots still fresh at `now`, in order.
pub open spec fn keep_fresh(s: Seq<SlotView>, now: u64) -> Seq<SlotView>
    decreases s.len(),
{
    if s.len() == 0 {
        s
    } else {
        let r = keep_fresh(s.drop_last(), now);
        if fresh(s.last().at, now) {
            r.push(s.last())
        } else {
            r
        }
    }
}

/// The first of the oldest slots among the first `n`.
pub open spec fn oldest_in(s: Seq<SlotView>, n: int) -> int
    decreases n,
{
    if n <= 1 {
        0
    } else {
        let k = oldest_in(s, n - 1);
        if s[n - 1].at < s[k].at {
            n - 1
        } else {
            k
        }
    }
}

/// Removes the first oldest slot until at most `cap` are left.
pub open spec fn evict(s: Seq<SlotView>, cap: nat) -> Seq<SlotView>
    decreases s.len(),
{
    if s.len() <= cap {
        s
    } else {
        proof {
            lemma_oldest_in(s, s.len() as int);
        }
        evict(s.remove(oldest_in(s, s.len() as int)), cap)
    }
}

/// The clean-up done before every staging and lookup.
pub open spec fn pruned(s: Seq<SlotView>, now: u64) -> Seq<SlotView> {
    evict(keep_fresh(s, now), MAX_SLOTS as nat)
}

pub open spec fn ids_distinct(s: Seq<SlotView>) -> bool {
    forall|i: int, j: int| 0 <= i < j < s.len() ==> s[i].id != s[j].id
}

pub open spec fn has_id(s: Seq<SlotView>, id: Seq<char>) -> bool {
    exists|i: int| 0 <= i < s.len() && s[i].id == id
}

/// The position of the slot with this id.
pub open spec fn index_of(s: Seq<SlotView>, id: Seq<char>) -> int {
    choose|i: int| 0 <= i < s.len() && s[i].id == id
}

/// The slots after staging `x`: it replaces a slot with the same id, or
/// the oldest leave until it fits in `MAX_SLOTS` and it comes last.
pub open spec fn upsert(s: Seq<SlotView>, x: SlotView) -> Seq<SlotView> {
    if has_id(s, x.id) {
        s.update(index_of(s, x.id), x)
    } else {
        evict(s, (MAX_SLOTS - 1) as nat).push(x)
    }
}

/// `{:02x}` of each byte, concatenated.
pub open spec fn hex_string(raw: Seq<u8>) -> Seq<char>
    decreases raw.len(),
{
    if raw.len() == 0 {
        Seq::empty()
    } else {
        hex_string(raw.drop_last()) + hex2_lower(raw.last())
    }
}

/// The id minted from random bytes: `u_` and their hex digits.
pub open spec fn id_from(raw: Seq<u8>) -> Seq<char> {
    seq!['u', '_'] + hex_string(raw)
}

/// What `is_id` accepts: `u_` then 32 ASCII hex digits (either case).
pub open spec fn is_id_spec(s: Seq<char>) -> bool {
    &&& s.len() == 34
    &&& s[0] == 'u'
    &&& s[1] == '_'
    &&& forall|i: int| 2 <= i < 34 ==> is_hex_digit(#[trigger] s[i])
}

pub open spec fn empty_result_message() -> Seq<char> {
    "empty result"@
}

pub open spec fn mint_failed_message() -> Seq<char> {
    "could not mint download id"@
}

/// The slot chosen for eviction is among the first `n`, no newer than any
/// of them, and strictly older than every one before it.
pub proof fn lemma_oldest_in(s: Seq<SlotView>, n: int)
    requires
        1 <= n <= s.len(),
    ensures
        0 <= oldest_in(s, n) < n,
        forall|j: int| 0 <= j < n ==> s[oldest_in(s, n)].at <= #[trigger] s[j].at,
        forall|j: int| 0 <= j < oldest_in(s, n) ==> s[oldest_in(s, n)].at < #[trigger] s[j].at,
    decreases n,
{
    if n > 1 {
        lemma_oldest_in(s, n - 1);
    }
}

proof fn lemma_keep_fresh(s: Seq<SlotView>, now: u64)
    ensures
        keep_fresh(s, now).len() <= s.len(),
        forall|x: SlotView| #[trigger] keep_fresh(s, now).contains(x) ==> s.contains(x) && fresh(x.at, now),
        ids_distinct(s) ==> ids_distinct(keep_fresh(s, now)),
        (forall|i: int| 0 <= i < s.len() ==> fresh(#[trigger] s[i].at, now)) ==> keep_fresh(s, now) == s,
    decreases s.len(),
{
    if s.len() > 0 {
        let d = s.drop_last();
        lemma_keep_fresh(d, now);
        let r = keep_fresh(d, now);
        assert forall|x: SlotView| #[trigger] keep_fresh(s, now).contains(x) implies s.contains(x) && fresh(x.at, now) by {
            if r.contains(x) {
                let i = choose|i: int| 0 <= i < d.len() && d[i] == x;
                assert(s[i] == x);
            } else {
                assert(x == s.last());
                assert(s[s.len() - 1] == x);
            }
        }
        if ids_distinct(s) {
            assert(ids_distinct(d));
            if fresh(s.last().at, now) {
                assert forall|i: int, j: int| 0 <= i < j < r.push(s.last()).len() implies r.push(s.last())[i].id
                    != r.push(s.last())[j].id by {
                    if j == r.len() {
                        assert(r.contains(r[i]));
                        let k = choose|k: int| 0 <= k < d.len() && d[k] == r[i];
                        assert(s[k] == r[i]);
                    }
                }
            }
        }
        if forall|i: int| 0 <= i < s.len() ==> fresh(#[trigger] s[i].at, now) {
            assert forall|i: int| 0 <= i < d.len() implies fresh(#[trigger] d[i].at, now) by {
                assert(s[i] == d[i]);
            }
            assert(fresh(s[s.len() - 1].at, now));
            assert(d.push(s.last()) =~= s);
        }
    }
}

proof fn lemma_remove_distinct(s: Seq<SlotView>, k: int)
    requires
        0 <= k < s.len(),
        ids_distinct(s),
    ensures
        ids_distinct(s.remove(k)),
        forall|x: SlotView| #[trigger] s.remove(k).contains(x) ==> s.contains(x),
{
    let t = s.remove(k);
    assert forall|i: int, j: int| 0 <= i < j < t.len() implies t[i].id != t[j].id by {
        let a = if i < k {
            i
        } else {
            i + 1
        };
        let b = if j < k {
            j
        } else {
            j + 1
        };
        assert(t[i] == s[a]);
        assert(t[j] == s[b]);
    }
    assert forall|x: SlotView| #[trigger] t.contains(x) implies s.contains(x) by {
        let i = choose|i: int| 0 <= i < t.len() && t[i] == x;
        if i < k {
            assert(s[i] == x);
        } else {
            assert(s[i + 1] == x);
        }
    }
}

proof fn lemma_evict(s: Seq<SlotView>, cap: nat)
    ensures
        s.len() >= cap ==> evict(s, cap).len() == cap,
        evict(s, cap).len() <= s.len(),
        s.len() <= cap ==> evict(s, cap) == s,
        forall|x: SlotView| #[trigger] evict(s, cap).contains(x) ==> s.contains(x),
        ids_distinct(s) ==> ids_distinct(evict(s, cap)),
    decreases s.len(),
{
    if s.len() > cap {
        lemma_oldest_in(s, s.len() as int);
        let k = oldest_in(s, s.len() as int);
        let t = s.remove(k);
        lemma_evict(t, cap);
        if ids_distinct(s) {
            lemma_remove_distinct(s, k);
        } else {
            assert forall|x: SlotView| #[trigger] t.contains(x) implies s.contains(x) by {
                let i = choose|i: int| 0 <= i < t.len() && t[i] == x;
                if i < k {
                    assert(s[i] == x);
                } else {
                    assert(s[i + 1] == x);
                }
            }
        }
    }
}

/// After a clean-up at most `MAX_SLOTS` files are staged, every one of
/// them staged less than the time to live before `now`, each one a file
/// that was staged before, and no id twice.
pub proof fn lemma_pruned(s: Seq<SlotView>, now: u64)
    requires
        ids_distinct(s),
    ensures
        pruned(s, now).len() <= MAX_SLOTS,
        forall|x: SlotView| #[trigger] pruned(s, now).contains(x) ==> s.contains(x) && fresh(x.at, now),
        ids_distinct(pruned(s, now)),
{
    lemma_keep_fresh(s, now);
    lemma_evict(keep_fresh(s, now), MAX_SLOTS as nat);
}

proof fn lemma_upsert(s: Seq<SlotView>, x: SlotView)
    requires
        ids_distinct(s),
        s.len() <= MAX_SLOTS,
    ensures
        ids_distinct(upsert(s, x)),
        has_id(upsert(s, x), x.id),
        upsert(s, x)[index_of(upsert(s, x), x.id)] == x,
        upsert(s, x).len() <= MAX_SLOTS,
        upsert(s, x).contains(x),
        forall|y: SlotView| #[trigger] upsert(s, x).contains(y) ==> y == x || s.contains(y),
{
    let u = upsert(s, x);
    if has_id(s, x.id) {
        let k = index_of(s, x.id);
        assert forall|i: int, j: int| 0 <= i < j < u.len() implies u[i].id != u[j].id by {
            if i == k {
                assert(s[j].id != s[k].id);
            } else if j == k {
                assert(s[i].id != s[k].id);
            }
        }
        assert(u[k].id == x.id);
        assert(u[k] == x);
        assert forall|y: SlotView| #[trigger] u.contains(y) implies y == x || s.contains(y) by {
            let i = choose|i: int| 0 <= i < u.len() && u[i] == y;
            if i != k {
                assert(s[i] == y);
            }
        }
        let m = index_of(u, x.id);
        assert(m == k) by {
            if m != k {
                if m < k {
                    assert(u[m].id != u[k].id);
                } else {
                    assert(u[k].id != u[m].id);
                }
            }
        }
    } else {
        let e = evict(s, (MAX_SLOTS - 1) as nat);
        lemma_evict(s, (MAX_SLOTS - 1) as nat);
        assert forall|i: int, j: int| 0 <= i < j < u.len() implies u[i].id != u[j].id by {
            if j == e.len() {
                assert(e.contains(e[i]));
                if e[i].id == x.id {
                    let m = choose|m: int| 0 <= m < s.len() && s[m] == e[i];
                    assert(has_id(s, x.id));
                }
            } else {
                assert(u[i] == e[i] && u[j] == e[j]);
            }
        }
        assert(u[e.len() as int] == x);
        assert forall|y: SlotView| #[trigger] u.contains(y) implies y == x || s.contains(y) by {
            let i = choose|i: int| 0 <= i < u.len() && u[i] == y;
            if i < e.len() {
                assert(e.contains(e[i]));
            }
        }
        let m = index_of(u, x.id);
        assert(m == e.len()) by {
            if m < e.len() {
                assert(u[m].id != u[e.len() as int].id);
            }
        }
    }
}

/// Whether `s` holds `x`, and no other slot with its id.
pub open spec fn holds(s: Seq<SlotView>, x: SlotView) -> bool {
    has_id(s, x.id) && s[index_of(s, x.id)] == x
}

/// A file staged at `now` is found by a lookup at the same time.
pub proof fn lemma_get_after_put(s: Seq<SlotView>, x: SlotView, now: u64)
    requires
        ids_distinct(s),
        x.at == now,
    ensures
        holds(pruned(upsert(pruned(s, now), x), now), x),
{
    let p = pruned(s, now);
    lemma_pruned(s, now);
    lemma_upsert(p, x);
    let u = upsert(p, x);
    assert forall|i: int| 0 <= i < u.len() implies fresh(#[trigger] u[i].at, now) by {
        assert(u.contains(u[i]));
        if u[i] != x {
            assert(p.contains(u[i]));
        }
    }
    lemma_keep_fresh(u, now);
    lemma_evict(u, MAX_SLOTS as nat);
}

/// The number of slots staged after `t`.
pub open spec fn count_newer(s: Seq<SlotView>, t: u64) -> nat
    decreases s.len(),
{
    if s.len() == 0 {
        0
    } else {
        count_newer(s.drop_last(), t) + if s.last().at > t {
            1nat
        } else {
            0nat
        }
    }
}

proof fn lemma_count_remove(s: Seq<SlotView>, k: int, t: u64)
    requires
        0 <= k < s.len(),
    ensures
        count_newer(s.remove(k), t) <= count_newer(s, t),
    decreases s.len(),
{
    if k == s.len() - 1 {
        assert(s.remove(k) =~= s.drop_last());
    } else {
        lemma_count_remove(s.drop_last(), k, t);
        assert(s.remove(k) =~= s.drop_last().remove(k).push(s.last()));
        assert(s.remove(k).drop_last() =~= s.drop_last().remove(k));
    }
}

proof fn lemma_count_update(s: Seq<SlotView>, k: int, y: SlotView, t: u64)
    requires
        0 <= k < s.len(),
    ensures
        count_newer(s.update(k, y), t) <= count_newer(s, t) + 1,
    decreases s.len(),
{
    if k == s.len() - 1 {
        assert(s.update(k, y).drop_last() =~= s.drop_last());
    } else {
        lemma_count_update(s.drop_last(), k, y, t);
        assert(s.update(k, y).drop_last() =~= s.drop_last().update(k, y));
    }
}

proof fn lemma_count_keep_fresh(s: Seq<SlotView>, now: u64, t: u64)
    ensures
        count_newer(keep_fresh(s, now), t) <= count_newer(s, t),
    decreases s.len(),
{
    if s.len() > 0 {
        lemma_count_keep_fresh(s.drop_last(), now, t);
        let r = keep_fresh(s.drop_last(), now);
        assert(r.push(s.last()).drop_last() =~= r);
    }
}

proof fn lemma_count_lower(s: Seq<SlotView>, k: int, t: u64)
    requires
        0 <= k < s.len(),
        forall|j: int| 0 <= j < s.len() && j != k ==> #[trigger] s[j].at > t,
    ensures
        count_newer(s, t) >= s.len() - 1,
    decreases s.len(),
{
    if s.len() > 1 {
        let d = s.drop_last();
        if k < s.len() - 1 {
            assert forall|j: int| 0 <= j < d.len() && j != k implies #[trigger] d[j].at > t by {
                assert(d[j] == s[j]);
            }
            lemma_count_lower(d, k, t);
            assert(s[s.len() - 1].at > t);
        } else {
            lemma_count_all(d, t);
        }
    }
}

proof fn lemma_count_all(s: Seq<SlotView>, t: u64)
    requires
        forall|j: int| 0 <= j < s.len() ==> #[trigger] s[j].at > t,
    ensures
        count_newer(s, t) == s.len(),
    decreases s.len(),
{
    if s.len() > 0 {
        let d = s.drop_last();
        assert forall|j: int| 0 <= j < d.len() implies #[trigger] d[j].at > t by {
            assert(d[j] == s[j]);
        }
        lemma_count_all(d, t);
        assert(s[s.len() - 1].at > t);
    }
}

/// What a staged file `x` needs to survive the next clean-ups: it is held,
/// no other slot was staged at its instant, and at most `k` slots were
/// staged after it.
pub open spec fn survives(s: Seq<SlotView>, x: SlotView, k: nat) -> bool {
    &&& ids_distinct(s)
    &&& s.len() <= MAX_SLOTS
    &&& s.contains(x)
    &&& forall|e: SlotView| #[trigger] s.contains(e) && e != x ==> e.at != x.at
    &&& count_newer(s, x.at) <= k
}

proof fn lemma_holds(s: Seq<SlotView>, x: SlotView)
    requires
        ids_distinct(s),
        s.contains(x),
    ensures
        holds(s, x),
{
    let i = choose|i: int| 0 <= i < s.len() && s[i] == x;
    assert(has_id(s, x.id));
    let m = index_of(s, x.id);
    if m != i {
        if m < i {
            assert(s[m].id != s[i].id);
        } else {
            assert(s[i].id != s[m].id);
        }
    }
}

proof fn lemma_evict_keeps(s: Seq<SlotView>, x: SlotView, cap: nat)
    requires
        ids_distinct(s),
        s.contains(x),
        forall|e: SlotView| #[trigger] s.contains(e) && e != x ==> e.at != x.at,
        count_newer(s, x.at) < cap,
    ensures
        evict(s, cap).contains(x),
        count_newer(evict(s, cap), x.at) <= count_newer(s, x.at),
    decreases s.len(),
{
    if s.len() > cap {
        let n = s.len() as int;
        lemma_oldest_in(s, n);
        let k = oldest_in(s, n);
        let i = choose|i: int| 0 <= i < s.len() && s[i] == x;
        assert(k != i) by {
            if k == i {
                assert forall|j: int| 0 <= j < s.len() && j != k implies #[trigger] s[j].at > x.at by {
                    assert(s.contains(s[j]));
                    if s[j] == x {
                        assert(s[j].id == s[i].id);
                    }
                    assert(s[k].at <= s[j].at);
                }
                lemma_count_lower(s, k, x.at);
            }
        }
        let t = s.remove(k);
        lemma_remove_distinct(s, k);
        lemma_count_remove(s, k, x.at);
        if i < k {
            assert(t[i] == x);
        } else {
            assert(t[i - 1] == x);
        }
        lemma_evict_keeps(t, x, cap);
    }
}

proof fn lemma_pruned_keeps(s: Seq<SlotView>, x: SlotView, k: nat, now: u64)
    requires
        survives(s, x, k),
        k < MAX_SLOTS,
        fresh(x.at, now),
    ensures
        survives(pruned(s, now), x, k),
{
    let f = keep_fresh(s, now);
    lemma_keep_fresh(s, now);
    lemma_keep_fresh_keeps(s, x, now);
    lemma_count_keep_fresh(s, now, x.at);
    lemma_evict_keeps(f, x, MAX_SLOTS as nat);
    lemma_pruned(s, now);
}

proof fn lemma_keep_fresh_keeps(s: Seq<SlotView>, x: SlotView, now: u64)
    requires
        s.contains(x),
        fresh(x.at, now),
    ensures
        keep_fresh(s, now).contains(x),
    decreases s.len(),
{
    let d = s.drop_last();
    let r = keep_fresh(d, now);
    if s.last() == x {
        assert(r.push(x)[r.len() as int] == x);
    } else {
        let i = choose|i: int| 0 <= i < s.len() && s[i] == x;
        assert(d[i] == x);
        lemma_keep_fresh_keeps(d, x, now);
        if fresh(s.last().at, now) {
            let j = choose|j: int| 0 <= j < r.len() && r[j] == x;
            assert(r.push(s.last())[j] == x);
        }
    }
}

/// A clean-up, or the staging of a file at its instant.
pub enum StageOp {
    Clean { now: u64 },
    Put { slot: SlotView },
}

pub open spec fn after_op(s: Seq<SlotView>, op: StageOp) -> Seq<SlotView> {
    match op {
        StageOp::Clean { now } => pruned(s, now),
        StageOp::Put { slot } => upsert(pruned(s, slot.at), slot),
    }
}

/// The slots after a sequence of clean-ups (every lookup does one) and
/// stagings.
pub open spec fn after_ops(s: Seq<SlotView>, ops: Seq<StageOp>) -> Seq<SlotView>
    decreases ops.len(),
{
    if ops.len() == 0 {
        s
    } else {
        after_op(after_ops(s, ops.drop_last()), ops.last())
    }
}

pub open spec fn op_time(op: StageOp) -> u64 {
    match op {
        StageOp::Clean { now } => now,
        StageOp::Put { slot } => slot.at,
    }
}

pub open spec fn count_puts(ops: Seq<StageOp>) -> nat
    decreases ops.len(),
{
    if ops.len() == 0 {
        0
    } else {
        count_puts(ops.drop_last()) + if ops.last() is Put {
            1nat
        } else {
            0nat
        }
    }
}

/// A staged file can be read back until its time to live runs out: after
/// any clean-ups and lookups, and after fewer than 64 later stagings under
/// other ids at later instants, all while the file is still fresh, the
/// slots hold it. Right after its staging, `x` is the newest slot; no
/// other slot was staged at the same instant.
pub proof fn lemma_read_back(s: Seq<SlotView>, x: SlotView, ops: Seq<StageOp>)
    requires
        ids_distinct(s),
        s.len() <= MAX_SLOTS,
        s.contains(x),
        forall|e: SlotView| #[trigger] s.contains(e) && e != x ==> e.at < x.at,
        count_puts(ops) < MAX_SLOTS,
        forall|i: int| 0 <= i < ops.len() ==> fresh(x.at, op_time(#[trigger] ops[i])),
        forall|i: int|
            0 <= i < ops.len() && (#[trigger] ops[i]) is Put ==> ops[i]->slot.id != x.id
                && ops[i]->slot.at > x.at,
    ensures
        holds(after_ops(s, ops), x),
        survives(after_ops(s, ops), x, count_puts(ops)),
    decreases ops.len(),
{
    if ops.len() == 0 {
        assert(count_newer(s, x.at) == 0) by {
            lemma_count_none(s, x);
        }
    } else {
        let d = ops.drop_last();
        assert(count_puts(d) <= count_puts(ops));
        assert forall|i: int| 0 <= i < d.len() implies fresh(x.at, op_time(#[trigger] d[i])) by {
            assert(d[i] == ops[i]);
        }
        assert forall|i: int| 0 <= i < d.len() && (#[trigger] d[i]) is Put implies d[i]->slot.id
            != x.id && d[i]->slot.at > x.at by {
            assert(d[i] == ops[i]);
        }
        lemma_read_back(s, x, d);
        let prev = after_ops(s, d);
        let k = count_puts(d);
        let op = ops.last();
        assert(op == ops[ops.len() - 1]);
        assert(fresh(x.at, op_time(op)));
        match op {
            StageOp::Clean { now } => {
                lemma_pruned_keeps(prev, x, k, now);
            },
            StageOp::Put { slot } => {
                let p = pruned(prev, slot.at);
                lemma_pruned_keeps(prev, x, k, slot.at);
                lemma_upsert(p, slot);
                let u = upsert(p, slot);
                if has_id(p, slot.id) {
                    let m = index_of(p, slot.id);
                    assert(p.contains(p[m]));
                    assert(p[m] != x);
                    lemma_count_update(p, m, slot, x.at);
                    let j = choose|j: int| 0 <= j < p.len() && p[j] == x;
                    assert(u[j] == x);
                } else {
                    let e = evict(p, (MAX_SLOTS - 1) as nat);
                    lemma_evict_keeps(p, x, (MAX_SLOTS - 1) as nat);
                    lemma_evict(p, (MAX_SLOTS - 1) as nat);
                    assert(u.drop_last() =~= e);
                    let j = choose|j: int| 0 <= j < e.len() && e[j] == x;
                    assert(u[j] == x);
                }
                assert forall|e: SlotView| #[trigger] u.contains(e) && e != x implies e.at != x.at by {
                    if e != slot {
                        assert(p.contains(e));
                    }
                }
            },
        }
    }
    lemma_holds(after_ops(s, ops), x);
}

proof fn lemma_count_none(s: Seq<SlotView>, x: SlotView)
    requires
        forall|e: SlotView| #[trigger] s.contains(e) && e != x ==> e.at < x.at,
    ensures
        count_newer(s, x.at) == 0,
    decreases s.len(),
{
    if s.len() > 0 {
        let d = s.drop_last();
        assert forall|e: SlotView| #[trigger] d.contains(e) && e != x implies e.at < x.at by {
            let i = choose|i: int| 0 <= i < d.len() && d[i] == e;
            assert(s[i] == e);
            assert(s.contains(e));
        }
        lemma_count_none(d, x);
        assert(s.contains(s[s.len() - 1]));
    }
}

/// A file is never served once its time to live has run out: no slot
/// with its id is left after the clean-up.
pub proof fn lemma_expired(s: Seq<SlotView>, x: SlotView, now: u64)
    requires
        ids_distinct(s),
        s.contains(x),
        !fresh(x.at, now),
    ensures
        !has_id(pruned(s, now), x.id),
{
    lemma_pruned(s, now);
    let p = pruned(s, now);
    if has_id(p, x.id) {
        let m = choose|m: int| 0 <= m < p.len() && p[m].id == x.id;
        assert(p.contains(p[m]));
        let a = choose|a: int| 0 <= a < s.len() && s[a] == p[m];
        let b = choose|b: int| 0 <= b < s.len() && s[b] == x;
        if a != b {
            if a < b {
                assert(s[a].id != s[b].id);
            } else {
                assert(s[b].id != s[a].id);
            }
        }
    }
}

proof fn lemma_count_remove_old(s: Seq<SlotView>, k: int, t: u64)
    requires
        0 <= k < s.len(),
        s[k].at <= t,
    ensures
        count_newer(s.remove(k), t) == count_newer(s, t),
    decreases s.len(),
{
    if k == s.len() - 1 {
        assert(s.remove(k) =~= s.drop_last());
    } else {
        lemma_count_remove_old(s.drop_last(), k, t);
        assert(s.remove(k).drop_last() =~= s.drop_last().remove(k));
        assert(s.remove(k).last() == s.last());
    }
}

proof fn lemma_count_below_len(s: Seq<SlotView>, x: SlotView)
    requires
        s.contains(x),
    ensures
        count_newer(s, x.at) < s.len(),
    decreases s.len(),
{
    let d = s.drop_last();
    if s.last() != x {
        let i = choose|i: int| 0 <= i < s.len() && s[i] == x;
        assert(d[i] == x);
        lemma_count_below_len(d, x);
    } else {
        lemma_count_at_most(d, x.at);
    }
}

proof fn lemma_count_at_most(s: Seq<SlotView>, t: u64)
    ensures
        count_newer(s, t) <= s.len(),
    decreases s.len(),
{
    if s.len() > 0 {
        lemma_count_at_most(s.drop_last(), t);
    }
}

/// While `x` is fresh every slot newer than it is fresh too, so a clean-up
/// keeps them all.
proof fn lemma_count_fresh_kept(s: Seq<SlotView>, x: SlotView, now: u64)
    requires
        fresh(x.at, now),
    ensures
        count_newer(keep_fresh(s, now), x.at) == count_newer(s, x.at),
    decreases s.len(),
{
    if s.len() > 0 {
        lemma_count_fresh_kept(s.drop_last(), x, now);
        let r = keep_fresh(s.drop_last(), now);
        assert(r.push(s.last()).drop_last() =~= r);
    }
}

/// Evicting the oldest never takes a slot newer than a slot that stays.
proof fn lemma_evict_count(s: Seq<SlotView>, x: SlotView, cap: nat)
    requires
        ids_distinct(s),
        s.contains(x),
        evict(s, cap).contains(x),
    ensures
        count_newer(evict(s, cap), x.at) == count_newer(s, x.at),
    decreases s.len(),
{
    if s.len() > cap {
        let n = s.len() as int;
        lemma_oldest_in(s, n);
        let k = oldest_in(s, n);
        let i = choose|i: int| 0 <= i < s.len() && s[i] == x;
        assert(s[k].at <= s[i].at);
        let t = s.remove(k);
        lemma_remove_distinct(s, k);
        lemma_count_remove_old(s, k, x.at);
        lemma_evict(t, cap);
        assert(t.contains(x)) by {
            if k == i {
                let j = choose|j: int| 0 <= j < t.len() && t[j] == x;
                if j < k {
                    assert(s[j] == x);
                    assert(s[j].id != s[k].id);
                } else {
                    assert(s[j + 1] == x);
                    assert(s[k].id != s[j + 1].id);
                }
            } else if i < k {
                assert(t[i] == x);
            } else {
                assert(t[i - 1] == x);
            }
        }
        lemma_evict_count(t, x, cap);
    }
}

/// A slot held with this id: `x` itself when the ids are distinct.
proof fn lemma_only_x(s: Seq<SlotView>, x: SlotView, y: SlotView)
    requires
        ids_distinct(s),
        s.contains(x),
        s.contains(y),
        y.id == x.id,
    ensures
        y == x,
{
    let i = choose|i: int| 0 <= i < s.len() && s[i] == x;
    let j = choose|j: int| 0 <= j < s.len() && s[j] == y;
    if i < j {
        assert(s[i].id != s[j].id);
    } else if j < i {
        assert(s[j].id != s[i].id);
    }
}

/// Where a slot after some operations comes from: it was there at the
/// start, or one of the operations staged it.
pub open spec fn staged_by(s: Seq<SlotView>, ops: Seq<StageOp>, e: SlotView) -> bool {
    s.contains(e) || exists|i: int| 0 <= i < ops.len() && #[trigger] ops[i] == (StageOp::Put { slot: e })
}

/// The stagings in `ops` come after `x` and use new ids, each its own.
pub open spec fn later_new_puts(s: Seq<SlotView>, x: SlotView, ops: Seq<StageOp>) -> bool {
    &&& forall|i: int|
        0 <= i < ops.len() && (#[trigger] ops[i]) is Put ==> ops[i]->slot.at > x.at && !has_id(
            s,
            ops[i]->slot.id,
        )
    &&& forall|i: int, j: int|
        0 <= i < j < ops.len() && (#[trigger] ops[i]) is Put && (#[trigger] ops[j]) is Put
            ==> ops[i]->slot.id != ops[j]->slot.id
}

proof fn lemma_later_prefix(s: Seq<SlotView>, x: SlotView, ops: Seq<StageOp>)
    requires
        ops.len() > 0,
        later_new_puts(s, x, ops),
    ensures
        later_new_puts(s, x, ops.drop_last()),
{
    let d = ops.drop_last();
    assert forall|i: int| 0 <= i < d.len() && (#[trigger] d[i]) is Put implies d[i]->slot.at > x.at
        && !has_id(s, d[i]->slot.id) by {
        assert(d[i] == ops[i]);
    }
    assert forall|i: int, j: int|
        0 <= i < j < d.len() && (#[trigger] d[i]) is Put && (#[trigger] d[j]) is Put implies d[i]->slot.id
        != d[j]->slot.id by {
        assert(d[i] == ops[i]);
        assert(d[j] == ops[j]);
    }
}

/// After stagings of new ids at later instants, a slot with `x`'s id is
/// `x` itself, held only while every operation found it fresh, and with at
/// least one newer slot for each of those stagings.
proof fn lemma_newer_grow(s: Seq<SlotView>, x: SlotView, ops: Seq<StageOp>)
    requires
        ids_distinct(s),
        s.len() <= MAX_SLOTS,
        s.contains(x),
        later_new_puts(s, x, ops),
    ensures
        ids_distinct(after_ops(s, ops)),
        after_ops(s, ops).len() <= MAX_SLOTS,
        forall|e: SlotView| #[trigger] after_ops(s, ops).contains(e) ==> staged_by(s, ops, e),
        has_id(after_ops(s, ops), x.id) ==> {
            &&& after_ops(s, ops).contains(x)
            &&& count_newer(after_ops(s, ops), x.at) >= count_puts(ops)
            &&& forall|i: int| 0 <= i < ops.len() ==> fresh(x.at, op_time(#[trigger] ops[i]))
        },
    decreases ops.len(),
{
    let a = after_ops(s, ops);
    if ops.len() == 0 {
        if has_id(s, x.id) {
            lemma_count_at_most(s, x.at);
        }
    } else {
        let d = ops.drop_last();
        lemma_later_prefix(s, x, ops);
        lemma_newer_grow(s, x, d);
        let prev = after_ops(s, d);
        let op = ops.last();
        assert(op == ops[ops.len() - 1]);
        let now = op_time(op);
        let p = pruned(prev, now);
        lemma_pruned(prev, now);
        assert(count_puts(ops) == count_puts(d) + if op is Put {
            1nat
        } else {
            0nat
        });
        assert forall|e: SlotView| #[trigger] p.contains(e) implies staged_by(s, ops, e) by {
            assert(prev.contains(e));
            assert(staged_by(s, d, e));
            if !s.contains(e) {
                let i = choose|i: int| 0 <= i < d.len() && #[trigger] d[i] == (StageOp::Put { slot: e });
                assert(ops[i] == d[i]);
            }
        }
        // Whether x outlives this clean-up, and with how many newer slots.
        let kept = has_id(p, x.id);
        if kept {
            let m = choose|m: int| 0 <= m < p.len() && p[m].id == x.id;
            assert(p.contains(p[m]));
            assert(prev.contains(p[m]));
            assert(has_id(prev, x.id));
            lemma_only_x(prev, x, p[m]);
            if !fresh(x.at, now) {
                lemma_expired(prev, x, now);
            }
            let f = keep_fresh(prev, now);
            lemma_keep_fresh(prev, now);
            lemma_keep_fresh_keeps(prev, x, now);
            lemma_count_fresh_kept(prev, x, now);
            lemma_evict_count(f, x, MAX_SLOTS as nat);
            assert(count_newer(p, x.at) >= count_puts(d));
            assert forall|i: int| 0 <= i < ops.len() implies fresh(x.at, op_time(#[trigger] ops[i])) by {
                if i < d.len() {
                    assert(d[i] == ops[i]);
                }
            }
        }
        match op {
            StageOp::Clean { now: n } => {
                assert(a == p);
            },
            StageOp::Put { slot } => {
                assert(a == upsert(p, slot));
                assert(ops[ops.len() - 1] is Put);
                assert(!has_id(p, slot.id)) by {
                    if has_id(p, slot.id) {
                        let m = choose|m: int| 0 <= m < p.len() && p[m].id == slot.id;
                        assert(p.contains(p[m]));
                        if s.contains(p[m]) {
                            let q = choose|q: int| 0 <= q < s.len() && s[q] == p[m];
                            assert(has_id(s, slot.id));
                        } else {
                            let i = choose|i: int| 0 <= i < ops.len() && #[trigger] ops[i] == (StageOp::Put { slot: p[m] });
                            if i == ops.len() - 1 {
                                assert(prev.contains(p[m]));
                                assert(staged_by(s, d, p[m]));
                                let i2 = choose|i2: int| 0 <= i2 < d.len() && #[trigger] d[i2] == (StageOp::Put { slot: p[m] });
                                assert(ops[i2] == d[i2]);
                                assert(ops[i2]->slot.id != ops[ops.len() - 1]->slot.id);
                            } else {
                                assert(ops[i]->slot.id != ops[ops.len() - 1]->slot.id);
                            }
                        }
                    }
                }
                lemma_upsert(p, slot);
                let e = evict(p, (MAX_SLOTS - 1) as nat);
                lemma_evict(p, (MAX_SLOTS - 1) as nat);
                assert(a =~= e.push(slot));
                assert forall|y: SlotView| #[trigger] a.contains(y) implies staged_by(s, ops, y) by {
                    if y != slot {
                        assert(p.contains(y));
                    } else {
                        assert(ops[ops.len() - 1] == (StageOp::Put { slot: y }));
                    }
                }
                if has_id(a, x.id) {
                    let m = choose|m: int| 0 <= m < a.len() && a[m].id == x.id;
                    assert(slot.id != x.id) by {
                        assert(has_id(s, x.id)) by {
                            let q = choose|q: int| 0 <= q < s.len() && s[q] == x;
                        }
                    }
                    if m < e.len() {
                        assert(e.contains(e[m]));
                        assert(p.contains(e[m]));
                        assert(has_id(p, x.id));
                        lemma_only_x(p, x, e[m]);
                        lemma_evict_count(p, x, (MAX_SLOTS - 1) as nat);
                        assert(a.drop_last() =~= e);
                        assert(a.last() == slot);
                    } else {
                        assert(a[m] == slot);
                    }
                }
            },
        }
    }
}

/// A staged file leaves once `MAX_SLOTS` newer files are staged: after
/// that many stagings under new ids at later instants, with any clean-ups
/// and lookups between, no slot with its id is left.
pub proof fn lemma_evicted(s: Seq<SlotView>, x: SlotView, ops: Seq<StageOp>)
    requires
        ids_distinct(s),
        s.len() <= MAX_SLOTS,
        s.contains(x),
        later_new_puts(s, x, ops),
        count_puts(ops) >= MAX_SLOTS,
    ensures
        !has_id(after_ops(s, ops), x.id),
{
    lemma_newer_grow(s, x, ops);
    if has_id(after_ops(s, ops), x.id) {
        lemma_count_below_len(after_ops(s, ops), x);
    }
}

/// A staged file stays gone once its time to live has run out: if any
/// clean-up, lookup or staging found it stale, no later operation brings
/// its id back.
pub proof fn lemma_gone_after_expiry(s: Seq<SlotView>, x: SlotView, ops: Seq<StageOp>, k: int)
    requires
        ids_distinct(s),
        s.len() <= MAX_SLOTS,
        s.contains(x),
        later_new_puts(s, x, ops),
        0 <= k < ops.len(),
        !fresh(x.at, op_time(ops[k])),
    ensures
        !has_id(after_ops(s, ops), x.id),
{
    lemma_newer_grow(s, x, ops);
}

fn copy_bytes(v: &Vec<u8>) -> (r: Vec<u8>)
    ensures
        r@ == v@,
{
    let mut r: Vec<u8> = Vec::new();
    let mut i: usize = 0;
    while i < v.len()
        invariant
            i <= v@.len(),
            r@ == v@.take(i as int),
        decreases v@.len() - i,
    {
        r.push(v[i]);
        assert(r@ =~= v@.take(i + 1));
        i = i + 1;
    }
    assert(v@.take(v@.len() as int) =~= v@);
    r
}

/// Sixteen bytes from the system's random source (`getrandom::fill`), or
/// `None` when it fails.
#[verifier::external_body]
fn random_16() -> Option<[u8; 16]> {
    let mut raw = [0u8; 16];
    match getrandom::fill(&mut raw) {
        Ok(()) => Some(raw),
        Err(_) => None,
    }
}

/// `u_` followed by the lower-case hex digits of the bytes.
pub fn id_of(raw: &[u8]) -> (id: String)
    ensures
        id@ == id_from(raw@),
{
    let mut out: Vec<char> = Vec::new();
    out.push('u');
    out.push('_');
    let mut i: usize = 0;
    while i < raw.len()
        invariant
            i <= raw@.len(),
            out@ == seq!['u', '_'] + hex_string(raw@.take(i as int)),
        decreases raw@.len() - i,
    {
        let b = raw[i];
        out.push(hex_lower(b / 16));
        out.push(hex_lower(b % 16));
        assert(raw@.take(i + 1).drop_last() =~= raw@.take(i as int));
        assert(out@ =~= seq!['u', '_'] + hex_string(raw@.take(i + 1)));
        i = i + 1;
    }
    assert(raw@.take(raw@.len() as int) =~= raw@);
    crate::text::string_of(&out)
}

proof fn lemma_hex_string(raw: Seq<u8>)
    ensures
        hex_string(raw).len() == 2 * raw.len(),
        forall|i: int| 0 <= i < hex_string(raw).len() ==> is_hex_digit(#[trigger] hex_string(raw)[i]),
    decreases raw.len(),
{
    if raw.len() > 0 {
        lemma_hex_string(raw.drop_last());
        let b = raw.last();
        assert(b / 16 < 16 && b % 16 < 16);
        let h = hex_string(raw);
        let d = hex_string(raw.drop_last());
        assert forall|i: int| 0 <= i < h.len() implies is_hex_digit(#[trigger] h[i]) by {
            if i >= d.len() {
                assert(h[i] == hex2_lower(b)[i - d.len()]);
            }
        }
    }
}

/// Every id minted from sixteen bytes is one that `is_id` accepts.
pub proof fn lemma_minted_ids_are_ids(raw: Seq<u8>)
    requires
        raw.len() == 16,
    ensures
        is_id_spec(id_from(raw)),
{
    lemma_hex_string(raw);
    let s = id_from(raw);
    assert forall|i: int| 2 <= i < 34 implies is_hex_digit(#[trigger] s[i]) by {
        assert(s[i] == hex_string(raw)[i - 2]);
    }
}

/// Whether `id` has the shape of a download id: `u_` then 32 ASCII hex
/// digits.
pub fn is_id(id: &str) -> (r: bool)
    ensures
        r == is_id_spec(id@),
{
    let v = crate::text::chars_of(id);
    if v.len() != 34 || v[0] != 'u' || v[1] != '_' {
        return false;
    }
    let mut i: usize = 2;
    while i < 34
        invariant
            2 <= i <= 34,
            v@ == id@,
            v@.len() == 34,
            forall|k: int| 2 <= k < i ==> is_hex_digit(#[trigger] v@[k]),
        decreases 34 - i,
    {
        let c = v[i];
        if !(('0' <= c && c <= '9') || ('a' <= c && c <= 'f') || ('A' <= c && c <= 'F')) {
            return false;
        }
        i = i + 1;
    }
    true
}

impl Stage {
    pub closed spec fn wf(&self) -> bool {
        ids_distinct(self@) && self@.len() <= MAX_SLOTS
    }

    /// An empty stage.
    pub fn new() -> (s: Stage)
        ensures
            s.wf(),
            s@ == Seq::<SlotView>::empty(),
    {
        let s = Stage { slots: Vec::new() };
        assert(s@ =~= Seq::<SlotView>::empty());
        s
    }

    /// How many files are staged.
    pub fn len(&self) -> (n: usize)
        ensures
            n == self@.len(),
    {
        self.slots.len()
    }

    fn keep_fresh_slots(&mut self, now: u64)
        ensures
            final(self)@ == keep_fresh(old(self)@, now),
    {
        let mut rest: Vec<Slot> = Vec::new();
        std::mem::swap(&mut rest, &mut self.slots);
        let ghost orig = rest@;
        let n = rest.len();
        let mut k: usize = 0;
        assert(self.slots@ =~= Seq::<Slot>::empty());
        while rest.len() > 0
            invariant
                k <= n,
                n == orig.len(),
                rest@ == orig.skip(k as int),
                rest@.len() == n - k,
                views(self.slots@) == keep_fresh(views(orig).take(k as int), now),
            decreases rest@.len(),
        {
            let s = rest.remove(0);
            proof {
                assert(s == orig[k as int]);
                assert(views(orig).take(k + 1).drop_last() =~= views(orig).take(k as int));
                assert(views(orig).take(k + 1).last() == s@);
                assert(rest@ =~= orig.skip(k + 1));
            }
            if now < s.at || now - s.at < STAGE_TTL_MS {
                self.slots.push(s);
                assert(views(self.slots@) =~= keep_fresh(views(orig).take(k + 1), now));
            } else {
                assert(views(self.slots@) =~= keep_fresh(views(orig).take(k + 1), now));
            }
            k = k + 1;
        }
        assert(views(orig).take(n as int) =~= views(orig));
    }

    fn oldest(&self) -> (k: usize)
        requires
            self@.len() >= 1,
        ensures
            k == oldest_in(self@, self@.len() as int),
    {
        let n = self.slots.len();
        let mut k: usize = 0;
        let mut j: usize = 1;
        while j < n
            invariant
                1 <= j <= n,
                n == self@.len(),
                k == oldest_in(self@, j as int),
            decreases n - j,
        {
            proof {
                lemma_oldest_in(self@, j as int);
            }
            if self.slots[j].at < self.slots[k].at {
                k = j;
            }
            j = j + 1;
        }
        k
    }

    fn evict_slots(&mut self, cap: usize)
        ensures
            final(self)@ == evict(old(self)@, cap as nat),
    {
        while self.slots.len() > cap
            invariant
                evict(self@, cap as nat) == evict(old(self)@, cap as nat),
            decreases self.slots@.len(),
        {
            let k = self.oldest();
            proof {
                lemma_oldest_in(self@, self@.len() as int);
            }
            let ghost before = self@;
            self.slots.remove(k);
            assert(self@ =~= before.remove(k as int));
        }
    }

    /// Drops files older than the time to live, then the oldest while more
    /// than `MAX_SLOTS` remain.
    pub fn prune(&mut self, now: u64)
        requires
            old(self).wf(),
        ensures
            final(self).wf(),
            final(self)@ == pruned(old(self)@, now),
    {
        self.keep_fresh_slots(now);
        self.evict_slots(MAX_SLOTS);
        proof {
            lemma_pruned(old(self)@, now);
        }
    }

    fn find(&self, id: &String) -> (r: Option<usize>)
        requires
            self.wf(),
        ensures
            match r {
                Some(i) => has_id(self@, id@) && i == index_of(self@, id@),
                None => !has_id(self@, id@),
            },
    {
        let n = self.slots.len();
        let mut i: usize = 0;
        while i < n
            invariant
                i <= n,
                n == self@.len(),
                self.wf(),
                forall|k: int| 0 <= k < i ==> self@[k].id != id@,
            decreases n - i,
        {
            if self.slots[i].id == *id {
                assert(self@[i as int].id == id@);
                assert(has_id(self@, id@));
                let ghost m = index_of(self@, id@);
                assert(m == i) by {
                    if m != i {
                        if m < i {
                            assert(self@[m].id != self@[i as int].id);
                        } else {
                            assert(self@[i as int].id != self@[m].id);
                        }
                    }
                }
                return Some(i);
            }
            i = i + 1;
        }
        None
    }

    /// Stages a result under a new random id and returns the id. Fails on
    /// an empty result, and when no random id can be had; then nothing
    /// changes. Otherwise the stage is cleaned up first, and the file is
    /// added (replacing one with the same id).
    pub fn put(&mut self, bytes: Vec<u8>, mime: &str, filename: &str, now: u64) -> (r: Result<
        String,
        String,
    >)
        requires
            old(self).wf(),
        ensures
            final(self).wf(),
            bytes@.len() == 0 ==> (r matches Err(e) && e@ == empty_result_message()),
            bytes@.len() > 0 ==> (r is Ok || (r matches Err(e) && e@ == mint_failed_message())),
            r matches Err(e) ==> final(self)@ == old(self)@ && (e@ == empty_result_message()
                || e@ == mint_failed_message()),
            r matches Ok(id) ==> {
                &&& bytes@.len() > 0
                &&& is_id_spec(id@)
                &&& exists|raw: Seq<u8>| raw.len() == 16 && id@ == #[trigger] id_from(raw)
                &&& final(self)@ == upsert(
                    pruned(old(self)@, now),
                    SlotView { id: id@, bytes: bytes@, mime: mime@, filename: filename@, at: now },
                )
            },
            final(self)@.len() <= MAX_SLOTS,
    {
        if bytes.len() == 0 {
            proof {
                lemma_keep_fresh(self@, now);
            }
            return Err(crate::sniff::text_of("empty result"));
        }
        let raw = match random_16() {
            Some(raw) => raw,
            None => {
                return Err(crate::sniff::text_of("could not mint download id"));
            },
        };
        let id = id_of(&raw);
        proof {
            lemma_minted_ids_are_ids(raw@);
        }
        self.prune(now);
        let ghost p = self@;
        let slot = Slot {
            id: id.clone(),
            bytes,
            mime: mime.to_owned(),
            filename: filename.to_owned(),
            at: now,
        };
        let ghost x = slot@;
        proof {
            lemma_pruned(old(self)@, now);
            lemma_upsert(p, x);
        }
        match self.find(&id) {
            Some(i) => {
                let mut s = slot;
                self.slots.set(i, s);
                assert(self@ =~= upsert(p, x));
            },
            None => {
                self.evict_slots(MAX_SLOTS - 1);
                self.slots.push(slot);
                assert(self@ =~= upsert(p, x));
            },
        }
        Ok(id)
    }

    /// Looks a staged file up by id, after the same clean-up.
    pub fn get(&mut self, id: &str, now: u64) -> (r: Option<Staged>)
        requires
            old(self).wf(),
        ensures
            final(self).wf(),
            final(self)@ == pruned(old(self)@, now),
            match r {
                Some(st) => {
                    let s = final(self)@[index_of(final(self)@, id@)];
                    &&& has_id(final(self)@, id@)
                    &&& st.bytes@ == s.bytes
                    &&& st.mime@ == s.mime
                    &&& st.filename@ == s.filename
                },
                None => !has_id(final(self)@, id@),
            },
    {
        self.prune(now);
        let key = id.to_owned();
        match self.find(&key) {
            Some(i) => {
                let s = &self.slots[i];
                Some(Staged { bytes: copy_bytes(&s.bytes), mime: s.mime.clone(), filename: s.filename.clone() })
            },
            None => None,
        }
    }
}

} // verus!
