//! The eviction policy: when an entry must leave, and how far one pass of
//! eviction goes.
use vstd::prelude::*;
use crate::lru_store::{Record, keys_unique, total_len, lemma_total_len_take};

verus! {

/// The limits of a cache; zero switches a limit off.
#[derive(Clone, Copy, Debug, PartialEq, Eq)]
pub struct EvictionPolicy {
    /// Size budget in bytes.
    pub max_bytes: u64,
    /// Extra bytes freed below the budget once it is reached.
    pub evict_bytes: u64,
    /// Largest age of an entry, in seconds.
    pub max_seconds: u32,
    /// Largest number of entries.
    pub max_count: u64,
}

/// Whether an entry must leave: the store holds `len` entries of `size` bytes
/// in all, the entry considered was stored at `age` seconds after the anchor,
/// `budget` is the size budget in force and `now` the seconds since the anchor.
pub open spec fn over_limits(p: EvictionPolicy, len: int, age: i32, size: int, budget: int, now: i32) -> bool {
    ||| (budget != 0 && size >= budget)
    ||| (p.max_seconds != 0 && (age as int) < (now as int) - (p.max_seconds as int))
    ||| (p.max_count != 0 && len > p.max_count)
}

/// The size budget of one eviction pass over `s`: lowered by `evict_bytes`
/// (to no less than zero) when the store starts out at or over `max_bytes`.
pub open spec fn pass_budget(p: EvictionPolicy, s: Seq<Record>, now: i32) -> int {
    if p.max_bytes != 0 && p.evict_bytes != 0 && s.len() > 0 && total_len(s) >= p.max_bytes {
        if p.max_bytes > p.evict_bytes {
            p.max_bytes - p.evict_bytes
        } else {
            0
        }
    } else {
        p.max_bytes as int
    }
}

/// Drop least recently used entries while the oldest must leave.
pub open spec fn evict_loop(p: EvictionPolicy, s: Seq<Record>, budget: int, now: i32) -> Seq<Record>
    decreases s.len(),
{
    if s.len() > 0 && over_limits(p, s.len() as int, s.last().1.0, total_len(s), budget, now) {
        evict_loop(p, s.drop_last(), budget, now)
    } else {
        s
    }
}

/// One eviction pass over `s` at time `now`.
pub open spec fn evict_pass(p: EvictionPolicy, s: Seq<Record>, now: i32) -> Seq<Record> {
    evict_loop(p, s, pass_budget(p, s, now), now)
}

/// Decides whether an entry of age `age` must leave a store of `lru_len`
/// entries and `sum_store_size` bytes under the size budget `max_bytes`.
pub fn should_evict(p: &EvictionPolicy, lru_len: usize, age: i32, sum_store_size: u64, max_bytes: u64, now: i32) -> (r: bool)
    ensures
        r == over_limits(*p, lru_len as int, age, sum_store_size as int, max_bytes as int, now),
{
    let is_over_size = max_bytes != 0 && sum_store_size >= max_bytes;
    let evict_older_than_seconds: i64 = now as i64 - p.max_seconds as i64;
    let old_item_exists = p.max_seconds != 0 && (age as i64) < evict_older_than_seconds;
    let is_over_count = p.max_count != 0 && (lru_len as u64) > p.max_count;
    is_over_size || old_item_exists || is_over_count
}

/// What a pass keeps is what it started with, less some least recently used
/// entries.
pub proof fn lemma_evict_loop_prefix(p: EvictionPolicy, s: Seq<Record>, budget: int, now: i32)
    ensures
        evict_loop(p, s, budget, now).len() <= s.len(),
        evict_loop(p, s, budget, now) == s.take(evict_loop(p, s, budget, now).len() as int),
        keys_unique(s) ==> keys_unique(evict_loop(p, s, budget, now)),
    decreases s.len(),
{
    if s.len() > 0 && over_limits(p, s.len() as int, s.last().1.0, total_len(s), budget, now) {
        lemma_evict_loop_prefix(p, s.drop_last(), budget, now);
        let r = evict_loop(p, s.drop_last(), budget, now);
        assert(s.drop_last().take(r.len() as int) =~= s.take(r.len() as int));
    } else {
        assert(s.take(s.len() as int) =~= s);
    }
}

/// The entries that one pass leaves behind no longer call for eviction.
pub proof fn lemma_evict_loop_stops(p: EvictionPolicy, s: Seq<Record>, budget: int, now: i32)
    ensures
        ({
            let r = evict_loop(p, s, budget, now);
            r.len() == 0 || !over_limits(p, r.len() as int, r.last().1.0, total_len(r), budget, now)
        }),
    decreases s.len(),
{
    if s.len() > 0 && over_limits(p, s.len() as int, s.last().1.0, total_len(s), budget, now) {
        lemma_evict_loop_stops(p, s.drop_last(), budget, now);
    }
}

/// Every entry that a pass drops met the eviction condition when it was the
/// oldest.
pub proof fn lemma_evict_loop_dropped(p: EvictionPolicy, s: Seq<Record>, budget: int, now: i32, i: int)
    requires
        evict_loop(p, s, budget, now).len() <= i < s.len(),
    ensures
        over_limits(p, i + 1, s[i].1.0, total_len(s.take(i + 1)), budget, now),
    decreases s.len(),
{
    lemma_evict_loop_prefix(p, s, budget, now);
    if s.len() > 0 && over_limits(p, s.len() as int, s.last().1.0, total_len(s), budget, now) {
        if i < s.len() - 1 {
            lemma_evict_loop_dropped(p, s.drop_last(), budget, now, i);
            assert(s.drop_last().take(i + 1) =~= s.take(i + 1));
        } else {
            assert(s.take(i + 1) =~= s);
        }
    }
}

/// Byte budget: with `evict_bytes` below a nonzero `max_bytes`, a pass
/// leaves less than `max_bytes` bytes, and when the store started at or over
/// `max_bytes` it leaves less than `max_bytes - evict_bytes`.
pub proof fn lemma_byte_budget(p: EvictionPolicy, s: Seq<Record>, now: i32)
    requires
        p.max_bytes != 0,
        p.evict_bytes < p.max_bytes,
    ensures
        total_len(evict_pass(p, s, now)) < p.max_bytes,
        total_len(s) >= p.max_bytes ==> total_len(evict_pass(p, s, now)) < p.max_bytes - p.evict_bytes,
{
    let b = pass_budget(p, s, now);
    let r = evict_pass(p, s, now);
    lemma_evict_loop_stops(p, s, b, now);
    if s.len() == 0 {
        assert(total_len(s) == 0);
    }
    if r.len() == 0 {
        assert(total_len(r) == 0);
    }
}

/// Count limit: with a nonzero `max_count`, a pass leaves at most
/// `max_count` entries, and what it drops are the least recently used.
pub proof fn lemma_count_limit(p: EvictionPolicy, s: Seq<Record>, now: i32)
    requires
        p.max_count != 0,
    ensures
        evict_pass(p, s, now).len() <= p.max_count,
        evict_pass(p, s, now) == s.take(evict_pass(p, s, now).len() as int),
{
    lemma_evict_loop_stops(p, s, pass_budget(p, s, now), now);
    lemma_evict_loop_prefix(p, s, pass_budget(p, s, now), now);
}

/// Age limit: with only `max_seconds` set, a pass at `now` keeps every entry
/// stored at or after `now - max_seconds`, and the least recently used entry
/// it leaves is no older than that. When the entries were stored in order of
/// time (none touched since), nothing older survives.
pub proof fn lemma_age_limit(p: EvictionPolicy, s: Seq<Record>, now: i32)
    requires
        p.max_seconds != 0,
        p.max_bytes == 0,
        p.max_count == 0,
    ensures
        ({
            let r = evict_pass(p, s, now);
            let cutoff = now - p.max_seconds;
            &&& forall|i: int| 0 <= i < s.len() && s[i].1.0 >= cutoff ==> i < r.len()
            &&& r.len() == 0 || r.last().1.0 >= cutoff
            &&& (forall|i: int, j: int| 0 <= i < j < s.len() ==> s[i].1.0 >= s[j].1.0) ==> (forall|i: int|
                0 <= i < r.len() ==> #[trigger] r[i].1.0 >= cutoff)
        }),
{
    let b = pass_budget(p, s, now);
    let r = evict_pass(p, s, now);
    lemma_evict_loop_stops(p, s, b, now);
    lemma_evict_loop_prefix(p, s, b, now);
    assert forall|i: int| 0 <= i < s.len() && s[i].1.0 >= now - p.max_seconds implies i < r.len() by {
        if i >= r.len() {
            lemma_evict_loop_dropped(p, s, b, now, i);
        }
    }
    if (forall|i: int, j: int| 0 <= i < j < s.len() ==> s[i].1.0 >= s[j].1.0) && r.len() > 0 {
        assert forall|i: int| 0 <= i < r.len() implies #[trigger] r[i].1.0 >= now - p.max_seconds by {
            assert(r[i] == s[i]);
            assert(r.last() == s[r.len() - 1]);
        }
    }
}

/// A second pass at the same time changes nothing.
pub proof fn lemma_evict_pass_idempotent(p: EvictionPolicy, s: Seq<Record>, now: i32)
    ensures
        evict_pass(p, evict_pass(p, s, now), now) == evict_pass(p, s, now),
{
    let b1 = pass_budget(p, s, now);
    let r = evict_pass(p, s, now);
    lemma_evict_loop_stops(p, s, b1, now);
    lemma_evict_loop_prefix(p, s, b1, now);
    lemma_total_len_take(s, r.len() as int);
    if r.len() > 0 {
        let b2 = pass_budget(p, r, now);
        assert(!over_limits(p, r.len() as int, r.last().1.0, total_len(r), b1, now));
        assert(!over_limits(p, r.len() as int, r.last().1.0, total_len(r), b2, now));
    }
}

} // verus!
