//! A cache of content-addressed entries bounded by size, age and count, with
//! least-recently-used eviction.
//!
//! Every entry that leaves the map (evicted, replaced or removed) is moved to
//! a queue of released handles, in the order in which it left. The owner of
//! the map drains that queue with `take_released` and releases each handle
//! exactly once before it lets anyone else change the map.
use vstd::prelude::*;
use std::collections::HashMap;
use crate::lru_store::{
    Record, lru_contents, keys_unique, has_key, value_of, lookup, put_spec, pop_spec,
    promote_spec, total_len, lemma_put, lemma_pop, lemma_drop_last, lemma_total_len_nonneg,
    lemma_put_values, lemma_pop_values, lemma_total_len_take, lemma_key_pos,
    lemma_total_len_prepend,
    lru_new, lru_len, lru_peek_lru, lru_pop_lru, lru_get, lru_peek, lru_put, lru_pop,
    lru_records,
};
use crate::policy::{
    EvictionPolicy, over_limits, pass_budget, evict_loop, evict_pass, should_evict,
    lemma_evict_loop_prefix, lemma_evict_pass_idempotent,
};

verus! {

broadcast use vstd::std_specs::hash::group_hash_axioms;

/// A handle on stored data, as the map sees it: its size in bytes.
pub trait LenEntry {
    spec fn spec_len(&self) -> usize;

    /// Length of referenced data.
    fn len(&self) -> (r: usize)
        ensures
            r == self.spec_len(),
    ;

    /// Whether the referenced data is empty.
    fn is_empty(&self) -> (r: bool)
        ensures
            r == (self.spec_len() == 0),
    ;
}

impl<E: LenEntry> LenEntry for std::sync::Arc<E> {
    open spec fn spec_len(&self) -> usize {
        (**self).spec_len()
    }

    fn len(&self) -> (r: usize) {
        (**self).len()
    }

    fn is_empty(&self) -> (r: bool) {
        (**self).is_empty()
    }
}

/// A source of time for a map: its anchor instant and the seconds elapsed
/// since it.
pub trait InstantWrapper: Sized {
    /// The instant `secs` seconds after the Unix epoch.
    fn from_secs(secs: u64) -> Self;

    /// Seconds from the Unix epoch to this instant.
    fn unix_timestamp(&self) -> u64;

    /// Time elapsed since this instant.
    fn elapsed(&self) -> core::time::Duration;
}

/// Running totals of what has left or entered the map.
#[derive(Clone, Copy, Debug, PartialEq, Eq)]
pub struct MapCounters {
    pub evicted_bytes: u64,
    pub evicted_items: u64,
    pub replaced_bytes: u64,
    pub replaced_items: u64,
    pub removed_bytes: u64,
    pub removed_items: u64,
    pub lifetime_inserted_bytes: u64,
}

/// Why an entry left the map.
#[derive(Clone, Copy, Debug, PartialEq, Eq)]
pub enum Departure {
    /// Dropped by the eviction policy, or because it failed revalidation.
    Evicted,
    /// Overwritten by a new value under the same key.
    Replaced,
    /// Removed on the caller's request.
    Removed,
}

/// The counters after an entry of `bytes` bytes left for `why`.
pub open spec fn count_departure(c: MapCounters, why: Departure, bytes: u64) -> MapCounters {
    match why {
        Departure::Evicted => MapCounters {
            evicted_bytes: c.evicted_bytes.wrapping_add(bytes),
            evicted_items: c.evicted_items.wrapping_add(1),
            ..c
        },
        Departure::Replaced => MapCounters {
            replaced_bytes: c.replaced_bytes.wrapping_add(bytes),
            replaced_items: c.replaced_items.wrapping_add(1),
            ..c
        },
        Departure::Removed => MapCounters {
            removed_bytes: c.removed_bytes.wrapping_add(bytes),
            removed_items: c.removed_items.wrapping_add(1),
            ..c
        },
    }
}

/// The counters after a pass pops the records of `s` from the least
/// recently used back to position `kept`, each counted as evicted.
pub open spec fn count_pass(c: MapCounters, s: Seq<Record>, kept: int) -> MapCounters
    decreases s.len() - kept,
{
    if kept >= s.len() || kept < 0 {
        c
    } else {
        count_departure(count_pass(c, s, kept + 1), Departure::Evicted, s[kept].1.1)
    }
}

/// The counters after an entry of `bytes` bytes is put, replacing one of
/// `replaced` bytes if any.
pub open spec fn count_put(c: MapCounters, replaced: Option<(i32, u64)>, bytes: u64) -> MapCounters {
    let c1 = match replaced {
        Some(v) => count_departure(c, Departure::Replaced, v.1),
        None => c,
    };
    MapCounters { lifetime_inserted_bytes: c1.lifetime_inserted_bytes.wrapping_add(bytes), ..c1 }
}

/// The persisted form of a map's order: (key, seconds since anchor), most
/// recently used first, and the anchor as a Unix timestamp.
#[derive(Clone, Debug, PartialEq, Eq)]
pub struct SerializedLRU {
    pub data: Vec<(u64, i32)>,
    pub anchor_time: u64,
}

/// The (key, age) pairs of a sequence of records.
pub open spec fn snapshot_of(s: Seq<Record>) -> Seq<(u64, i32)> {
    s.map_values(|r: Record| (r.0, r.1.0))
}

/// The handles that one eviction pass releases, in the order it takes them:
/// those of the records of `s` from the least recently used back to
/// position `kept`.
pub open spec fn released_in_pass<T>(h: Map<u64, T>, s: Seq<Record>, kept: int) -> Seq<T> {
    Seq::new((s.len() - kept) as nat, |j: int| h[s[s.len() - 1 - j].0])
}

/// The store after `k` is put with value `v` and an eviction pass follows.
pub open spec fn insert_step(p: EvictionPolicy, s: Seq<Record>, k: u64, v: (i32, u64), now: i32) -> Seq<Record> {
    evict_pass(p, put_spec(s, k, v), now)
}

/// The store after each (key, size) of `items` is inserted in turn with age
/// `age`, each insert followed by an eviction pass.
pub open spec fn insert_all(p: EvictionPolicy, s: Seq<Record>, items: Seq<(u64, u64)>, age: i32, now: i32) -> Seq<Record>
    decreases items.len(),
{
    if items.len() == 0 {
        s
    } else {
        insert_step(p, insert_all(p, s, items.drop_last(), age, now), items.last().0, (age, items.last().1), now)
    }
}

/// How many of the inserts `items` find their key already present.
pub open spec fn replace_count(p: EvictionPolicy, s: Seq<Record>, items: Seq<(u64, u64)>, age: i32, now: i32) -> int
    decreases items.len(),
{
    if items.len() == 0 {
        0
    } else {
        replace_count(p, s, items.drop_last(), age, now) + (if has_key(
            insert_all(p, s, items.drop_last(), age, now),
            items.last().0,
        ) {
            1int
        } else {
            0
        })
    }
}

/// Single presence: inserting a key that is present replaces its record
/// (same count, new value, most recently used) rather than adding a second
/// one, and keys stay unique through the eviction pass that follows.
pub proof fn lemma_insert_replaces(p: EvictionPolicy, s: Seq<Record>, k: u64, v: (i32, u64), now: i32)
    requires
        keys_unique(s),
    ensures
        keys_unique(put_spec(s, k, v)),
        keys_unique(insert_step(p, s, k, v, now)),
        has_key(s, k) ==> put_spec(s, k, v).len() == s.len(),
        !has_key(s, k) ==> put_spec(s, k, v).len() == s.len() + 1,
        put_spec(s, k, v)[0] == (k, v),
        value_of(put_spec(s, k, v), k) == v,
{
    lemma_put(s, k, v);
    lemma_put_values(s, k, v);
    let t = put_spec(s, k, v);
    lemma_evict_loop_prefix(p, t, pass_budget(p, t, now), now);
}

/// The (key, size) pairs of entries to insert.
pub open spec fn sized<T: LenEntry>(items: Seq<(u64, T)>) -> Seq<(u64, u64)> {
    items.map_values(|e: (u64, T)| (e.0, e.1.spec_len() as u64))
}

/// The handles stored after each of `items` is inserted in turn into the
/// store `s` holding the handles `h` (see `insert_all`), and the handles
/// released on the way, in order: for each insert, the one it replaced, then
/// those of its eviction pass.
pub open spec fn insert_all_handles<T: LenEntry>(
    p: EvictionPolicy,
    s: Seq<Record>,
    h: Map<u64, T>,
    items: Seq<(u64, T)>,
    age: i32,
    now: i32,
) -> (Map<u64, T>, Seq<T>)
    decreases items.len(),
{
    if items.len() == 0 {
        (h, Seq::empty())
    } else {
        let prev = insert_all_handles(p, s, h, items.drop_last(), age, now);
        let s1 = insert_all(p, s, sized(items.drop_last()), age, now);
        let k = items.last().0;
        let put = put_spec(s1, k, (age, items.last().1.spec_len() as u64));
        let h2 = prev.0.insert(k, items.last().1);
        let s3 = evict_pass(p, put, now);
        (
            Map::new(|j: u64| has_key(s3, j), |j: u64| h2[j]),
            prev.1 + (if has_key(s1, k) {
                seq![prev.0[k]]
            } else {
                Seq::<T>::empty()
            }) + released_in_pass(h2, put, s3.len() as int),
        )
    }
}

/// The handles that the inserts `items` displace, in order (see
/// `insert_all_handles`).
pub open spec fn insert_all_displaced<T: LenEntry>(
    p: EvictionPolicy,
    s: Seq<Record>,
    h: Map<u64, T>,
    items: Seq<(u64, T)>,
    age: i32,
    now: i32,
) -> Seq<T>
    decreases items.len(),
{
    if items.len() == 0 {
        Seq::empty()
    } else {
        let prev = insert_all_displaced(p, s, h, items.drop_last(), age, now);
        let s1 = insert_all(p, s, sized(items.drop_last()), age, now);
        let k = items.last().0;
        if has_key(s1, k) {
            prev.push(insert_all_handles(p, s, h, items.drop_last(), age, now).0[k])
        } else {
            prev
        }
    }
}

/// The counters after the inserts `items` (key, size), each put followed by
/// an eviction pass (see `insert_all`).
pub open spec fn insert_all_counters(
    p: EvictionPolicy,
    s: Seq<Record>,
    c: MapCounters,
    items: Seq<(u64, u64)>,
    age: i32,
    now: i32,
) -> MapCounters
    decreases items.len(),
{
    if items.len() == 0 {
        c
    } else {
        let prev = insert_all_counters(p, s, c, items.drop_last(), age, now);
        let s1 = insert_all(p, s, items.drop_last(), age, now);
        let k = items.last().0;
        let put = put_spec(s1, k, (age, items.last().1));
        count_pass(count_put(prev, lookup(s1, k), items.last().1), put, evict_pass(p, put, now).len() as int)
    }
}

/// The sum of the sizes of entries to insert.
pub open spec fn sum_sizes<T: LenEntry>(items: Seq<(u64, T)>) -> int
    decreases items.len(),
{
    if items.len() == 0 {
        0
    } else {
        sum_sizes(items.drop_last()) + items.last().1.spec_len()
    }
}

proof fn lemma_sum_sizes_take<T: LenEntry>(items: Seq<(u64, T)>, m: int)
    requires
        0 <= m <= items.len(),
    ensures
        sum_sizes(items.take(m)) <= sum_sizes(items),
    decreases items.len(),
{
    if m < items.len() {
        assert(items.drop_last().take(m) =~= items.take(m));
        lemma_sum_sizes_take(items.drop_last(), m);
    } else {
        assert(items.take(m) =~= items);
    }
}

/// The store that restoring the (key, age) pairs `data` builds, where the
/// entry made for `data[i]` has `lens[i]` bytes: the pairs are put into an
/// empty store from the last to the first, so that `data[0]` ends up most
/// recently used, and a pair whose size would overflow the running total is
/// left out.
pub open spec fn restore_state(data: Seq<(u64, i32)>, lens: Seq<u64>) -> Seq<Record>
    decreases data.len(),
{
    if data.len() == 0 || lens.len() == 0 {
        Seq::empty()
    } else {
        let st = restore_state(data.drop_first(), lens.drop_first());
        if lens[0] <= u64::MAX - total_len(st) {
            put_spec(st, data[0].0, (data[0].1, lens[0]))
        } else {
            st
        }
    }
}

/// The counters after the records of `s` from the least recently used back
/// to position `kept` are taken out, each counted as removed.
pub open spec fn count_removals(c: MapCounters, s: Seq<Record>, kept: int) -> MapCounters
    decreases s.len() - kept,
{
    if kept >= s.len() || kept < 0 {
        c
    } else {
        count_departure(count_removals(c, s, kept + 1), Departure::Removed, s[kept].1.1)
    }
}

/// The counters after restoring `data` with entries of sizes `lens` (see
/// `restore_state`), from the counters `c`.
pub open spec fn restore_counters(data: Seq<(u64, i32)>, lens: Seq<u64>, c: MapCounters) -> MapCounters
    decreases data.len(),
{
    if data.len() == 0 || lens.len() == 0 {
        c
    } else {
        let prev = restore_counters(data.drop_first(), lens.drop_first(), c);
        let st = restore_state(data.drop_first(), lens.drop_first());
        if lens[0] <= u64::MAX - total_len(st) {
            count_put(prev, lookup(st, data[0].0), lens[0])
        } else {
            prev
        }
    }
}

/// The sizes of a sequence of entries.
pub open spec fn lens_of<T: LenEntry>(made: Seq<T>) -> Seq<u64> {
    made.map_values(|t: T| t.spec_len() as u64)
}

/// The sizes of a sequence of records.
pub open spec fn sizes_of(s: Seq<Record>) -> Seq<u64> {
    s.map_values(|r: Record| r.1.1)
}

/// `x`, or zero where it is negative.
pub open spec fn floor_zero(x: int) -> int {
    if x < 0 {
        0
    } else {
        x
    }
}

/// A batched size lookup after the keys `ds`, from the store `s`: the store
/// (each key found becomes the most recently used), the entry count and byte
/// total as they would be once the doomed keys are gone, the keys doomed to
/// leave, and each key's provisional size.
pub open spec fn size_scan(p: EvictionPolicy, s: Seq<Record>, ds: Seq<u64>, now: i32) -> (
    Seq<Record>,
    int,
    int,
    Seq<u64>,
    Seq<Option<usize>>,
)
    decreases ds.len(),
{
    if ds.len() == 0 {
        (s, s.len() as int, total_len(s), Seq::empty(), Seq::empty())
    } else {
        let st = size_scan(p, s, ds.drop_last(), now);
        let k = ds.last();
        if has_key(st.0, k) {
            let v = value_of(st.0, k);
            let o = promote_spec(st.0, k);
            if over_limits(p, st.1, v.0, st.2, p.max_bytes as int, now) {
                (o, floor_zero(st.1 - 1), floor_zero(st.2 - v.1), st.3.push(k), st.4.push(None))
            } else {
                (o, st.1, st.2, st.3, st.4.push(Some(v.1 as usize)))
            }
        } else {
            (st.0, st.1, st.2, st.3.push(k), st.4.push(None))
        }
    }
}

/// The store after popping each key of `ks` in turn.
pub open spec fn pop_all(s: Seq<Record>, ks: Seq<u64>) -> Seq<Record>
    decreases ks.len(),
{
    if ks.len() == 0 {
        s
    } else {
        pop_spec(pop_all(s, ks.drop_last()), ks.last())
    }
}

/// Restoring the pairs and sizes of records with unique keys, whose sizes
/// fit a `u64` in total, gives the records back in the same order.
pub proof fn lemma_restore_unique(recs: Seq<Record>)
    requires
        keys_unique(recs),
        total_len(recs) <= u64::MAX,
    ensures
        restore_state(snapshot_of(recs), sizes_of(recs)) == recs,
    decreases recs.len(),
{
    if recs.len() > 0 {
        let rest = recs.drop_first();
        assert(keys_unique(rest));
        assert(recs =~= seq![recs[0]] + rest);
        lemma_total_len_prepend(recs[0], rest);
        lemma_total_len_nonneg(rest);
        lemma_restore_unique(rest);
        assert(snapshot_of(recs).drop_first() =~= snapshot_of(rest));
        assert(sizes_of(recs).drop_first() =~= sizes_of(rest));
        assert(!has_key(rest, recs[0].0)) by {
            if has_key(rest, recs[0].0) {
                let m = choose|m: int| 0 <= m < rest.len() && rest[m].0 == recs[0].0;
                assert(recs[m + 1] == rest[m]);
            }
        }
        assert(seq![(recs[0].0, recs[0].1)] + rest =~= recs);
    }
}

/// Snapshot round trip: restoring what a snapshot lists, with entries of the
/// same sizes, under the same limits and at the same time, gives back the
/// same keys in the same order of recency with the same ages.
pub proof fn lemma_snapshot_round_trip(p: EvictionPolicy, s: Seq<Record>, now: i32)
    requires
        keys_unique(s),
        total_len(s) <= u64::MAX,
    ensures
        ({
            let c = evict_pass(p, s, now);
            &&& evict_pass(p, restore_state(snapshot_of(c), sizes_of(c)), now) == c
            &&& snapshot_of(evict_pass(p, restore_state(snapshot_of(c), sizes_of(c)), now)) == snapshot_of(c)
        }),
{
    let c = evict_pass(p, s, now);
    lemma_evict_loop_prefix(p, s, pass_budget(p, s, now), now);
    lemma_total_len_take(s, c.len() as int);
    lemma_restore_unique(c);
    lemma_evict_pass_idempotent(p, s, now);
}

/// Released exactly once: each handle that a pass releases belongs to a
/// record that the pass dropped, one handle per dropped record, and none of
/// those keys can still be found in what the pass kept.
pub proof fn lemma_pass_releases_departed<T>(h: Map<u64, T>, s: Seq<Record>, kept: int)
    requires
        keys_unique(s),
        0 <= kept <= s.len(),
    ensures
        released_in_pass(h, s, kept).len() == s.len() - kept,
        forall|j: int|
            0 <= j < s.len() - kept ==> #[trigger] released_in_pass(h, s, kept)[j] == h[s[s.len() - 1 - j].0]
                && !has_key(s.take(kept), s[s.len() - 1 - j].0),
{
    assert forall|j: int| 0 <= j < s.len() - kept implies #[trigger] released_in_pass(h, s, kept)[j] == h[s[s.len() - 1 - j].0]
        && !has_key(s.take(kept), s[s.len() - 1 - j].0) by {
        if has_key(s.take(kept), s[s.len() - 1 - j].0) {
            let m = choose|m: int| 0 <= m < kept && s.take(kept)[m].0 == s[s.len() - 1 - j].0;
            assert(s[m].0 == s[s.len() - 1 - j].0);
        }
    }
}

/// How many entries, most recently used first, the size sample covers.
pub const ITEM_SIZE_SAMPLE_LIMIT: usize = 1000000;

/// The readings a map publishes.
#[derive(Clone, Debug, PartialEq, Eq)]
pub struct MetricsReport {
    pub max_bytes: u64,
    pub evict_bytes: u64,
    pub anchor_time_timestamp: u64,
    pub max_seconds: u32,
    pub max_count: u64,
    pub sum_store_size_bytes: u64,
    pub items_in_store_total: usize,
    /// Unix timestamp of the least recently used entry, or -1 when empty.
    pub oldest_item_timestamp: i128,
    /// Unix timestamp of the most recently used entry, or -1 when empty.
    pub newest_item_timestamp: i128,
    pub counters: MapCounters,
    /// Sizes of the most recently used entries, most recent first.
    pub item_size_bytes: Vec<u64>,
}

/// The timestamp of a record stored `age` seconds after `anchor`.
pub open spec fn item_timestamp(anchor: u64, age: i32) -> int {
    anchor + age
}

/// The handles released by popping each key of `ks` in turn from `s`: one
/// for each key still present when its turn comes.
pub open spec fn pops_released<T>(h: Map<u64, T>, s: Seq<Record>, ks: Seq<u64>) -> Seq<T>
    decreases ks.len(),
{
    if ks.len() == 0 {
        Seq::empty()
    } else if has_key(pop_all(s, ks.drop_last()), ks.last()) {
        pops_released(h, s, ks.drop_last()).push(h[ks.last()])
    } else {
        pops_released(h, s, ks.drop_last())
    }
}

/// The counters after popping each key of `ks` in turn from `s`, each key
/// still present when its turn comes counted as evicted.
pub open spec fn pops_counted(c: MapCounters, s: Seq<Record>, ks: Seq<u64>) -> MapCounters
    decreases ks.len(),
{
    if ks.len() == 0 {
        c
    } else if has_key(pop_all(s, ks.drop_last()), ks.last()) {
        count_departure(
            pops_counted(c, s, ks.drop_last()),
            Departure::Evicted,
            value_of(pop_all(s, ks.drop_last()), ks.last()).1,
        )
    } else {
        pops_counted(c, s, ks.drop_last())
    }
}

/// A cache of entries keyed by a content fingerprint.
pub struct EvictingMap<T: LenEntry> {
    lru: lru::LruCache<u64, (i32, u64), std::collections::hash_map::RandomState>,
    handles: HashMap<u64, T>,
    generations: HashMap<u64, u64>,
    next_generation: u64,
    released: Vec<T>,
    sum_store_size: u64,
    counters: MapCounters,
    anchor_time: u64,
    policy: EvictionPolicy,
}

impl<T: LenEntry> EvictingMap<T> {
    /// The records, most recently used first.
    pub closed spec fn contents(&self) -> Seq<Record> {
        lru_contents(self.lru)
    }

    /// The stored handle of each key.
    pub closed spec fn handles(&self) -> Map<u64, T> {
        self.handles@
    }

    /// The generation of each key's entry: a number given when the entry was
    /// put, which no later put reuses.
    pub closed spec fn generations(&self) -> Map<u64, u64> {
        self.generations@
    }

    /// The generation the next put will give.
    pub closed spec fn next_generation_spec(&self) -> u64 {
        self.next_generation
    }

    /// Handles that left the map and await release, in the order they left.
    pub closed spec fn released(&self) -> Seq<T> {
        self.released@
    }

    /// The running total of bytes stored.
    pub closed spec fn total_bytes(&self) -> int {
        self.sum_store_size as int
    }

    pub closed spec fn counters_spec(&self) -> MapCounters {
        self.counters
    }

    pub closed spec fn anchor(&self) -> u64 {
        self.anchor_time
    }

    pub closed spec fn limits(&self) -> EvictionPolicy {
        self.policy
    }

    /// The records agree with the stored handles and the running total.
    pub closed spec fn wf(&self) -> bool {
        &&& keys_unique(self.contents())
        &&& self.sum_store_size == total_len(self.contents())
        &&& forall|k: u64| #[trigger] self.handles@.contains_key(k) <==> has_key(self.contents(), k)
        &&& forall|k: u64| #[trigger] self.handles@.contains_key(k) ==> self.handles@[k].spec_len()
            == value_of(self.contents(), k).1
        &&& forall|k: u64| #[trigger] self.generations@.contains_key(k) <==> self.handles@.contains_key(k)
        &&& forall|k: u64| #[trigger] self.generations@.contains_key(k) ==> (self.generations@[k] < self.next_generation
            || self.next_generation == u64::MAX)
    }

    /// The size invariant and single presence: the running total is the sum
    /// of the sizes of the entries present, each key is present at most once,
    /// and each present key has exactly one stored handle, whose size is the
    /// recorded one, and one generation, older than the next one to be given
    /// (until generations run out).
    pub proof fn lemma_state_invariant(&self)
        requires
            self.wf(),
        ensures
            self.total_bytes() == total_len(self.contents()),
            keys_unique(self.contents()),
            forall|k: u64| #[trigger] self.handles().contains_key(k) <==> has_key(self.contents(), k),
            forall|k: u64| #[trigger] self.handles().contains_key(k) ==> self.handles()[k].spec_len()
                == value_of(self.contents(), k).1,
            forall|k: u64| #[trigger] self.generations().contains_key(k) <==> has_key(self.contents(), k),
            forall|k: u64| #[trigger] self.generations().contains_key(k) ==> (self.generations()[k]
                < self.next_generation_spec() || self.next_generation_spec() == u64::MAX),
    {
    }

    /// An empty map with the given limits and anchor time.
    pub fn new(config: &EvictionPolicy, anchor_time: u64) -> (r: Self)
        ensures
            r.wf(),
            r.contents() == Seq::<Record>::empty(),
            r.released() == Seq::<T>::empty(),
            r.limits() == *config,
            r.anchor() == anchor_time,
            r.counters_spec() == (MapCounters {
                evicted_bytes: 0,
                evicted_items: 0,
                replaced_bytes: 0,
                replaced_items: 0,
                removed_bytes: 0,
                removed_items: 0,
                lifetime_inserted_bytes: 0,
            }),
    {
        let r = EvictingMap {
            lru: lru_new(),
            handles: HashMap::new(),
            generations: HashMap::new(),
            next_generation: 0,
            released: Vec::new(),
            sum_store_size: 0,
            counters: MapCounters {
                evicted_bytes: 0,
                evicted_items: 0,
                replaced_bytes: 0,
                replaced_items: 0,
                removed_bytes: 0,
                removed_items: 0,
                lifetime_inserted_bytes: 0,
            },
            anchor_time,
            policy: *config,
        };
        assert(r.handles@ =~= Map::<u64, T>::empty());
        assert(r.generations@ =~= Map::<u64, u64>::empty());
        r
    }

    /// The number of entries present.
    pub fn len_for_test(&self) -> (r: usize)
        requires
            self.wf(),
        ensures
            r == self.contents().len(),
    {
        lru_len(&self.lru)
    }

    /// The limits of this map.
    pub fn policy(&self) -> (r: EvictionPolicy)
        ensures
            r == self.limits(),
    {
        self.policy
    }

    /// The anchor time, as a Unix timestamp.
    pub fn anchor_time(&self) -> (r: u64)
        ensures
            r == self.anchor(),
    {
        self.anchor_time
    }

    /// The number of bytes stored.
    pub fn sum_store_size(&self) -> (r: u64)
        ensures
            r == self.total_bytes(),
    {
        self.sum_store_size
    }

    /// The running totals.
    pub fn counters(&self) -> (r: MapCounters)
        ensures
            r == self.counters_spec(),
    {
        self.counters
    }

    /// Hands over the released handles, oldest departure first, and empties
    /// the queue.
    pub fn take_released(&mut self) -> (r: Vec<T>)
        ensures
            r@ == old(self).released(),
            final(self).released() == Seq::<T>::empty(),
            final(self).contents() == old(self).contents(),
            final(self).handles() == old(self).handles(),
            final(self).total_bytes() == old(self).total_bytes(),
            final(self).counters_spec() == old(self).counters_spec(),
            final(self).anchor() == old(self).anchor(),
            final(self).limits() == old(self).limits(),
            old(self).wf() ==> final(self).wf(),
    {
        let mut out: Vec<T> = Vec::new();
        std::mem::swap(&mut out, &mut self.released);
        out
    }

    /// Accounts for the record `(key, item)` that was just taken out of the
    /// store: its handle moves to the released queue and the totals drop.
    fn release_entry(&mut self, key: u64, item: (i32, u64), why: Departure)
        requires
            keys_unique(old(self).contents()),
            !has_key(old(self).contents(), key),
            old(self).handles@.contains_key(key),
            old(self).handles@[key].spec_len() == item.1,
            old(self).sum_store_size == total_len(old(self).contents()) + item.1,
            forall|k: u64| #[trigger] old(self).handles@.contains_key(k) <==> (has_key(old(self).contents(), k) || k == key),
            forall|k: u64| #[trigger] old(self).handles@.contains_key(k) && k != key ==> old(self).handles@[k].spec_len()
                == value_of(old(self).contents(), k).1,
            forall|k: u64| #[trigger] old(self).generations@.contains_key(k) <==> old(self).handles@.contains_key(k),
            forall|k: u64| #[trigger] old(self).generations@.contains_key(k) ==> (old(self).generations@[k]
                < old(self).next_generation || old(self).next_generation == u64::MAX),
        ensures
            final(self).wf(),
            final(self).contents() == old(self).contents(),
            final(self).handles() == old(self).handles().remove(key),
            final(self).generations() == old(self).generations().remove(key),
            final(self).next_generation_spec() == old(self).next_generation_spec(),
            final(self).released() == old(self).released().push(old(self).handles()[key]),
            final(self).counters_spec() == count_departure(old(self).counters, why, item.1),
            final(self).anchor() == old(self).anchor(),
            final(self).limits() == old(self).limits(),
    {
        proof {
            lemma_total_len_nonneg(self.contents());
        }
        self.sum_store_size = self.sum_store_size - item.1;
        match why {
            Departure::Evicted => {
                self.counters.evicted_items = self.counters.evicted_items.wrapping_add(1);
                self.counters.evicted_bytes = self.counters.evicted_bytes.wrapping_add(item.1);
            },
            Departure::Replaced => {
                self.counters.replaced_items = self.counters.replaced_items.wrapping_add(1);
                self.counters.replaced_bytes = self.counters.replaced_bytes.wrapping_add(item.1);
            },
            Departure::Removed => {
                self.counters.removed_items = self.counters.removed_items.wrapping_add(1);
                self.counters.removed_bytes = self.counters.removed_bytes.wrapping_add(item.1);
            },
        }
        let h = self.handles.remove(&key);
        match h {
            Some(h) => self.released.push(h),
            None => {},
        }
        self.generations.remove(&key);
    }

    /// One eviction pass at `now` (seconds since the anchor): while the least
    /// recently used entry must leave, it is evicted. When the store starts
    /// at or over `max_bytes` and both `max_bytes` and `evict_bytes` are set,
    /// the size budget of the pass is lowered by `evict_bytes`.
    fn evict_items(&mut self, now: i32)
        requires
            old(self).wf(),
        ensures
            final(self).wf(),
            final(self).contents() == evict_pass(old(self).limits(), old(self).contents(), now),
            final(self).released() == old(self).released() + released_in_pass(
                old(self).handles(),
                old(self).contents(),
                final(self).contents().len() as int,
            ),
            forall|k: u64| #[trigger] final(self).handles().contains_key(k) ==> final(self).handles()[k]
                == old(self).handles()[k],
            forall|k: u64| #[trigger] final(self).generations().contains_key(k) ==> final(self).generations()[k]
                == old(self).generations()[k],
            final(self).next_generation_spec() == old(self).next_generation_spec(),
            final(self).counters_spec() == count_pass(
                old(self).counters_spec(),
                old(self).contents(),
                final(self).contents().len() as int,
            ),
            final(self).anchor() == old(self).anchor(),
            final(self).limits() == old(self).limits(),
    {
        let ghost s0 = self.contents();
        let ghost h0 = self.handles@;
        let ghost r0 = self.released@;
        let ghost c0 = self.counters;
        let first = lru_peek_lru(&self.lru);
        let mut peek = match first {
            None => {
                assert(released_in_pass(h0, s0, 0) =~= Seq::<T>::empty());
                assert(self.released@ =~= r0 + released_in_pass(h0, s0, 0));
                return;
            },
            Some(p) => p,
        };
        let max_bytes: u64 = if self.policy.max_bytes != 0 && self.policy.evict_bytes != 0
            && self.sum_store_size >= self.policy.max_bytes {
            if self.policy.max_bytes > self.policy.evict_bytes {
                self.policy.max_bytes - self.policy.evict_bytes
            } else {
                0
            }
        } else {
            self.policy.max_bytes
        };
        assert(max_bytes as int == pass_budget(self.policy, s0, now));
        assert(s0.take(s0.len() as int) =~= s0);
        assert(released_in_pass(h0, s0, s0.len() as int) =~= Seq::<T>::empty());
        assert(self.released@ =~= r0 + released_in_pass(h0, s0, s0.len() as int));
        let mut go = true;
        while go
            invariant
                self.wf(),
                self.policy == old(self).policy,
                self.anchor_time == old(self).anchor_time,
                self.contents().len() <= s0.len(),
                self.contents() == s0.take(self.contents().len() as int),
                go ==> self.contents().len() > 0 && peek == self.contents().last(),
                !go ==> evict_loop(self.policy, self.contents(), max_bytes as int, now) == self.contents(),
                evict_loop(self.policy, self.contents(), max_bytes as int, now) == evict_loop(
                    self.policy,
                    s0,
                    max_bytes as int,
                    now,
                ),
                self.released@ == r0 + released_in_pass(h0, s0, self.contents().len() as int),
                forall|k: u64| #[trigger] self.handles@.contains_key(k) ==> self.handles@[k] == h0[k],
                forall|k: u64| #[trigger] self.generations@.contains_key(k) ==> self.generations@[k] == old(self).generations@[k],
                self.next_generation == old(self).next_generation,
                self.counters == count_pass(c0, s0, self.contents().len() as int),
            decreases self.contents().len() + (if go {
                1int
            } else {
                0
            }),
        {
            let len = lru_len(&self.lru);
            if !should_evict(&self.policy, len, peek.1.0, self.sum_store_size, max_bytes, now) {
                go = false;
            } else {
                let ghost s = self.contents();
                let ghost n = s.len() as int;
                proof {
                    lemma_drop_last(s);
                    assert(self.handles@.contains_key(s.last().0));
                    assert(self.handles@[s.last().0] == h0[s.last().0]);
                }
                let popped = lru_pop_lru(&mut self.lru);
                proof {
                    lemma_drop_last(s);
                    assert(count_pass(c0, s0, n - 1) == count_departure(
                        count_pass(c0, s0, n),
                        Departure::Evicted,
                        s0[n - 1].1.1,
                    ));
                }
                let (key, item) = match popped {
                    Some(x) => x,
                    None => {
                        go = false;
                        continue;
                    },
                };
                self.release_entry(key, item, Departure::Evicted);
                proof {
                    assert(s.last() == s0[n - 1]);
                    assert(s.drop_last() =~= s0.take(n - 1));
                    let before = released_in_pass(h0, s0, n);
                    assert(released_in_pass(h0, s0, n - 1) =~= before.push(h0[key]));
                    assert(self.released@ == (r0 + before).push(h0[key]));
                    assert((r0 + before).push(h0[key]) =~= r0 + before.push(h0[key]));
                }
                match lru_peek_lru(&self.lru) {
                    Some(p) => peek = p,
                    None => go = false,
                }
            }
        }
    }

    /// Puts `data` under `digest` with age `age` as the most recently used,
    /// and releases what it replaces (pushing a clone of it onto `replaced`).
    fn put_entry(&mut self, digest: u64, data: T, age: i32, replaced: &mut Vec<T>)
        where T: Clone,
        requires
            old(self).wf(),
            old(self).total_bytes() + data.spec_len() <= u64::MAX,
        ensures
            final(self).wf(),
            final(self).contents() == put_spec(old(self).contents(), digest, (age, data.spec_len() as u64)),
            final(self).total_bytes() <= old(self).total_bytes() + data.spec_len(),
            has_key(old(self).contents(), digest) ==> final(replaced)@.len() == old(replaced)@.len() + 1
                && final(replaced)@.take(old(replaced)@.len() as int) == old(replaced)@
                && cloned(old(self).handles()[digest], final(replaced)@.last()),
            !has_key(old(self).contents(), digest) ==> final(replaced)@ == old(replaced)@,
            final(self).released() == old(self).released() + (if has_key(old(self).contents(), digest) {
                seq![old(self).handles()[digest]]
            } else {
                Seq::<T>::empty()
            }),
            final(self).generations() == old(self).generations().insert(digest, old(self).next_generation_spec()),
            final(self).next_generation_spec() == (if old(self).next_generation_spec() < u64::MAX {
                (old(self).next_generation_spec() + 1) as u64
            } else {
                old(self).next_generation_spec()
            }),
            final(self).handles() == old(self).handles().insert(digest, data),
            final(self).counters_spec() == count_put(
                old(self).counters_spec(),
                lookup(old(self).contents(), digest),
                data.spec_len() as u64,
            ),
            final(self).anchor() == old(self).anchor(),
            final(self).limits() == old(self).limits(),
    {
        let ghost s0 = self.contents();
        let ghost r0 = self.released@;
        let ghost h0 = self.handles@;
        let ghost d = data;
        let new_item_size = data.len() as u64;
        let old_item = lru_put(&mut self.lru, digest, (age, new_item_size));
        proof {
            lemma_put(s0, digest, (age, new_item_size));
            lemma_put_values(s0, digest, (age, new_item_size));
            lemma_total_len_nonneg(s0);
            lemma_pop(s0, digest);
            lemma_total_len_nonneg(pop_spec(s0, digest));
        }
        match old_item {
            Some(item) => {
                let prior = self.handles.remove(&digest);
                match prior {
                    Some(h) => {
                        replaced.push(h.clone());
                        self.released.push(h);
                    },
                    None => {},
                }
                self.sum_store_size = self.sum_store_size - item.1;
                self.counters.replaced_items = self.counters.replaced_items.wrapping_add(1);
                self.counters.replaced_bytes = self.counters.replaced_bytes.wrapping_add(item.1);
            },
            None => {},
        }
        self.generations.insert(digest, self.next_generation);
        if self.next_generation < u64::MAX {
            self.next_generation = self.next_generation + 1;
        }
        self.handles.insert(digest, data);
        self.sum_store_size = self.sum_store_size + new_item_size;
        self.counters.lifetime_inserted_bytes = self.counters.lifetime_inserted_bytes.wrapping_add(new_item_size);
        proof {
            assert(self.handles@ =~= h0.insert(digest, d));
            let t = self.contents();
            assert forall|k: u64| #[trigger] self.handles@.contains_key(k) implies self.handles@[k].spec_len()
                == value_of(t, k).1 by {
                if k != digest {
                    assert(has_key(s0, k));
                }
            }
            if has_key(s0, digest) {
                assert(replaced@.take(replaced@.len() - 1) =~= old(replaced)@);
            }
        }
        proof {
            if has_key(s0, digest) {
                assert(self.released@ =~= r0 + seq![h0[digest]]);
            } else {
                assert(self.released@ =~= r0 + Seq::<T>::empty());
            }
        }
    }

    /// Puts `data` under `digest` with age `age`, releases what it replaces
    /// (pushing a clone of it onto `replaced`), then runs an eviction pass.
    fn insert_one(&mut self, digest: u64, data: T, age: i32, now: i32, replaced: &mut Vec<T>)
        where T: Clone,
        requires
            old(self).wf(),
            old(self).total_bytes() + data.spec_len() <= u64::MAX,
        ensures
            final(self).wf(),
            final(self).contents() == insert_step(
                old(self).limits(),
                old(self).contents(),
                digest,
                (age, data.spec_len() as u64),
                now,
            ),
            final(self).total_bytes() <= old(self).total_bytes() + data.spec_len(),
            has_key(old(self).contents(), digest) ==> final(replaced)@.len() == old(replaced)@.len() + 1
                && final(replaced)@.take(old(replaced)@.len() as int) == old(replaced)@
                && cloned(old(self).handles()[digest], final(replaced)@.last()),
            !has_key(old(self).contents(), digest) ==> final(replaced)@ == old(replaced)@,
            final(self).released() == old(self).released() + (if has_key(old(self).contents(), digest) {
                seq![old(self).handles()[digest]]
            } else {
                Seq::<T>::empty()
            }) + released_in_pass(
                old(self).handles().insert(digest, data),
                put_spec(old(self).contents(), digest, (age, data.spec_len() as u64)),
                final(self).contents().len() as int,
            ),
            forall|k: u64| #[trigger] final(self).handles().contains_key(k) ==> final(self).handles()[k]
                == old(self).handles().insert(digest, data)[k],
            final(self).counters_spec() == count_pass(
                count_put(old(self).counters_spec(), lookup(old(self).contents(), digest), data.spec_len() as u64),
                put_spec(old(self).contents(), digest, (age, data.spec_len() as u64)),
                final(self).contents().len() as int,
            ),
            forall|k: u64| #[trigger] final(self).generations().contains_key(k) ==> final(self).generations()[k]
                == old(self).generations().insert(digest, old(self).next_generation_spec())[k],
            final(self).anchor() == old(self).anchor(),
            final(self).limits() == old(self).limits(),
    {
        self.put_entry(digest, data, age, replaced);
        let ghost t1 = self.contents();
        self.evict_items(now);
        proof {
            lemma_evict_loop_prefix(self.policy, t1, pass_budget(self.policy, t1, now), now);
            lemma_total_len_take(t1, self.contents().len() as int);
        }
    }

    /// Inserts each (key, entry) of `inserts` in turn with age
    /// `seconds_since_anchor`, running an eviction pass after each, and
    /// returns clones of the entries that were replaced, in order.
    fn inner_insert_many(&mut self, inserts: Vec<(u64, T)>, seconds_since_anchor: i32, now: i32) -> (r: Vec<T>)
        where T: Clone,
        requires
            old(self).wf(),
            old(self).total_bytes() + sum_sizes(inserts@) <= u64::MAX,
        ensures
            final(self).wf(),
            final(self).contents() == insert_all(
                old(self).limits(),
                old(self).contents(),
                sized(inserts@),
                seconds_since_anchor,
                now,
            ),
            r@.len() == replace_count(
                old(self).limits(),
                old(self).contents(),
                sized(inserts@),
                seconds_since_anchor,
                now,
            ),
            final(self).released() == old(self).released() + insert_all_handles(
                old(self).limits(),
                old(self).contents(),
                old(self).handles(),
                inserts@,
                seconds_since_anchor,
                now,
            ).1,
            r@.len() == insert_all_displaced(
                old(self).limits(),
                old(self).contents(),
                old(self).handles(),
                inserts@,
                seconds_since_anchor,
                now,
            ).len(),
            forall|m: int| 0 <= m < r@.len() ==> cloned(
                insert_all_displaced(
                    old(self).limits(),
                    old(self).contents(),
                    old(self).handles(),
                    inserts@,
                    seconds_since_anchor,
                    now,
                )[m],
                #[trigger] r@[m],
            ),
            final(self).counters_spec() == insert_all_counters(
                old(self).limits(),
                old(self).contents(),
                old(self).counters_spec(),
                sized(inserts@),
                seconds_since_anchor,
                now,
            ),
            final(self).anchor() == old(self).anchor(),
            final(self).limits() == old(self).limits(),
    {
        let ghost items = inserts@;
        let ghost n = items.len() as int;
        let mut pending: Vec<(u64, T)> = Vec::new();
        let mut inserts = inserts;
        while inserts.len() > 0
            invariant
                inserts@.len() + pending@.len() == n,
                forall|j: int| 0 <= j < inserts@.len() ==> inserts@[j] == items[j],
                forall|j: int| 0 <= j < pending@.len() ==> pending@[j] == items[n - 1 - j],
            decreases inserts@.len(),
        {
            let e = inserts.pop().unwrap();
            pending.push(e);
        }
        let mut replaced: Vec<T> = Vec::new();
        let ghost s0 = self.contents();
        let ghost r0 = self.released@;
        let ghost h0 = self.handles@;
        let ghost c0 = self.counters;
        assert(sized(items).take(0) =~= Seq::<(u64, u64)>::empty());
        assert(items.take(0) =~= Seq::<(u64, T)>::empty());
        assert(self.released@ =~= r0 + Seq::<T>::empty());
        while pending.len() > 0
            invariant
                self.wf(),
                self.policy == old(self).policy,
                self.anchor_time == old(self).anchor_time,
                0 <= pending@.len() <= n,
                n == sized(items).len(),
                forall|j: int| 0 <= j < pending@.len() ==> pending@[j] == items[n - 1 - j],
                self.contents() == insert_all(
                    self.policy,
                    s0,
                    sized(items).take(n - pending@.len()),
                    seconds_since_anchor,
                    now,
                ),
                self.sum_store_size + sum_sizes(items) - sum_sizes(items.take(n - pending@.len())) <= u64::MAX,
                replaced@.len() == replace_count(
                    self.policy,
                    s0,
                    sized(items).take(n - pending@.len()),
                    seconds_since_anchor,
                    now,
                ),
                self.handles@ == insert_all_handles(
                    self.policy,
                    s0,
                    h0,
                    items.take(n - pending@.len()),
                    seconds_since_anchor,
                    now,
                ).0,
                self.released@ == r0 + insert_all_handles(
                    self.policy,
                    s0,
                    h0,
                    items.take(n - pending@.len()),
                    seconds_since_anchor,
                    now,
                ).1,
                replaced@.len() == insert_all_displaced(
                    self.policy,
                    s0,
                    h0,
                    items.take(n - pending@.len()),
                    seconds_since_anchor,
                    now,
                ).len(),
                forall|m: int| 0 <= m < replaced@.len() ==> cloned(
                    insert_all_displaced(
                        self.policy,
                        s0,
                        h0,
                        items.take(n - pending@.len()),
                        seconds_since_anchor,
                        now,
                    )[m],
                    #[trigger] replaced@[m],
                ),
                self.counters == insert_all_counters(
                    self.policy,
                    s0,
                    c0,
                    sized(items).take(n - pending@.len()),
                    seconds_since_anchor,
                    now,
                ),
            decreases pending@.len(),
        {
            let ghost i = n - pending@.len();
            let (digest, data) = pending.pop().unwrap();
            proof {
                assert(items.take(i + 1).drop_last() =~= items.take(i));
                assert(sized(items).take(i + 1).drop_last() =~= sized(items).take(i));
                assert(items[i] == (digest, data));
                assert(sized(items)[i] == (digest, data.spec_len() as u64));
                lemma_sum_sizes_take(items, i + 1);
                assert(sized(items.take(i)) =~= sized(items).take(i));
                assert(items.take(i + 1).last() == (digest, data));
            }
            let ghost rl = self.released@;
            let ghost hl = self.handles@;
            let ghost sl = self.contents();
            let ghost pl = replaced@;
            self.insert_one(digest, data, seconds_since_anchor, now, &mut replaced);
            proof {
                let dprev = insert_all_displaced(self.policy, s0, h0, items.take(i), seconds_since_anchor, now);
                let dnow = insert_all_displaced(self.policy, s0, h0, items.take(i + 1), seconds_since_anchor, now);
                assert forall|m: int| 0 <= m < replaced@.len() implies cloned(dnow[m], #[trigger] replaced@[m]) by {
                    if m < pl.len() {
                        assert(replaced@[m] == replaced@.take(pl.len() as int)[m]);
                        assert(dnow[m] == dprev[m]);
                    }
                }
                let full = insert_all_handles(self.policy, s0, h0, items.take(i + 1), seconds_since_anchor, now);
                let put = put_spec(sl, digest, (seconds_since_anchor, data.spec_len() as u64));
                let h2 = hl.insert(digest, data);
                assert forall|j: u64| #[trigger] self.handles@.contains_key(j) implies self.handles@[j] == h2[j] by {
                    assert(self.handles().contains_key(j));
                }
                assert forall|j: u64| #[trigger] self.handles@.contains_key(j) <==> has_key(self.contents(), j) by {
                }
                assert(self.handles@ =~= Map::new(|j: u64| has_key(self.contents(), j), |j: u64| h2[j]));
                assert(self.handles@ == full.0);
                let extra = if has_key(sl, digest) {
                    seq![hl[digest]]
                } else {
                    Seq::<T>::empty()
                };
                let tail = released_in_pass(h2, put, self.contents().len() as int);
                assert(self.released@ == rl + extra + tail);
                assert(rl + extra + tail =~= r0 + (insert_all_handles(
                    self.policy,
                    s0,
                    h0,
                    items.take(i),
                    seconds_since_anchor,
                    now,
                ).1 + extra + tail));
            }
        }
        assert(sized(items).take(n) =~= sized(items));
        assert(items.take(n) =~= items);
        replaced
    }

    /// Inserts `data` under `digest` with age `seconds_since_anchor`, then
    /// runs an eviction pass at `now`. Returns a clone of the entry it
    /// replaced, if any; that entry itself joins the released queue.
    pub fn insert_with_time(&mut self, digest: u64, data: T, seconds_since_anchor: i32, now: i32) -> (r: Option<T>)
        where T: Clone,
        requires
            old(self).wf(),
            old(self).total_bytes() + data.spec_len() <= u64::MAX,
        ensures
            final(self).wf(),
            final(self).total_bytes() == total_len(final(self).contents()),
            final(self).contents() == insert_step(
                old(self).limits(),
                old(self).contents(),
                digest,
                (seconds_since_anchor, data.spec_len() as u64),
                now,
            ),
            r.is_some() == has_key(old(self).contents(), digest),
            r.is_some() ==> cloned(old(self).handles()[digest], r.unwrap()),
            final(self).released() == old(self).released() + (if has_key(old(self).contents(), digest) {
                seq![old(self).handles()[digest]]
            } else {
                Seq::<T>::empty()
            }) + released_in_pass(
                old(self).handles().insert(digest, data),
                put_spec(old(self).contents(), digest, (seconds_since_anchor, data.spec_len() as u64)),
                final(self).contents().len() as int,
            ),
            forall|k: u64| #[trigger] final(self).handles().contains_key(k) ==> final(self).handles()[k]
                == old(self).handles().insert(digest, data)[k],
            final(self).counters_spec() == count_pass(
                count_put(old(self).counters_spec(), lookup(old(self).contents(), digest), data.spec_len() as u64),
                put_spec(old(self).contents(), digest, (seconds_since_anchor, data.spec_len() as u64)),
                final(self).contents().len() as int,
            ),
            forall|k: u64| #[trigger] final(self).generations().contains_key(k) ==> final(self).generations()[k]
                == old(self).generations().insert(digest, old(self).next_generation_spec())[k],
            final(self).anchor() == old(self).anchor(),
            final(self).limits() == old(self).limits(),
    {
        let mut replaced: Vec<T> = Vec::new();
        self.insert_one(digest, data, seconds_since_anchor, now, &mut replaced);
        replaced.pop()
    }

    /// Inserts `data` under `digest` with age `now`; see `insert_with_time`.
    pub fn insert(&mut self, digest: u64, data: T, now: i32) -> (r: Option<T>)
        where T: Clone,
        requires
            old(self).wf(),
            old(self).total_bytes() + data.spec_len() <= u64::MAX,
        ensures
            final(self).wf(),
            final(self).total_bytes() == total_len(final(self).contents()),
            final(self).contents() == insert_step(
                old(self).limits(),
                old(self).contents(),
                digest,
                (now, data.spec_len() as u64),
                now,
            ),
            r.is_some() == has_key(old(self).contents(), digest),
            r.is_some() ==> cloned(old(self).handles()[digest], r.unwrap()),
            final(self).released() == old(self).released() + (if has_key(old(self).contents(), digest) {
                seq![old(self).handles()[digest]]
            } else {
                Seq::<T>::empty()
            }) + released_in_pass(
                old(self).handles().insert(digest, data),
                put_spec(old(self).contents(), digest, (now, data.spec_len() as u64)),
                final(self).contents().len() as int,
            ),
            final(self).counters_spec() == count_pass(
                count_put(old(self).counters_spec(), lookup(old(self).contents(), digest), data.spec_len() as u64),
                put_spec(old(self).contents(), digest, (now, data.spec_len() as u64)),
                final(self).contents().len() as int,
            ),
            forall|k: u64| #[trigger] final(self).generations().contains_key(k) ==> final(self).generations()[k]
                == old(self).generations().insert(digest, old(self).next_generation_spec())[k],
            final(self).anchor() == old(self).anchor(),
            final(self).limits() == old(self).limits(),
    {
        self.insert_with_time(digest, data, now, now)
    }

    /// Inserts each (key, entry) of `inserts` in turn with age `now`, running
    /// an eviction pass after each; returns clones of the replaced entries.
    pub fn insert_many(&mut self, inserts: Vec<(u64, T)>, now: i32) -> (r: Vec<T>)
        where T: Clone,
        requires
            old(self).wf(),
            old(self).total_bytes() + sum_sizes(inserts@) <= u64::MAX,
        ensures
            final(self).wf(),
            final(self).total_bytes() == total_len(final(self).contents()),
            final(self).contents() == insert_all(old(self).limits(), old(self).contents(), sized(inserts@), now, now),
            inserts@.len() == 0 ==> final(self).released() == old(self).released(),
            r@.len() == replace_count(old(self).limits(), old(self).contents(), sized(inserts@), now, now),
            final(self).released() == old(self).released() + insert_all_handles(
                old(self).limits(),
                old(self).contents(),
                old(self).handles(),
                inserts@,
                now,
                now,
            ).1,
            r@.len() == insert_all_displaced(
                old(self).limits(),
                old(self).contents(),
                old(self).handles(),
                inserts@,
                now,
                now,
            ).len(),
            forall|m: int| 0 <= m < r@.len() ==> cloned(
                insert_all_displaced(
                    old(self).limits(),
                    old(self).contents(),
                    old(self).handles(),
                    inserts@,
                    now,
                    now,
                )[m],
                #[trigger] r@[m],
            ),
            final(self).counters_spec() == insert_all_counters(
                old(self).limits(),
                old(self).contents(),
                old(self).counters_spec(),
                sized(inserts@),
                now,
                now,
            ),
            inserts@.len() == 0 ==> final(self).counters_spec() == old(self).counters_spec()
                && final(self).contents() == old(self).contents() && r@.len() == 0,
            final(self).anchor() == old(self).anchor(),
            final(self).limits() == old(self).limits(),
    {
        if inserts.len() == 0 {
            assert(old(self).released() + Seq::<T>::empty() =~= old(self).released());
            return Vec::new();
        }
        self.inner_insert_many(inserts, now, now)
    }

    /// Takes `digest` out of the store, if it is there, and releases it.
    fn pop_key(&mut self, digest: u64, why: Departure) -> (r: bool)
        requires
            old(self).wf(),
        ensures
            final(self).wf(),
            r == has_key(old(self).contents(), digest),
            final(self).contents() == pop_spec(old(self).contents(), digest),
            final(self).released() == old(self).released() + (if r {
                seq![old(self).handles()[digest]]
            } else {
                Seq::<T>::empty()
            }),
            final(self).generations() == old(self).generations().remove(digest),
            final(self).next_generation_spec() == old(self).next_generation_spec(),
            final(self).handles() == old(self).handles().remove(digest),
            final(self).counters_spec() == (if r {
                count_departure(old(self).counters_spec(), why, value_of(old(self).contents(), digest).1)
            } else {
                old(self).counters_spec()
            }),
            final(self).anchor() == old(self).anchor(),
            final(self).limits() == old(self).limits(),
    {
        let ghost s0 = self.contents();
        proof {
            lemma_pop(s0, digest);
            lemma_pop_values(s0, digest);
        }
        match lru_pop(&mut self.lru, digest) {
            Some(item) => {
                proof {
                    assert(old(self).handles@.contains_key(digest));
                }
                self.release_entry(digest, item, why);
                proof {
                    assert(self.released@ =~= old(self).released@ + seq![old(self).handles@[digest]]);
                }
                true
            },
            None => {
                assert(self.released@ =~= old(self).released@ + Seq::<T>::empty());
                assert(self.handles@ =~= old(self).handles@.remove(digest));
                assert(self.generations@ =~= old(self).generations@.remove(digest));
                false
            },
        }
    }

    /// Runs an eviction pass, then removes `digest` if it is still there.
    fn inner_remove(&mut self, digest: u64, now: i32) -> (r: bool)
        requires
            old(self).wf(),
        ensures
            final(self).wf(),
            r == has_key(evict_pass(old(self).limits(), old(self).contents(), now), digest),
            final(self).contents() == pop_spec(evict_pass(old(self).limits(), old(self).contents(), now), digest),
            final(self).released() == old(self).released() + released_in_pass(
                old(self).handles(),
                old(self).contents(),
                evict_pass(old(self).limits(), old(self).contents(), now).len() as int,
            ) + (if r {
                seq![old(self).handles()[digest]]
            } else {
                Seq::<T>::empty()
            }),
            final(self).counters_spec() == (if r {
                count_departure(
                    count_pass(
                        old(self).counters_spec(),
                        old(self).contents(),
                        evict_pass(old(self).limits(), old(self).contents(), now).len() as int,
                    ),
                    Departure::Removed,
                    value_of(evict_pass(old(self).limits(), old(self).contents(), now), digest).1,
                )
            } else {
                count_pass(
                    old(self).counters_spec(),
                    old(self).contents(),
                    evict_pass(old(self).limits(), old(self).contents(), now).len() as int,
                )
            }),
            forall|k: u64| #[trigger] final(self).handles().contains_key(k) ==> final(self).handles()[k]
                == old(self).handles()[k],
            forall|k: u64| #[trigger] final(self).generations().contains_key(k) ==> final(self).generations()[k]
                == old(self).generations()[k],
            final(self).anchor() == old(self).anchor(),
            final(self).limits() == old(self).limits(),
    {
        self.evict_items(now);
        let ghost mid = self.released@;
        let ghost s1 = self.contents();
        proof {
            if has_key(s1, digest) {
                assert(self.handles@.contains_key(digest));
            }
        }
        let r = self.pop_key(digest, Departure::Removed);
        proof {
            if r {
                assert(self.released@ =~= mid + seq![old(self).handles@[digest]]);
            } else {
                assert(self.released@ =~= mid + Seq::<T>::empty());
            }
        }
        r
    }

    /// Removes `digest`, after an eviction pass at `now`. Returns whether it
    /// was there to remove.
    pub fn remove(&mut self, digest: u64, now: i32) -> (r: bool)
        requires
            old(self).wf(),
        ensures
            final(self).wf(),
            final(self).total_bytes() == total_len(final(self).contents()),
            r == has_key(evict_pass(old(self).limits(), old(self).contents(), now), digest),
            final(self).contents() == pop_spec(evict_pass(old(self).limits(), old(self).contents(), now), digest),
            final(self).released() == old(self).released() + released_in_pass(
                old(self).handles(),
                old(self).contents(),
                evict_pass(old(self).limits(), old(self).contents(), now).len() as int,
            ) + (if r {
                seq![old(self).handles()[digest]]
            } else {
                Seq::<T>::empty()
            }),
            final(self).counters_spec() == (if r {
                count_departure(
                    count_pass(
                        old(self).counters_spec(),
                        old(self).contents(),
                        evict_pass(old(self).limits(), old(self).contents(), now).len() as int,
                    ),
                    Departure::Removed,
                    value_of(evict_pass(old(self).limits(), old(self).contents(), now), digest).1,
                )
            } else {
                count_pass(
                    old(self).counters_spec(),
                    old(self).contents(),
                    evict_pass(old(self).limits(), old(self).contents(), now).len() as int,
                )
            }),
            forall|k: u64| #[trigger] final(self).handles().contains_key(k) ==> final(self).handles()[k]
                == old(self).handles()[k],
            forall|k: u64| #[trigger] final(self).generations().contains_key(k) ==> final(self).generations()[k]
                == old(self).generations()[k],
            final(self).anchor() == old(self).anchor(),
            final(self).limits() == old(self).limits(),
    {
        self.inner_remove(digest, now)
    }

    /// Removes `digest` as `remove` does, but only when `cond` holds of its
    /// entry; when it does not, or the key is absent, nothing changes.
    pub fn remove_if<F: FnOnce(&T) -> bool>(&mut self, digest: u64, cond: F, now: i32) -> (r: bool)
        requires
            old(self).wf(),
            forall|t: &T| #[trigger] cond.requires((t,)),
        ensures
            final(self).wf(),
            final(self).total_bytes() == total_len(final(self).contents()),
            forall|k: u64| #[trigger] final(self).handles().contains_key(k) ==> final(self).handles()[k]
                == old(self).handles()[k],
            forall|k: u64| #[trigger] final(self).generations().contains_key(k) ==> final(self).generations()[k]
                == old(self).generations()[k],
            final(self).anchor() == old(self).anchor(),
            final(self).limits() == old(self).limits(),
            !has_key(old(self).contents(), digest) ==> !r && final(self).contents() == old(self).contents()
                && final(self).released() == old(self).released() && final(self).handles() == old(self).handles()
                && final(self).counters_spec() == old(self).counters_spec(),
            has_key(old(self).contents(), digest) ==> {
                ||| (cond.ensures((&old(self).handles()[digest],), false) && !r && final(self).contents()
                    == old(self).contents() && final(self).released() == old(self).released()
                    && final(self).handles() == old(self).handles() && final(self).counters_spec()
                    == old(self).counters_spec())
                ||| (cond.ensures((&old(self).handles()[digest],), true) && r == has_key(
                    evict_pass(old(self).limits(), old(self).contents(), now),
                    digest,
                ) && final(self).contents() == pop_spec(
                    evict_pass(old(self).limits(), old(self).contents(), now),
                    digest,
                ) && final(self).released() == old(self).released() + released_in_pass(
                    old(self).handles(),
                    old(self).contents(),
                    evict_pass(old(self).limits(), old(self).contents(), now).len() as int,
                ) + (if r {
                    seq![old(self).handles()[digest]]
                } else {
                    Seq::<T>::empty()
                }))
            },
    {
        if lru_peek(&self.lru, digest).is_none() {
            return false;
        }
        let entry = self.handles.get(&digest);
        let keep = match entry {
            Some(h) => !cond(h),
            None => true,
        };
        if keep {
            return false;
        }
        self.inner_remove(digest, now)
    }

    /// Runs an eviction pass at `now`, then looks `digest` up, making it the
    /// most recently used. Returns a clone of its entry. The caller then
    /// revalidates the entry and reports the outcome to `touch_or_remove`.
    pub fn get(&mut self, digest: u64, now: i32) -> (r: Option<T>)
        where T: Clone,
        requires
            old(self).wf(),
        ensures
            final(self).wf(),
            final(self).total_bytes() == total_len(final(self).contents()),
            r.is_some() == has_key(evict_pass(old(self).limits(), old(self).contents(), now), digest),
            r.is_some() ==> cloned(old(self).handles()[digest], r.unwrap()),
            final(self).contents() == promote_spec(evict_pass(old(self).limits(), old(self).contents(), now), digest),
            final(self).released() == old(self).released() + released_in_pass(
                old(self).handles(),
                old(self).contents(),
                final(self).contents().len() as int,
            ),
            final(self).counters_spec() == count_pass(
                old(self).counters_spec(),
                old(self).contents(),
                evict_pass(old(self).limits(), old(self).contents(), now).len() as int,
            ),
            forall|k: u64| #[trigger] final(self).handles().contains_key(k) ==> final(self).handles()[k]
                == old(self).handles()[k],
            forall|k: u64| #[trigger] final(self).generations().contains_key(k) ==> final(self).generations()[k]
                == old(self).generations()[k],
            final(self).anchor() == old(self).anchor(),
            final(self).limits() == old(self).limits(),
    {
        self.evict_items(now);
        let ghost s1 = self.contents();
        let ghost h1 = self.handles();
        let ghost g1 = self.generations();
        proof {
            if h1.contains_key(digest) {
                assert(h1[digest] == old(self).handles()[digest]);
            }
            assert forall|k: u64| #[trigger] g1.contains_key(k) implies g1[k] == old(self).generations()[k] by {
                assert(self.generations().contains_key(k));
            }
        }
        let found = lru_get(&mut self.lru, digest);
        proof {
            if has_key(s1, digest) {
                lemma_key_pos(s1, digest);
                assert(promote_spec(s1, digest) == put_spec(s1, digest, value_of(s1, digest)));
                lemma_put(s1, digest, value_of(s1, digest));
                lemma_put_values(s1, digest, value_of(s1, digest));
            }
        }
        if found.is_none() {
            return None;
        }
        proof {
            assert(self.handles@ == h1);
            assert(h1.contains_key(digest));
        }
        match self.handles.get(&digest) {
            Some(h) => Some(h.clone()),
            None => None,
        }
    }

    /// The generation of the entry stored under `digest`, if any. Read it
    /// together with the entry (under the same exclusive access) to identify
    /// that entry later in `touch_or_remove`.
    pub fn generation(&self, digest: u64) -> (r: Option<u64>)
        requires
            self.wf(),
        ensures
            r == (if self.generations().contains_key(digest) {
                Some(self.generations()[digest])
            } else {
                None
            }),
            r.is_some() == has_key(self.contents(), digest),
    {
        match self.generations.get(&digest) {
            Some(g) => Some(*g),
            None => None,
        }
    }

    /// Commits the outcome of revalidating the entry of `digest` that had
    /// generation `generation`: when `touch_ok` is false and `digest` still
    /// holds that same entry, the entry is evicted. When the key has since
    /// left or holds a newer entry, nothing changes. Returns `touch_ok`.
    pub fn touch_or_remove(&mut self, digest: u64, generation: u64, touch_ok: bool) -> (r: bool)
        requires
            old(self).wf(),
        ensures
            final(self).wf(),
            final(self).total_bytes() == total_len(final(self).contents()),
            r == touch_ok,
            ({
                let same = old(self).generations().contains_key(digest) && old(self).generations()[digest]
                    == generation;
                &&& (touch_ok || !same) ==> final(self).contents() == old(self).contents()
                    && final(self).released() == old(self).released() && final(self).handles()
                    == old(self).handles() && final(self).generations() == old(self).generations()
                    && final(self).counters_spec() == old(self).counters_spec()
                &&& (!touch_ok && same) ==> final(self).contents() == pop_spec(old(self).contents(), digest)
                    && final(self).released() == old(self).released().push(old(self).handles()[digest])
                    && final(self).handles() == old(self).handles().remove(digest)
                    && final(self).generations() == old(self).generations().remove(digest)
                    && final(self).counters_spec() == count_departure(
                    old(self).counters_spec(),
                    Departure::Evicted,
                    value_of(old(self).contents(), digest).1,
                )
            }),
            final(self).next_generation_spec() == old(self).next_generation_spec(),
            final(self).anchor() == old(self).anchor(),
            final(self).limits() == old(self).limits(),
    {
        if touch_ok {
            return true;
        }
        let current = match self.generations.get(&digest) {
            Some(g) => *g == generation,
            None => false,
        };
        if current {
            proof {
                assert(self.handles@.contains_key(digest));
            }
            self.pop_key(digest, Departure::Evicted);
            assert(self.released@ =~= old(self).released@.push(old(self).handles@[digest]));
        }
        false
    }

    /// Runs an eviction pass at `now`, then lists every (key, age), most
    /// recently used first, with the anchor time.
    pub fn build_lru_index(&mut self, now: i32) -> (r: SerializedLRU)
        requires
            old(self).wf(),
        ensures
            final(self).wf(),
            final(self).total_bytes() == total_len(final(self).contents()),
            final(self).contents() == evict_pass(old(self).limits(), old(self).contents(), now),
            r.data@ == snapshot_of(final(self).contents()),
            r.anchor_time == old(self).anchor(),
            final(self).released() == old(self).released() + released_in_pass(
                old(self).handles(),
                old(self).contents(),
                final(self).contents().len() as int,
            ),
            final(self).counters_spec() == count_pass(
                old(self).counters_spec(),
                old(self).contents(),
                evict_pass(old(self).limits(), old(self).contents(), now).len() as int,
            ),
            forall|k: u64| #[trigger] final(self).handles().contains_key(k) ==> final(self).handles()[k]
                == old(self).handles()[k],
            forall|k: u64| #[trigger] final(self).generations().contains_key(k) ==> final(self).generations()[k]
                == old(self).generations()[k],
            final(self).anchor() == old(self).anchor(),
            final(self).limits() == old(self).limits(),
    {
        self.evict_items(now);
        let records = lru_records(&self.lru);
        let mut data: Vec<(u64, i32)> = Vec::with_capacity(records.len());
        let mut i: usize = 0;
        while i < records.len()
            invariant
                records@ == self.contents(),
                i <= records@.len(),
                data@ == snapshot_of(records@.take(i as int)),
            decreases records@.len() - i,
        {
            let rec = records[i];
            data.push((rec.0, rec.1.0));
            i = i + 1;
            assert(data@ =~= snapshot_of(records@.take(i as int)));
        }
        assert(records@.take(i as int) =~= records@);
        SerializedLRU { data, anchor_time: self.anchor_time }
    }

    /// Replaces the contents with those of `snapshot`: every present entry is
    /// released, the anchor becomes the snapshot's, and each (key, age) is put
    /// back with an entry made by `entry_builder`, the last one first, so that
    /// the snapshot's order of recency is kept. An entry whose size would not
    /// fit the running total is released at once. An eviction pass at `now`
    /// follows.
    pub fn restore_lru<F: Fn(&u64) -> T>(&mut self, snapshot: SerializedLRU, entry_builder: F, now: i32)
        where T: Clone,
        requires
            old(self).wf(),
            forall|k: &u64| #[trigger] entry_builder.requires((k,)),
        ensures
            final(self).wf(),
            final(self).total_bytes() == total_len(final(self).contents()),
            final(self).anchor() == snapshot.anchor_time,
            final(self).limits() == old(self).limits(),
            final(self).released().take(old(self).released().len() as int + old(self).contents().len())
                == old(self).released() + released_in_pass(old(self).handles(), old(self).contents(), 0),
            exists|made: Seq<T>|
                {
                    &&& made.len() == snapshot.data@.len()
                    &&& forall|m: int|
                        0 <= m < made.len() ==> entry_builder.ensures((&snapshot.data@[m].0,), #[trigger] made[m])
                    &&& final(self).contents() == evict_pass(
                        final(self).limits(),
                        restore_state(snapshot.data@, lens_of(made)),
                        now,
                    )
                    &&& final(self).counters_spec() == count_pass(
                        restore_counters(
                            snapshot.data@,
                            lens_of(made),
                            count_removals(old(self).counters_spec(), old(self).contents(), 0),
                        ),
                        restore_state(snapshot.data@, lens_of(made)),
                        final(self).contents().len() as int,
                    )
                },
    {
        let ghost r0 = self.released@;
        let ghost s0 = self.contents();
        let ghost h0 = self.handles@;
        let ghost c0 = self.counters;
        self.anchor_time = snapshot.anchor_time;
        let mut go = true;
        assert(s0.take(s0.len() as int) =~= s0);
        assert(self.released@ =~= r0 + released_in_pass(h0, s0, s0.len() as int));
        while go
            invariant
                self.wf(),
                self.policy == old(self).policy,
                self.anchor_time == snapshot.anchor_time,
                self.contents().len() <= s0.len(),
                self.contents() == s0.take(self.contents().len() as int),
                self.released@ == r0 + released_in_pass(h0, s0, self.contents().len() as int),
                forall|k: u64| #[trigger] self.handles@.contains_key(k) ==> self.handles@[k] == h0[k],
                self.counters == count_removals(c0, s0, self.contents().len() as int),
                !go ==> self.contents().len() == 0,
            decreases self.contents().len() + (if go {
                1int
            } else {
                0
            }),
        {
            let ghost s = self.contents();
            proof {
                if s.len() > 0 {
                    lemma_drop_last(s);
                    assert(self.handles@.contains_key(s.last().0));
                    assert(self.handles@[s.last().0] == h0[s.last().0]);
                }
            }
            match lru_pop_lru(&mut self.lru) {
                Some((key, item)) => {
                    self.release_entry(key, item, Departure::Removed);
                    proof {
                        let n = s.len() as int;
                        let before = released_in_pass(h0, s0, n);
                        assert(s.last() == s0[n - 1]);
                        assert(s.drop_last() =~= s0.take(n - 1));
                        assert(released_in_pass(h0, s0, n - 1) =~= before.push(h0[key]));
                        assert((r0 + before).push(h0[key]) =~= r0 + before.push(h0[key]));
                        assert(count_removals(c0, s0, n - 1) == count_departure(
                            count_removals(c0, s0, n),
                            Departure::Removed,
                            s0[n - 1].1.1,
                        ));
                    }
                },
                None => go = false,
            }
        }
        let ghost cleared = self.released@;
        let ghost cc = self.counters;
        assert(cleared.take(r0.len() as int) =~= r0);
        let data = snapshot.data;
        let ghost d = data@;
        let mut replaced: Vec<T> = Vec::new();
        let mut i: usize = data.len();
        let ghost mut made: Seq<T> = Seq::empty();
        assert(d.subrange(d.len() as int, d.len() as int) =~= Seq::<(u64, i32)>::empty());
        assert(self.contents() =~= restore_state(d.subrange(d.len() as int, d.len() as int), lens_of(made)));
        while i > 0
            invariant
                self.wf(),
                self.policy == old(self).policy,
                self.anchor_time == snapshot.anchor_time,
                self.released@.take(r0.len() as int) == r0,
                r0.len() <= self.released@.len(),
                data@ == d,
                i <= d.len(),
                self.released@.take(cleared.len() as int) == cleared,
                cleared.len() <= self.released@.len(),
                made.len() == d.len() - i,
                self.contents() == restore_state(d.subrange(i as int, d.len() as int), lens_of(made)),
                self.counters == restore_counters(d.subrange(i as int, d.len() as int), lens_of(made), cc),
                forall|m: int| 0 <= m < made.len() ==> entry_builder.ensures((&d[i + m].0,), #[trigger] made[m]),
                forall|k: &u64| #[trigger] entry_builder.requires((k,)),
            decreases i,
        {
            i = i - 1;
            let (digest, seconds_since_anchor) = data[i];
            let entry = entry_builder(&digest);
            let size = entry.len() as u64;
            let ghost old_made = made;
            proof {
                made = seq![entry] + old_made;
                let sub = d.subrange(i as int, d.len() as int);
                assert(sub.drop_first() =~= d.subrange(i + 1, d.len() as int));
                assert(lens_of(made).drop_first() =~= lens_of(old_made));
                assert(lens_of(made)[0] == size);
                assert(sub[0] == (digest, seconds_since_anchor));
                assert forall|m: int| 0 <= m < made.len() implies entry_builder.ensures(
                    (&d[i + m].0,),
                    #[trigger] made[m],
                ) by {
                    if m > 0 {
                        assert(made[m] == old_made[m - 1]);
                        assert(d[i + m] == d[(i + 1) + (m - 1)]);
                    }
                }
            }
            if size <= u64::MAX - self.sum_store_size {
                self.put_entry(digest, entry, seconds_since_anchor, &mut replaced);
            } else {
                self.released.push(entry);
            }
            assert(self.released@.take(cleared.len() as int) =~= cleared);
            assert(self.released@.take(r0.len() as int) =~= r0);
        }
        assert(d.subrange(0, d.len() as int) =~= d);
        let ghost rb = self.released@;
        self.evict_items(now);
        assert(self.released@.take(cleared.len() as int) =~= cleared) by {
            assert(self.released@.take(rb.len() as int) =~= rb);
        }
        assert(released_in_pass(h0, s0, 0).len() == s0.len());
    }

    /// First half of a batched size lookup. Each key in turn is looked up
    /// (becoming the most recently used) and judged against the limits, with
    /// the entry count and byte total lowered by each key already judged to
    /// leave, so that one batch cannot cascade into evicting everything. A
    /// key found and kept gets its size in `results` and a clone of its entry
    /// in the returned vector, for the caller to revalidate (and report to
    /// `touch_or_remove`, clearing its result when revalidation fails). Every
    /// other key gets `None`, and the keys judged to leave are evicted.
    pub fn sizes_for_keys(&mut self, digests: &[u64], results: &mut Vec<Option<usize>>, now: i32) -> (r: Vec<Option<T>>)
        where T: Clone,
        requires
            old(self).wf(),
            old(results)@.len() == digests@.len(),
        ensures
            final(self).wf(),
            final(self).total_bytes() == total_len(final(self).contents()),
            final(results)@ == size_scan(old(self).limits(), old(self).contents(), digests@, now).4,
            final(self).contents() == pop_all(
                size_scan(old(self).limits(), old(self).contents(), digests@, now).0,
                size_scan(old(self).limits(), old(self).contents(), digests@, now).3,
            ),
            r@.len() == digests@.len(),
            forall|i: int| 0 <= i < r@.len() ==> (#[trigger] r@[i]).is_some() == final(results)@[i].is_some(),
            forall|i: int| 0 <= i < r@.len() && (#[trigger] r@[i]).is_some() ==> cloned(
                old(self).handles()[digests@[i]],
                r@[i].unwrap(),
            ),
            final(self).released() == old(self).released() + pops_released(
                old(self).handles(),
                size_scan(old(self).limits(), old(self).contents(), digests@, now).0,
                size_scan(old(self).limits(), old(self).contents(), digests@, now).3,
            ),
            final(self).counters_spec() == pops_counted(
                old(self).counters_spec(),
                size_scan(old(self).limits(), old(self).contents(), digests@, now).0,
                size_scan(old(self).limits(), old(self).contents(), digests@, now).3,
            ),
            forall|k: u64| #[trigger] final(self).handles().contains_key(k) ==> final(self).handles()[k]
                == old(self).handles()[k],
            forall|k: u64| #[trigger] final(self).generations().contains_key(k) ==> final(self).generations()[k]
                == old(self).generations()[k],
            final(self).anchor() == old(self).anchor(),
            final(self).limits() == old(self).limits(),
    {
        let ghost s0 = self.contents();
        let ghost p = self.policy;
        let ghost h0 = self.handles@;
        let ghost ds = digests@;
        let mut lru_len: usize = lru_len(&self.lru);
        let mut sum_store_size: u64 = self.sum_store_size;
        let mut remove_digests: Vec<u64> = Vec::new();
        let mut to_touch: Vec<Option<T>> = Vec::new();
        let mut i: usize = 0;
        assert(ds.take(0) =~= Seq::<u64>::empty());
        while i < digests.len()
            invariant
                self.wf(),
                self.policy == p,
                self.anchor_time == old(self).anchor_time,
                self.handles@ == h0,
                self.generations@ == old(self).generations@,
                self.released@ == old(self).released@,
                self.counters == old(self).counters,
                digests@ == ds,
                i <= ds.len(),
                results@.len() == ds.len(),
                to_touch@.len() == i,
                ({
                    let st = size_scan(p, s0, ds.take(i as int), now);
                    &&& self.contents() == st.0
                    &&& lru_len as int == st.1
                    &&& sum_store_size as int == st.2
                    &&& remove_digests@ == st.3
                    &&& results@.take(i as int) == st.4
                }),
                forall|j: int| 0 <= j < i ==> (#[trigger] to_touch@[j]).is_some() == results@[j].is_some(),
                forall|j: int| 0 <= j < i && (#[trigger] to_touch@[j]).is_some() ==> cloned(h0[ds[j]], to_touch@[j].unwrap()),
            decreases ds.len() - i,
        {
            let digest = digests[i];
            let ghost st = size_scan(p, s0, ds.take(i as int), now);
            let ghost s1 = self.contents();
            proof {
                assert(ds.take(i + 1).drop_last() =~= ds.take(i as int));
                assert(ds.take(i + 1).last() == digest);
                if has_key(s1, digest) {
                    lemma_key_pos(s1, digest);
                    assert(promote_spec(s1, digest) == put_spec(s1, digest, value_of(s1, digest)));
                    lemma_put(s1, digest, value_of(s1, digest));
                    lemma_put_values(s1, digest, value_of(s1, digest));
                    assert(self.handles@.contains_key(digest));
                }
            }
            let found = lru_get(&mut self.lru, digest);
            match found {
                Some(item) => {
                    if should_evict(&self.policy, lru_len, item.0, sum_store_size, self.policy.max_bytes, now) {
                        sum_store_size = if sum_store_size >= item.1 {
                            sum_store_size - item.1
                        } else {
                            0
                        };
                        lru_len = if lru_len >= 1 {
                            lru_len - 1
                        } else {
                            0
                        };
                        remove_digests.push(digest);
                        to_touch.push(None);
                        results.set(i, None);
                    } else {
                        let size = match self.handles.get(&digest) {
                            Some(h) => {
                                to_touch.push(Some(h.clone()));
                                h.len()
                            },
                            None => {
                                to_touch.push(None);
                                0
                            },
                        };
                        results.set(i, Some(size));
                    }
                },
                None => {
                    remove_digests.push(digest);
                    to_touch.push(None);
                    results.set(i, None);
                },
            }
            i = i + 1;
            proof {
                assert(results@.take(i as int) =~= size_scan(p, s0, ds.take(i as int), now).4);
            }
        }
        assert(ds.take(i as int) =~= ds);
        assert(results@.take(i as int) =~= results@);
        let ghost st = size_scan(p, s0, ds, now);
        let mut j: usize = 0;
        assert(st.3.take(0) =~= Seq::<u64>::empty());
        assert(self.released@ =~= old(self).released@ + pops_released(h0, st.0, st.3.take(0)));
        while j < remove_digests.len()
            invariant
                self.wf(),
                self.policy == p,
                self.anchor_time == old(self).anchor_time,
                remove_digests@ == st.3,
                j <= st.3.len(),
                self.contents() == pop_all(st.0, st.3.take(j as int)),
                self.released@ == old(self).released@ + pops_released(h0, st.0, st.3.take(j as int)),
                self.counters == pops_counted(old(self).counters, st.0, st.3.take(j as int)),
                forall|k: u64| #[trigger] self.generations@.contains_key(k) ==> self.generations@[k] == old(self).generations@[k],
                forall|k: u64| #[trigger] self.handles@.contains_key(k) ==> self.handles@[k] == h0[k],
            decreases st.3.len() - j,
        {
            let ghost rl = self.released@;
            let ghost hl = self.handles@;
            let ghost cur = self.contents();
            let ghost dj = st.3[j as int];
            proof {
                if has_key(cur, dj) {
                    assert(hl.contains_key(dj));
                    assert(hl[dj] == h0[dj]);
                }
            }
            self.pop_key(remove_digests[j], Departure::Evicted);
            proof {
                assert(st.3.take(j + 1).drop_last() =~= st.3.take(j as int));
                assert(st.3.take(j + 1).last() == dj);
                let before = pops_released(h0, st.0, st.3.take(j as int));
                if has_key(cur, dj) {
                    assert((old(self).released@ + before).push(h0[dj]) =~= old(self).released@ + before.push(h0[dj]));
                    assert(self.released@ =~= (old(self).released@ + before).push(h0[dj]));
                } else {
                    assert(self.released@ =~= rl);
                }
            }
            j = j + 1;
        }
        assert(st.3.take(j as int) =~= st.3);
        to_touch
    }

    /// `sizes_for_keys` on one key: its size and a clone of its entry to
    /// revalidate, or `None`.
    pub fn size_for_key(&mut self, digest: u64, now: i32) -> (r: Option<(usize, T)>)
        where T: Clone,
        requires
            old(self).wf(),
        ensures
            final(self).wf(),
            final(self).total_bytes() == total_len(final(self).contents()),
            ({
                let st = size_scan(old(self).limits(), old(self).contents(), seq![digest], now);
                &&& final(self).contents() == pop_all(st.0, st.3)
                &&& r.is_some() == st.4[0].is_some()
                &&& r.is_some() ==> Some(r.unwrap().0) == st.4[0] && cloned(old(self).handles()[digest], r.unwrap().1)
            }),
            final(self).released() == old(self).released() + pops_released(
                old(self).handles(),
                size_scan(old(self).limits(), old(self).contents(), seq![digest], now).0,
                size_scan(old(self).limits(), old(self).contents(), seq![digest], now).3,
            ),
            final(self).counters_spec() == pops_counted(
                old(self).counters_spec(),
                size_scan(old(self).limits(), old(self).contents(), seq![digest], now).0,
                size_scan(old(self).limits(), old(self).contents(), seq![digest], now).3,
            ),
            forall|k: u64| #[trigger] final(self).handles().contains_key(k) ==> final(self).handles()[k]
                == old(self).handles()[k],
            forall|k: u64| #[trigger] final(self).generations().contains_key(k) ==> final(self).generations()[k]
                == old(self).generations()[k],
            final(self).anchor() == old(self).anchor(),
            final(self).limits() == old(self).limits(),
    {
        let keys: [u64; 1] = [digest];
        let mut results: Vec<Option<usize>> = vec![None];
        assert(keys@ =~= seq![digest]);
        let mut touch = self.sizes_for_keys(&keys, &mut results, now);
        let size = results[0];
        let entry = touch.pop();
        match (size, entry) {
            (Some(n), Some(Some(h))) => Some((n, h)),
            _ => None,
        }
    }

    /// The readings of this map: its limits, anchor, totals and counters, the
    /// timestamps of its oldest and newest entries, and the sizes of at most
    /// `ITEM_SIZE_SAMPLE_LIMIT` entries, most recently used first.
    pub fn gather_metrics(&self) -> (r: MetricsReport)
        requires
            self.wf(),
        ensures
            r.max_bytes == self.limits().max_bytes,
            r.evict_bytes == self.limits().evict_bytes,
            r.max_seconds == self.limits().max_seconds,
            r.max_count == self.limits().max_count,
            r.anchor_time_timestamp == self.anchor(),
            r.sum_store_size_bytes == self.total_bytes(),
            r.items_in_store_total == self.contents().len(),
            r.counters == self.counters_spec(),
            r.oldest_item_timestamp == (if self.contents().len() == 0 {
                -1
            } else {
                item_timestamp(self.anchor(), self.contents().last().1.0)
            }),
            r.newest_item_timestamp == (if self.contents().len() == 0 {
                -1
            } else {
                item_timestamp(self.anchor(), self.contents()[0].1.0)
            }),
            r.item_size_bytes@ == self.contents().take(
                if self.contents().len() < ITEM_SIZE_SAMPLE_LIMIT {
                    self.contents().len() as int
                } else {
                    ITEM_SIZE_SAMPLE_LIMIT as int
                },
            ).map_values(|rec: Record| rec.1.1),
    {
        let records = lru_records(&self.lru);
        let oldest: i128 = match lru_peek_lru(&self.lru) {
            Some(rec) => self.anchor_time as i128 + rec.1.0 as i128,
            None => -1,
        };
        let newest: i128 = if records.len() > 0 {
            self.anchor_time as i128 + records[0].1.0 as i128
        } else {
            -1
        };
        let limit: usize = if records.len() < ITEM_SIZE_SAMPLE_LIMIT {
            records.len()
        } else {
            ITEM_SIZE_SAMPLE_LIMIT
        };
        let mut sizes: Vec<u64> = Vec::new();
        let mut i: usize = 0;
        while i < limit
            invariant
                records@ == self.contents(),
                limit <= records@.len(),
                i <= limit,
                sizes@ == records@.take(i as int).map_values(|rec: Record| rec.1.1),
            decreases limit - i,
        {
            sizes.push(records[i].1.1);
            i = i + 1;
            assert(sizes@ =~= records@.take(i as int).map_values(|rec: Record| rec.1.1));
        }
        MetricsReport {
            max_bytes: self.policy.max_bytes,
            evict_bytes: self.policy.evict_bytes,
            anchor_time_timestamp: self.anchor_time,
            max_seconds: self.policy.max_seconds,
            max_count: self.policy.max_count,
            sum_store_size_bytes: self.sum_store_size,
            items_in_store_total: records.len(),
            oldest_item_timestamp: oldest,
            newest_item_timestamp: newest,
            counters: self.counters,
            item_size_bytes: sizes,
        }
    }
}

} // verus!
