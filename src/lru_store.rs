//! The recency-ordered store: `lru::LruCache` keyed by a fingerprint, holding
//! for each entry its age (seconds since the anchor) and its size in bytes.
//! Its contents are modelled as a sequence, most recently used first.
use vstd::prelude::*;

verus! {

#[verifier::external_type_specification]
#[verifier::external_body]
#[verifier::reject_recursive_types(K)]
#[verifier::reject_recursive_types(V)]
#[verifier::reject_recursive_types(S)]
pub struct ExLruCache<K, V, S>(lru::LruCache<K, V, S>);

/// One stored record: (key, (seconds since anchor, size in bytes)).
pub type Record = (u64, (i32, u64));

/// What the cache holds, most recently used first.
pub uninterp spec fn lru_contents(c: lru::LruCache<u64, (i32, u64), std::collections::hash_map::RandomState>) -> Seq<(u64, (i32, u64))>;

pub open spec fn keys_unique(s: Seq<Record>) -> bool {
    forall|i: int, j: int| 0 <= i < s.len() && 0 <= j < s.len() && i != j ==> s[i].0 != s[j].0
}

pub open spec fn has_key(s: Seq<Record>, k: u64) -> bool {
    exists|i: int| 0 <= i < s.len() && s[i].0 == k
}

pub open spec fn key_pos(s: Seq<Record>, k: u64) -> int {
    choose|i: int| 0 <= i < s.len() && s[i].0 == k
}

pub open spec fn value_of(s: Seq<Record>, k: u64) -> (i32, u64) {
    s[key_pos(s, k)].1
}

pub open spec fn lookup(s: Seq<Record>, k: u64) -> Option<(i32, u64)> {
    if has_key(s, k) {
        Some(value_of(s, k))
    } else {
        None
    }
}

/// Insert or replace `k`, making it the most recently used.
pub open spec fn put_spec(s: Seq<Record>, k: u64, v: (i32, u64)) -> Seq<Record> {
    if has_key(s, k) {
        seq![(k, v)] + s.remove(key_pos(s, k))
    } else {
        seq![(k, v)] + s
    }
}

/// Take `k` out, if it is there.
pub open spec fn pop_spec(s: Seq<Record>, k: u64) -> Seq<Record> {
    if has_key(s, k) {
        s.remove(key_pos(s, k))
    } else {
        s
    }
}

/// Make `k` the most recently used, if it is there.
pub open spec fn promote_spec(s: Seq<Record>, k: u64) -> Seq<Record> {
    if has_key(s, k) {
        seq![s[key_pos(s, k)]] + s.remove(key_pos(s, k))
    } else {
        s
    }
}

/// Sum of the sizes of all records.
pub open spec fn total_len(s: Seq<Record>) -> int
    decreases s.len(),
{
    if s.len() == 0 {
        0
    } else {
        total_len(s.drop_last()) + s.last().1.1
    }
}

pub proof fn lemma_total_len_nonneg(s: Seq<Record>)
    ensures
        total_len(s) >= 0,
    decreases s.len(),
{
    if s.len() > 0 {
        lemma_total_len_nonneg(s.drop_last());
    }
}

pub proof fn lemma_total_len_prepend(x: Record, s: Seq<Record>)
    ensures
        total_len(seq![x] + s) == x.1.1 + total_len(s),
    decreases s.len(),
{
    let t = seq![x] + s;
    if s.len() > 0 {
        assert(t.drop_last() =~= seq![x] + s.drop_last());
        assert(t.last() == s.last());
        lemma_total_len_prepend(x, s.drop_last());
    } else {
        assert(t.drop_last() =~= Seq::<Record>::empty());
        assert(total_len(t.drop_last()) == 0);
        assert(t.last() == x);
    }
}

pub proof fn lemma_total_len_remove(s: Seq<Record>, i: int)
    requires
        0 <= i < s.len(),
    ensures
        total_len(s.remove(i)) == total_len(s) - s[i].1.1,
    decreases s.len(),
{
    if i < s.len() - 1 {
        let r = s.remove(i);
        assert(r.drop_last() =~= s.drop_last().remove(i));
        lemma_total_len_remove(s.drop_last(), i);
    } else {
        assert(s.remove(i) =~= s.drop_last());
    }
}

pub proof fn lemma_unique_remove(s: Seq<Record>, i: int)
    requires
        keys_unique(s),
        0 <= i < s.len(),
    ensures
        keys_unique(s.remove(i)),
        !has_key(s.remove(i), s[i].0),
        forall|k: u64| k != s[i].0 ==> (has_key(s.remove(i), k) <==> has_key(s, k)),
{
    let r = s.remove(i);
    assert forall|k: u64| k != s[i].0 && has_key(s, k) implies has_key(r, k) by {
        let j = choose|j: int| 0 <= j < s.len() && s[j].0 == k;
        if j < i {
            assert(r[j] == s[j]);
        } else {
            assert(r[j - 1] == s[j]);
        }
    }
}

pub proof fn lemma_key_pos(s: Seq<Record>, k: u64)
    requires
        has_key(s, k),
    ensures
        0 <= key_pos(s, k) < s.len(),
        s[key_pos(s, k)].0 == k,
        s[key_pos(s, k)].1 == value_of(s, k),
{
}

/// The store's contents after a put: keys stay unique, and the total size
/// changes by the new size less the replaced one.
pub proof fn lemma_put(s: Seq<Record>, k: u64, v: (i32, u64))
    requires
        keys_unique(s),
    ensures
        keys_unique(put_spec(s, k, v)),
        total_len(put_spec(s, k, v)) == total_len(s) + v.1 - (if has_key(s, k) {
            value_of(s, k).1 as int
        } else {
            0
        }),
        put_spec(s, k, v).len() == s.len() + (if has_key(s, k) {
            0int
        } else {
            1
        }),
        put_spec(s, k, v)[0] == (k, v),
        forall|j: u64| has_key(put_spec(s, k, v), j) <==> (j == k || has_key(s, j)),
{
    let t = put_spec(s, k, v);
    if has_key(s, k) {
        let i = key_pos(s, k);
        lemma_unique_remove(s, i);
        lemma_total_len_remove(s, i);
        lemma_total_len_prepend((k, v), s.remove(i));
        let r = s.remove(i);
        assert forall|j: u64| has_key(t, j) implies (j == k || has_key(s, j)) by {
            let m = choose|m: int| 0 <= m < t.len() && t[m].0 == j;
            if m > 0 {
                assert(t[m] == r[m - 1]);
            }
        }
        assert(has_key(t, k)) by {
            assert(t[0].0 == k);
        }
        assert forall|j: u64| has_key(s, j) && j != k implies has_key(t, j) by {
            let m = choose|m: int| 0 <= m < r.len() && r[m].0 == j;
            assert(t[m + 1] == r[m]);
        }
    } else {
        lemma_total_len_prepend((k, v), s);
        assert forall|j: u64| has_key(t, j) implies (j == k || has_key(s, j)) by {
            let m = choose|m: int| 0 <= m < t.len() && t[m].0 == j;
            if m > 0 {
                assert(t[m] == s[m - 1]);
            }
        }
        assert(has_key(t, k)) by {
            assert(t[0].0 == k);
        }
        assert forall|j: u64| has_key(s, j) implies has_key(t, j) by {
            let m = choose|m: int| 0 <= m < s.len() && s[m].0 == j;
            assert(t[m + 1] == s[m]);
        }
    }
}

/// The store's contents after a pop of `k`.
pub proof fn lemma_pop(s: Seq<Record>, k: u64)
    requires
        keys_unique(s),
    ensures
        keys_unique(pop_spec(s, k)),
        !has_key(pop_spec(s, k), k),
        forall|j: u64| j != k ==> (has_key(pop_spec(s, k), j) <==> has_key(s, j)),
        total_len(pop_spec(s, k)) == total_len(s) - (if has_key(s, k) {
            value_of(s, k).1 as int
        } else {
            0
        }),
        pop_spec(s, k).len() == s.len() - (if has_key(s, k) {
            1int
        } else {
            0
        }),
{
    if has_key(s, k) {
        lemma_unique_remove(s, key_pos(s, k));
        lemma_total_len_remove(s, key_pos(s, k));
    }
}

/// Dropping the least recently used record.
pub proof fn lemma_drop_last(s: Seq<Record>)
    requires
        keys_unique(s),
        s.len() > 0,
    ensures
        keys_unique(s.drop_last()),
        !has_key(s.drop_last(), s.last().0),
        forall|j: u64| j != s.last().0 ==> (has_key(s.drop_last(), j) <==> has_key(s, j)),
        total_len(s.drop_last()) == total_len(s) - s.last().1.1,
        has_key(s, s.last().0),
        value_of(s, s.last().0) == s.last().1,
{
    assert(s.remove(s.len() - 1) =~= s.drop_last());
    lemma_unique_remove(s, s.len() - 1);
    assert(s[s.len() - 1].0 == s.last().0);
}

/// With unique keys, the value of the key at position `i` is the one there.
pub proof fn lemma_value_at(s: Seq<Record>, i: int)
    requires
        keys_unique(s),
        0 <= i < s.len(),
    ensures
        has_key(s, s[i].0),
        key_pos(s, s[i].0) == i,
        value_of(s, s[i].0) == s[i].1,
{
    assert(has_key(s, s[i].0));
}

/// Values survive a put of another key.
pub proof fn lemma_put_values(s: Seq<Record>, k: u64, v: (i32, u64))
    requires
        keys_unique(s),
    ensures
        value_of(put_spec(s, k, v), k) == v,
        forall|j: u64| j != k && has_key(s, j) ==> value_of(put_spec(s, k, v), j) == value_of(s, j),
{
    lemma_put(s, k, v);
    let t = put_spec(s, k, v);
    lemma_value_at(t, 0);
    assert forall|j: u64| j != k && has_key(s, j) implies value_of(t, j) == value_of(s, j) by {
        let m = key_pos(t, j);
        lemma_key_pos(t, j);
        lemma_key_pos(s, j);
        if has_key(s, k) {
            let i = key_pos(s, k);
            lemma_key_pos(s, k);
            let r = s.remove(i);
            assert(t[m] == r[m - 1]);
            if m - 1 < i {
                assert(r[m - 1] == s[m - 1]);
                lemma_value_at(s, m - 1);
            } else {
                assert(r[m - 1] == s[m]);
                lemma_value_at(s, m);
            }
        } else {
            assert(t[m] == s[m - 1]);
            lemma_value_at(s, m - 1);
        }
    }
}

/// Values survive a pop of another key.
pub proof fn lemma_pop_values(s: Seq<Record>, k: u64)
    requires
        keys_unique(s),
    ensures
        forall|j: u64| j != k && has_key(s, j) ==> value_of(pop_spec(s, k), j) == value_of(s, j),
{
    lemma_pop(s, k);
    let t = pop_spec(s, k);
    assert forall|j: u64| j != k && has_key(s, j) implies value_of(t, j) == value_of(s, j) by {
        let m = key_pos(t, j);
        lemma_key_pos(t, j);
        if has_key(s, k) {
            let i = key_pos(s, k);
            if m < i {
                assert(t[m] == s[m]);
                lemma_value_at(s, m);
            } else {
                assert(t[m] == s[m + 1]);
                lemma_value_at(s, m + 1);
            }
        }
    }
}

/// Keeping the most recently used records never adds bytes.
pub proof fn lemma_total_len_take(s: Seq<Record>, n: int)
    requires
        0 <= n <= s.len(),
    ensures
        total_len(s.take(n)) <= total_len(s),
    decreases s.len(),
{
    if n < s.len() {
        assert(s.drop_last().take(n) =~= s.take(n));
        lemma_total_len_take(s.drop_last(), n);
    } else {
        assert(s.take(n) =~= s);
    }
}

/// Relies on `LruCache::unbounded`: a new cache holds nothing.
#[verifier::external_body]
pub(crate) fn lru_new() -> (r: lru::LruCache<u64, (i32, u64), std::collections::hash_map::RandomState>)
    ensures
        lru_contents(r) == Seq::<Record>::empty(),
{
    lru::LruCache::unbounded_with_hasher(std::collections::hash_map::RandomState::new())
}

/// Relies on `LruCache::len`: the number of records.
#[verifier::external_body]
pub(crate) fn lru_len(c: &lru::LruCache<u64, (i32, u64), std::collections::hash_map::RandomState>) -> (r: usize)
    ensures
        r == lru_contents(*c).len(),
{
    c.len()
}

/// Relies on `LruCache::peek_lru`: the least recently used record, without
/// changing the order.
#[verifier::external_body]
pub(crate) fn lru_peek_lru(c: &lru::LruCache<u64, (i32, u64), std::collections::hash_map::RandomState>) -> (r: Option<Record>)
    ensures
        r == (if lru_contents(*c).len() == 0 {
            None
        } else {
            Some(lru_contents(*c).last())
        }),
{
    c.peek_lru().map(|(k, v)| (*k, *v))
}

/// Relies on `LruCache::pop_lru`: takes out the least recently used record.
#[verifier::external_body]
pub(crate) fn lru_pop_lru(c: &mut lru::LruCache<u64, (i32, u64), std::collections::hash_map::RandomState>) -> (r: Option<Record>)
    ensures
        lru_contents(*old(c)).len() == 0 ==> r.is_none() && lru_contents(*final(c)) == lru_contents(*old(c)),
        lru_contents(*old(c)).len() > 0 ==> r == Some(lru_contents(*old(c)).last())
            && lru_contents(*final(c)) == lru_contents(*old(c)).drop_last(),
{
    c.pop_lru()
}

/// Relies on `LruCache::get`: the value of `k`, which becomes the most
/// recently used.
#[verifier::external_body]
pub(crate) fn lru_get(c: &mut lru::LruCache<u64, (i32, u64), std::collections::hash_map::RandomState>, k: u64) -> (r: Option<(i32, u64)>)
    ensures
        r == lookup(lru_contents(*old(c)), k),
        lru_contents(*final(c)) == promote_spec(lru_contents(*old(c)), k),
{
    c.get(&k).copied()
}

/// Relies on `LruCache::peek`: the value of `k`, without changing the order.
#[verifier::external_body]
pub(crate) fn lru_peek(c: &lru::LruCache<u64, (i32, u64), std::collections::hash_map::RandomState>, k: u64) -> (r: Option<(i32, u64)>)
    ensures
        r == lookup(lru_contents(*c), k),
{
    c.peek(&k).copied()
}

/// Relies on `LruCache::put`: inserts or replaces `k` as the most recently
/// used, and returns the value it replaced.
#[verifier::external_body]
pub(crate) fn lru_put(c: &mut lru::LruCache<u64, (i32, u64), std::collections::hash_map::RandomState>, k: u64, v: (i32, u64)) -> (r: Option<(i32, u64)>)
    ensures
        r == lookup(lru_contents(*old(c)), k),
        lru_contents(*final(c)) == put_spec(lru_contents(*old(c)), k, v),
{
    c.put(k, v)
}

/// Relies on `LruCache::pop`: takes `k` out and returns its value.
#[verifier::external_body]
pub(crate) fn lru_pop(c: &mut lru::LruCache<u64, (i32, u64), std::collections::hash_map::RandomState>, k: u64) -> (r: Option<(i32, u64)>)
    ensures
        r == lookup(lru_contents(*old(c)), k),
        lru_contents(*final(c)) == pop_spec(lru_contents(*old(c)), k),
{
    c.pop(&k)
}

/// Relies on `LruCache::iter`: every record, most recently used first.
#[verifier::external_body]
pub(crate) fn lru_records(c: &lru::LruCache<u64, (i32, u64), std::collections::hash_map::RandomState>) -> (r: Vec<Record>)
    ensures
        r@ == lru_contents(*c),
{
    c.iter().map(|(k, v)| (*k, *v)).collect()
}

} // verus!
