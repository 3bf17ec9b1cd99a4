use std::sync::Arc;

use evicting_map::{EvictingMap, EvictionPolicy, LenEntry, SerializedLRU};

#[derive(Clone, Debug, PartialEq, Eq)]
struct Blob {
    id: u32,
    size: usize,
}

impl LenEntry for Blob {
    fn spec_len(&self) -> usize {
        self.size
    }

    fn len(&self) -> usize {
        self.size
    }

    fn is_empty(&self) -> bool {
        self.size == 0
    }
}

fn blob(id: u32, size: usize) -> Blob {
    Blob { id, size }
}

fn limits(max_bytes: u64, evict_bytes: u64, max_seconds: u32, max_count: u64) -> EvictionPolicy {
    EvictionPolicy { max_bytes, evict_bytes, max_seconds, max_count }
}

fn order(map: &mut EvictingMap<Blob>, now: i32) -> Vec<u64> {
    map.build_lru_index(now).data.iter().map(|(k, _)| *k).collect()
}

#[test]
fn byte_budget_evicts_with_hysteresis() {
    let mut map = EvictingMap::new(&limits(100, 20, 0, 0), 0);
    assert!(map.insert(1, blob(1, 60), 0).is_none());
    assert!(map.insert(2, blob(2, 50), 0).is_none());
    assert_eq!(map.size_for_key(1, 0).map(|(n, _)| n), None);
    assert_eq!(map.size_for_key(2, 0).map(|(n, _)| n), Some(50));
    assert_eq!(map.len_for_test(), 1);
    assert_eq!(map.gather_metrics().sum_store_size_bytes, 50);
    let released = map.take_released();
    assert_eq!(released, vec![blob(1, 60)]);
}

#[test]
fn byte_budget_drops_below_budget_less_hysteresis() {
    let mut map = EvictingMap::new(&limits(100, 30, 0, 0), 0);
    for k in 0..6u64 {
        map.insert(k, blob(k as u32, 15), 0);
    }
    assert_eq!(map.gather_metrics().sum_store_size_bytes, 90);
    // Crossing the budget at 105 bytes drops the total below 70.
    map.insert(6, blob(6, 15), 0);
    let m = map.gather_metrics();
    assert!(m.sum_store_size_bytes < 70);
    assert_eq!(m.sum_store_size_bytes, 60);
}

#[test]
fn count_breach_does_not_lower_byte_budget() {
    let mut map = EvictingMap::new(&limits(100, 50, 0, 1), 0);
    map.insert(1, blob(1, 60), 0);
    map.insert(2, blob(2, 30), 0);
    assert_eq!(order(&mut map, 0), vec![2]);
    assert_eq!(map.sum_store_size(), 30);
    assert_eq!(map.take_released(), vec![blob(1, 60)]);
}

#[test]
fn count_limit_evicts_oldest() {
    let mut map = EvictingMap::new(&limits(0, 0, 0, 2), 0);
    map.insert(1, blob(1, 1), 0);
    map.insert(2, blob(2, 1), 0);
    map.insert(3, blob(3, 1), 0);
    assert!(map.get(1, 0).is_none());
    assert_eq!(map.len_for_test(), 2);
    assert_eq!(order(&mut map, 0), vec![3, 2]);
}

#[test]
fn remove_if_false_predicate_keeps_entry() {
    let mut map = EvictingMap::new(&limits(0, 0, 0, 0), 0);
    map.insert(7, blob(7, 5), 0);
    assert!(!map.remove_if(7, |e: &Blob| e.len() == 0, 0));
    assert_eq!(map.get(7, 0), Some(blob(7, 5)));
    assert!(map.take_released().is_empty());
    assert!(map.remove_if(7, |e: &Blob| e.len() == 5, 0));
    assert!(map.get(7, 0).is_none());
    assert_eq!(map.take_released(), vec![blob(7, 5)]);
}

#[test]
fn remove_if_absent_key_is_false() {
    let mut map: EvictingMap<Blob> = EvictingMap::new(&limits(0, 0, 0, 0), 0);
    assert!(!map.remove_if(3, |_e: &Blob| true, 0));
}

#[test]
fn age_limit_expires_entries() {
    let mut map = EvictingMap::new(&limits(0, 0, 10, 0), 0);
    map.insert(1, blob(1, 3), 0);
    assert_eq!(map.get(1, 10), Some(blob(1, 3)));
    assert!(map.get(1, 11).is_none());
    assert_eq!(map.counters().evicted_items, 1);
    assert_eq!(map.counters().evicted_bytes, 3);
}

#[test]
fn insert_replaces_existing_key() {
    let mut map = EvictingMap::new(&limits(0, 0, 0, 0), 0);
    assert!(map.insert(1, blob(1, 4), 0).is_none());
    assert_eq!(map.insert(1, blob(2, 6), 0), Some(blob(1, 4)));
    assert_eq!(map.len_for_test(), 1);
    assert_eq!(map.gather_metrics().sum_store_size_bytes, 6);
    assert_eq!(map.take_released(), vec![blob(1, 4)]);
    let c = map.counters();
    assert_eq!(c.replaced_items, 1);
    assert_eq!(c.replaced_bytes, 4);
    assert_eq!(c.lifetime_inserted_bytes, 10);
}

#[test]
fn remove_counts_as_removed() {
    let mut map = EvictingMap::new(&limits(0, 0, 0, 0), 0);
    map.insert(1, blob(1, 4), 0);
    assert!(map.remove(1, 0));
    assert!(!map.remove(1, 0));
    let c = map.counters();
    assert_eq!(c.removed_items, 1);
    assert_eq!(c.removed_bytes, 4);
    assert_eq!(c.evicted_items, 0);
    assert_eq!(map.gather_metrics().sum_store_size_bytes, 0);
    assert_eq!(map.sum_store_size(), 0);
}

#[test]
fn insert_many_returns_replaced_and_evicts_per_insert() {
    let mut map = EvictingMap::new(&limits(0, 0, 0, 2), 0);
    map.insert(1, blob(1, 1), 0);
    let replaced = map.insert_many(vec![(1, blob(10, 2)), (2, blob(2, 1)), (3, blob(3, 1))], 0);
    assert_eq!(replaced, vec![blob(1, 1)]);
    assert_eq!(order(&mut map, 0), vec![3, 2]);
    assert_eq!(map.take_released(), vec![blob(1, 1), blob(10, 2)]);
    let c = map.counters();
    assert_eq!((c.replaced_items, c.replaced_bytes), (1, 1));
    assert_eq!((c.evicted_items, c.evicted_bytes), (1, 2));
    assert_eq!(c.lifetime_inserted_bytes, 5);
}

#[test]
fn insert_many_empty_is_noop() {
    let mut map: EvictingMap<Blob> = EvictingMap::new(&limits(0, 0, 0, 0), 0);
    assert!(map.insert_many(Vec::new(), 0).is_empty());
    assert_eq!(map.len_for_test(), 0);
}

#[test]
fn get_promotes_entry() {
    let mut map = EvictingMap::new(&limits(0, 0, 0, 0), 0);
    map.insert(1, blob(1, 1), 0);
    map.insert(2, blob(2, 1), 0);
    assert!(map.get(1, 0).is_some());
    assert_eq!(order(&mut map, 0), vec![1, 2]);
}

#[test]
fn failed_touch_evicts_entry() {
    let mut map = EvictingMap::new(&limits(0, 0, 0, 0), 0);
    map.insert(1, blob(1, 8), 0);
    let generation = map.generation(1).unwrap();
    assert!(map.touch_or_remove(1, generation, true));
    assert_eq!(map.len_for_test(), 1);
    assert!(!map.touch_or_remove(1, generation, false));
    assert_eq!(map.len_for_test(), 0);
    assert_eq!(map.take_released(), vec![blob(1, 8)]);
    assert_eq!(map.counters().evicted_items, 1);
}

#[test]
fn failed_touch_spares_a_newer_entry() {
    let mut map = EvictingMap::new(&limits(0, 0, 0, 0), 0);
    map.insert(1, blob(1, 8), 0);
    assert_eq!(map.get(1, 0), Some(blob(1, 8)));
    let generation = map.generation(1).unwrap();
    assert_eq!(map.insert(1, blob(2, 3), 0), Some(blob(1, 8)));
    assert_ne!(map.generation(1), Some(generation));
    assert!(!map.touch_or_remove(1, generation, false));
    assert_eq!(map.get(1, 0), Some(blob(2, 3)));
    assert_eq!(map.take_released(), vec![blob(1, 8)]);
    assert_eq!(map.counters().evicted_items, 0);
}

#[test]
fn sizes_for_keys_batch_does_not_cascade() {
    let mut map = EvictingMap::new(&limits(100, 0, 0, 0), 0);
    map.insert(1, blob(1, 40), 0);
    map.insert(2, blob(2, 40), 0);
    let mut results = vec![None; 3];
    let touch = map.sizes_for_keys(&[1, 2, 9], &mut results, 0);
    assert_eq!(results, vec![Some(40), Some(40), None]);
    assert_eq!(touch, vec![Some(blob(1, 40)), Some(blob(2, 40)), None]);
    assert_eq!(map.len_for_test(), 2);
}

#[test]
fn sizes_for_keys_evicts_expired_keys() {
    let mut map = EvictingMap::new(&limits(0, 0, 5, 0), 0);
    map.insert_with_time(1, blob(1, 1), 0, 0);
    map.insert_with_time(2, blob(2, 1), 9, 0);
    let mut results = vec![None; 2];
    let touch = map.sizes_for_keys(&[1, 2], &mut results, 9);
    assert_eq!(results, vec![None, Some(1)]);
    assert_eq!(touch, vec![None, Some(blob(2, 1))]);
    assert_eq!(map.len_for_test(), 1);
    assert_eq!(map.take_released(), vec![blob(1, 1)]);
}

#[test]
fn snapshot_round_trip_keeps_order_and_ages() {
    let mut map = EvictingMap::new(&limits(0, 0, 0, 0), 1000);
    map.insert_with_time(1, blob(1, 3), 5, 7);
    map.insert_with_time(2, blob(2, 4), 6, 7);
    map.insert_with_time(3, blob(3, 5), 7, 7);
    let snap = map.build_lru_index(7);
    assert_eq!(snap, SerializedLRU { data: vec![(3, 7), (2, 6), (1, 5)], anchor_time: 1000 });
    map.restore_lru(snap.clone(), |k: &u64| blob(*k as u32, (*k + 2) as usize), 7);
    assert_eq!(map.build_lru_index(7), snap);
    assert_eq!(map.gather_metrics().sum_store_size_bytes, 12);
    assert_eq!(map.take_released().len(), 3);
    let c = map.counters();
    assert_eq!((c.removed_items, c.removed_bytes), (3, 12));
    assert_eq!(c.lifetime_inserted_bytes, 24);
}

#[test]
fn restore_takes_snapshot_anchor() {
    let mut map: EvictingMap<Blob> = EvictingMap::new(&limits(0, 0, 0, 0), 1);
    let snap = SerializedLRU { data: vec![(4, -2)], anchor_time: 500 };
    map.restore_lru(snap, |k: &u64| blob(*k as u32, 1), 0);
    assert_eq!(map.anchor_time(), 500);
    let m = map.gather_metrics();
    assert_eq!(m.anchor_time_timestamp, 500);
    assert_eq!(m.oldest_item_timestamp, 498);
    assert_eq!(m.newest_item_timestamp, 498);
}

#[test]
fn metrics_on_empty_map() {
    let map: EvictingMap<Blob> = EvictingMap::new(&limits(10, 2, 3, 4), 9);
    let m = map.gather_metrics();
    assert_eq!(m.oldest_item_timestamp, -1);
    assert_eq!(m.newest_item_timestamp, -1);
    assert_eq!((m.max_bytes, m.evict_bytes, m.max_seconds, m.max_count), (10, 2, 3, 4));
    assert_eq!(m.items_in_store_total, 0);
    assert!(m.item_size_bytes.is_empty());
}

#[test]
fn metrics_sizes_most_recent_first() {
    let mut map = EvictingMap::new(&limits(0, 0, 0, 0), 100);
    map.insert_with_time(1, blob(1, 3), 10, 10);
    map.insert_with_time(2, blob(2, 0), 20, 20);
    let m = map.gather_metrics();
    assert_eq!(m.item_size_bytes, vec![0, 3]);
    assert_eq!(m.oldest_item_timestamp, 110);
    assert_eq!(m.newest_item_timestamp, 120);
}

#[test]
fn zero_length_entries_never_trip_size_limit() {
    let mut map = EvictingMap::new(&limits(10, 0, 0, 0), 0);
    for k in 0..20u64 {
        map.insert(k, blob(k as u32, 0), 0);
    }
    assert_eq!(map.len_for_test(), 20);
}

#[test]
fn should_evict_each_limit() {
    let p = limits(100, 0, 10, 3);
    assert!(evicting_map::should_evict(&p, 1, 0, 100, 100, 0));
    assert!(!evicting_map::should_evict(&p, 1, 0, 99, 100, 0));
    assert!(evicting_map::should_evict(&p, 1, 4, 0, 100, 15));
    assert!(!evicting_map::should_evict(&p, 1, 5, 0, 100, 15));
    assert!(evicting_map::should_evict(&p, 4, 5, 0, 100, 0));
    assert!(!evicting_map::should_evict(&p, 3, 5, 0, 0, 0));
}

#[test]
fn arc_entries_report_inner_length() {
    let mut map = EvictingMap::new(&limits(0, 0, 0, 0), 0);
    map.insert(1, Arc::new(blob(1, 9)), 0);
    assert_eq!(map.size_for_key(1, 0).map(|(n, _)| n), Some(9));
    assert!(!Arc::new(blob(2, 1)).is_empty());
}
