use lfu::{CacheError, LFUCache, ValueCounter};

#[test]
fn it_works() {
    let mut lfu = LFUCache::with_capacity(20).unwrap();
    lfu.set(10, 10);
    lfu.set(20, 30);
    assert_eq!(lfu.get(&10).unwrap(), &10);
    assert_eq!(lfu.get(&30), None);
}

#[test]
fn test_lru_eviction() {
    let mut lfu = LFUCache::with_capacity(2).unwrap();
    lfu.set(1, 1);
    lfu.set(2, 2);
    lfu.set(3, 3);
    assert_eq!(lfu.get(&1), None)
}

#[test]
fn test_key_frequency_update() {
    let mut lfu = LFUCache::with_capacity(2).unwrap();
    lfu.set(1, 1);
    lfu.set(2, 2);
    lfu.set(1, 3);
    lfu.set(10, 10);
    assert_eq!(lfu.get(&2), None);
    assert_eq!(*lfu.index(10), 10);
}

#[test]
fn test_lfu_indexing() {
    let mut lfu: LFUCache<i32, i32> = LFUCache::with_capacity(2).unwrap();
    lfu.set(1, 1);
    assert_eq!(*lfu.index(1), 1);
}

#[test]
fn test_lfu_deletion() {
    let mut lfu = LFUCache::with_capacity(2).unwrap();
    lfu.set(1, 1);
    lfu.set(2, 2);
    lfu.remove(1);
    assert_eq!(lfu.get(&1), None);
    lfu.set(3, 3);
    lfu.set(4, 4);
    assert_eq!(lfu.get(&2), None);
    assert_eq!(lfu.get(&3), Some(&3));
}

#[test]
fn test_duplicates() {
    let mut lfu = LFUCache::with_capacity(2).unwrap();
    lfu.set(1, 1);
    lfu.set(1, 2);
    lfu.set(1, 3);
    {
        lfu.set(5, 20);
    }

    assert_eq!(*lfu.index(1), 3);
}

#[test]
fn test_lfu_consumption() {
    let mut lfu = LFUCache::with_capacity(1).unwrap();
    lfu.set(&1, 1);
    let mut it = lfu.into_iter();
    while let Some((_, v)) = it.next() {
        assert_eq!(v, 1);
    }
}

#[test]
fn test_lfu_iter() {
    let mut lfu = LFUCache::with_capacity(2).unwrap();
    lfu.set(&1, 1);
    lfu.set(&2, 2);
    let mut it = lfu.iter();
    while let Some((key, v)) = it.next() {
        match *key {
            1 => {
                assert_eq!(v, &1);
            }
            2 => {
                assert_eq!(v, &2);
            }
            _ => {}
        }
    }
}

#[test]
fn zero_capacity_is_refused() {
    let r: Result<LFUCache<i32, i32>, CacheError> = LFUCache::with_capacity(0);
    assert!(matches!(r, Err(CacheError::InvalidCapacity)));
}

#[test]
fn overwrite_then_evict_takes_least_used() {
    let mut lfu = LFUCache::with_capacity(2).unwrap();
    lfu.set(2, 2);
    lfu.set(3, 3);
    lfu.set(3, 30);
    lfu.set(4, 4);
    assert_eq!(lfu.get(&2), None);
    assert_eq!(lfu.get(&3), Some(&30));
}

#[test]
fn removal_then_inserts_evict_oldest() {
    let mut lfu = LFUCache::with_capacity(2).unwrap();
    lfu.set(1, 1);
    lfu.set(2, 2);
    assert!(lfu.remove(1));
    lfu.set(3, 3);
    lfu.set(4, 4);
    assert_eq!(lfu.get(&1), None);
    assert_eq!(lfu.get(&2), None);
    assert_eq!(lfu.get(&3), Some(&3));
}

#[test]
fn remove_reports_presence_and_shrinks() {
    let mut lfu = LFUCache::with_capacity(3).unwrap();
    lfu.set(1, 10);
    lfu.set(2, 20);
    assert_eq!(lfu.len(), 2);
    assert!(lfu.remove(1));
    assert_eq!(lfu.len(), 1);
    assert!(!lfu.contains(&1));
    assert_eq!(lfu.get(&1), None);
    assert!(!lfu.remove(1));
    assert_eq!(lfu.len(), 1);
}

#[test]
fn len_never_exceeds_capacity() {
    let mut lfu = LFUCache::with_capacity(3).unwrap();
    for i in 0..50u32 {
        lfu.set(i % 7, i);
        assert!(lfu.len() <= 3);
    }
    assert_eq!(lfu.len(), 3);
}

#[test]
fn bumped_key_survives_next_eviction() {
    let mut lfu = LFUCache::with_capacity(2).unwrap();
    lfu.set(1, 1);
    lfu.set(2, 2);
    assert_eq!(lfu.get(&1), Some(&1));
    lfu.evict();
    assert!(lfu.contains(&1));
    assert!(!lfu.contains(&2));
}

#[test]
fn eviction_prefers_oldest_among_least_used() {
    let mut lfu = LFUCache::with_capacity(4).unwrap();
    lfu.set(1, 1);
    lfu.set(2, 2);
    lfu.set(3, 3);
    lfu.get(&1);
    lfu.get(&2);
    lfu.get(&3);
    lfu.get(&2);
    lfu.evict();
    assert!(!lfu.contains(&1));
    lfu.evict();
    assert!(!lfu.contains(&3));
    assert!(lfu.contains(&2));
    assert_eq!(lfu.len(), 1);
}

#[test]
fn eviction_after_removing_the_least_used() {
    let mut lfu = LFUCache::with_capacity(3).unwrap();
    lfu.set(1, 1);
    lfu.get(&1);
    lfu.set(2, 2);
    lfu.get(&2);
    lfu.get(&2);
    lfu.set(3, 3);
    assert!(lfu.remove(3));
    lfu.evict();
    assert!(!lfu.contains(&1));
    assert!(lfu.contains(&2));
}

#[test]
fn get_mut_changes_value_in_place() {
    let mut lfu = LFUCache::with_capacity(2).unwrap();
    lfu.set(1, 1);
    lfu.set(2, 2);
    if let Some(v) = lfu.get_mut(&2) {
        *v = 200;
    }
    assert_eq!(lfu.get_mut(&3), None);
    lfu.set(3, 3);
    assert_eq!(lfu.get(&1), None);
    assert_eq!(lfu.get(&2), Some(&200));
}

#[test]
fn contains_does_not_count_as_use() {
    let mut lfu = LFUCache::with_capacity(2).unwrap();
    lfu.set(1, 1);
    lfu.set(2, 2);
    assert!(lfu.contains(&1));
    assert!(lfu.contains(&1));
    lfu.set(3, 3);
    assert!(!lfu.contains(&1));
    assert!(lfu.contains(&2));
}

#[test]
fn iteration_yields_every_entry_once() {
    let mut lfu = LFUCache::with_capacity(3).unwrap();
    lfu.set(1, 10);
    lfu.set(2, 20);
    lfu.set(3, 30);
    lfu.remove(2);
    let mut seen = Vec::new();
    let mut it = lfu.iter();
    while let Some((k, v)) = it.next() {
        assert_eq!(*v, k * 10);
        seen.push(k);
    }
    seen.sort();
    assert_eq!(seen, vec![1, 3]);
}

#[test]
fn consumption_drains_all_entries() {
    let mut lfu = LFUCache::with_capacity(3).unwrap();
    lfu.set(1, 10);
    lfu.set(2, 20);
    lfu.set(3, 30);
    let mut pairs = Vec::new();
    let mut it = lfu.into_iter();
    while let Some(p) = it.next() {
        pairs.push(p);
    }
    pairs.sort();
    assert_eq!(pairs, vec![(1, 10), (2, 20), (3, 30)]);
    assert!(it.next().is_none());
}

#[test]
fn counter_increments_by_one() {
    let mut vc = ValueCounter { key: 7, value: "x", count: 1 };
    vc.inc();
    vc.inc();
    assert_eq!(vc.count, 3);
    assert_eq!(vc.key, 7);
    assert_eq!(vc.value, "x");
}
