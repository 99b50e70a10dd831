//! End-to-end behaviour of the map: the growth ladder, boundary
//! populations, replacement, order independence and drop counting.

use std::sync::atomic::{AtomicUsize, Ordering};

use rudy::rudymap::RudyMap;

#[derive(Debug)]
pub struct Droppable<'a>(pub &'a AtomicUsize);

impl<'a> Drop for Droppable<'a> {
    fn drop(&mut self) {
        self.0.fetch_add(1, Ordering::AcqRel);
    }
}

#[test]
fn test_zero_population() {
    let mut map = RudyMap::<u32, u32>::new();
    assert_eq!(map.len(), 0);
    assert_eq!(map.is_empty(), true);
    assert_eq!(map.get(0), None);
    assert_eq!(map.get(u32::MAX), None);
    assert_eq!(map.remove(0), None);
    assert_eq!(map.remove(7), None);
    assert_eq!(map.len(), 0);
}

#[test]
fn test_single_entry() {
    let mut map = RudyMap::<u32, u32>::new();
    map.insert(4, 10);
    assert_eq!(map.get(4), Some(&10));
    assert_eq!(map.len(), 1);
}

#[test]
fn test_two_entries() {
    let mut map = RudyMap::<u32, u32>::new();
    map.insert(0, 10);
    map.insert(1, 20);
    assert_eq!(map.get(0), Some(&10));
    assert_eq!(map.get(1), Some(&20));
    assert_eq!(map.len(), 2);
}

#[test]
fn test_contains_after_ops() {
    let mut map = RudyMap::<u32, u32>::new();
    map.insert(0, 0);
    assert!(map.contains_key(0));
    assert!(!map.contains_key(1));
    assert_eq!(map.remove(0), Some(0));
    assert!(!map.contains_key(0));
}

#[test]
fn test_replace_and_drain() {
    let mut map = RudyMap::<u32, u32>::new();
    map.insert(0, 0);
    map.insert(1, 1);
    assert_eq!(map.insert(0, 2), Some(0));
    assert_eq!(map.len(), 2);
    assert_eq!(map.remove(0), Some(2));
    assert_eq!(map.remove(1), Some(1));
    assert_eq!(map.len(), 0);
}

#[test]
fn test_ten_thousand() {
    let mut map = RudyMap::<u32, u32>::new();
    for i in 1..=10000u32 {
        assert_eq!(map.insert(i, i + 1), None);
    }
    for i in 1..=10000u32 {
        assert_eq!(map.get(i), Some(&(i + 1)));
    }
    assert_eq!(map.len(), 10000);
    for i in 1..=10000u32 {
        assert_eq!(map.remove(i), Some(i + 1));
    }
    assert_eq!(map.len(), 0);
    assert_eq!(map.get(5), None);
}

#[test]
fn test_promote_boundaries() {
    // 1, 2, 3 and 32 distinct keys walk the root through every shape of the
    // ladder; nothing may be lost at any step
    let boundaries = [1u32, 2, 3, 32];
    for &n in boundaries.iter() {
        let mut map = RudyMap::<u32, u32>::new();
        for i in 0..n {
            assert_eq!(map.insert(i, i * 2), None);
            // after every promotion all earlier keys remain retrievable
            for j in 0..=i {
                assert_eq!(map.get(j), Some(&(j * 2)));
            }
        }
        assert_eq!(map.len(), n as usize);
    }
}

#[test]
fn test_demote_boundary() {
    // removing from the two-entry leaf leaves the other entry in the
    // one-entry leaf
    let mut map = RudyMap::<u32, u32>::new();
    map.insert(3, 30);
    map.insert(8, 80);
    assert_eq!(map.remove(3), Some(30));
    assert_eq!(map.len(), 1);
    assert_eq!(map.get(8), Some(&80));
    assert_eq!(map.remove(8), Some(80));
    assert_eq!(map.len(), 0);
}

#[test]
fn test_order_independence() {
    // the same entries in two different orders give get-equivalent maps
    let pairs: Vec<(u32, u32)> = vec![(1, 10), (2, 20), (3, 30), (300, 40), (70000, 50)];
    let mut forward = RudyMap::<u32, u32>::new();
    for &(k, v) in pairs.iter() {
        forward.insert(k, v);
    }
    let mut backward = RudyMap::<u32, u32>::new();
    for &(k, v) in pairs.iter().rev() {
        backward.insert(k, v);
    }
    for &(k, v) in pairs.iter() {
        assert_eq!(forward.get(k), Some(&v));
        assert_eq!(backward.get(k), Some(&v));
    }
    assert_eq!(forward.len(), backward.len());
}

#[test]
fn test_insert_remove_restores() {
    let mut map = RudyMap::<u32, u32>::new();
    for i in 0..40u32 {
        map.insert(i, i);
    }
    let len_before = map.len();
    assert_eq!(map.insert(1000, 7), None);
    assert_eq!(map.remove(1000), Some(7));
    assert_eq!(map.len(), len_before);
    assert_eq!(map.get(1000), None);
}

#[test]
fn test_drop_counting() {
    // the container drops each stored value exactly once
    let drop_count = AtomicUsize::new(0);
    let n: u32 = 100;
    {
        let mut map = RudyMap::<u32, Droppable>::new();
        for i in 0..n {
            map.insert(i, Droppable(&drop_count));
        }
        assert_eq!(drop_count.load(Ordering::Acquire), 0);

        // replacing a value drops the evicted one, once
        let evicted = map.insert(0, Droppable(&drop_count));
        assert_eq!(drop_count.load(Ordering::Acquire), 0);
        drop(evicted);
        assert_eq!(drop_count.load(Ordering::Acquire), 1);

        // removing a value hands it out; dropping it counts once
        let removed = map.remove(1);
        assert_eq!(drop_count.load(Ordering::Acquire), 1);
        drop(removed);
        assert_eq!(drop_count.load(Ordering::Acquire), 2);
    }
    // dropping the container drops exactly the remaining values
    assert_eq!(drop_count.load(Ordering::Acquire), (n as usize) + 1);
}

#[test]
fn test_deep_u64_keys() {
    // eight-byte keys walk the full depth of the trie
    let mut map = rudy::rudymap::RudyMap::<u64, u64>::new();
    let keys: Vec<u64> = vec![0, 1, u64::MAX, 0x0102030405060708, 1 << 63, (1 << 63) + 1, 77];
    for (i, &k) in keys.iter().enumerate() {
        assert_eq!(map.insert(k, i as u64), None);
    }
    for (i, &k) in keys.iter().enumerate() {
        assert_eq!(map.get(k), Some(&(i as u64)));
    }
    assert_eq!(map.len(), keys.len());
    for (i, &k) in keys.iter().enumerate() {
        assert_eq!(map.remove(k), Some(i as u64));
    }
    assert!(map.is_empty());
}

#[test]
fn test_u8_and_u16_keys() {
    let mut small = RudyMap::<u8, u32>::new();
    for i in 0..=255u8 {
        assert_eq!(small.insert(i, i as u32), None);
    }
    assert_eq!(small.len(), 256);
    for i in 0..=255u8 {
        assert_eq!(small.get(i), Some(&(i as u32)));
    }

    let mut wide = RudyMap::<u16, u16>::new();
    for i in (0..2000u16).map(|x| x.wrapping_mul(31)) {
        wide.insert(i, i);
    }
    for i in (0..2000u16).map(|x| x.wrapping_mul(31)) {
        assert_eq!(wide.get(i), Some(&i));
    }
}
