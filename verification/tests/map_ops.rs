//! The map facade: inserts, lookups, removals, lengths.

use rudy::rudymap::RudyMap;

#[test]
fn mod_test_insert_get_1() {
    let mut map = RudyMap::<usize, usize>::new();
    map.insert(4usize, 10usize);
    assert_eq!(map.get(4), Some(&10));
}

#[test]
fn mod_test_insert_get_2() {
    let mut map = RudyMap::<usize, usize>::new();
    map.insert(0usize, 10usize);
    map.insert(1usize, 20usize);
    assert_eq!(map.get(0), Some(&10));
    assert_eq!(map.get(1), Some(&20));
}

#[test]
fn mod_test_contains_key() {
    let mut map = RudyMap::<u32, u32>::new();
    assert_eq!(map.contains_key(0), false);
    assert_eq!(map.contains_key(1), false);

    assert_eq!(map.insert(0, 0), None);
    assert_eq!(map.contains_key(0), true);
    assert_eq!(map.contains_key(1), false);

    assert_eq!(map.remove(0), Some(0));
    assert_eq!(map.contains_key(0), false);
    assert_eq!(map.contains_key(1), false);
}

#[test]
fn mod_test_len() {
    let mut map = RudyMap::<u32, u32>::new();
    assert_eq!(map.len(), 0);
    assert_eq!(map.is_empty(), true);

    assert_eq!(map.insert(0, 0), None);
    assert_eq!(map.len(), 1);
    assert_eq!(map.is_empty(), false);

    assert_eq!(map.insert(1, 1), None);
    assert_eq!(map.len(), 2);
    assert_eq!(map.is_empty(), false);

    assert_eq!(map.insert(0, 2), Some(0));
    assert_eq!(map.len(), 2);
    assert_eq!(map.is_empty(), false);

    assert_eq!(map.remove(0), Some(2));
    assert_eq!(map.len(), 1);
    assert_eq!(map.is_empty(), false);

    assert_eq!(map.remove(1), Some(1));
    assert_eq!(map.len(), 0);
    assert_eq!(map.is_empty(), true);
}

#[test]
fn rudymap_test_insert_get_1() {
    let mut map = RudyMap::<usize, usize>::new();
    map.insert(4usize, 10usize);
    assert_eq!(map.get(4), Some(&10));
}

#[test]
fn rudymap_test_insert_get_2() {
    let mut map = RudyMap::<usize, usize>::new();
    map.insert(0usize, 10usize);
    map.insert(1usize, 20usize);
    assert_eq!(map.get(0), Some(&10));
    assert_eq!(map.get(1), Some(&20));
}

#[test]
fn test_get_mut() {
    let mut map = RudyMap::<u32, u32>::new();
    assert!(map.get(0).is_none());
    assert!(map.get_mut(0).is_none());

    assert_eq!(map.insert(0, 0), None);
    assert_eq!(map.get(0), Some(&0));
    assert_eq!(map.get_mut(0), Some(&mut 0));
    assert_eq!(map.get(1), None);
    assert_eq!(map.get_mut(1), None);

    *map.get_mut(0).unwrap() += 42;
    assert_eq!(map.get(0), Some(&42));
    assert_eq!(map.get_mut(0), Some(&mut 42));

    map.remove(0);
}

#[test]
fn test_get_mut_deep() {
    // mutate through the borrow at every root shape of the ladder
    let mut map = RudyMap::<u32, u32>::new();
    for n in [1u32, 2, 3, 32, 300].iter().copied() {
        while (map.len() as u32) < n {
            let i = map.len() as u32;
            map.insert(i, i);
        }
        *map.get_mut(n - 1).unwrap() = 1000 + n;
        assert_eq!(map.get(n - 1), Some(&(1000 + n)));
        assert!(map.get_mut(n + 100000).is_none());
    }
}

#[test]
fn test_signed_keys() {
    let mut map = RudyMap::<i32, u32>::new();
    assert_eq!(map.insert(-5, 1), None);
    assert_eq!(map.insert(0, 2), None);
    assert_eq!(map.insert(5, 3), None);
    assert_eq!(map.get(-5), Some(&1));
    assert_eq!(map.get(0), Some(&2));
    assert_eq!(map.get(5), Some(&3));
    assert_eq!(map.remove(-5), Some(1));
    assert_eq!(map.get(-5), None);
    assert_eq!(map.len(), 2);
}

#[test]
fn test_wide_byte_fanout() {
    // more than seven distinct bytes at one trie level forces the linear
    // branch to grow into the bitmap branch
    let mut map = RudyMap::<u32, u64>::new();
    let n: u32 = 20;
    for i in 0..n {
        assert_eq!(map.insert(i * 65536, (i as u64) + 100), None);
    }
    assert_eq!(map.len(), n as usize);
    for i in 0..n {
        assert_eq!(map.get(i * 65536), Some(&((i as u64) + 100)));
    }
    for i in 0..n {
        assert_eq!(map.remove(i * 65536), Some((i as u64) + 100));
    }
    assert_eq!(map.len(), 0);
}

#[test]
fn test_dense_last_byte() {
    // every value of the last key byte lands in one bitmap leaf
    let mut map = RudyMap::<u32, u32>::new();
    for i in 0..=255u32 {
        assert_eq!(map.insert(i, i + 1), None);
    }
    assert_eq!(map.len(), 256);
    for i in 0..=255u32 {
        assert_eq!(map.get(i), Some(&(i + 1)));
    }
    for i in 0..=255u32 {
        assert_eq!(map.remove(i), Some(i + 1));
    }
    assert_eq!(map.len(), 0);
}
