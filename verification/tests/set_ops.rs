//! The set facade.

use rudy::rudyset::RudySet;

#[test]
fn test_insert_empty() {
    let mut set = RudySet::<usize>::new();
    assert_eq!(set.insert(4usize), false);
}

#[test]
fn test_insert_exists() {
    let mut set = RudySet::<usize>::new();
    set.insert(4usize);
    assert_eq!(set.insert(4usize), true);
}

#[test]
fn test_remove_empty() {
    let mut set = RudySet::<usize>::new();
    assert_eq!(set.remove(4usize), false);
}

#[test]
fn test_remove_exists() {
    let mut set = RudySet::<usize>::new();
    set.insert(4usize);
    assert_eq!(set.remove(4usize), true);
}

#[test]
fn test_insert_contains_1() {
    let mut set = RudySet::<usize>::new();
    set.insert(4usize);
    assert_eq!(set.contains(4), true);
    assert_eq!(set.contains(10), false);
}

#[test]
fn test_insert_contains_2() {
    let mut set = RudySet::<usize>::new();
    set.insert(0);
    set.insert(1);
    assert_eq!(set.contains(0), true);
    assert_eq!(set.contains(1), true);
    assert_eq!(set.contains(2), false);
}

#[test]
fn rudyset_test_contains_key() {
    let mut set = RudySet::<u32>::new();
    assert_eq!(set.contains(0), false);
    assert_eq!(set.contains(1), false);

    assert_eq!(set.insert(0), false);
    assert_eq!(set.contains(0), true);
    assert_eq!(set.contains(1), false);

    assert_eq!(set.remove(0), true);
    assert_eq!(set.contains(0), false);
    assert_eq!(set.contains(1), false);
}

#[test]
fn rudyset_test_len() {
    let mut set = RudySet::<u32>::new();
    assert_eq!(set.len(), 0);
    assert_eq!(set.is_empty(), true);

    assert_eq!(set.insert(0), false);
    assert_eq!(set.len(), 1);
    assert_eq!(set.is_empty(), false);

    assert_eq!(set.insert(1), false);
    assert_eq!(set.len(), 2);
    assert_eq!(set.is_empty(), false);

    assert_eq!(set.insert(0), true);
    assert_eq!(set.len(), 2);
    assert_eq!(set.is_empty(), false);

    assert_eq!(set.remove(0), true);
    assert_eq!(set.len(), 1);
    assert_eq!(set.is_empty(), false);

    assert_eq!(set.remove(1), true);
    assert_eq!(set.len(), 0);
    assert_eq!(set.is_empty(), true);
}

#[test]
fn test_clear() {
    let mut set = RudySet::<u32>::new();
    assert_eq!(set.insert(0), false);
    assert_eq!(set.len(), 1);

    set.clear();
    assert_eq!(set.len(), 0);
    assert_eq!(set.is_empty(), true);
}
