//! A larger end-to-end run over the whole trie.

use rudy::rudymap::RudyMap;

#[test]
fn smoke_test() {
    let mut map: RudyMap<u32, u32> = RudyMap::new();
    let n = 10_000;

    for i in 0..n {
        assert!(map.insert(i, i).is_none());
    }

    for i in 0..n {
        assert_eq!(map.remove(i), Some(i));
    }
}
