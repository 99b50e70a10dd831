//! Byte-string reads and writes, the linear search, the lockstep arrays and
//! the bitmap leaf, including their drop behaviour.

use std::sync::atomic::{AtomicUsize, Ordering};

use rudy::rudymap::leaf_bitmap::LeafBitmap;
use rudy::util::locksteparray::{InsertError, LockstepArray};
use rudy::util::{linear_search, partial_read, partial_write};

#[derive(Debug)]
pub struct Droppable<'a>(pub &'a AtomicUsize);

impl<'a> Drop for Droppable<'a> {
    fn drop(&mut self) {
        self.0.fetch_add(1, Ordering::AcqRel);
    }
}

#[test]
fn test_partial_read() {
    let array = vec![1u8, 2u8];
    assert_eq!(partial_read(&array), 0x102);
}

#[test]
fn test_partial_write() {
    let mut array = vec![0u8; 2];
    partial_write(&mut array, 0x102);
    assert_eq!(array, vec![0x1u8, 0x2]);
}

#[test]
fn test_read_write() {
    let mut array = vec![0xffu8; 2];
    partial_write(&mut array, 0x0201);
    assert_eq!(partial_read(&array), 0x0201);

    let mut array = vec![0xffu8; 4];
    partial_write(&mut array, 0x32659374);
    assert_eq!(partial_read(&array), 0x32659374);
}

#[test]
fn test_find_item() {
    let array = vec![0, 1, 2, 3];
    assert_eq!(linear_search(&array, &2), Ok(2));
}

#[test]
fn test_find_open() {
    let array = vec![0, 1, 1, 3];
    assert_eq!(linear_search(&array, &2), Err(3));
}

#[test]
fn test_find_end_open() {
    let array = vec![0, 1, 2, 3];
    assert_eq!(linear_search(&array, &4), Err(4))
}

#[test]
fn test_remove() {
    let mut locksteparray = LockstepArray::<u8, u8, 7>::new();
    locksteparray.push(1, 2).unwrap();
    locksteparray.push(3, 4).unwrap();
    locksteparray.remove(0);
    assert_eq!(locksteparray.get(0), Some((&3, &4)));
    locksteparray.push(5, 6).unwrap();
    locksteparray.remove(1);
    assert_eq!(locksteparray.get(0), Some((&3, &4)));
}

#[test]
fn test_length() {
    let mut locksteparray = LockstepArray::<u8, u8, 7>::new();
    assert_eq!(locksteparray.len(), 0);
    assert!(locksteparray.is_empty());
    locksteparray.insert(0, 4, 5).unwrap();
    assert_eq!(locksteparray.len(), 1);
    locksteparray.insert(1, 3, 4).unwrap();
    assert_eq!(locksteparray.len(), 2);
    locksteparray.pop();
    assert_eq!(locksteparray.len(), 1);
    locksteparray.pop();
    assert_eq!(locksteparray.len(), 0);
    assert!(locksteparray.is_empty());
}

#[test]
fn locksteparray_test_drop() {
    let drop_count = AtomicUsize::new(0);

    {
        let mut locksteparray = LockstepArray::<u8, Droppable, 7>::new();
        assert_eq!(drop_count.load(Ordering::Acquire), 0);

        // inserting should cause no drops
        locksteparray.insert(0, 255, Droppable(&drop_count)).unwrap();
        assert_eq!(locksteparray.len(), 1);
        assert_eq!(drop_count.load(Ordering::Acquire), 0);

        // inserting to a new index should not cause drops
        locksteparray.insert(1, 255, Droppable(&drop_count)).unwrap();
        assert_eq!(locksteparray.len(), 2);
        assert_eq!(drop_count.load(Ordering::Acquire), 0);

        // inserting to a used index should not cause a drop, since the array expands
        locksteparray.insert(0, 255, Droppable(&drop_count)).unwrap();
        assert_eq!(locksteparray.len(), 3);
        assert_eq!(drop_count.load(Ordering::Acquire), 0);
    }

    // dropping should cause all items to drop
    assert_eq!(drop_count.load(Ordering::Acquire), 3);

    // reset the counter
    drop_count.store(0, Ordering::Release);

    {
        let overflow_drop_count = AtomicUsize::new(0);
        let mut locksteparray = LockstepArray::<u8, Droppable, 7>::new();
        assert_eq!(drop_count.load(Ordering::Acquire), 0);

        // insert seven things at location 0
        for i in 0..7 {
            locksteparray.insert(0, 255, Droppable(&drop_count)).unwrap();
            assert_eq!(locksteparray.len(), i + 1);
            assert_eq!(drop_count.load(Ordering::Acquire), 0);
        }

        // inserting again should fail with an overflow
        match locksteparray.insert(0, 255, Droppable(&overflow_drop_count)) {
            Err(InsertError::Overflow(_i, _droppable)) => {
                // ...but no drops should yet occur
                assert_eq!(overflow_drop_count.load(Ordering::Acquire), 0);
                assert_eq!(drop_count.load(Ordering::Acquire), 0);
            },
            _ => {
                panic!("expected overflow")
            },
        }

        // overflowed element should now be dropped, since we dropped it when it went of scope
        assert_eq!(overflow_drop_count.load(Ordering::Acquire), 1);

        // array should still have seven with no interior elements being dropped
        assert_eq!(locksteparray.len(), 7);
        assert_eq!(drop_count.load(Ordering::Acquire), 0);

        // pop one, let it drop
        locksteparray.pop().unwrap();
        assert_eq!(drop_count.load(Ordering::Acquire), 1);

        // remove another, let it drop
        locksteparray.remove(4).unwrap();
        assert_eq!(drop_count.load(Ordering::Acquire), 2);

        // drop the array
    }

    // all seven items should now be dropped
    assert_eq!(drop_count.load(Ordering::Acquire), 7);

    // reset the counter
    drop_count.store(0, Ordering::Release);
}

#[test]
fn leaf_bitmap_test_drop() {
    let drop_count = AtomicUsize::new(0);

    {
        // insert a single key
        let mut lb: LeafBitmap<Droppable> = LeafBitmap::new();
        lb.insert(0, Droppable(&drop_count)).success();

        // inserting into an empty map should cause no drops
        assert_eq!(drop_count.load(Ordering::Acquire), 0);

        // overwriting the key should drop the old key
        lb.insert(0, Droppable(&drop_count)).success();
        assert_eq!(drop_count.load(Ordering::Acquire), 1);
    }

    // dropping the LeafBitmap should drop its only value
    assert_eq!(drop_count.load(Ordering::Acquire), 2);

    // reset the counter
    drop_count.store(0, Ordering::Release);

    {
        let mut lb: LeafBitmap<Droppable> = LeafBitmap::new();
        for i in 0..256 {
            lb.insert(i as u8, Droppable(&drop_count)).success();
        }

        // inserting a full bitmap should cause no drops
        assert_eq!(drop_count.load(Ordering::Acquire), 0);

        // getting should cause no drops
        lb.get(1);
        lb.get_mut(2);
        assert_eq!(drop_count.load(Ordering::Acquire), 0);

        // removing one key should cause one drop
        lb.remove(42).success();
        assert_eq!(drop_count.load(Ordering::Acquire), 1);
    }

    // discarding the LeafBitmap should drop the others
    assert_eq!(drop_count.load(Ordering::Acquire), 256);
}

#[test]
fn test_push_overflow() {
    let mut locksteparray = LockstepArray::<u8, u8, 7>::new();
    for i in 0..7 {
        locksteparray.push(i, i).unwrap();
    }
    let e = locksteparray.push(9, 10).unwrap_err();
    assert_eq!(e.0, 9);
    assert_eq!(e.1, 10);
    assert_eq!(locksteparray.len(), 7);
}
