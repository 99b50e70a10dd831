//! Round trips and ordering of the key codec.

use rudy::Key;

/// Test that into_bytes and from_bytes reverse each other
#[test]
fn test_equivalence() {
    // Unsigned
    let array = 10u8.into_bytes();
    assert_eq!(u8::from_bytes(array), 10u8);
    let array = 10u16.into_bytes();
    assert_eq!(u16::from_bytes(array), 10u16);
    let array = 10u32.into_bytes();
    assert_eq!(u32::from_bytes(array), 10u32);
    let array = 10u64.into_bytes();
    assert_eq!(u64::from_bytes(array), 10u64);

    // Signed
    let array = (-1i8).into_bytes();
    assert_eq!(i8::from_bytes(array), -1i8);
    let array = (-1i16).into_bytes();
    assert_eq!(i16::from_bytes(array), -1i16);
    let array = (-1i32).into_bytes();
    assert_eq!(i32::from_bytes(array), -1i32);
    let array = (-1i64).into_bytes();
    assert_eq!(i64::from_bytes(array), -1i64);
}

#[test]
fn test_exact_encodings() {
    assert_eq!(7u8.into_bytes(), vec![7u8]);
    assert_eq!(0x0102u16.into_bytes(), vec![1u8, 2]);
    assert_eq!(0x01020304u32.into_bytes(), vec![1u8, 2, 3, 4]);
    assert_eq!(0x0102030405060708u64.into_bytes(), vec![1u8, 2, 3, 4, 5, 6, 7, 8]);
    assert_eq!(9usize.into_bytes(), vec![0u8, 0, 0, 0, 0, 0, 0, 9]);
    // signed keys are biased by the type minimum before encoding
    assert_eq!((-128i8).into_bytes(), vec![0u8]);
    assert_eq!(0i8.into_bytes(), vec![0x80u8]);
    assert_eq!(127i8.into_bytes(), vec![0xffu8]);
    assert_eq!(0i32.into_bytes(), vec![0x80u8, 0, 0, 0]);
    assert_eq!((-1i64).into_bytes(), vec![0x7fu8, 0xff, 0xff, 0xff, 0xff, 0xff, 0xff, 0xff]);
}

#[test]
fn test_round_trip_extremes() {
    // every representable extreme of each signed type decodes back
    for &k in [i8::MIN, -1, 0, 1, i8::MAX].iter() {
        assert_eq!(i8::from_bytes(k.into_bytes()), k);
    }
    for &k in [i16::MIN, -1, 0, 1, i16::MAX].iter() {
        assert_eq!(i16::from_bytes(k.into_bytes()), k);
    }
    for &k in [i32::MIN, -1, 0, 1, i32::MAX].iter() {
        assert_eq!(i32::from_bytes(k.into_bytes()), k);
    }
    for &k in [i64::MIN, -1, 0, 1, i64::MAX].iter() {
        assert_eq!(i64::from_bytes(k.into_bytes()), k);
    }
    for &k in [isize::MIN, -1, 0, 1, isize::MAX].iter() {
        assert_eq!(isize::from_bytes(k.into_bytes()), k);
    }
    for &k in [0usize, 1, usize::MAX].iter() {
        assert_eq!(usize::from_bytes(k.into_bytes()), k);
    }
    for &k in [0u64, 1, u64::MAX].iter() {
        assert_eq!(u64::from_bytes(k.into_bytes()), k);
    }
}

#[test]
fn test_encode_monotone() {
    // lexicographic byte order equals numeric order, across signed zero too
    let signed: Vec<i32> = vec![i32::MIN, -7, -1, 0, 1, 7, i32::MAX];
    for w in signed.windows(2) {
        assert!(w[0].into_bytes() < w[1].into_bytes());
    }
    let unsigned: Vec<u32> = vec![0, 1, 255, 256, 65536, u32::MAX];
    for w in unsigned.windows(2) {
        assert!(w[0].into_bytes() < w[1].into_bytes());
    }
}
