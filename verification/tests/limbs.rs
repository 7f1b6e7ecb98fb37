use lib::ll::limbs::{
    copy_incr, drop_high_zero_limbs, greater_or_equal, is_zero, shl, shr, strip_low_zero_limbs, sub,
};

#[test]
fn is_zero_on_windows() {
    let x = vec![5u64, 0, 0, 7];
    assert!(is_zero(&x, 1, 2));
    assert!(!is_zero(&x, 0, 2));
    assert!(!is_zero(&x, 2, 2));
    assert!(is_zero(&x, 1, 0));
}

#[test]
fn shr_moves_bits_down_across_limbs() {
    let mut x = vec![9u64, 0b1011, 0x8000_0000_0000_0001, 9];
    shr(&mut x, 1, 2, 1);
    assert_eq!(x, vec![9, 0x8000_0000_0000_0005, 0x4000_0000_0000_0000, 9]);
}

#[test]
fn shr_by_many_bits() {
    let mut x = vec![0xff00u64, 0xab];
    shr(&mut x, 0, 2, 8);
    assert_eq!(x, vec![0xab00_0000_0000_00ff, 0]);
}

#[test]
fn shl_returns_the_carry() {
    let src = vec![0x8000_0000_0000_0001u64, 0xf000_0000_0000_0000];
    let mut dst = vec![1u64, 1, 1, 1];
    let carry = shl(&mut dst, 1, &src, 0, 2, 4);
    assert_eq!(carry, 0xf);
    assert_eq!(dst, vec![1, 0x10, 0x8, 1]);
}

#[test]
fn sub_borrows_across_limbs() {
    let mut x = vec![0u64, 0, 1];
    let y = vec![1u64];
    sub(&mut x, 0, 3, &y, 0, 1);
    assert_eq!(x, vec![u64::MAX, u64::MAX, 0]);
}

#[test]
fn sub_equal_gives_zero() {
    let mut x = vec![3u64, 4, 5];
    let y = vec![7u64, 4, 5];
    sub(&mut x, 1, 2, &y, 1, 2);
    assert_eq!(x, vec![3, 0, 0]);
}

#[test]
fn greater_or_equal_compares_from_the_top() {
    let x = vec![1u64, 5];
    let y = vec![9u64, 4];
    assert!(greater_or_equal(&x, 0, &y, 0, 2));
    assert!(!greater_or_equal(&y, 0, &x, 0, 2));
    assert!(greater_or_equal(&x, 0, &x, 0, 2));
    assert!(!greater_or_equal(&x, 0, &y, 0, 1));
}

#[test]
fn copy_incr_copies_a_window() {
    let src = vec![1u64, 2, 3, 4];
    let mut dst = vec![0u64; 3];
    copy_incr(&mut dst, 1, &src, 2, 2);
    assert_eq!(dst, vec![0, 3, 4]);
}

#[test]
fn strip_low_zero_limbs_moves_the_start() {
    let x = vec![0u64, 0, 6, 1];
    let mut off = 0usize;
    let mut n = 4usize;
    strip_low_zero_limbs(&x, &mut off, &mut n);
    assert_eq!((off, n), (2, 2));
    let z = vec![0u64, 0];
    let mut off = 0usize;
    let mut n = 2usize;
    strip_low_zero_limbs(&z, &mut off, &mut n);
    assert_eq!((off, n), (0, 2));
}

#[test]
fn drop_high_zero_limbs_shortens_the_window() {
    let x = vec![4u64, 0, 0];
    let mut n = 3usize;
    drop_high_zero_limbs(&x, 0, &mut n);
    assert_eq!(n, 1);
}
