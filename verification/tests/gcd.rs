use lib::ll::gcd;

/// Runs `gcd` with an output buffer of `cap` limbs filled with a marker, and
/// returns the result's limbs and the buffer.
fn run(a: &[u64], b: &[u64], cap: usize) -> (Vec<u64>, Vec<u64>) {
    let mut g = vec![0xdead_beef_u64; cap];
    let n = gcd(&mut g, a, a.len() as i32, b, b.len() as i32);
    assert!(n >= 0);
    (g[..n as usize].to_vec(), g)
}

#[test]
fn gcd_single_limb() {
    let (r, _) = run(&[18], &[12], 1);
    assert_eq!(r, vec![6]);
}

#[test]
fn gcd_coprime() {
    let (r, _) = run(&[35], &[12], 1);
    assert_eq!(r, vec![1]);
}

#[test]
fn gcd_equal_numbers() {
    let (r, _) = run(&[0x8000_0000_0000_0000], &[0x8000_0000_0000_0000], 1);
    assert_eq!(r, vec![0x8000_0000_0000_0000]);
}

#[test]
fn gcd_two_limbs_against_one() {
    let (r, _) = run(&[12566774096673229136, 18441556806163220353], &[11777717384603786643], 2);
    assert_eq!(r, vec![3]);
}

#[test]
fn gcd_common_zero_limbs_and_bits() {
    let a = [0, 16856095833739064320, 7745705235587364025, 8218847120404557736];
    let b = [0, 3505401942447227136, 12799027198773135643, 56627071895];
    let (r, g) = run(&a, &b, 5);
    assert_eq!(r, vec![0, 12055542822249707776, 6762930190322, 0]);
    assert_eq!(g[4], 0xdead_beef);
}

#[test]
fn gcd_power_of_two_limbs() {
    // 6 * 2^64 and 4 * 2^64 have 2^65 as their gcd.
    let (r, _) = run(&[0, 6], &[0, 4], 2);
    assert_eq!(r, vec![0, 2]);
}

#[test]
fn gcd_result_gains_a_limb_when_shifted_back() {
    // 2^64 + 2 with itself: the odd part 2^63 + 1 fits in one limb, and
    // shifting it back by one bit carries into a second limb.
    let (r, _) = run(&[2, 1], &[2, 1], 2);
    assert_eq!(r, vec![2, 1]);
}

#[test]
fn gcd_high_zero_limbs_are_kept_in_the_count() {
    let (r, _) = run(&[30, 0, 0], &[42, 0], 3);
    assert_eq!(r, vec![6, 0]);
}

#[test]
fn gcd_first_zero_gives_second() {
    let (r, _) = run(&[0, 0], &[5, 0], 2);
    assert_eq!(r, vec![5, 0]);
}

#[test]
fn gcd_second_zero_gives_zero_limbs() {
    let (r, _) = run(&[7, 1], &[0], 1);
    assert_eq!(r, vec![0]);
}

#[test]
fn gcd_keeps_limbs_past_the_result() {
    let (r, g) = run(&[100, 0], &[75, 0], 4);
    assert_eq!(r, vec![25, 0]);
    assert_eq!(&g[2..], &[0xdead_beef, 0xdead_beef]);
}

#[test]
fn gcd_leaves_its_inputs_alone() {
    let a = vec![84u64, 3];
    let b = vec![36u64];
    let mut g = vec![0u64; 1];
    let n = gcd(&mut g, &a, 2, &b, 1);
    assert_eq!(a, vec![84, 3]);
    assert_eq!(b, vec![36]);
    // 3 * 2^64 + 84 = 4 * (3 * 2^62 + 21), with 21 = 3 * 7 and 2^62 = 1 mod 3.
    assert_eq!(n, 1);
    assert_eq!(g[0], 12);
}

#[test]
fn gcd_order_does_not_matter() {
    let (r1, _) = run(&[0x1234_5678_9abc_def0, 77], &[0xfedc_ba98_7654_3210, 91], 2);
    let (r2, _) = run(&[0xfedc_ba98_7654_3210, 91], &[0x1234_5678_9abc_def0, 77], 2);
    assert_eq!(r1, r2);
}

#[test]
fn gcd_divides_both_and_is_greatest() {
    let a: u128 = (5u128 << 64) + 0x0123_4567_89ab_cdef;
    let b: u128 = (3u128 << 64) + 0x0fed_cba9_8765_4321;
    let (r, _) = run(&[a as u64, (a >> 64) as u64], &[b as u64, (b >> 64) as u64], 2);
    let mut g: u128 = 0;
    for (i, limb) in r.iter().enumerate() {
        g |= (*limb as u128) << (64 * i);
    }
    assert_eq!(a % g, 0);
    assert_eq!(b % g, 0);
    // Euclid on the same numbers.
    let (mut x, mut y) = (a, b);
    while y != 0 {
        let t = x % y;
        x = y;
        y = t;
    }
    assert_eq!(g, x);
}

#[test]
fn gcd_count_is_that_of_the_second_number() {
    let (r, _) = run(&[3, 1], &[1, 1], 2);
    assert_eq!(r, vec![1, 0]);
    let (r, _) = run(&[6, 0], &[4, 0], 2);
    assert_eq!(r, vec![2, 0]);
}

#[test]
fn gcd_count_drops_a_limb_after_a_limb_of_shifts() {
    let a = [7178837885326588077, 2339687661985705607, 18444504624841963581];
    let b = [7178837885326588077, 2339471532788919943, 18444504624841963581];
    let (r, _) = run(&a, &b, 3);
    assert_eq!(r, vec![1, 0]);
}

#[test]
fn gcd_equal_size_numbers_ordered_by_value() {
    // 27 * 2^63 and 3 * 2^63: the gcd is 3 * 2^63, two limbs.
    let (r, _) = run(&[1 << 63, 13], &[1 << 63, 1], 2);
    assert_eq!(r, vec![1 << 63, 1]);
}

#[test]
fn gcd_carry_limb_is_written_past_the_count() {
    // 3 * 2^63 and 27 * 2^63: the count kept for the second number is 1, and
    // putting back 2^63 carries into the limb after it.
    let (r, g) = run(&[1 << 63, 1], &[1 << 63, 13], 3);
    assert_eq!(r, vec![1 << 63]);
    assert_eq!(g[1], 1);
    assert_eq!(g[2], 0xdead_beef);
}
