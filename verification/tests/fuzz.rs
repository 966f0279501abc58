//! The input generators.

use cp2::test_fuzz::FuzzRng;

#[test]
fn equal_seeds_draw_equal_inputs() {
    let mut a = FuzzRng::new(42);
    let mut b = FuzzRng::new(42);
    for _ in 0..50 {
        assert_eq!(a.pathish(5), b.pathish(5));
        assert_eq!(a.string(20), b.string(20));
        assert_eq!(a.bytes(20), b.bytes(20));
        assert_eq!(a.byte(), b.byte());
        assert_eq!(a.next(), b.next());
    }
}

#[test]
fn draws_stay_in_their_bounds() {
    let mut r = FuzzRng::new(0);
    for n in 1..100 {
        assert!(r.below(n) < n);
        assert!(r.bytes(n).len() <= n);
        assert!(r.string(n).chars().count() <= n);
    }
    assert_eq!(r.below(1), 0);
    assert!(r.bytes(0).is_empty());
}

#[test]
fn first_draw_is_known() {
    let mut x: u64 = 7u64.wrapping_add(0x9E37_79B9_7F4A_7C15);
    x ^= x >> 12;
    x ^= x << 25;
    x ^= x >> 27;
    let want = x.wrapping_mul(0x2545_F491_4F6C_DD1D);
    assert_eq!(FuzzRng::new(7).next(), want);
}
