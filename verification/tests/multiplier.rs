use polycrc::pmul::{pmul32, pmul64};

/// The product by its definition: the parity of the products of the
/// coefficients whose places add up to `k`.
fn coefficient(a: u64, b: u64, k: u32) -> bool {
    let mut parity = false;
    for i in 0..64u32 {
        if i <= k && k - i < 64 {
            parity ^= (a >> i) & 1 == 1 && (b >> (k - i)) & 1 == 1;
        }
    }
    parity
}

fn reference64(a: u64, b: u64) -> (u64, u64) {
    let mut lo = 0u64;
    let mut hi = 0u64;
    for k in 0..64u32 {
        if coefficient(a, b, k) {
            lo |= 1 << k;
        }
        if coefficient(a, b, k + 64) {
            hi |= 1 << k;
        }
    }
    (lo, hi)
}

/// A small generator of test words.
fn next(state: &mut u64) -> u64 {
    *state ^= *state << 13;
    *state ^= *state >> 7;
    *state ^= *state << 17;
    *state
}

#[test]
fn pmul64_exact_values() {
    assert_eq!(pmul64(0, 0), (0, 0));
    assert_eq!(pmul64(0, 0xdead_beef), (0, 0));
    assert_eq!(pmul64(1, 0xdead_beef), (0xdead_beef, 0));
    assert_eq!(pmul64(3, 3), (5, 0));
    assert_eq!(pmul64(u64::MAX, u64::MAX), (0x5555_5555_5555_5555, 0x5555_5555_5555_5555));
    assert_eq!(pmul64(1 << 63, 1 << 63), (0, 0x4000_0000_0000_0000));
    assert_eq!(
        pmul64(0x1234_5678_9abc_def0, 0x0fed_cba9_8765_4321),
        (0x40a0_7898_28c8_10f0, 0x00e0_38d8_6888_50b0)
    );
}

#[test]
fn pmul64_has_no_carries() {
    // 3 * 3 is 9 with carries, x^2 + 1 without
    assert_eq!(pmul64(3, 3).0, 5);
    assert_ne!(pmul64(3, 3).0, 9);
}

#[test]
fn pmul64_monomial_shifts() {
    let b = 0x8000_0000_0000_0001u64;
    for s in 0..64u32 {
        let hi = if s == 0 { 0 } else { b >> (64 - s) };
        assert_eq!(pmul64(1 << s, b), (b << s, hi));
    }
}

#[test]
fn pmul64_matches_coefficients() {
    let mut state = 0x9e37_79b9_7f4a_7c15u64;
    for _ in 0..200 {
        let a = next(&mut state);
        let b = next(&mut state);
        assert_eq!(pmul64(a, b), reference64(a, b));
    }
}

#[test]
fn pmul64_commutes_and_distributes() {
    let mut state = 0x1234_5678_9abc_def1u64;
    for _ in 0..100 {
        let a = next(&mut state);
        let b = next(&mut state);
        let c = next(&mut state);
        assert_eq!(pmul64(a, b), pmul64(b, a));
        let (l1, h1) = pmul64(a, c);
        let (l2, h2) = pmul64(b, c);
        assert_eq!(pmul64(a ^ b, c), (l1 ^ l2, h1 ^ h2));
    }
}

#[test]
fn pmul32_exact_values() {
    assert_eq!(pmul32(0, 0), (0, 0));
    assert_eq!(pmul32(1, 0xdead_beef), (0xdead_beef, 0));
    assert_eq!(pmul32(3, 3), (5, 0));
    assert_eq!(pmul32(u32::MAX, u32::MAX), (0x5555_5555, 0x5555_5555));
    assert_eq!(pmul32(0x1234_5678, 0x9abc_def0), (0x5cd2_5a80, 0x0886_0e94));
    assert_eq!(pmul32(1 << 31, 1 << 31), (0, 0x4000_0000));
}

#[test]
fn pmul32_matches_coefficients() {
    let mut state = 0x0bad_cafe_dead_beefu64;
    for _ in 0..200 {
        let a = next(&mut state) as u32;
        let b = next(&mut state) as u32;
        let (lo, hi) = pmul32(a, b);
        for k in 0..32u32 {
            assert_eq!((lo >> k) & 1 == 1, coefficient(a as u64, b as u64, k));
            assert_eq!((hi >> k) & 1 == 1, coefficient(a as u64, b as u64, k + 32));
        }
    }
}

#[test]
fn pmul32_is_the_low_half_of_pmul64() {
    let mut state = 0x0123_4567_89ab_cdefu64;
    for _ in 0..100 {
        let a = next(&mut state) as u32;
        let b = next(&mut state) as u32;
        let (lo, hi) = pmul32(a, b);
        let (lo64, hi64) = pmul64(a as u64, b as u64);
        assert_eq!(hi64, 0);
        assert_eq!(lo64, ((hi as u64) << 32) | lo as u64);
    }
}
