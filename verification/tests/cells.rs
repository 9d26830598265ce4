//! Tests of the cell storage, and of the drawing of cell indices.
use coll_birth::cell::{cell_index, decimate_once, Cell};
use coll_birth::prng::{incr, Prng};

// decimate_once consumes exactly t draws per call (accepted or rejected), returns Some only when
// every element's low d bits are zero, and the dense index is in [0, (2ᵘ⁻ᵈ)ᵗ).
#[test]
fn test_decimate_once_consumes_t_draws_and_is_dense() {
    let (t, u, s, d) = (3usize, 12usize, 0usize, 3usize);
    let bound = 1u128 << ((u - d) * t);
    let mut a = Prng::new(0xABCD_1234);
    let (mut accepted, mut rejected) = (0usize, 0usize);
    for _ in 0..50_000 {
        let b = a; // Copy: capture position before the attempt
        let got: Option<u128> = decimate_once::<u128, 3, false, _>(&mut a, 0, u, s, d);
        // A reference advanced by exactly t draws must be at the same position.
        let mut aref = b;
        for _ in 0..t {
            aref.next_u64();
        }
        let (mut a2, mut b2) = (a, aref);
        for _ in 0..4 {
            assert_eq!(
                a2.next_u64(),
                b2.next_u64(),
                "decimate_once must consume exactly t draws"
            );
        }
        match got {
            Some(x) => {
                assert!(x < bound, "dense index {x} not below {bound}");
                accepted += 1;
            }
            None => rejected += 1,
        }
    }
    assert!(
        accepted > 0 && rejected > 0,
        "expected both accepts and rejects (acc={accepted}, rej={rejected})"
    );
}

#[test]
fn test_dim_specialization_matches_runtime_fallback() {
    let (u, s) = (12usize, 0usize);
    let mut a = Prng::new(12_345);
    let mut b = a; // Prng: Copy → identical stream
    for _ in 0..2_000 {
        let spec: u64 = cell_index::<u64, 3, false, _>(&mut a, 0, u, s);
        let rt: u64 = cell_index::<u64, 0, false, _>(&mut b, 3, u, s);
        assert_eq!(spec, rt);
    }
}

#[test]
fn test_full_matches_shift_when_u_is_64() {
    let (u, s) = (64usize, 0usize);
    let mut a = Prng::new(999);
    let mut b = a;
    for _ in 0..2_000 {
        let full: u64 = cell_index::<u64, 1, true, _>(&mut a, 1, u, s);
        let shift: u64 = cell_index::<u64, 1, false, _>(&mut b, 1, u, s);
        assert_eq!(full, shift);
    }
}

/// The counter makes the words known: from the seed 0x1234_5678_9abc_ddee it draws
/// 0x1234_5678_9abc_ddef, then 0x1234_5678_9abc_ddf0.
#[test]
fn indices_concatenate_elements() {
    let seed = 0x1234_5678_9abc_ddee;
    let mut g = incr::Prng::new(seed);
    assert_eq!(cell_index::<u64, 0, false, _>(&mut g, 2, 8, 0), 0x1212);
    // The low byte, after a shift of 56.
    let mut g = incr::Prng::new(seed);
    assert_eq!(cell_index::<u64, 2, false, _>(&mut g, 0, 8, 56), 0xeff0);
    // Sixteen bits from the middle.
    let mut g = incr::Prng::new(seed);
    assert_eq!(cell_index::<u32, 1, false, _>(&mut g, 1, 16, 16), 0x5678);
    // Whole words.
    let mut g = incr::Prng::new(seed);
    assert_eq!(
        cell_index::<u128, 2, true, _>(&mut g, 2, 64, 0),
        0x1234_5678_9abc_ddef_1234_5678_9abc_ddf0
    );
    // Storage that is too narrow keeps the low bits.
    let mut g = incr::Prng::new(seed);
    assert_eq!(cell_index::<u32, 0, false, _>(&mut g, 3, 16, 0), 0x1234_1234);
}

#[test]
fn decimation_looks_at_every_element() {
    // Elements are the low bytes 0x0f, 0x10: the first one is not a multiple of 16.
    let mut g = incr::Prng::new(0x0e);
    assert_eq!(decimate_once::<u64, 0, false, _>(&mut g, 2, 8, 56, 4), None);
    assert_eq!(g.next_u64(), 0x11);
    // 0x10, 0x11: the second one is not.
    let mut g = incr::Prng::new(0x0f);
    assert_eq!(decimate_once::<u64, 2, false, _>(&mut g, 0, 8, 56, 4), None);
    // One element, which is.
    let mut g = incr::Prng::new(0xaf);
    assert_eq!(decimate_once::<u64, 1, false, _>(&mut g, 1, 8, 56, 4), Some(0xb));
    // Without decimation both agree.
    let mut g = incr::Prng::new(0xaf);
    assert_eq!(decimate_once::<u64, 2, false, _>(&mut g, 2, 8, 56, 0), Some(0xb0b1));
}

#[test]
fn conversions_keep_low_bits() {
    assert_eq!(<u32 as Cell>::from_u64(0x1_2345_6789), 0x2345_6789);
    assert_eq!(<u64 as Cell>::from_u64(u64::MAX), u64::MAX);
    assert_eq!(<u128 as Cell>::from_u64(7), 7);
    assert_eq!(<u32 as Cell>::from_u128(u128::MAX - 1), u32::MAX - 1);
    assert_eq!(<u64 as Cell>::from_u128(1u128 << 64), 0);
    assert_eq!(<u128 as Cell>::from_u128(u128::MAX), u128::MAX);
    assert_eq!(<u32 as Cell>::width(), 32);
    assert_eq!(<u64 as Cell>::width(), 64);
    assert_eq!(<u128 as Cell>::width(), 128);
    assert_eq!(<u64 as Cell>::zero(), 0);
}

#[test]
fn masks_saturate() {
    assert_eq!(<u32 as Cell>::low_bits_mask(0), 0);
    assert_eq!(<u32 as Cell>::low_bits_mask(5), 31);
    assert_eq!(<u32 as Cell>::low_bits_mask(31), u32::MAX >> 1);
    assert_eq!(<u32 as Cell>::low_bits_mask(32), u32::MAX);
    assert_eq!(<u64 as Cell>::low_bits_mask(64), u64::MAX);
    assert_eq!(<u64 as Cell>::low_bits_mask(1000), u64::MAX);
    assert_eq!(<u128 as Cell>::low_bits_mask(127), u128::MAX >> 1);
    assert_eq!(<u128 as Cell>::low_bits_mask(128), u128::MAX);
    assert_eq!(Cell::masked(0xabcdu64, 0xff), 0xcd);
    assert_eq!(Cell::shr(0xabcdu64, 8), 0xab);
    assert_eq!(Cell::append(0xabu32, 8, 0xcd), 0xabcd);
}

/// Values in an order far from sorted, with repetitions.
fn scrambled(n: usize) -> Vec<u64> {
    let mut g = Prng::new(1);
    let mut v: Vec<u64> = Vec::new();
    for i in 0..n {
        let w = g.next_u64();
        v.push(if i % 3 == 0 { w & 0xff } else { w });
    }
    v
}

#[test]
fn sorts_agree_with_the_standard_one() {
    for n in [0usize, 1, 2, 63, 65, 1000, 1025, 5000, 200_000] {
        let v = scrambled(n);
        let mut want = v.clone();
        want.sort();
        let mut a = v.clone();
        <u64 as Cell>::sort_mt(&mut a);
        assert_eq!(a, want);
        let mut b = v.clone();
        <u64 as Cell>::sort_st(&mut b);
        assert_eq!(b, want);

        let narrow: Vec<u32> = v.iter().map(|&x| x as u32).collect();
        let mut want = narrow.clone();
        want.sort();
        let mut a = narrow.clone();
        <u32 as Cell>::sort_mt(&mut a);
        assert_eq!(a, want);
        let mut b = narrow;
        <u32 as Cell>::sort_st(&mut b);
        assert_eq!(b, want);

        let wide: Vec<u128> = v.iter().map(|&x| ((x as u128) << 64) | (x.rotate_left(9) as u128)).collect();
        let mut want = wide.clone();
        want.sort();
        let mut a = wide.clone();
        <u128 as Cell>::sort_mt(&mut a);
        assert_eq!(a, want);
        let mut b = wide;
        <u128 as Cell>::sort_st(&mut b);
        assert_eq!(b, want);
    }
}
