//! Tests of the generators.
use coll_birth::prng;
use coll_birth::prng::{Generator, Prng};

const SEED: u64 = 0x0123_4567_89ab_cdef;

/// Skipping lands where stepping lands, and skips compose.
fn check_skip<G: Generator>() {
    for &n in &[0u64, 1, 2, 7, 1000, 100_000] {
        let mut a: G = Generator::new(SEED);
        assert!(Generator::try_skip(&mut a, n).is_ok());
        let mut b: G = Generator::new(SEED);
        for _ in 0..n {
            Generator::next_u64(&mut b);
        }
        for k in 0..64 {
            assert_eq!(
                Generator::next_u64(&mut a),
                Generator::next_u64(&mut b),
                "skip({n}) disagreed with stepping at output {k}"
            );
        }
    }
    let (x, y) = (1u64 << 40, (1u64 << 41) + 12_345);
    let mut p: G = Generator::new(SEED);
    assert!(Generator::try_skip(&mut p, x).is_ok());
    assert!(Generator::try_skip(&mut p, y).is_ok());
    let mut q: G = Generator::new(SEED);
    assert!(Generator::try_skip(&mut q, x + y).is_ok());
    for k in 0..64 {
        assert_eq!(
            Generator::next_u64(&mut p),
            Generator::next_u64(&mut q),
            "skip composition failed at output {k}"
        );
    }
}

/// A generator without jump-ahead refuses to skip, and stays where it is.
fn check_no_skip<G: Generator>() {
    let mut a: G = Generator::new(SEED);
    let mut b: G = Generator::new(SEED);
    assert_eq!(Generator::try_skip(&mut a, 5), Err(()));
    assert_eq!(Generator::try_skip(&mut a, 0), Err(()));
    for _ in 0..64 {
        assert_eq!(Generator::next_u64(&mut a), Generator::next_u64(&mut b));
    }
}

/// The first words from a seed, and the word after a thousand more.
fn check_words<G: Generator>(seed: u64, words: [u64; 4], later: u64) {
    let mut g: G = Generator::new(seed);
    for w in words {
        assert_eq!(Generator::next_u64(&mut g), w);
    }
    for _ in 0..1000 {
        Generator::next_u64(&mut g);
    }
    assert_eq!(Generator::next_u64(&mut g), later);
}

#[test]
fn test_skip_matches_repeated_next() {
    let seed = 0x0123_4567_89ab_cdef;
    // Cheap-to-step values (sequential stepping must stay fast).
    for &n in &[0u64, 1, 2, 7, 1000, 100_000] {
        let mut a = Prng::new(seed);
        if a.try_skip(n).is_err() {
            panic!("try_skip failed on a skip-capable generator");
        }
        let mut b = Prng::new(seed);
        for _ in 0..n {
            b.next_u64();
        }
        for k in 0..64 {
            assert_eq!(
                a.next_u64(),
                b.next_u64(),
                "skip({n}) disagreed with stepping at output {k}"
            );
        }
    }
    // Composition: two successive skips must equal one combined skip.
    let (x, y) = (1u64 << 40, (1u64 << 41) + 12_345);
    let mut p = Prng::new(seed);
    assert!(p.try_skip(x).is_ok(), "try_skip failed on a skip-capable generator");
    assert!(p.try_skip(y).is_ok(), "try_skip failed on a skip-capable generator");
    let mut q = Prng::new(seed);
    assert!(q.try_skip(x + y).is_ok(), "try_skip failed on a skip-capable generator");
    for k in 0..64 {
        assert_eq!(
            p.next_u64(),
            q.next_u64(),
            "skip composition failed at output {k}"
        );
    }
}

#[test]
fn words_of_incr() {
    check_words::<prng::incr::Prng>(
        0x123456789abcdef,
        [0x123456789abcdf0, 0x123456789abcdf1, 0x123456789abcdf2, 0x123456789abcdf3],
        0x123456789abd1dc,
    );
}

#[test]
fn words_of_incr_from_zero() {
    check_words::<prng::incr::Prng>(
        0x0,
        [0x1, 0x2, 0x3, 0x4],
        0x3ed,
    );
}

#[test]
fn skipping_incr() {
    check_skip::<prng::incr::Prng>();
    assert_eq!(prng::incr::Prng::NAME, "incr (counter, x += 1)");
}

#[test]
fn words_of_lcg_32_32_0x915f77f5() {
    check_words::<prng::lcg_32_32_0x915f77f5::Prng>(
        0x123456789abcdef,
        [0x68d72ebc00000000, 0x306d1ded00000000, 0x6949ced200000000, 0xc4b48cfb00000000],
        0x8ee5431000000000,
    );
}

#[test]
fn words_of_lcg_32_32_0x915f77f5_from_zero() {
    check_words::<prng::lcg_32_32_0x915f77f5::Prng>(
        0x0,
        [0x100000000, 0x915f77f600000000, 0x5b6b286f00000000, 0x2d8a4b3c00000000],
        0x63a055a500000000,
    );
}

#[test]
fn skipping_lcg_32_32_0x915f77f5() {
    check_skip::<prng::lcg_32_32_0x915f77f5::Prng>();
    assert_eq!(prng::lcg_32_32_0x915f77f5::Prng::NAME, "LCG32 (0x915f77f5)");
}

#[test]
fn words_of_lcg_32_32_0xec65035() {
    check_words::<prng::lcg_32_32_0xec65035::Prng>(
        0x123456789abcdef,
        [0x89c6527c00000000, 0x13bdd3ad00000000, 0x9640e2d200000000, 0x4cbc957b00000000],
        0xcd30975000000000,
    );
}

#[test]
fn words_of_lcg_32_32_0xec65035_from_zero() {
    check_words::<prng::lcg_32_32_0xec65035::Prng>(
        0x0,
        [0x100000000, 0xec6503600000000, 0x5e37b2f00000000, 0x26f130bc00000000],
        0xfff4652500000000,
    );
}

#[test]
fn skipping_lcg_32_32_0xec65035() {
    check_skip::<prng::lcg_32_32_0xec65035::Prng>();
    assert_eq!(prng::lcg_32_32_0xec65035::Prng::NAME, "LCG32 (0xec65035)");
}

#[test]
fn words_of_lcg_64_64_0xa5b9ee81534fa94d() {
    check_words::<prng::lcg_64_64_0xa5b9ee81534fa94d::Prng>(
        0x123456789abcdef,
        [0x92c1613edd60b7e4, 0x82000e691ad8d395, 0xb54f71edd0e000d2, 0xb19cfea20ab8e12b],
        0x772c95740868bbe8,
    );
}

#[test]
fn words_of_lcg_64_64_0xa5b9ee81534fa94d_from_zero() {
    check_words::<prng::lcg_64_64_0xa5b9ee81534fa94d::Prng>(
        0x0,
        [0x1, 0xa5b9ee81534fa94e, 0xc9347aad2ecc6a77, 0x6e5e398c757d94cc],
        0xd792822599d05d75,
    );
}

#[test]
fn skipping_lcg_64_64_0xa5b9ee81534fa94d() {
    check_skip::<prng::lcg_64_64_0xa5b9ee81534fa94d::Prng>();
    assert_eq!(prng::lcg_64_64_0xa5b9ee81534fa94d::Prng::NAME, "LCG64 (0xa5b9ee81534fa94d)");
}

#[test]
fn words_of_msws_ctr() {
    check_words::<prng::msws_ctr::Prng>(
        0x123456789abcdef,
        [0x6831769ab0aedef5, 0xd34a7d75631ab90f, 0x50aff1c40ef4189c, 0xca75ff0ddbff049d],
        0x56c4706515afc6d6,
    );
}

#[test]
fn words_of_msws_ctr_from_zero() {
    check_words::<prng::msws_ctr::Prng>(
        0x0,
        [0x4bb23ccc29ef44a2, 0x3eaece6cfc75bfd4, 0x434b336ea5ccebbe, 0x9a093f13ad3a8eed],
        0x9c9ed9041b88923c,
    );
}

#[test]
fn skipping_msws_ctr() {
    check_skip::<prng::msws_ctr::Prng>();
    assert_eq!(prng::msws_ctr::Prng::NAME, "MSWS-CTR (middle-square Weyl sequence, counter-based)");
}

#[test]
fn words_of_mwc_128_32_0xfffea2df() {
    check_words::<prng::mwc_128_32_0xfffea2df::Prng>(
        0x123456789abcdef,
        [0x0, 0x91ba13200000000, 0x4e81b4e700000000, 0x12343da00000000],
        0x76543f3300000000,
    );
}

#[test]
fn words_of_mwc_128_32_0xfffea2df_from_zero() {
    check_words::<prng::mwc_128_32_0xfffea2df::Prng>(
        0x0,
        [0x0, 0x100000000, 0x0, 0x0],
        0x74ef212200000000,
    );
}

#[test]
fn skipping_mwc_128_32_0xfffea2df() {
    check_skip::<prng::mwc_128_32_0xfffea2df::Prng>();
    assert_eq!(prng::mwc_128_32_0xfffea2df::Prng::NAME, "MWC128-32 (0xfffea2df)");
}

#[test]
fn words_of_mwc_128_64_0xff96d28c3f3329da() {
    check_words::<prng::mwc_128_64_0xff96d28c3f3329da::Prng>(
        0x123456789abcdef,
        [0x123456789abcdef, 0xe09510d397e5a487, 0xdef483507c1a529a, 0x1f6f360431601873],
        0xb5fdaab42607fb17,
    );
}

#[test]
fn words_of_mwc_128_64_0xff96d28c3f3329da_from_zero() {
    check_words::<prng::mwc_128_64_0xff96d28c3f3329da::Prng>(
        0x0,
        [0x0, 0x1, 0xff96d28c3f3329da, 0x77b1a742ffb38da4],
        0xdc57d1d2f094415f,
    );
}

#[test]
fn skipping_mwc_128_64_0xff96d28c3f3329da() {
    check_skip::<prng::mwc_128_64_0xff96d28c3f3329da::Prng>();
    assert_eq!(prng::mwc_128_64_0xff96d28c3f3329da::Prng::NAME, "MWC128 (0xff96d28c3f3329da)");
}

#[test]
fn words_of_mwc_128_64_0xffebb71d94fcdaf9() {
    check_words::<prng::mwc_128_64_0xffebb71d94fcdaf9::Prng>(
        0x123456789abcdef,
        [0x123456789abcdef, 0xd5fcb23118bcd378, 0x8e028fde9650c684, 0xef2abc438fce056a],
        0x5a457e2aa112112f,
    );
}

#[test]
fn words_of_mwc_128_64_0xffebb71d94fcdaf9_from_zero() {
    check_words::<prng::mwc_128_64_0xffebb71d94fcdaf9::Prng>(
        0x0,
        [0x0, 0x1, 0xffebb71d94fcdaf9, 0xac34f159bd850631],
        0x8887ee586954cb9a,
    );
}

#[test]
fn skipping_mwc_128_64_0xffebb71d94fcdaf9() {
    check_skip::<prng::mwc_128_64_0xffebb71d94fcdaf9::Prng>();
    assert_eq!(prng::mwc_128_64_0xffebb71d94fcdaf9::Prng::NAME, "MWC128 (0xffebb71d94fcdaf9)");
}

#[test]
fn words_of_mwc_192_64_0xffa04e67b3c95d86() {
    check_words::<prng::mwc_192_64_0xffa04e67b3c95d86::Prng>(
        0x123456789abcdef,
        [0x123456789abcdef, 0xcf79d74147649e1b, 0xd09cafc7ff5fd2d9, 0x9cd07b0ba848c5e1],
        0x8ada4139b58dd162,
    );
}

#[test]
fn words_of_mwc_192_64_0xffa04e67b3c95d86_from_zero() {
    check_words::<prng::mwc_192_64_0xffa04e67b3c95d86::Prng>(
        0x0,
        [0x0, 0x1, 0x0, 0xffa04e67b3c95d86],
        0x4a1f472d9b1254d3,
    );
}

#[test]
fn skipping_mwc_192_64_0xffa04e67b3c95d86() {
    check_skip::<prng::mwc_192_64_0xffa04e67b3c95d86::Prng>();
    assert_eq!(prng::mwc_192_64_0xffa04e67b3c95d86::Prng::NAME, "MWC192 (0xffa04e67b3c95d86)");
}

#[test]
fn words_of_mwc_256_64_0xfff62cf2ccc0cdaf() {
    check_words::<prng::mwc_256_64_0xfff62cf2ccc0cdaf::Prng>(
        0x123456789abcdef,
        [0x123456789abcdef, 0x358443e8979a2962, 0x36a77e228f68f4d0, 0x36a77e228f68f4d0],
        0x2d58e7e832d383dd,
    );
}

#[test]
fn words_of_mwc_256_64_0xfff62cf2ccc0cdaf_from_zero() {
    check_words::<prng::mwc_256_64_0xfff62cf2ccc0cdaf::Prng>(
        0x0,
        [0x0, 0x1, 0x0, 0x0],
        0x687cc7075df68dc,
    );
}

#[test]
fn skipping_mwc_256_64_0xfff62cf2ccc0cdaf() {
    check_skip::<prng::mwc_256_64_0xfff62cf2ccc0cdaf::Prng>();
    assert_eq!(prng::mwc_256_64_0xfff62cf2ccc0cdaf::Prng::NAME, "MWC256 (0xfff62cf2ccc0cdaf)");
}

#[test]
fn words_of_romuduo() {
    check_words::<prng::romuduo::Prng>(
        0x123456789abcdef,
        [0x123456789abcdef, 0xb038422c9c458e05, 0xf6b53360e752809e, 0x80ab8f2a6dd1f50d],
        0xabd8e99b0df4f58a,
    );
}

#[test]
fn words_of_romuduo_from_zero() {
    check_words::<prng::romuduo::Prng>(
        0x0,
        [0x9e3779b97f4a7c15, 0x13029a81ec397d27, 0xa3dd8b44d21642ff, 0x3b1b787ee727e93],
        0x2a220f69901140c,
    );
}

#[test]
fn skipping_romuduo() {
    check_no_skip::<prng::romuduo::Prng>();
    assert_eq!(prng::romuduo::Prng::NAME, "RomuDuo");
}

#[test]
fn words_of_romuduojr() {
    check_words::<prng::romuduojr::Prng>(
        0x123456789abcdef,
        [0x123456789abcdef, 0xb038422c9c458e05, 0x0, 0x74ad4bfcbeb006ba],
        0xbed942f9826892e7,
    );
}

#[test]
fn words_of_romuduojr_from_zero() {
    check_words::<prng::romuduojr::Prng>(
        0x0,
        [0x9e3779b97f4a7c15, 0x13029a81ec397d27, 0x0, 0x69bea7172a218299],
        0xd4d25eaccb03c0cd,
    );
}

#[test]
fn skipping_romuduojr() {
    check_no_skip::<prng::romuduojr::Prng>();
    assert_eq!(prng::romuduojr::Prng::NAME, "RomuDuoJr");
}

#[test]
fn words_of_romutrio() {
    check_words::<prng::romutrio::Prng>(
        0x123456789abcdef,
        [0x123456789abcdef, 0xd3833e804f4c574b, 0x0, 0x78ad60e86294000f],
        0x9abe79117c7f6ef,
    );
}

#[test]
fn words_of_romutrio_from_zero() {
    check_words::<prng::romutrio::Prng>(
        0x0,
        [0x0, 0xd3833e804f4c574b, 0x0, 0xa6f1717fb0b3a8b5],
        0x683fd299d3b1b978,
    );
}

#[test]
fn skipping_romutrio() {
    check_no_skip::<prng::romutrio::Prng>();
    assert_eq!(prng::romutrio::Prng::NAME, "RomuTrio");
}

#[test]
fn words_of_romutrio32() {
    check_words::<prng::romutrio32::Prng>(
        0x123456789abcdef,
        [0x89abcdef00000000, 0x0, 0xae5d46ba00000000, 0x46d245d200000000],
        0x34b46a5500000000,
    );
}

#[test]
fn words_of_romutrio32_from_zero() {
    check_words::<prng::romutrio32::Prng>(
        0x0,
        [0x7f4a7c1500000000, 0x0, 0x903728b00000000, 0xd7e17b1600000000],
        0x2f33224500000000,
    );
}

#[test]
fn skipping_romutrio32() {
    check_no_skip::<prng::romutrio32::Prng>();
    assert_eq!(prng::romutrio32::Prng::NAME, "RomuTrio32");
}

#[test]
fn words_of_splitmix() {
    check_words::<prng::splitmix::Prng>(
        0x123456789abcdef,
        [0xb2c058e4ebb5112c, 0x157a3807a48faa9d, 0xd573529b34a1d093, 0x2f90b72e996dccbe],
        0x4ea630c97e5a5eba,
    );
}

#[test]
fn words_of_splitmix_from_zero() {
    check_words::<prng::splitmix::Prng>(
        0x0,
        [0x0, 0xe220a8397b1dcdaf, 0x6e789e6aa1b965f4, 0x6c45d188009454f],
        0xad1d5088c022a188,
    );
}

#[test]
fn skipping_splitmix() {
    check_skip::<prng::splitmix::Prng>();
    assert_eq!(prng::splitmix::Prng::NAME, "SplitMix");
}

#[test]
fn words_of_wyrand() {
    check_words::<prng::wyrand::Prng>(
        0x123456789abcdef,
        [0xb455b6e67fef10b0, 0x58b962217aafc627, 0xd7488e0f880dbd37, 0xa175b746466eac63],
        0xe9d6bae386693164,
    );
}

#[test]
fn words_of_wyrand_from_zero() {
    check_words::<prng::wyrand::Prng>(
        0x0,
        [0x0, 0x111cb3a78f59a58e, 0xceabd938ff4e856d, 0x61fb51318f47d2a4],
        0xb435976d7d3d5417,
    );
}

#[test]
fn skipping_wyrand() {
    check_skip::<prng::wyrand::Prng>();
    assert_eq!(prng::wyrand::Prng::NAME, "wyrand");
}

#[test]
fn words_of_wyrand_reinerp() {
    check_words::<prng::wyrand_reinerp::Prng>(
        0x123456789abcdef,
        [0x49f219108ca4c0c1, 0x76e4be579cca29ef, 0xfa87aecfda740306, 0x9f561bc2b6fd275c],
        0xe94e0d2a2d91d7cc,
    );
}

#[test]
fn words_of_wyrand_reinerp_from_zero() {
    check_words::<prng::wyrand_reinerp::Prng>(
        0x0,
        [0x1ff5c2923a788d2c, 0x69b28382e68abc08, 0xc58257d0901d399d, 0x86e25391c34a7a3c],
        0x138a6dbf415dbf3e,
    );
}

#[test]
fn skipping_wyrand_reinerp() {
    check_skip::<prng::wyrand_reinerp::Prng>();
    assert_eq!(prng::wyrand_reinerp::Prng::NAME, "wyrand (reinerp)");
}

/// Jumps too far to be stepped, against the modular arithmetic that the generator stands for.
#[test]
fn far_jumps_of_multiply_with_carry() {
    let mut g = prng::mwc_128_32_0xfffea2df::Prng::new(SEED);
    assert!(g.try_skip(0xfedcba9876543210).is_ok());
    assert_eq!(g.next_u64(), 0x25a197cd00000000);
    let mut g = prng::mwc_128_64_0xff96d28c3f3329da::Prng::new(SEED);
    assert!(g.try_skip(0xfedcba9876543210).is_ok());
    assert_eq!(g.next_u64(), 0x540bf6a96084605c);
    let mut g = prng::mwc_128_64_0xffebb71d94fcdaf9::Prng::new(SEED);
    assert!(g.try_skip(0xfedcba9876543210).is_ok());
    assert_eq!(g.next_u64(), 0x4f964e14c2ba4be3);
    let mut g = prng::mwc_192_64_0xffa04e67b3c95d86::Prng::new(SEED);
    assert!(g.try_skip(0xfedcba9876543210).is_ok());
    assert_eq!(g.next_u64(), 0xe40de5cc4bbf6bcc);
    let mut g = prng::mwc_256_64_0xfff62cf2ccc0cdaf::Prng::new(SEED);
    assert!(g.try_skip(0xfedcba9876543210).is_ok());
    assert_eq!(g.next_u64(), 0x41daf80c5dc07e5c);
}

/// One draw, and a skip of all the others, come back to the same state.
fn check_cycle<G: Generator>() {
    for seed in [0u64, 1, 0x0123_4567_89ab_cdef, u64::MAX] {
        let mut p = G::new(seed);
        let mut q = p;
        q.next_u64();
        assert_eq!(q.try_skip(u64::MAX), Ok(()));
        for _ in 0..8 {
            assert_eq!(p.next_u64(), q.next_u64());
        }
    }
}

#[test]
fn generators_come_full_circle() {
    check_cycle::<coll_birth::prng::splitmix::Prng>();
    check_cycle::<coll_birth::prng::incr::Prng>();
    check_cycle::<coll_birth::prng::wyrand::Prng>();
    check_cycle::<coll_birth::prng::wyrand_reinerp::Prng>();
    check_cycle::<coll_birth::prng::msws_ctr::Prng>();
    check_cycle::<coll_birth::prng::lcg_32_32_0x915f77f5::Prng>();
    check_cycle::<coll_birth::prng::lcg_32_32_0xec65035::Prng>();
    check_cycle::<coll_birth::prng::lcg_64_64_0xa5b9ee81534fa94d::Prng>();
}

#[test]
fn splitmix_words_are_all_different() {
    let mut g = coll_birth::prng::splitmix::Prng::new(42);
    let mut words: Vec<u64> = (0..100_000).map(|_| g.next_u64()).collect();
    words.sort();
    assert!(words.windows(2).all(|w| w[0] < w[1]));
    let mut first: Vec<u64> = (0..1_000).map(|seed| coll_birth::prng::splitmix::Prng::new(seed).next_u64()).collect();
    first.sort();
    assert!(first.windows(2).all(|w| w[0] < w[1]));
}
