//! Tests of the validation of arguments, of point counts, and of the parsing of numbers.
use coll_birth::cli::{compute_points, parse_u64, ArgError, Args, NumberError};
use coll_birth::common::Cells;
use coll_birth::util::parallelism;

fn args(u: usize, t: usize) -> Args {
    Args {
        u,
        t,
        m: Some(1 << 16),
        s: 0,
        tradeoff_bits: None,
        decimation_bits: None,
        checkpoints: false,
        birthday_spacings: false,
        reps: 1,
        seed: 0,
        pretty_p: false,
        parallel: false,
        pass: None,
    }
}

fn refused(a: Args, e: ArgError, message: &str) {
    assert_eq!(a.validate(), Err(e));
    assert_eq!(e.message(), message);
}

#[test]
fn sound_arguments_pass() {
    assert_eq!(args(64, 1).validate(), Ok(()));
    assert_eq!(args(1, 128).validate(), Ok(()));
    assert_eq!(Args { s: 32, ..args(32, 4) }.validate(), Ok(()));
    assert_eq!(Args { decimation_bits: Some(63), ..args(64, 1) }.validate(), Ok(()));
    assert_eq!(Args { tradeoff_bits: Some(63), pass: Some((1 << 63) - 1), ..args(64, 1) }.validate(), Ok(()));
    assert_eq!(Args { decimation_bits: Some(2), tradeoff_bits: Some(6), ..args(5, 2) }.validate(), Ok(()));
}

#[test]
fn every_defect_is_refused() {
    refused(args(8, 0), ArgError::NoDimension, "t must be at least 1");
    refused(args(0, 2), ArgError::NoBits, "u must be at least 1");
    refused(
        args(1, 129),
        ArgError::DimensionTooLarge { t: 129 },
        "t (129) must be at most 128 (the cell count would exceed 2¹²⁸)",
    );
    refused(Args { s: 64, ..args(8, 2) }, ArgError::ShiftTooLarge { s: 64 }, "shift (64) must be less than 64");
    refused(
        Args { s: 60, ..args(8, 2) },
        ArgError::TooManyBits { u: 8, limit: 4 },
        "u (8) can be at most 64 - shift (4)",
    );
    refused(
        Args { m: None, decimation_bits: Some(2), ..args(8, 2) },
        ArgError::DecimationNeedsMemory,
        "--decimation-bits requires explicit -m",
    );
    refused(
        Args { decimation_bits: Some(0), ..args(8, 2) },
        ArgError::DecimationZero,
        "--decimation-bits d must be at least 1",
    );
    refused(
        Args { decimation_bits: Some(8), ..args(8, 2) },
        ArgError::DecimationTooLarge { d: 8, u: 8 },
        "--decimation-bits d (8) must be less than u (8)",
    );
    refused(
        Args { tradeoff_bits: Some(0), ..args(8, 2) },
        ArgError::TradeoffZero,
        "--tradeoff-bits b must be at least 1",
    );
    refused(
        Args { decimation_bits: Some(2), tradeoff_bits: Some(13), ..args(8, 2) },
        ArgError::TradeoffTooLarge { b: 13, limit: 12 },
        "--tradeoff-bits b (13) must be at most t·(u - d) (12)",
    );
    refused(
        Args { tradeoff_bits: Some(64), ..args(64, 2) },
        ArgError::TradeoffTooManyPasses { b: 64 },
        "--tradeoff-bits b (64) must be less than 64",
    );
    refused(
        Args { checkpoints: true, birthday_spacings: true, decimation_bits: Some(1), ..args(8, 2) },
        ArgError::CheckpointsWithBirthday,
        "--checkpoints is incompatible with --birthday-spacings",
    );
    refused(Args { pass: Some(0), ..args(8, 2) }, ArgError::PassNeedsTradeoff, "--pass requires -b (--tradeoff-bits)");
    refused(
        Args { tradeoff_bits: Some(3), pass: Some(8), ..args(8, 2) },
        ArgError::PassTooLarge { k: 8, passes: 8 },
        "--pass K (8) must be less than 2ᵇ (8)",
    );
}

#[test]
fn the_first_defect_counts() {
    let all_wrong = Args { m: None, s: 99, tradeoff_bits: Some(0), decimation_bits: Some(0), pass: Some(9), ..args(0, 0) };
    assert_eq!(all_wrong.validate(), Err(ArgError::NoDimension));
    assert_eq!(Args { t: 1, ..all_wrong }.validate(), Err(ArgError::NoBits));
    assert_eq!(Args { t: 1, u: 9, ..all_wrong }.validate(), Err(ArgError::ShiftTooLarge { s: 99 }));
    assert_eq!(Args { t: 1, u: 9, s: 0, ..all_wrong }.validate(), Err(ArgError::DecimationNeedsMemory));
}

#[test]
fn bits_default_to_zero() {
    assert_eq!(args(8, 2).tradeoff_bits(), 0);
    assert_eq!(args(8, 2).decimation_bits(), 0);
    assert_eq!(Args { tradeoff_bits: Some(5), decimation_bits: Some(3), ..args(8, 2) }.tradeoff_bits(), 5);
    assert_eq!(Args { tradeoff_bits: Some(5), decimation_bits: Some(3), ..args(8, 2) }.decimation_bits(), 3);
    assert_eq!(args(8, 2).parallel_cpus(), None);
    assert!(Args { parallel: true, ..args(8, 2) }.parallel_cpus().unwrap() >= 1);
}

#[test]
fn points_of_the_collision_test() {
    let cells = Cells::power_of_two(20).unwrap();
    // m · 2ᵇ.
    assert_eq!(compute_points(&args(10, 2), &cells, 0), Ok(1 << 16));
    assert_eq!(compute_points(&Args { tradeoff_bits: Some(3), ..args(10, 2) }, &cells, 0), Ok(1 << 19));
    // As many points as cells.
    assert_eq!(compute_points(&Args { m: None, ..args(10, 2) }, &cells, 0), Ok(1 << 20));
    assert_eq!(compute_points(&Args { m: None, tradeoff_bits: Some(4), ..args(10, 2) }, &cells, 0), Ok(1 << 20));
    // No more than fit in a word.
    let many = Cells::power_of_two(128).unwrap();
    assert_eq!(compute_points(&Args { m: None, ..args(64, 2) }, &many, 0), Ok(usize::MAX));
    assert_eq!(
        compute_points(&Args { m: None, tradeoff_bits: Some(4), ..args(64, 2) }, &many, 0),
        Ok(usize::MAX - 15)
    );
    let few = Cells::up_to(65_535);
    assert_eq!(compute_points(&args(8, 2), &few, 0), Ok(65_536));
    let e = compute_points(&args(8, 2), &Cells::up_to(65_534), 0).unwrap_err();
    assert_eq!(e, ArgError::MorePointsThanCells { points: 65_536, effective: false, cells: 65_535 });
    assert_eq!(e.message(), "more points (65536) than cells (65535)");
    let e = compute_points(&Args { decimation_bits: Some(1), ..args(8, 2) }, &Cells::up_to(9), 0).unwrap_err();
    assert_eq!(e.message(), "more points (65536) than effective cells (10)");
    let e = compute_points(&Args { m: Some(usize::MAX), tradeoff_bits: Some(1), ..args(64, 2) }, &many, 0).unwrap_err();
    assert_eq!(e, ArgError::PointsOverflow);
    assert_eq!(e.message(), "the number of points m · 2ᵇ overflows the address space (reduce m or b)");
    let e = compute_points(&Args { m: Some(9999), ..args(10, 2) }, &cells, 0).unwrap_err();
    assert_eq!(e, ArgError::TooFewPoints { points: 9999 });
    assert_eq!(e.message(), "the number of points (9999) is smaller than 10000");
}

#[test]
fn points_of_the_birthday_spacings_test() {
    let cells = Cells::power_of_two(40).unwrap();
    let base = Args { birthday_spacings: true, ..args(20, 2) };
    assert_eq!(compute_points(&base, &cells, 70_000), Ok(65_536));
    assert_eq!(compute_points(&Args { m: None, ..base }, &cells, 70_001), Ok(70_001));
    assert_eq!(compute_points(&Args { m: None, tradeoff_bits: Some(2), ..base }, &cells, 70_003), Ok(70_000));
    let e = compute_points(&base, &cells, 65_535).unwrap_err();
    assert_eq!(e, ArgError::PointsOutOfRange);
    assert_eq!(
        e.message(),
        "the given combination of memory, repetitions and cells is out of range (omit -m to use the maximum)"
    );
}

#[test]
fn numbers_in_all_radices() {
    assert_eq!(parse_u64("0"), Ok(0));
    assert_eq!(parse_u64("18446744073709551615"), Ok(u64::MAX));
    assert_eq!(parse_u64("0xDEAD_BEEF"), Ok(0xdead_beef));
    assert_eq!(parse_u64("0Xdead_beef"), Ok(0xdead_beef));
    assert_eq!(parse_u64("0o17"), Ok(15));
    assert_eq!(parse_u64("0O17"), Ok(15));
    assert_eq!(parse_u64("0b1010"), Ok(10));
    assert_eq!(parse_u64("0B1010"), Ok(10));
    assert_eq!(parse_u64(" \t1_000_000\n"), Ok(1_000_000));
    assert_eq!(parse_u64("\u{3000}7\u{a0}"), Ok(7));
    assert_eq!(parse_u64("+5"), Ok(5));
    assert_eq!(parse_u64("0x+f"), Ok(15));
    assert_eq!(parse_u64("007"), Ok(7));
}

#[test]
fn what_is_not_a_number() {
    assert_eq!(parse_u64(""), Err(NumberError::Empty));
    assert_eq!(parse_u64("  "), Err(NumberError::Empty));
    assert_eq!(parse_u64("0x"), Err(NumberError::Empty));
    assert_eq!(parse_u64("___"), Err(NumberError::Empty));
    assert_eq!(parse_u64("+"), Err(NumberError::InvalidDigit));
    assert_eq!(parse_u64("-5"), Err(NumberError::InvalidDigit));
    assert_eq!(parse_u64("12a"), Err(NumberError::InvalidDigit));
    assert_eq!(parse_u64("0b12"), Err(NumberError::InvalidDigit));
    assert_eq!(parse_u64("0o8"), Err(NumberError::InvalidDigit));
    assert_eq!(parse_u64("0xg"), Err(NumberError::InvalidDigit));
    assert_eq!(parse_u64("1 2"), Err(NumberError::InvalidDigit));
    assert_eq!(parse_u64("١"), Err(NumberError::InvalidDigit));
    assert_eq!(parse_u64("18446744073709551616"), Err(NumberError::Overflow));
    assert_eq!(parse_u64("0x1_0000_0000_0000_0000"), Err(NumberError::Overflow));
    assert_eq!(parse_u64("99999999999999999999x"), Err(NumberError::Overflow));
    assert_eq!(parse_u64("1844674407370955161x6"), Err(NumberError::InvalidDigit));
}

#[test]
fn written_numbers_are_read_back() {
    for n in [0u64, 1, 9, 10, 255, 0xdead_beef, u64::MAX / 3, u64::MAX] {
        assert_eq!(parse_u64(&format!("{n}")), Ok(n));
        assert_eq!(parse_u64(&format!("{n:#x}")), Ok(n));
        assert_eq!(parse_u64(&format!("{n:#X}")), Ok(n));
        assert_eq!(parse_u64(&format!("0X{n:x}")), Ok(n));
        assert_eq!(parse_u64(&format!("{n:#o}")), Ok(n));
        assert_eq!(parse_u64(&format!("{n:#b}")), Ok(n));
        let spaced: Vec<String> = format!("{n}").chars().map(|c| c.to_string()).collect();
        assert_eq!(parse_u64(&format!(" \t{}\n", spaced.join("_"))), Ok(n));
    }
}

#[test]
fn the_pool_gives_the_width() {
    let all = Args { parallel: true, ..args(8, 2) };
    assert_eq!(all.parallel_cpus(), Some(parallelism()));
}
