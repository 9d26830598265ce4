//! Tests of the texts.
use coll_birth::common::Bin;
use coll_birth::describe::{
    bin_overflow, bits_read_desc, decimation_desc, effective_cells_suffix, generation_desc, join_mode_parts,
    tradeoff_desc, two_level_desc,
};
use coll_birth::text::{append_decimal, append_exponent};
use coll_birth::util::superscript;

#[test]
fn test_superscript() {
    assert_eq!(superscript(0u32), "⁰");
    assert_eq!(superscript(64usize), "⁶⁴");
    assert_eq!(superscript(1234567890u64), "¹²³⁴⁵⁶⁷⁸⁹⁰");
    assert_eq!(superscript(-5i32), "⁻⁵");
}

#[test]
fn other_characters_pass_through_superscript() {
    assert_eq!(superscript("2a-b"), "²a⁻b");
    assert_eq!(superscript(""), "");
}

#[test]
fn decimals_of_all_sizes() {
    for n in [0u128, 7, 10, 99, 100, 1234567890, u64::MAX as u128, u128::MAX] {
        let mut s = String::from("n=");
        append_decimal(&mut s, n);
        assert_eq!(s, format!("n={n}"));
    }
    let mut s = String::from("2");
    append_exponent(&mut s, 128);
    assert_eq!(s, "2¹²⁸");
}

#[test]
fn header_pieces() {
    assert_eq!(bits_read_desc(0), "full 64-bit output");
    assert_eq!(bits_read_desc(3), "lowest 61 bits");
    assert_eq!(
        decimation_desc(4, 1),
        "decimating 4 bits per dimension (~2⁴ candidate samples per kept sample)"
    );
    assert_eq!(
        decimation_desc(5, 3),
        "decimating 5 bits per dimension (~2¹⁵ candidate samples per kept sample)"
    );
    assert_eq!(tradeoff_desc(3), "tradeoff on 3 top bits over 8 passes");
    assert_eq!(
        two_level_desc(6),
        "tradeoff on 6 top bits over 64 value intervals x 64 spacing classes"
    );
    assert_eq!(effective_cells_suffix(4, 64, 1), " (effective cells after decimation: 2⁶⁰)");
    assert_eq!(effective_cells_suffix(0, 64, 1), "");
    assert_eq!(generation_desc(20, "jump-ahead"), "using 20 parallel generators (jump-ahead)");
    assert_eq!(join_mode_parts(&[]), "");
    assert_eq!(join_mode_parts(&["a".to_string()]), ", a");
    assert_eq!(join_mode_parts(&["a".to_string(), "b".to_string()]), ", a, b");
}

#[test]
fn overflow_messages_name_the_bin() {
    let bins = [
        (Bin::ParallelChunk, "a parallel decimation chunk"),
        (Bin::TradeoffBin, "a tradeoff bin"),
        (Bin::CollisionPass, "a collision tradeoff pass"),
        (Bin::DecimatedCollision, "a decimated collision run"),
        (Bin::CheckpointStage, "a decimation checkpoint stage"),
        (Bin::CheckpointTotal, "the decimation checkpoint accumulator"),
        (Bin::ParallelCheckpointTotal, "the checkpoint accumulator"),
        (Bin::DecimatedBirthday, "a decimated birthday run"),
        (Bin::BirthdayInterval, "a birthday value interval"),
        (Bin::BirthdayClass, "a birthday-spacings class"),
    ];
    for (bin, name) in bins {
        assert_eq!(bin.what(), name);
        assert_eq!(
            bin_overflow(bin),
            format!(
                "{name} overflowed its buffer: a bin received more elements than its balls-into-bins headroom, \
                 which happens with probability below 10⁻¹⁰⁰⁰ for a uniform generator: this is overwhelming \
                 evidence that the generator under test is grossly non-uniform. Rerun in plain mode (no -b/-d) \
                 for an exact p-value."
            )
        );
    }
}
