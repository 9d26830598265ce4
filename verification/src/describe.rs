//! What a test says of itself: the pieces of its header, and its error messages.
use vstd::arithmetic::power2::*;
use vstd::prelude::*;
use vstd::string::*;

use crate::cli::ArgError;
use crate::common::{pass_count, Bin};
use crate::text;
use crate::text::{append_decimal, append_exponent};

verus! {

/// Text, a number, and text.
fn sentence(before: &str, n: u128, after: &str) -> (r: String)
    ensures
        r@ == before@ + text::decimal(n as nat) + after@,
{
    let mut r: String = before.to_owned();
    append_decimal(&mut r, n);
    r.append(after);
    r
}

/// Text with two numbers in it.
fn sentence_of_two(before: &str, n: u128, between: &str, m: u128, after: &str) -> (r: String)
    ensures
        r@ == before@ + text::decimal(n as nat) + between@ + text::decimal(m as nat) + after@,
{
    let mut r: String = sentence(before, n, between);
    append_decimal(&mut r, m);
    r.append(after);
    r
}

/// Which bits of each word the test reads.
pub fn bits_read_desc(s: usize) -> (r: String)
    requires
        s <= 64,
    ensures
        r@ == if s == 0 {
            "full 64-bit output"@
        } else {
            "lowest "@ + text::decimal((64 - s) as nat) + " bits"@
        },
{
    if s == 0 {
        "full 64-bit output".to_owned()
    } else {
        sentence("lowest ", (64 - s) as u128, " bits")
    }
}

/// The decimation descriptor for the header's mode list.
pub fn decimation_desc(d: usize, t: usize) -> (r: String)
    requires
        d * t <= usize::MAX,
    ensures
        r@ == "decimating "@ + text::decimal(d as nat) + " bits per dimension (~2"@ + text::superscripted(
            text::decimal((d * t) as nat),
        ) + " candidate samples per kept sample)"@,
{
    proof {
        assert(d * t >= 0) by (nonlinear_arith);
    }
    let mut r: String = sentence("decimating ", d as u128, " bits per dimension (~2");
    append_exponent(&mut r, (d * t) as u128);
    r.append(" candidate samples per kept sample)");
    r
}

/// The tradeoff descriptor for the header's mode list.
pub fn tradeoff_desc(b: usize) -> (r: String)
    requires
        b < 64,
    ensures
        r@ == "tradeoff on "@ + text::decimal(b as nat) + " top bits over "@ + text::decimal(pow2(b as nat))
            + " passes"@,
{
    sentence_of_two("tradeoff on ", b as u128, " top bits over ", pass_count(b) as u128, " passes")
}

/// The tradeoff descriptor of the parallel birthday-spacings test, which has two levels.
pub fn two_level_desc(b: usize) -> (r: String)
    requires
        b < 64,
    ensures
        r@ == "tradeoff on "@ + text::decimal(b as nat) + " top bits over "@ + text::decimal(pow2(b as nat))
            + " value intervals x "@ + text::decimal(pow2(b as nat)) + " spacing classes"@,
{
    let passes: u64 = pass_count(b);
    let mut r: String = sentence_of_two(
        "tradeoff on ",
        b as u128,
        " top bits over ",
        passes as u128,
        " value intervals x ",
    );
    append_decimal(&mut r, passes as u128);
    r.append(" spacing classes");
    r
}

/// Descriptors, each after a comma and a space.
pub open spec fn listed(parts: Seq<String>) -> Seq<char>
    decreases parts.len(),
{
    if parts.len() == 0 {
        Seq::empty()
    } else {
        listed(parts.drop_last()) + ", "@ + parts.last()@
    }
}

/// Joins the per-mode descriptors into the header's trailing ", a, b" suffix (empty when there are
/// none).
pub fn join_mode_parts(parts: &[String]) -> (r: String)
    ensures
        r@ == listed(parts@),
{
    let mut r: String = String::new();
    let mut i: usize = 0;
    proof {
        assert(parts@.take(0) =~= Seq::<String>::empty());
        assert(r@ =~= listed(parts@.take(0)));
    }
    while i < parts.len()
        invariant
            i <= parts@.len(),
            r@ == listed(parts@.take(i as int)),
        decreases parts@.len() - i,
    {
        proof {
            assert(parts@.take(i + 1).drop_last() =~= parts@.take(i as int));
        }
        r.append(", ");
        r.append(parts[i].as_str());
        i += 1;
    }
    proof {
        assert(parts@.take(i as int) =~= parts@);
    }
    r
}

/// The " (effective cells after decimation: 2*ᴺ*)" header note (empty when `d == 0`).
pub fn effective_cells_suffix(d: usize, u: usize, t: usize) -> (r: String)
    requires
        d > 0 ==> d <= u && (u - d) * t <= usize::MAX,
    ensures
        r@ == if d > 0 {
            " (effective cells after decimation: 2"@ + text::superscripted(text::decimal(((u - d) * t) as nat)) + ")"@
        } else {
            Seq::<char>::empty()
        },
{
    if d > 0 {
        proof {
            assert((u - d) * t >= 0) by (nonlinear_arith)
                requires
                    d <= u,
            ;
        }
        let mut r: String = " (effective cells after decimation: 2".to_owned();
        append_exponent(&mut r, ((u - d) * t) as u128);
        r.append(")");
        r
    } else {
        let r: String = String::new();
        proof {
            assert(r@ =~= Seq::<char>::empty());
        }
        r
    }
}

/// How the points of a parallel test are generated: by how many generators, and how each of them
/// reaches its start.
pub fn generation_desc(num_cpus: usize, split_desc: &str) -> (r: String)
    ensures
        r@ == "using "@ + text::decimal(num_cpus as nat) + " parallel generators ("@ + split_desc@ + ")"@,
{
    let mut r: String = sentence("using ", num_cpus as u128, " parallel generators (");
    r.append(split_desc);
    r.append(")");
    r
}

impl Bin {
    /// What the buffer is for.
    pub open spec fn name(self) -> Seq<char> {
        match self {
            Bin::ParallelChunk => "a parallel decimation chunk"@,
            Bin::TradeoffBin => "a tradeoff bin"@,
            Bin::CollisionPass => "a collision tradeoff pass"@,
            Bin::DecimatedCollision => "a decimated collision run"@,
            Bin::CheckpointStage => "a decimation checkpoint stage"@,
            Bin::CheckpointTotal => "the decimation checkpoint accumulator"@,
            Bin::ParallelCheckpointTotal => "the checkpoint accumulator"@,
            Bin::DecimatedBirthday => "a decimated birthday run"@,
            Bin::BirthdayInterval => "a birthday value interval"@,
            Bin::BirthdayClass => "a birthday-spacings class"@,
        }
    }

    /// What the buffer is for.
    pub fn what(self) -> (r: &'static str)
        ensures
            r@ == self.name(),
    {
        match self {
            Bin::ParallelChunk => "a parallel decimation chunk",
            Bin::TradeoffBin => "a tradeoff bin",
            Bin::CollisionPass => "a collision tradeoff pass",
            Bin::DecimatedCollision => "a decimated collision run",
            Bin::CheckpointStage => "a decimation checkpoint stage",
            Bin::CheckpointTotal => "the decimation checkpoint accumulator",
            Bin::ParallelCheckpointTotal => "the checkpoint accumulator",
            Bin::DecimatedBirthday => "a decimated birthday run",
            Bin::BirthdayInterval => "a birthday value interval",
            Bin::BirthdayClass => "a birthday-spacings class",
        }
    }
}

/// The message for a buffer that overflowed.
pub fn bin_overflow(bin: Bin) -> (r: String)
    ensures
        r@ == bin.name() + " overflowed its buffer: a bin received more elements than its balls-into-bins headroom, which happens with probability below 10⁻¹⁰⁰⁰ for a uniform generator: this is overwhelming evidence that the generator under test is grossly non-uniform. Rerun in plain mode (no -b/-d) for an exact p-value."@,
{
    let mut r: String = bin.what().to_owned();
    r.append(" overflowed its buffer: a bin received more elements than its balls-into-bins headroom, which happens with probability below 10⁻¹⁰⁰⁰ for a uniform generator: this is overwhelming evidence that the generator under test is grossly non-uniform. Rerun in plain mode (no -b/-d) for an exact p-value.");
    r
}

impl ArgError {
    /// The message for wrong arguments.
    pub open spec fn text(self) -> Seq<char> {
        match self {
            ArgError::NoDimension => "t must be at least 1"@,
            ArgError::NoBits => "u must be at least 1"@,
            ArgError::DimensionTooLarge { t } => "t ("@ + text::decimal(t as nat) + ") must be at most 128 (the cell count would exceed 2¹²⁸)"@,
            ArgError::ShiftTooLarge { s } => "shift ("@ + text::decimal(s as nat) + ") must be less than 64"@,
            ArgError::TooManyBits { u, limit } => "u ("@ + text::decimal(u as nat) + ") can be at most 64 - shift ("@ + text::decimal(limit as nat) + ")"@,
            ArgError::DecimationNeedsMemory => "--decimation-bits requires explicit -m"@,
            ArgError::DecimationZero => "--decimation-bits d must be at least 1"@,
            ArgError::DecimationTooLarge { d, u } => "--decimation-bits d ("@ + text::decimal(d as nat) + ") must be less than u ("@ + text::decimal(u as nat) + ")"@,
            ArgError::TradeoffZero => "--tradeoff-bits b must be at least 1"@,
            ArgError::TradeoffTooLarge { b, limit } => "--tradeoff-bits b ("@ + text::decimal(b as nat) + ") must be at most t·(u - d) ("@ + text::decimal(limit as nat) + ")"@,
            ArgError::TradeoffTooManyPasses { b } => "--tradeoff-bits b ("@ + text::decimal(b as nat) + ") must be less than 64"@,
            ArgError::CheckpointsWithBirthday => "--checkpoints is incompatible with --birthday-spacings"@,
            ArgError::PassNeedsTradeoff => "--pass requires -b (--tradeoff-bits)"@,
            ArgError::PassTooLarge { k, passes } => "--pass K ("@ + text::decimal(k as nat) + ") must be less than 2ᵇ ("@ + text::decimal(passes as nat) + ")"@,
            ArgError::PointsOverflow => "the number of points m · 2ᵇ overflows the address space (reduce m or b)"@,
            ArgError::PointsOutOfRange => "the given combination of memory, repetitions and cells is out of range (omit -m to use the maximum)"@,
            ArgError::MorePointsThanCells { points, effective, cells } => if effective {
                "more points ("@ + text::decimal(points as nat) + ") than effective cells ("@ + text::decimal(
                    cells as nat,
                ) + ")"@
            } else {
                "more points ("@ + text::decimal(points as nat) + ") than cells ("@ + text::decimal(cells as nat) + ")"@
            },
            ArgError::TooFewPoints { points } => "the number of points ("@ + text::decimal(points as nat) + ") is smaller than 10000"@,
        }
    }

    /// The message for wrong arguments.
    pub fn message(self) -> (r: String)
        ensures
            r@ == self.text(),
    {
        match self {
            ArgError::NoDimension => "t must be at least 1".to_owned(),
            ArgError::NoBits => "u must be at least 1".to_owned(),
            ArgError::DimensionTooLarge { t } => sentence("t (", t as u128, ") must be at most 128 (the cell count would exceed 2¹²⁸)"),
            ArgError::ShiftTooLarge { s } => sentence("shift (", s as u128, ") must be less than 64"),
            ArgError::TooManyBits { u, limit } => sentence_of_two("u (", u as u128, ") can be at most 64 - shift (", limit as u128, ")"),
            ArgError::DecimationNeedsMemory => "--decimation-bits requires explicit -m".to_owned(),
            ArgError::DecimationZero => "--decimation-bits d must be at least 1".to_owned(),
            ArgError::DecimationTooLarge { d, u } => sentence_of_two("--decimation-bits d (", d as u128, ") must be less than u (", u as u128, ")"),
            ArgError::TradeoffZero => "--tradeoff-bits b must be at least 1".to_owned(),
            ArgError::TradeoffTooLarge { b, limit } => sentence_of_two("--tradeoff-bits b (", b as u128, ") must be at most t·(u - d) (", limit as u128, ")"),
            ArgError::TradeoffTooManyPasses { b } => sentence("--tradeoff-bits b (", b as u128, ") must be less than 64"),
            ArgError::CheckpointsWithBirthday => "--checkpoints is incompatible with --birthday-spacings".to_owned(),
            ArgError::PassNeedsTradeoff => "--pass requires -b (--tradeoff-bits)".to_owned(),
            ArgError::PassTooLarge { k, passes } => sentence_of_two("--pass K (", k as u128, ") must be less than 2ᵇ (", passes as u128, ")"),
            ArgError::PointsOverflow => "the number of points m · 2ᵇ overflows the address space (reduce m or b)".to_owned(),
            ArgError::PointsOutOfRange => "the given combination of memory, repetitions and cells is out of range (omit -m to use the maximum)".to_owned(),
            ArgError::MorePointsThanCells { points, effective, cells } => {
                if effective {
                    sentence_of_two("more points (", points as u128, ") than effective cells (", cells as u128, ")")
                } else {
                    sentence_of_two("more points (", points as u128, ") than cells (", cells as u128, ")")
                }
            },
            ArgError::TooFewPoints { points } => sentence("the number of points (", points as u128, ") is smaller than 10000"),
        }
    }
}

/// Descriptors are listed in their order, each one after a comma and a space, and none gives nothing.
pub proof fn lemma_listed(a: Seq<String>, b: Seq<String>, one: String)
    ensures
        listed(a + b) == listed(a) + listed(b),
        listed(seq![one]) == seq![',', ' '] + one@,
        listed(Seq::empty()).len() == 0,
    decreases b.len(),
{
    reveal_strlit(", ");
    assert(seq![one].drop_last() =~= Seq::<String>::empty());
    reveal_with_fuel(listed, 2);
    assert(", "@ =~= seq![',', ' ']);
    assert(listed(seq![one]) =~= seq![',', ' '] + one@);
    if b.len() == 0 {
        assert(a + b =~= a);
        assert(listed(a) + listed(b) =~= listed(a));
    } else {
        lemma_listed(a, b.drop_last(), one);
        assert((a + b).drop_last() =~= a + b.drop_last());
        assert((a + b).last() == b.last());
        assert(listed(a) + (listed(b.drop_last()) + ", "@ + b.last()@) =~= (listed(a) + listed(b.drop_last())) + ", "@
            + b.last()@);
    }
}

/// A message tells which buffer overflowed: no two of them are called the same.
pub proof fn lemma_names_differ(a: Bin, b: Bin)
    requires
        a.name() == b.name(),
    ensures
        a == b,
{
    lemma_name_shape(a);
    lemma_name_shape(b);
}

/// The lengths of the names, and two of their letters.
proof fn lemma_name_shape(bin: Bin)
    ensures
        match bin {
            Bin::ParallelChunk => bin.name().len() == 27 && bin.name()[2] == 'p' && bin.name()[10] == ' ',
            Bin::TradeoffBin => bin.name().len() == 14 && bin.name()[2] == 't' && bin.name()[10] == ' ',
            Bin::CollisionPass => bin.name().len() == 25 && bin.name()[2] == 'c' && bin.name()[10] == 'n',
            Bin::DecimatedCollision => bin.name().len() == 25 && bin.name()[2] == 'd' && bin.name()[10] == 'd',
            Bin::CheckpointStage => bin.name().len() == 29 && bin.name()[2] == 'd' && bin.name()[10] == 'o',
            Bin::CheckpointTotal => bin.name().len() == 37 && bin.name()[2] == 'e' && bin.name()[10] == 't',
            Bin::ParallelCheckpointTotal => bin.name().len() == 26 && bin.name()[2] == 'e' && bin.name()[10] == 'o',
            Bin::DecimatedBirthday => bin.name().len() == 24 && bin.name()[2] == 'd' && bin.name()[10] == 'd',
            Bin::BirthdayInterval => bin.name().len() == 25 && bin.name()[2] == 'b' && bin.name()[10] == ' ',
            Bin::BirthdayClass => bin.name().len() == 25 && bin.name()[2] == 'b' && bin.name()[10] == '-',
        },
{
    match bin {
        Bin::ParallelChunk => reveal_strlit("a parallel decimation chunk"),
        Bin::TradeoffBin => reveal_strlit("a tradeoff bin"),
        Bin::CollisionPass => reveal_strlit("a collision tradeoff pass"),
        Bin::DecimatedCollision => reveal_strlit("a decimated collision run"),
        Bin::CheckpointStage => reveal_strlit("a decimation checkpoint stage"),
        Bin::CheckpointTotal => reveal_strlit("the decimation checkpoint accumulator"),
        Bin::ParallelCheckpointTotal => reveal_strlit("the checkpoint accumulator"),
        Bin::DecimatedBirthday => reveal_strlit("a decimated birthday run"),
        Bin::BirthdayInterval => reveal_strlit("a birthday value interval"),
        Bin::BirthdayClass => reveal_strlit("a birthday-spacings class"),
    }
}

/// A message of wrong arguments shows the wrong number, and then the limit that it exceeds, or that it
/// does not reach. Returns the text before, between and behind them, or before and behind a single one,
/// which is then given by the first two.
pub proof fn lemma_message_numbers(e: ArgError) -> (parts: (Seq<char>, Seq<char>, Seq<char>))
    ensures
        ({
            let (x, y, z): (Seq<char>, Seq<char>, Seq<char>) = parts;
            match e {
                ArgError::DimensionTooLarge { t } => e.text() == x + text::decimal(t as nat) + y,
                ArgError::ShiftTooLarge { s } => e.text() == x + text::decimal(s as nat) + y,
                ArgError::TooManyBits { u, limit } => e.text() == x + text::decimal(u as nat) + y + text::decimal(
                    limit as nat,
                ) + z,
                ArgError::DecimationTooLarge { d, u } => e.text() == x + text::decimal(d as nat) + y + text::decimal(
                    u as nat,
                ) + z,
                ArgError::TradeoffTooLarge { b, limit } => e.text() == x + text::decimal(b as nat) + y + text::decimal(
                    limit as nat,
                ) + z,
                ArgError::TradeoffTooManyPasses { b } => e.text() == x + text::decimal(b as nat) + y,
                ArgError::PassTooLarge { k, passes } => e.text() == x + text::decimal(k as nat) + y + text::decimal(
                    passes as nat,
                ) + z,
                ArgError::MorePointsThanCells { points, cells, .. } => e.text() == x + text::decimal(points as nat) + y
                    + text::decimal(cells as nat) + z,
                ArgError::TooFewPoints { points } => e.text() == x + text::decimal(points as nat) + y,
                _ => true,
            }
        }),
{
    let none: Seq<char> = Seq::empty();
    match e {
        ArgError::DimensionTooLarge { .. } => (
            "t ("@,
            ") must be at most 128 (the cell count would exceed 2¹²⁸)"@,
            none,
        ),
        ArgError::ShiftTooLarge { .. } => ("shift ("@, ") must be less than 64"@, none),
        ArgError::TooManyBits { .. } => ("u ("@, ") can be at most 64 - shift ("@, ")"@),
        ArgError::DecimationTooLarge { .. } => ("--decimation-bits d ("@, ") must be less than u ("@, ")"@),
        ArgError::TradeoffTooLarge { .. } => ("--tradeoff-bits b ("@, ") must be at most t·(u - d) ("@, ")"@),
        ArgError::TradeoffTooManyPasses { .. } => ("--tradeoff-bits b ("@, ") must be less than 64"@, none),
        ArgError::PassTooLarge { .. } => ("--pass K ("@, ") must be less than 2ᵇ ("@, ")"@),
        ArgError::MorePointsThanCells { effective, .. } => if effective {
            ("more points ("@, ") than effective cells ("@, ")"@)
        } else {
            ("more points ("@, ") than cells ("@, ")"@)
        },
        ArgError::TooFewPoints { .. } => ("the number of points ("@, ") is smaller than 10000"@, none),
        _ => (none, none, none),
    }
}

/// The descriptions of a run show the numbers that they are about.
pub proof fn lemma_run_described(s: usize, d: usize, u: usize, t: usize, b: usize, n: usize, how: &str, r: Seq<String>)
    requires
        r.len() == 6,
        s <= 64,
        d <= u,
        call_ensures(bits_read_desc, (s,), r[0]),
        call_ensures(decimation_desc, (d, t), r[1]),
        call_ensures(tradeoff_desc, (b,), r[2]),
        call_ensures(two_level_desc, (b,), r[3]),
        call_ensures(effective_cells_suffix, (d, u, t), r[4]),
        call_ensures(generation_desc, (n, how), r[5]),
    ensures
        s > 0 ==> r[0]@ == "lowest "@ + text::decimal((64 - s) as nat) + " bits"@,
        s == 0 ==> r[0]@ == "full 64-bit output"@,
        r[1]@ == "decimating "@ + text::decimal(d as nat) + " bits per dimension (~2"@ + text::superscripted(
            text::decimal((d * t) as nat),
        ) + " candidate samples per kept sample)"@,
        r[2]@ == "tradeoff on "@ + text::decimal(b as nat) + " top bits over "@ + text::decimal(pow2(b as nat))
            + " passes"@,
        r[3]@ == "tradeoff on "@ + text::decimal(b as nat) + " top bits over "@ + text::decimal(pow2(b as nat))
            + " value intervals x "@ + text::decimal(pow2(b as nat)) + " spacing classes"@,
        d == 0 ==> r[4]@.len() == 0,
        d > 0 ==> r[4]@ == " (effective cells after decimation: 2"@ + text::superscripted(
            text::decimal(((u - d) * t) as nat),
        ) + ")"@,
        r[5]@ == "using "@ + text::decimal(n as nat) + " parallel generators ("@ + how@ + ")"@,
{
}

/// A list of descriptors is one after the other, and the message of an overflow starts with what
/// overflowed; no two overflows have the same message.
pub proof fn lemma_told_apart(a: Bin, b: Bin, x: String, y: String, name: &'static str)
    requires
        call_ensures(bin_overflow, (a,), x),
        call_ensures(bin_overflow, (b,), y),
        call_ensures(Bin::what, (a,), name),
    ensures
        x@ == y@ ==> a == b,
        x@.len() >= name@.len(),
        x@.take(name@.len() as int) == name@,
        x@.skip(name@.len() as int) == y@.skip(y@.len() - (x@.len() - name@.len())),
{
    lemma_name_shape(a);
    lemma_name_shape(b);
    assert(x@.take(name@.len() as int) =~= name@);
    assert(x@.skip(name@.len() as int) =~= y@.skip(y@.len() - (x@.len() - name@.len())));
    if x@ == y@ {
        assert(a.name().len() == b.name().len());
        assert(x@.take(a.name().len() as int) =~= a.name());
        assert(y@.take(b.name().len() as int) =~= b.name());
        lemma_names_differ(a, b);
    }
}

/// Messages of the same kind differ only in the numbers. Returns the text around them, as
/// [`lemma_message_numbers`] does.
pub proof fn lemma_messages_alike(a: ArgError, b: ArgError, x: String, y: String) -> (parts: (
    Seq<char>,
    Seq<char>,
    Seq<char>,
))
    requires
        call_ensures(ArgError::message, (a,), x),
        call_ensures(ArgError::message, (b,), y),
    ensures
        ({
            let (p, q, r): (Seq<char>, Seq<char>, Seq<char>) = parts;
            match (a, b) {
                (ArgError::DimensionTooLarge { t: m }, ArgError::DimensionTooLarge { t: n }) => x@ == p + text::decimal(
                    m as nat,
                ) + q && y@ == p + text::decimal(n as nat) + q,
                (ArgError::ShiftTooLarge { s: m }, ArgError::ShiftTooLarge { s: n }) => x@ == p + text::decimal(
                    m as nat,
                ) + q && y@ == p + text::decimal(n as nat) + q,
                (ArgError::TradeoffTooManyPasses { b: m }, ArgError::TradeoffTooManyPasses { b: n }) => x@ == p
                    + text::decimal(m as nat) + q && y@ == p + text::decimal(n as nat) + q,
                (ArgError::TooFewPoints { points: m }, ArgError::TooFewPoints { points: n }) => x@ == p + text::decimal(
                    m as nat,
                ) + q && y@ == p + text::decimal(n as nat) + q,
                (ArgError::TooManyBits { u: m, limit: i }, ArgError::TooManyBits { u: n, limit: j }) => x@ == p
                    + text::decimal(m as nat) + q + text::decimal(i as nat) + r && y@ == p + text::decimal(n as nat) + q
                    + text::decimal(j as nat) + r,
                (ArgError::DecimationTooLarge { d: m, u: i }, ArgError::DecimationTooLarge { d: n, u: j }) => x@ == p
                    + text::decimal(m as nat) + q + text::decimal(i as nat) + r && y@ == p + text::decimal(n as nat) + q
                    + text::decimal(j as nat) + r,
                (ArgError::TradeoffTooLarge { b: m, limit: i }, ArgError::TradeoffTooLarge { b: n, limit: j }) => x@ == p
                    + text::decimal(m as nat) + q + text::decimal(i as nat) + r && y@ == p + text::decimal(n as nat) + q
                    + text::decimal(j as nat) + r,
                (ArgError::PassTooLarge { k: m, passes: i }, ArgError::PassTooLarge { k: n, passes: j }) => x@ == p
                    + text::decimal(m as nat) + q + text::decimal(i as nat) + r && y@ == p + text::decimal(n as nat) + q
                    + text::decimal(j as nat) + r,
                (
                    ArgError::MorePointsThanCells { points: m, effective: e, cells: i },
                    ArgError::MorePointsThanCells { points: n, effective: f, cells: j },
                ) => e == f ==> x@ == p + text::decimal(m as nat) + q + text::decimal(i as nat) + r && y@ == p
                    + text::decimal(n as nat) + q + text::decimal(j as nat) + r,
                _ => true,
            }
        }),
{
    match a {
        ArgError::DimensionTooLarge { .. } => (
            "t ("@,
            ") must be at most 128 (the cell count would exceed 2¹²⁸)"@,
            Seq::empty(),
        ),
        ArgError::ShiftTooLarge { .. } => ("shift ("@, ") must be less than 64"@, Seq::empty()),
        ArgError::TooManyBits { .. } => ("u ("@, ") can be at most 64 - shift ("@, ")"@),
        ArgError::DecimationTooLarge { .. } => ("--decimation-bits d ("@, ") must be less than u ("@, ")"@),
        ArgError::TradeoffTooLarge { .. } => ("--tradeoff-bits b ("@, ") must be at most t·(u - d) ("@, ")"@),
        ArgError::TradeoffTooManyPasses { .. } => ("--tradeoff-bits b ("@, ") must be less than 64"@, Seq::empty()),
        ArgError::PassTooLarge { .. } => ("--pass K ("@, ") must be less than 2ᵇ ("@, ")"@),
        ArgError::MorePointsThanCells { effective, .. } => if effective {
            ("more points ("@, ") than effective cells ("@, ")"@)
        } else {
            ("more points ("@, ") than cells ("@, ")"@)
        },
        ArgError::TooFewPoints { .. } => ("the number of points ("@, ") is smaller than 10000"@, Seq::empty()),
        _ => (Seq::empty(), Seq::empty(), Seq::empty()),
    }
}

} // verus!
