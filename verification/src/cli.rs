//! Command-line arguments: their validation, and the parsing of numbers.
use vstd::arithmetic::div_mod::*;
use vstd::arithmetic::power2::*;
use vstd::prelude::*;
use vstd::string::*;

use crate::bits;
use crate::common::{pass_count, Cells};
use crate::text;
use crate::util::parallelism;

verus! {

/// The arguments of a test.
#[derive(Clone, Copy)]
pub struct Args {
    /// Number of upper bits used, that is, log₂ of the number of subdivisions per dimension.
    pub u: usize,
    /// The dimension of the test; the cell count is (2ᵘ ⁻ ᵈ)ᵗ.
    pub t: usize,
    /// Number of memory locations: the number of points is m · 2ᵇ (approximate when decimating),
    /// the number of samples is m · 2ᵇ · 2ᵗᵈ.
    pub m: Option<usize>,
    /// Left-shift the generator output by this many bits before extracting cell indices.
    pub s: usize,
    /// Use a time-space tradeoff on the top b bits of the combined index.
    pub tradeoff_bits: Option<usize>,
    /// Use decimation to keep only tuples in which every coordinate's lowest d bits are zero.
    pub decimation_bits: Option<usize>,
    /// Report progressive counts at ⌊√(2ᵗᵈ)⌋ uniform checkpoints.
    pub checkpoints: bool,
    /// Run the birthday-spacings test instead of the collision test.
    pub birthday_spacings: bool,
    /// Number of independent repetitions.
    pub reps: usize,
    /// Generator seed.
    pub seed: u64,
    /// Print p-values close to 1 in the form `1 − ε`.
    pub pretty_p: bool,
    /// Generate data in parallel.
    pub parallel: bool,
    /// Run only one of the 2ᵇ tradeoff units (0-based).
    pub pass: Option<u64>,
}

/// What can be wrong with the arguments.
#[derive(Clone, Copy, PartialEq, Eq, Debug, Structural)]
pub enum ArgError {
    /// The dimension is zero.
    NoDimension,
    /// No bits are used.
    NoBits,
    /// The dimension alone makes too many cells.
    DimensionTooLarge { t: usize },
    /// The shift leaves nothing of a word.
    ShiftTooLarge { s: usize },
    /// The shift leaves fewer bits than are used.
    TooManyBits { u: usize, limit: usize },
    /// Decimation goes with an explicit number of memory locations.
    DecimationNeedsMemory,
    /// No bits are decimated.
    DecimationZero,
    /// All bits are decimated.
    DecimationTooLarge { d: usize, u: usize },
    /// The tradeoff has no bits.
    TradeoffZero,
    /// The tradeoff has more bits than an index.
    TradeoffTooLarge { b: usize, limit: usize },
    /// The tradeoff has too many passes.
    TradeoffTooManyPasses { b: usize },
    /// Checkpoints are for the collision test.
    CheckpointsWithBirthday,
    /// A single pass is one of a tradeoff.
    PassNeedsTradeoff,
    /// There is no such pass.
    PassTooLarge { k: u64, passes: u64 },
    /// The number of points does not fit in a word.
    PointsOverflow,
    /// There are more points than the birthday-spacings test admits.
    PointsOutOfRange,
    /// There are more points than cells.
    MorePointsThanCells { points: usize, effective: bool, cells: usize },
    /// There are too few points.
    TooFewPoints { points: usize },
}

/// A number of bits that may be left out, in which case it is zero.
pub open spec fn or_zero(x: Option<usize>) -> usize {
    match x {
        Some(y) => y,
        None => 0,
    }
}

impl Args {
    /// The bits of a cell index.
    pub open spec fn index_bits(&self) -> int {
        self.t * (self.u - or_zero(self.decimation_bits))
    }

    /// Whether the arguments are wrong in a given way.
    pub open spec fn defect(&self, e: ArgError) -> bool {
        match e {
            ArgError::NoDimension => self.t == 0,
            ArgError::NoBits => self.u == 0,
            ArgError::DimensionTooLarge { t } => t == self.t && t > 128,
            ArgError::ShiftTooLarge { s } => s == self.s && s >= 64,
            ArgError::TooManyBits { u, limit } => u == self.u && limit == 64 - self.s && u > limit,
            ArgError::DecimationNeedsMemory => self.decimation_bits is Some && self.m is None,
            ArgError::DecimationZero => self.decimation_bits == Some(0usize),
            ArgError::DecimationTooLarge { d, u } => self.decimation_bits == Some(d) && u == self.u && d >= u,
            ArgError::TradeoffZero => self.tradeoff_bits == Some(0usize),
            ArgError::TradeoffTooLarge { b, limit } => self.tradeoff_bits == Some(b) && limit == self.index_bits() && b
                > limit,
            ArgError::TradeoffTooManyPasses { b } => self.tradeoff_bits == Some(b) && b >= 64,
            ArgError::CheckpointsWithBirthday => self.checkpoints && self.birthday_spacings,
            ArgError::PassNeedsTradeoff => self.pass is Some && self.tradeoff_bits is None,
            ArgError::PassTooLarge { k, passes } => self.pass == Some(k) && self.tradeoff_bits is Some && passes
                == pow2(self.tradeoff_bits->0 as nat) && k >= passes,
            _ => false,
        }
    }

    /// Nothing is wrong with the arguments.
    pub open spec fn valid(&self) -> bool {
        &&& 1 <= self.t <= 128
        &&& 1 <= self.u
        &&& self.u + self.s <= 64
        &&& self.decimation_bits matches Some(d) ==> 1 <= d < self.u && self.m is Some
        &&& self.tradeoff_bits matches Some(b) ==> 1 <= b < 64 && b <= self.index_bits()
        &&& !(self.checkpoints && self.birthday_spacings)
        &&& self.pass matches Some(k) ==> self.tradeoff_bits is Some && (k as nat) < pow2(
            self.tradeoff_bits->0 as nat,
        )
    }

    /// The number of top tradeoff bits b (0 when absent). Used by both the collision and
    /// birthday-spacings tests.
    pub fn tradeoff_bits(&self) -> (r: usize)
        ensures
            r == or_zero(self.tradeoff_bits),
    {
        match self.tradeoff_bits {
            Some(b) => b,
            None => 0,
        }
    }

    /// The number of decimation bits d (0 when absent).
    pub fn decimation_bits(&self) -> (r: usize)
        ensures
            r == or_zero(self.decimation_bits),
    {
        match self.decimation_bits {
            Some(d) => d,
            None => 0,
        }
    }

    /// Validates argument combinations. Of several defects, the first one in the order of
    /// [`ArgError`] is returned.
    pub fn validate(&self) -> (r: Result<(), ArgError>)
        ensures
            r is Ok <==> self.valid(),
            r matches Err(e) ==> self.defect(e) && forall|f: ArgError| #[trigger]
                self.defect(f) ==> rank(e) <= rank(f),
    {
        if self.t < 1 {
            return Err(ArgError::NoDimension);
        }
        if self.u < 1 {
            return Err(ArgError::NoBits);
        }
        if self.t > 128 {
            return Err(ArgError::DimensionTooLarge { t: self.t });
        }
        if self.s >= 64 {
            return Err(ArgError::ShiftTooLarge { s: self.s });
        }
        if self.u > 64 - self.s {
            return Err(ArgError::TooManyBits { u: self.u, limit: 64 - self.s });
        }
        let d: usize = self.decimation_bits();
        if self.decimation_bits.is_some() {
            if self.m.is_none() {
                return Err(ArgError::DecimationNeedsMemory);
            }
            if d < 1 {
                return Err(ArgError::DecimationZero);
            }
            if d >= self.u {
                return Err(ArgError::DecimationTooLarge { d, u: self.u });
            }
        }
        if let Some(b) = self.tradeoff_bits {
            if b < 1 {
                return Err(ArgError::TradeoffZero);
            }
            proof {
                assert(0 <= self.t * (self.u - d) <= 128 * 64) by (nonlinear_arith)
                    requires
                        0 <= self.t <= 128,
                        0 <= self.u - d <= 64,
                ;
            }
            let limit: usize = self.t * (self.u - d);
            if b > limit {
                return Err(ArgError::TradeoffTooLarge { b, limit });
            }
            if b >= 64 {
                return Err(ArgError::TradeoffTooManyPasses { b });
            }
        }
        if self.checkpoints && self.birthday_spacings {
            return Err(ArgError::CheckpointsWithBirthday);
        }
        if let Some(k) = self.pass {
            match self.tradeoff_bits {
                None => {
                    return Err(ArgError::PassNeedsTradeoff);
                },
                Some(b) => {
                    let passes: u64 = pass_count(b);
                    if k >= passes {
                        return Err(ArgError::PassTooLarge { k, passes });
                    }
                },
            }
        }
        Ok(())
    }

    /// Resolved parallel generation width: `None` for sequential generation, the Rayon pool size
    /// when `parallel` is set.
    pub fn parallel_cpus(&self) -> (r: Option<usize>)
        ensures
            r is Some <==> self.parallel,
            r matches Some(n) ==> call_ensures(parallelism, (), n) && 1 <= n < 0x1_0000,
    {
        if self.parallel {
            Some(parallelism())
        } else {
            None
        }
    }
}

/// The order in which defects are looked for.
pub open spec fn rank(e: ArgError) -> nat {
    match e {
        ArgError::NoDimension => 0,
        ArgError::NoBits => 1,
        ArgError::DimensionTooLarge { .. } => 2,
        ArgError::ShiftTooLarge { .. } => 3,
        ArgError::TooManyBits { .. } => 4,
        ArgError::DecimationNeedsMemory => 5,
        ArgError::DecimationZero => 6,
        ArgError::DecimationTooLarge { .. } => 7,
        ArgError::TradeoffZero => 8,
        ArgError::TradeoffTooLarge { .. } => 9,
        ArgError::TradeoffTooManyPasses { .. } => 10,
        ArgError::CheckpointsWithBirthday => 11,
        ArgError::PassNeedsTradeoff => 12,
        ArgError::PassTooLarge { .. } => 13,
        _ => 14,
    }
}

/// Two defects of the same arguments that come at the same place are the same.
pub proof fn lemma_defect_determined(args: Args, e: ArgError, f: ArgError)
    requires
        args.defect(e),
        args.defect(f),
        rank(e) == rank(f),
    ensures
        e == f,
{
}

/// The points that the arguments ask for, out of a word's range or not: the number of memory
/// locations, or else the largest one that makes sense, times the number of passes.
pub open spec fn asked_points(args: &Args, cells: nat, max_points: usize) -> nat {
    let passes: nat = pow2(or_zero(args.tradeoff_bits) as nat);
    let m: nat = match args.m {
        Some(m) => m as nat,
        None => if args.birthday_spacings {
            max_points as nat / passes
        } else if cells <= usize::MAX {
            cells / passes
        } else {
            usize::MAX as nat / passes
        },
    };
    m * passes
}

/// Computes the point count to use, applying the test-specific defaults.
///
/// In tradeoff mode the user-supplied `m` is the per-pass memory; the actual number of points is
/// m · 2*ᵇ*. The birthday-spacings test has a limit on the number of points, `max_points`; the
/// collision test has at most as many points as cells.
pub fn compute_points(args: &Args, cells: &Cells, max_points: usize) -> (r: Result<usize, ArgError>)
    requires
        or_zero(args.tradeoff_bits) < usize::BITS,
    ensures
        ({
            let n: nat = asked_points(args, cells@, max_points);
            match r {
                Ok(points) => points == n && n >= 10000 && if args.birthday_spacings {
                    n <= max_points
                } else {
                    n <= cells@
                },
                Err(ArgError::PointsOverflow) => n > usize::MAX,
                Err(ArgError::PointsOutOfRange) => max_points < n <= usize::MAX && args.birthday_spacings,
                Err(ArgError::MorePointsThanCells { points, effective, cells: limit }) => points == n && limit == cells@
                    && n > cells@ && !args.birthday_spacings && effective == (args.decimation_bits is Some),
                Err(ArgError::TooFewPoints { points }) => points == n && n < 10000 && if args.birthday_spacings {
                    n <= max_points
                } else {
                    n <= cells@
                },
                _ => false,
            }
        }),
{
    let b: usize = args.tradeoff_bits();
    let pass_factor: u64 = pass_count(b);
    proof {
        lemma_factor_fits(b);
    }
    let factor: usize = pass_factor as usize;
    let last: u128 = cells.last();
    let default: usize = if args.birthday_spacings {
        max_points / factor
    } else if last < usize::MAX as u128 {
        ((last + 1) as usize) / factor
    } else {
        usize::MAX / factor
    };
    let m: usize = match args.m {
        Some(m) => m,
        None => default,
    };
    match m.checked_mul(factor) {
        None => Err(ArgError::PointsOverflow),
        Some(points) => {
            if args.birthday_spacings {
                if points > max_points {
                    return Err(ArgError::PointsOutOfRange);
                }
            } else if points as u128 > last {
                if points as u128 - last > 1 {
                    return Err(
                        ArgError::MorePointsThanCells {
                            points,
                            effective: args.decimation_bits.is_some(),
                            cells: (last + 1) as usize,
                        },
                    );
                }
            }
            if points < 10000 {
                Err(ArgError::TooFewPoints { points })
            } else {
                Ok(points)
            }
        },
    }
}

/// A power of two with an exponent less than the number of bits of a word fits in the word.
proof fn lemma_factor_fits(b: usize)
    requires
        b < usize::BITS,
    ensures
        pow2(b as nat) <= usize::MAX,
{
    bits::lemma_word_moduli();
    if usize::BITS == 32 {
        lemma_pow2_strictly_increases(b as nat, 32);
    } else {
        lemma_pow2_strictly_increases(b as nat, 64);
    }
}

/// What can be wrong with the text of a number.
#[derive(Clone, Copy, PartialEq, Eq, Debug, Structural)]
pub enum NumberError {
    /// There are no digits.
    Empty,
    /// A character is not a digit.
    InvalidDigit,
    /// The number does not fit in 64 bits.
    Overflow,
}

/// White space: the characters that have the Unicode property of that name.
pub open spec fn white_space(c: char) -> bool {
    ||| '\u{9}' <= c <= '\u{d}'
    ||| c == ' '
    ||| c == '\u{85}'
    ||| c == '\u{a0}'
    ||| c == '\u{1680}'
    ||| '\u{2000}' <= c <= '\u{200a}'
    ||| c == '\u{2028}'
    ||| c == '\u{2029}'
    ||| c == '\u{202f}'
    ||| c == '\u{205f}'
    ||| c == '\u{3000}'
}

/// Text without the white space in front of it.
pub open spec fn trim_front(s: Seq<char>) -> Seq<char>
    decreases s.len(),
{
    if s.len() > 0 && white_space(s[0]) {
        trim_front(s.drop_first())
    } else {
        s
    }
}

/// Text without the white space behind it.
pub open spec fn trim_back(s: Seq<char>) -> Seq<char>
    decreases s.len(),
{
    if s.len() > 0 && white_space(s.last()) {
        trim_back(s.drop_last())
    } else {
        s
    }
}

/// The radix that the first two characters ask for, if they do.
pub open spec fn prefix_radix(s: Seq<char>) -> Option<nat> {
    if s.len() < 2 || s[0] != '0' {
        None
    } else if s[1] == 'x' || s[1] == 'X' {
        Some(16)
    } else if s[1] == 'o' || s[1] == 'O' {
        Some(8)
    } else if s[1] == 'b' || s[1] == 'B' {
        Some(2)
    } else {
        None
    }
}

/// Text without its underscores.
pub open spec fn without_underscores(s: Seq<char>) -> Seq<char>
    decreases s.len(),
{
    if s.len() == 0 {
        s
    } else if s.last() == '_' {
        without_underscores(s.drop_last())
    } else {
        without_underscores(s.drop_last()).push(s.last())
    }
}

/// The value of a digit in a radix, if it is one.
pub open spec fn digit_value(c: char, radix: nat) -> Option<nat> {
    let d: int = if '0' <= c <= '9' {
        c as int - '0' as int
    } else if 'a' <= c <= 'z' {
        c as int - 'a' as int + 10
    } else if 'A' <= c <= 'Z' {
        c as int - 'A' as int + 10
    } else {
        36
    };
    if d < radix {
        Some(d as nat)
    } else {
        None
    }
}

/// The number that digits stand for, as far as it fits in 64 bits.
pub open spec fn digits_number(s: Seq<char>, radix: nat) -> Result<nat, NumberError>
    decreases s.len(),
{
    if s.len() == 0 {
        Ok(0)
    } else {
        match digits_number(s.drop_last(), radix) {
            Err(e) => Err(e),
            Ok(x) => match digit_value(s.last(), radix) {
                None => Err(NumberError::InvalidDigit),
                Some(d) => if x * radix + d > u64::MAX {
                    Err(NumberError::Overflow)
                } else {
                    Ok(x * radix + d)
                },
            },
        }
    }
}

/// The number that digits, after an optional plus sign, stand for.
pub open spec fn signed_number(s: Seq<char>, radix: nat) -> Result<nat, NumberError> {
    if s.len() == 0 {
        Err(NumberError::Empty)
    } else if s.len() > 1 && s[0] == '+' {
        digits_number(s.drop_first(), radix)
    } else {
        digits_number(s, radix)
    }
}

/// The number that text stands for.
pub open spec fn number(text: Seq<char>) -> Result<nat, NumberError> {
    let s: Seq<char> = trim_back(trim_front(text));
    match prefix_radix(s) {
        Some(radix) => signed_number(without_underscores(s.skip(2)), radix),
        None => signed_number(without_underscores(s), 10),
    }
}

/// Whether a character is white space.
fn is_white_space(c: char) -> (r: bool)
    ensures
        r == white_space(c),
{
    ('\u{9}' <= c && c <= '\u{d}') || c == ' ' || c == '\u{85}' || c == '\u{a0}' || c == '\u{1680}' || ('\u{2000}' <= c
        && c <= '\u{200a}') || c == '\u{2028}' || c == '\u{2029}' || c == '\u{202f}' || c == '\u{205f}' || c
        == '\u{3000}'
}

/// The value of a digit in a radix, if it is one.
fn value_of_digit(c: char, radix: u64) -> (r: Option<u64>)
    requires
        radix <= 36,
    ensures
        match r {
            Some(d) => digit_value(c, radix as nat) == Some(d as nat),
            None => digit_value(c, radix as nat) is None,
        },
{
    let d: u64 = if '0' <= c && c <= '9' {
        c as u64 - '0' as u64
    } else if 'a' <= c && c <= 'z' {
        c as u64 - 'a' as u64 + 10
    } else if 'A' <= c && c <= 'Z' {
        c as u64 - 'A' as u64 + 10
    } else {
        36
    };
    if d < radix {
        Some(d)
    } else {
        None
    }
}

/// Parses an unsigned 64-bit integer in decimal, or in hexadecimal, octal, or binary when prefixed
/// with `0x`, `0o`, or `0b` (case-insensitive). Underscores are allowed as digit separators (e.g.
/// `0xDEAD_BEEF`), white space around the number is ignored, and a plus sign may precede the
/// digits.
pub fn parse_u64(value: &str) -> (r: Result<u64, NumberError>)
    ensures
        match r {
            Ok(n) => number(value@) == Ok::<nat, NumberError>(n as nat),
            Err(e) => number(value@) == Err::<nat, NumberError>(e),
        },
{
    let len: usize = value.unicode_len();
    let mut lo: usize = 0;
    proof {
        assert(value@.skip(0) =~= value@);
    }
    while lo < len && is_white_space(value.get_char(lo))
        invariant
            lo <= len,
            len == value@.len(),
            trim_front(value@.skip(lo as int)) == trim_front(value@),
        decreases len - lo,
    {
        proof {
            assert(value@.skip(lo as int).drop_first() =~= value@.skip(lo + 1));
        }
        lo += 1;
    }
    let ghost front: Seq<char> = value@.skip(lo as int);
    proof {
        assert(trim_front(value@) == front);
    }
    let mut hi: usize = len;
    proof {
        assert(value@.subrange(lo as int, hi as int) =~= front);
    }
    while hi > lo && is_white_space(value.get_char(hi - 1))
        invariant
            lo <= hi <= len,
            len == value@.len(),
            trim_back(value@.subrange(lo as int, hi as int)) == trim_back(front),
        decreases hi - lo,
    {
        proof {
            assert(value@.subrange(lo as int, hi as int).drop_last() =~= value@.subrange(lo as int, hi - 1));
        }
        hi -= 1;
    }
    let ghost s: Seq<char> = value@.subrange(lo as int, hi as int);
    proof {
        assert(trim_back(front) == s);
    }
    let mut radix: u64 = 10;
    let mut start: usize = lo;
    if hi - lo >= 2 && value.get_char(lo) == '0' {
        let c: char = value.get_char(lo + 1);
        if c == 'x' || c == 'X' {
            radix = 16;
            start = lo + 2;
        } else if c == 'o' || c == 'O' {
            radix = 8;
            start = lo + 2;
        } else if c == 'b' || c == 'B' {
            radix = 2;
            start = lo + 2;
        }
    }
    let ghost body: Seq<char> = value@.subrange(start as int, hi as int);
    proof {
        if start == lo {
            assert(body =~= s);
        } else {
            assert(body =~= s.skip(2));
        }
    }
    let digits: Vec<char> = digits_of(value, start, hi);
    number_of(&digits, radix)
}

/// The characters `lo..hi` of a text, without underscores.
fn digits_of(value: &str, lo: usize, hi: usize) -> (r: Vec<char>)
    requires
        lo <= hi <= value@.len(),
    ensures
        r@ == without_underscores(value@.subrange(lo as int, hi as int)),
{
    let mut r: Vec<char> = Vec::new();
    let mut i: usize = lo;
    proof {
        assert(value@.subrange(lo as int, lo as int) =~= Seq::<char>::empty());
    }
    while i < hi
        invariant
            lo <= i <= hi <= value@.len(),
            r@ == without_underscores(value@.subrange(lo as int, i as int)),
        decreases hi - i,
    {
        let c: char = value.get_char(i);
        proof {
            assert(value@.subrange(lo as int, i + 1).drop_last() =~= value@.subrange(lo as int, i as int));
            assert(value@.subrange(lo as int, i + 1).last() == c);
        }
        if c != '_' {
            r.push(c);
        }
        i += 1;
    }
    r
}

/// The number that digits, after an optional plus sign, stand for.
fn number_of(digits: &Vec<char>, radix: u64) -> (r: Result<u64, NumberError>)
    requires
        radix <= 36,
    ensures
        match r {
            Ok(n) => signed_number(digits@, radix as nat) == Ok::<nat, NumberError>(n as nat),
            Err(e) => signed_number(digits@, radix as nat) == Err::<nat, NumberError>(e),
        },
{
    if digits.len() == 0 {
        return Err(NumberError::Empty);
    }
    let first: usize = if digits.len() > 1 && digits[0] == '+' {
        1
    } else {
        0
    };
    let ghost s: Seq<char> = digits@.skip(first as int);
    proof {
        if first == 1 {
            assert(s =~= digits@.drop_first());
        } else {
            assert(s =~= digits@);
        }
        assert(s.take(0) =~= Seq::<char>::empty());
    }
    let mut x: u64 = 0;
    let mut i: usize = first;
    while i < digits.len()
        invariant
            first <= i <= digits@.len(),
            radix <= 36,
            s == digits@.skip(first as int),
            signed_number(digits@, radix as nat) == digits_number(s, radix as nat),
            digits_number(s.take(i - first), radix as nat) == Ok::<nat, NumberError>(x as nat),
        decreases digits@.len() - i,
    {
        let ghost k: int = i - first;
        proof {
            assert(s.take(k + 1).drop_last() =~= s.take(k));
            assert(s.take(k + 1).last() == digits@[i as int]);
        }
        match value_of_digit(digits[i], radix) {
            None => {
                proof {
                    lemma_error_stays(s, radix as nat, k + 1);
                }
                return Err(NumberError::InvalidDigit);
            },
            Some(d) => {
                proof {
                    assert(0 <= x * radix <= 0xffff_ffff_ffff_ffff * 36) by (nonlinear_arith)
                        requires
                            x <= 0xffff_ffff_ffff_ffff,
                            radix <= 36,
                    ;
                    lemma_error_stays(s, radix as nat, k + 1);
                }
                let y: u128 = (x as u128) * (radix as u128) + d as u128;
                if y > u64::MAX as u128 {
                    return Err(NumberError::Overflow);
                }
                x = y as u64;
            },
        }
        i += 1;
    }
    proof {
        assert(s.take(i - first) =~= s);
    }
    Ok(x)
}

/// What is wrong with the first digits is wrong with all of them.
proof fn lemma_error_stays(s: Seq<char>, radix: nat, k: int)
    requires
        0 <= k <= s.len(),
    ensures
        digits_number(s.take(k), radix) is Err ==> digits_number(s, radix) == digits_number(s.take(k), radix),
    decreases s.len() - k,
{
    if k == s.len() {
        assert(s.take(k) =~= s);
    } else {
        lemma_error_stays(s, radix, k + 1);
        assert(s.take(k + 1).drop_last() =~= s.take(k));
    }
}

/// Digits spell a number in a radix: they are its digits, with no leading zeros.
pub open spec fn spells(d: Seq<char>, n: nat, radix: nat) -> bool
    decreases d.len(),
{
    &&& d.len() > 0
    &&& digit_value(d.last(), radix) == Some(n % radix)
    &&& if n < radix {
        d.len() == 1
    } else {
        spells(d.drop_last(), n / radix, radix)
    }
}

/// A prefix announces a radix; the decimal one goes without.
pub open spec fn announces(prefix: Seq<char>, radix: nat) -> bool {
    ||| radix == 10 && prefix.len() == 0
    ||| radix == 16 && (prefix == seq!['0', 'x'] || prefix == seq!['0', 'X'])
    ||| radix == 8 && (prefix == seq!['0', 'o'] || prefix == seq!['0', 'O'])
    ||| radix == 2 && (prefix == seq!['0', 'b'] || prefix == seq!['0', 'B'])
}

/// A number that is written down is read back: in each radix with its prefix, with digits in upper or
/// lower case, with underscores among them, and with white space around it.
pub proof fn lemma_written_number(
    n: u64,
    radix: nat,
    front: Seq<char>,
    prefix: Seq<char>,
    digits: Seq<char>,
    back: Seq<char>,
)
    requires
        forall|i: int| 0 <= i < front.len() ==> white_space(#[trigger] front[i]),
        forall|i: int| 0 <= i < back.len() ==> white_space(#[trigger] back[i]),
        announces(prefix, radix),
        spells(without_underscores(digits), n as nat, radix),
    ensures
        number(front + prefix + digits + back) == Ok::<nat, NumberError>(n as nat),
{
    let d: Seq<char> = without_underscores(digits);
    let s: Seq<char> = prefix + digits;
    lemma_digits_spelled(d, n as nat, radix);
    lemma_without_underscores(digits);
    assert(digits.len() > 0);
    assert forall|i: int| 0 <= i < digits.len() implies (#[trigger] digits[i] == '_' || digit_value(digits[i], radix)
        is Some) by {
        if digits[i] != '_' {
            let k: int = choose|k: int| 0 <= k < d.len() && d[k] == digits[i];
            assert(digit_value(d[k], radix) is Some);
        }
    }
    assert(!white_space(s[0])) by {
        if prefix.len() == 0 {
            assert(s[0] == digits[0]);
        }
    }
    assert(s.last() == digits[digits.len() - 1]);
    assert(!white_space(s.last()));
    assert(front + prefix + digits + back =~= front + (s + back));
    lemma_trim_front(front, s + back);
    lemma_trim_back(s, back);
    assert(signed_number(d, radix) == Ok::<nat, NumberError>(n as nat)) by {
        assert(digit_value(d[0], radix) is Some);
    }
    if prefix.len() == 0 {
        assert(s =~= digits);
        if digits.len() >= 2 {
            assert(digits[1] == '_' || digit_value(digits[1], radix) is Some);
        }
        assert(prefix_radix(s) is None);
    } else {
        assert(s[0] == prefix[0] && s[1] == prefix[1]);
        assert(s.skip(2) =~= digits);
        assert(prefix_radix(s) == Some(radix));
    }
}

/// The digits that spell a number stand for it.
proof fn lemma_digits_spelled(d: Seq<char>, n: nat, radix: nat)
    requires
        radix >= 2,
        n <= u64::MAX,
        spells(d, n, radix),
    ensures
        digits_number(d, radix) == Ok::<nat, NumberError>(n),
        forall|i: int| 0 <= i < d.len() ==> digit_value(#[trigger] d[i], radix) is Some,
    decreases d.len(),
{
    let rest: Seq<char> = d.drop_last();
    if n < radix {
        lemma_small_mod(n, radix);
        assert(digits_number(rest, radix) == Ok::<nat, NumberError>(0));
        assert(0 * radix == 0) by (nonlinear_arith);
    } else {
        lemma_fundamental_div_mod(n as int, radix as int);
        lemma_div_decreases(n as int, radix as int);
        lemma_digits_spelled(rest, n / radix, radix);
        assert((n / radix) * radix == radix * (n / radix)) by (nonlinear_arith);
    }
    assert forall|i: int| 0 <= i < d.len() implies digit_value(#[trigger] d[i], radix) is Some by {
        if i < d.len() - 1 {
            assert(rest[i] == d[i]);
        }
    }
}

/// Whatever is not an underscore is left.
#[verifier::spinoff_prover]
#[verifier::rlimit(40)]
proof fn lemma_without_underscores(s: Seq<char>)
    ensures
        forall|i: int|
            0 <= i < s.len() && #[trigger] s[i] != '_' ==> exists|k: int|
                0 <= k < without_underscores(s).len() && #[trigger] without_underscores(s)[k] == s[i],
        (forall|i: int| 0 <= i < s.len() ==> #[trigger] s[i] != '_') ==> without_underscores(s) == s,
        without_underscores(s).len() <= s.len(),
    decreases s.len(),
{
    if s.len() > 0 {
        let rest: Seq<char> = s.drop_last();
        lemma_without_underscores(rest);
        let w: Seq<char> = without_underscores(s);
        let v: Seq<char> = without_underscores(rest);
        assert forall|i: int| 0 <= i < s.len() && #[trigger] s[i] != '_' implies exists|k: int|
            0 <= k < w.len() && #[trigger] w[k] == s[i] by {
            if i == s.len() - 1 {
                assert(w[w.len() - 1] == s[i]);
            } else {
                assert(rest[i] == s[i]);
                let k: int = choose|k: int| 0 <= k < v.len() && #[trigger] v[k] == rest[i];
                assert(w[k] == s[i]);
            }
        }
        if forall|i: int| 0 <= i < s.len() ==> #[trigger] s[i] != '_' {
            assert forall|i: int| 0 <= i < rest.len() implies #[trigger] rest[i] != '_' by {
                assert(rest[i] == s[i]);
            }
            assert(s.last() == s[s.len() - 1]);
            assert(w =~= s);
        }
    }
}

/// White space in front is trimmed.
proof fn lemma_trim_front(front: Seq<char>, s: Seq<char>)
    requires
        forall|i: int| 0 <= i < front.len() ==> white_space(#[trigger] front[i]),
        s.len() > 0,
        !white_space(s[0]),
    ensures
        trim_front(front + s) == s,
    decreases front.len(),
{
    if front.len() == 0 {
        assert(front + s =~= s);
    } else {
        assert(white_space(front[0]));
        assert((front + s)[0] == front[0]);
        assert((front + s).drop_first() =~= front.drop_first() + s);
        assert forall|i: int| 0 <= i < front.drop_first().len() implies white_space(
            #[trigger] front.drop_first()[i],
        ) by {
            assert(front.drop_first()[i] == front[i + 1]);
        }
        lemma_trim_front(front.drop_first(), s);
    }
}

/// White space behind is trimmed.
proof fn lemma_trim_back(s: Seq<char>, back: Seq<char>)
    requires
        forall|i: int| 0 <= i < back.len() ==> white_space(#[trigger] back[i]),
        s.len() > 0,
        !white_space(s.last()),
    ensures
        trim_back(s + back) == s,
    decreases back.len(),
{
    if back.len() == 0 {
        assert(s + back =~= s);
    } else {
        assert(white_space(back[back.len() - 1]));
        assert((s + back).drop_last() =~= s + back.drop_last());
        assert forall|i: int| 0 <= i < back.drop_last().len() implies white_space(#[trigger] back.drop_last()[i]) by {
            assert(back.drop_last()[i] == back[i]);
        }
        lemma_trim_back(s, back.drop_last());
    }
}

/// The decimal digits of a number spell it, and there are no underscores among them.
proof fn lemma_decimal_spells(n: nat)
    ensures
        spells(text::decimal(n), n, 10),
        forall|i: int| 0 <= i < text::decimal(n).len() ==> #[trigger] text::decimal(n)[i] != '_',
    decreases n,
{
    let d: Seq<char> = text::decimal(n);
    assert(d.last() == text::digit(n % 10));
    if n >= 10 {
        lemma_decimal_spells(n / 10);
        let e: Seq<char> = text::decimal(n / 10);
        assert(d.drop_last() =~= e);
        assert forall|i: int| 0 <= i < d.len() implies #[trigger] d[i] != '_' by {
            if i < e.len() {
                assert(d[i] == e[i]);
            }
        }
    }
}

/// A number in decimal, as the messages have it, is read back.
pub proof fn lemma_decimal_number(n: u64)
    ensures
        number(text::decimal(n as nat)) == Ok::<nat, NumberError>(n as nat),
{
    let d: Seq<char> = text::decimal(n as nat);
    let none: Seq<char> = Seq::empty();
    lemma_decimal_spells(n as nat);
    lemma_without_underscores(d);
    lemma_written_number(n, 10, none, none, d, none);
    assert(none + none + d + none =~= d);
}

/// The number of points is m · 2*ᵇ*: whenever `m` is given, for both tests alike. When it is not, the
/// points are as many as there may be, up to a multiple of the number of passes: the limit of the
/// birthday-spacings test, or the number of cells.
pub proof fn lemma_points_asked(args: &Args, cells: nat, max_points: usize)
    ensures
        ({
            let n: nat = asked_points(args, cells, max_points);
            let passes: nat = match args.tradeoff_bits {
                Some(b) => pow2(b as nat),
                None => 1,
            };
            let limit: nat = if args.birthday_spacings {
                max_points as nat
            } else if cells < usize::MAX {
                cells
            } else {
                usize::MAX as nat
            };
            &&& n % passes == 0
            &&& args.m matches Some(m) ==> n == m * passes
            &&& args.m is None ==> n <= limit < n + passes
        }),
{
    lemma2_to64();
    let passes: nat = pow2(or_zero(args.tradeoff_bits) as nat);
    lemma_pow2_pos(or_zero(args.tradeoff_bits) as nat);
    let n: nat = asked_points(args, cells, max_points);
    let limit: nat = if args.birthday_spacings {
        max_points as nat
    } else if cells < usize::MAX {
        cells
    } else {
        usize::MAX as nat
    };
    let m: nat = match args.m {
        Some(m) => m as nat,
        None => limit / passes,
    };
    assert(n == m * passes);
    lemma_mod_multiples_basic(m as int, passes as int);
    lemma_fundamental_div_mod(limit as int, passes as int);
    lemma_mod_bound(limit as int, passes as int);
    assert((limit / passes) * passes == passes * (limit / passes)) by (nonlinear_arith);
}

/// Valid arguments, by what they are: at least one and at most 128 dimensions; some bits, which a shifted
/// word has; decimation that leaves a bit, and goes with an explicit number of memory locations; a
/// tradeoff on some bits of an index, fewer than 64; checkpoints for the collision test only; and a
/// single pass that is one of those of the tradeoff. Arguments are valid when they have no defect.
pub proof fn lemma_valid_arguments(args: Args)
    ensures
        args.valid() ==> args.t > 0 && args.t < 129,
        args.valid() ==> args.u > 0 && args.u <= 64 - args.s,
        args.valid() ==> match args.decimation_bits {
            Some(d) => 0 < d && d < args.u && args.m is Some,
            None => true,
        },
        args.valid() ==> match args.tradeoff_bits {
            Some(b) => 0 < b && b < 64 && match args.decimation_bits {
                Some(d) => b <= args.t * (args.u - d),
                None => b <= args.t * args.u,
            },
            None => args.pass is None,
        },
        args.valid() ==> match args.pass {
            Some(k) => args.tradeoff_bits is Some && (k as nat) < pow2(args.tradeoff_bits->0 as nat),
            None => true,
        },
        args.valid() ==> !args.checkpoints || !args.birthday_spacings,
        args.valid() <==> (forall|e: ArgError| !#[trigger] args.defect(e)),
{
    if !args.valid() {
        if args.t == 0 {
            assert(args.defect(ArgError::NoDimension));
        } else if args.u == 0 {
            assert(args.defect(ArgError::NoBits));
        } else if args.t > 128 {
            assert(args.defect(ArgError::DimensionTooLarge { t: args.t }));
        } else if args.s >= 64 {
            assert(args.defect(ArgError::ShiftTooLarge { s: args.s }));
        } else if args.u > 64 - args.s {
            assert(args.defect(ArgError::TooManyBits { u: args.u, limit: (64 - args.s) as usize }));
        } else if args.decimation_bits is Some && args.m is None {
            assert(args.defect(ArgError::DecimationNeedsMemory));
        } else if args.decimation_bits == Some(0usize) {
            assert(args.defect(ArgError::DecimationZero));
        } else if args.decimation_bits is Some && args.decimation_bits->0 >= args.u {
            assert(args.defect(ArgError::DecimationTooLarge { d: args.decimation_bits->0, u: args.u }));
        } else if args.tradeoff_bits == Some(0usize) {
            assert(args.defect(ArgError::TradeoffZero));
        } else if args.tradeoff_bits is Some && args.tradeoff_bits->0 >= 64 {
            assert(args.defect(ArgError::TradeoffTooManyPasses { b: args.tradeoff_bits->0 }));
        } else if args.tradeoff_bits is Some && args.tradeoff_bits->0 > args.index_bits() {
            let (t, w): (int, int) = (args.t as int, args.u - or_zero(args.decimation_bits));
            assert(0 <= t * w <= 128 * 64) by (nonlinear_arith)
                requires
                    0 <= t <= 128,
                    0 <= w <= 64,
            ;
            assert(args.defect(
                ArgError::TradeoffTooLarge { b: args.tradeoff_bits->0, limit: args.index_bits() as usize },
            ));
        } else if args.checkpoints && args.birthday_spacings {
            assert(args.defect(ArgError::CheckpointsWithBirthday));
        } else if args.pass is Some && args.tradeoff_bits is None {
            assert(args.defect(ArgError::PassNeedsTradeoff));
        } else {
            bits::lemma_u64_one_shl(args.tradeoff_bits->0 as u64);
            assert(args.defect(
                ArgError::PassTooLarge { k: args.pass->0, passes: pow2(args.tradeoff_bits->0 as nat) as u64 },
            ));
        }
    }
}

/// Each defect, by what is wrong with the arguments when they have it, and no others.
pub proof fn lemma_defects(args: Args, e: ArgError)
    ensures
        args.defect(e) <==> match e {
            ArgError::NoDimension => args.t < 1,
            ArgError::NoBits => args.u < 1,
            ArgError::DimensionTooLarge { t } => args.t == t && 128 < t,
            ArgError::ShiftTooLarge { s } => args.s == s && 63 < s,
            ArgError::TooManyBits { u, limit } => args.u == u && args.s + limit == 64 && args.u + args.s > 64,
            ArgError::DecimationNeedsMemory => args.m is None && args.decimation_bits !is None,
            ArgError::DecimationZero => args.decimation_bits is Some && args.decimation_bits->0 < 1,
            ArgError::DecimationTooLarge { d, u } => args.decimation_bits is Some && args.decimation_bits->0 == d && args.u
                == u && u <= d,
            ArgError::TradeoffZero => args.tradeoff_bits is Some && args.tradeoff_bits->0 < 1,
            ArgError::TradeoffTooLarge { b, limit } => args.tradeoff_bits is Some && args.tradeoff_bits->0 == b && limit < b
                && limit == match args.decimation_bits {
                Some(d) => args.t * (args.u - d),
                None => args.t * args.u,
            },
            ArgError::TradeoffTooManyPasses { b } => args.tradeoff_bits is Some && args.tradeoff_bits->0 == b && 63 < b,
            ArgError::CheckpointsWithBirthday => args.birthday_spacings && args.checkpoints,
            ArgError::PassNeedsTradeoff => args.tradeoff_bits is None && args.pass !is None,
            ArgError::PassTooLarge { k, passes } => args.pass is Some && args.pass->0 == k && args.tradeoff_bits is Some
                && passes <= k && pow2(args.tradeoff_bits->0 as nat) == passes,
            ArgError::PointsOverflow => false,
            ArgError::PointsOutOfRange => false,
            ArgError::MorePointsThanCells { .. } => false,
            ArgError::TooFewPoints { .. } => false,
        },
{
}

/// The order in which defects are looked for: the dimension and the bits first, then decimation, then the
/// tradeoff, then how they go together, and then the pass.
pub proof fn lemma_order_of_defects(a: usize, b: usize, c: u64, d: u64)
    ensures
        rank(ArgError::NoDimension) < rank(ArgError::NoBits) < rank(ArgError::DimensionTooLarge { t: a }) < rank(
            ArgError::ShiftTooLarge { s: a },
        ) < rank(ArgError::TooManyBits { u: a, limit: b }) < rank(ArgError::DecimationNeedsMemory) < rank(
            ArgError::DecimationZero,
        ) < rank(ArgError::DecimationTooLarge { d: a, u: b }) < rank(ArgError::TradeoffZero) < rank(
            ArgError::TradeoffTooLarge { b: a, limit: b },
        ) < rank(ArgError::TradeoffTooManyPasses { b: a }) < rank(ArgError::CheckpointsWithBirthday) < rank(
            ArgError::PassNeedsTradeoff,
        ) < rank(ArgError::PassTooLarge { k: c, passes: d }),
{
}

/// The digits of a radix: the first characters of the ten decimal digits and the letters, in upper or
/// lower case, each of them standing for its place among them.
pub proof fn lemma_digit_value(c: char, radix: nat, v: nat)
    requires
        radix <= 36,
    ensures
        digit_value(c, radix) == Some(v) <==> v < radix && (c == "0123456789abcdefghijklmnopqrstuvwxyz"@[v as int] || c
            == "0123456789ABCDEFGHIJKLMNOPQRSTUVWXYZ"@[v as int]),
{
    reveal_strlit("0123456789abcdefghijklmnopqrstuvwxyz");
    reveal_strlit("0123456789ABCDEFGHIJKLMNOPQRSTUVWXYZ");
    let lower: Seq<char> = "0123456789abcdefghijklmnopqrstuvwxyz"@;
    let upper: Seq<char> = "0123456789ABCDEFGHIJKLMNOPQRSTUVWXYZ"@;
    if v < 36 {
        let i: int = v as int;
        assert(lower[i] as int == if i < 10 {
            48 + i
        } else {
            87 + i
        });
        assert(upper[i] as int == if i < 10 {
            48 + i
        } else {
            55 + i
        });
    }
}

/// Digits stand for a number: the value so far times the radix, and the next digit, from left to right. A
/// character that is no digit, or a value that does not fit in 64 bits, is an error where it first comes.
pub proof fn lemma_digits_number(s: Seq<char>, radix: nat)
    requires
        radix >= 1,
    ensures
        ({
            let f: spec_fn(nat, char) -> nat = |x: nat, c: char|
                x * radix + match digit_value(c, radix) {
                    Some(d) => d,
                    None => 0,
                };
            match digits_number(s, radix) {
                Ok(x) => x == s.fold_left(0nat, f) && x <= u64::MAX && forall|i: int|
                    0 <= i < s.len() ==> digit_value(#[trigger] s[i], radix) is Some,
                Err(NumberError::InvalidDigit) => exists|i: int|
                    0 <= i < s.len() && digit_value(#[trigger] s[i], radix) is None && digits_number(s.take(i), radix) is Ok,
                Err(NumberError::Overflow) => exists|i: int|
                    0 <= i < s.len() && digit_value(#[trigger] s[i], radix) is Some && digits_number(s.take(i), radix) is Ok
                        && s.take(i + 1).fold_left(0nat, f) > u64::MAX,
                Err(NumberError::Empty) => false,
            }
        }),
    decreases s.len(),
{
    let f: spec_fn(nat, char) -> nat = |x: nat, c: char|
        x * radix + match digit_value(c, radix) {
            Some(d) => d,
            None => 0,
        };
    if s.len() > 0 {
        let r: Seq<char> = s.drop_last();
        let n: int = s.len() - 1;
        lemma_digits_number(r, radix);
        assert(s.take(n) =~= r);
        assert(s.take(n + 1) =~= s);
        assert(s[n] == s.last());
        match digits_number(r, radix) {
            Ok(x) => {
                assert(s.fold_left(0nat, f) == f(r.fold_left(0nat, f), s.last()));
                assert forall|i: int| 0 <= i < n implies digit_value(#[trigger] s[i], radix) is Some by {
                    assert(r[i] == s[i]);
                }
            },
            Err(NumberError::InvalidDigit) => {
                let i: int = choose|i: int|
                    0 <= i < r.len() && digit_value(#[trigger] r[i], radix) is None && digits_number(r.take(i), radix) is Ok;
                assert(s[i] == r[i]);
                assert(s.take(i) =~= r.take(i));
            },
            Err(NumberError::Overflow) => {
                let i: int = choose|i: int|
                    0 <= i < r.len() && digit_value(#[trigger] r[i], radix) is Some && digits_number(r.take(i), radix) is Ok
                        && r.take(i + 1).fold_left(0nat, f) > u64::MAX;
                assert(s[i] == r[i]);
                assert(s.take(i) =~= r.take(i));
                assert(s.take(i + 1) =~= r.take(i + 1));
            },
            Err(NumberError::Empty) => {},
        }
    }
}

/// A plus sign in front of digits makes no difference; no digits are an error, and so is a plus sign alone.
pub proof fn lemma_plus_sign(s: Seq<char>, radix: nat)
    requires
        radix <= 36,
    ensures
        s.len() > 0 ==> signed_number(seq!['+'] + s, radix) == digits_number(s, radix),
        s.len() > 0 && s[0] != '+' ==> signed_number(s, radix) == digits_number(s, radix),
        signed_number(Seq::empty(), radix) == Err::<nat, NumberError>(NumberError::Empty),
        signed_number(seq!['+'], radix) == Err::<nat, NumberError>(NumberError::InvalidDigit),
{
    assert((seq!['+'] + s).drop_first() =~= s);
    let plus: Seq<char> = seq!['+'];
    assert(plus.drop_last() =~= Seq::<char>::empty());
    assert(digits_number(plus.drop_last(), radix) == Ok::<nat, NumberError>(0));
    assert(digit_value('+', radix) is None);
}

/// The prefixes: `0x` for sixteen, `0o` for eight, and `0b` for two, with the letter in upper or lower
/// case, and no others.
pub proof fn lemma_prefixes(s: Seq<char>)
    ensures
        prefix_radix(s) == Some(16nat) <==> s.len() >= 2 && (s.take(2) == "0x"@ || s.take(2) == "0X"@),
        prefix_radix(s) == Some(8nat) <==> s.len() >= 2 && (s.take(2) == "0o"@ || s.take(2) == "0O"@),
        prefix_radix(s) == Some(2nat) <==> s.len() >= 2 && (s.take(2) == "0b"@ || s.take(2) == "0B"@),
        prefix_radix(s) is None || prefix_radix(s) == Some(16nat) || prefix_radix(s) == Some(8nat) || prefix_radix(s)
            == Some(2nat),
{
    reveal_strlit("0x");
    reveal_strlit("0X");
    reveal_strlit("0o");
    reveal_strlit("0O");
    reveal_strlit("0b");
    reveal_strlit("0B");
    if s.len() >= 2 {
        let t: Seq<char> = s.take(2);
        assert(t[0] == s[0] && t[1] == s[1]);
        if s[0] == '0' {
            if s[1] == 'x' {
                assert(t =~= "0x"@);
            } else if s[1] == 'X' {
                assert(t =~= "0X"@);
            } else if s[1] == 'o' {
                assert(t =~= "0o"@);
            } else if s[1] == 'O' {
                assert(t =~= "0O"@);
            } else if s[1] == 'b' {
                assert(t =~= "0b"@);
            } else if s[1] == 'B' {
                assert(t =~= "0B"@);
            }
        }
        assert("0x"@[1] == 'x' && "0X"@[1] == 'X' && "0o"@[1] == 'o' && "0O"@[1] == 'O' && "0b"@[1] == 'b' && "0B"@[1]
            == 'B');
        assert("0x"@[0] == '0' && "0X"@[0] == '0' && "0o"@[0] == '0' && "0O"@[0] == '0' && "0b"@[0] == '0' && "0B"@[0]
            == '0');
    }
}

/// Text is read without the white space around it: as the digits after its prefix, in the radix of that, or
/// else as decimal digits; underscores make no difference.
pub proof fn lemma_number_read(front: Seq<char>, s: Seq<char>, back: Seq<char>)
    requires
        forall|i: int| 0 <= i < front.len() ==> white_space(#[trigger] front[i]),
        forall|i: int| 0 <= i < back.len() ==> white_space(#[trigger] back[i]),
        s.len() > 0,
        !white_space(s[0]),
        !white_space(s.last()),
    ensures
        number(front + s + back) == match prefix_radix(s) {
            Some(radix) => signed_number(s.skip(2).filter(|c: char| c != '_'), radix),
            None => signed_number(s.filter(|c: char| c != '_'), 10),
        },
{
    assert(front + s + back =~= front + (s + back));
    lemma_trim_front(front, s + back);
    lemma_trim_back(s, back);
    lemma_underscores_filtered(s);
    lemma_underscores_filtered(s.skip(2));
}

/// White space alone is no number.
pub proof fn lemma_blank(s: Seq<char>)
    requires
        forall|i: int| 0 <= i < s.len() ==> white_space(#[trigger] s[i]),
    ensures
        number(s) == Err::<nat, NumberError>(NumberError::Empty),
    decreases s.len(),
{
    if s.len() > 0 {
        let r: Seq<char> = s.drop_first();
        assert forall|i: int| 0 <= i < r.len() implies white_space(#[trigger] r[i]) by {
            assert(r[i] == s[i + 1]);
        }
        lemma_blank(r);
        assert(white_space(s[0]));
    }
}

/// Underscores are filtered out.
proof fn lemma_underscores_filtered(s: Seq<char>)
    ensures
        without_underscores(s) == s.filter(|c: char| c != '_'),
    decreases s.len(),
{
    reveal(Seq::filter);
    if s.len() > 0 {
        lemma_underscores_filtered(s.drop_last());
    }
}

/// White space, by its code points.
pub proof fn lemma_white_space(c: char)
    ensures
        white_space(c) <==> {
            let x: int = c as int;
            9 <= x <= 13 || x == 32 || x == 133 || x == 160 || x == 5760 || 8192 <= x <= 8202 || x == 8232 || x == 8233 || x
                == 8239 || x == 8287 || x == 12288
        },
{
}

/// Digits in blanks are read as the number that they stand for, if that is less than 2^64, and are else
/// refused as too large.
pub proof fn lemma_decimal_read(front: Seq<char>, s: Seq<char>, back: Seq<char>)
    requires
        forall|i: int| 0 <= i < front.len() ==> #[trigger] front[i] == ' ',
        forall|i: int| 0 <= i < back.len() ==> #[trigger] back[i] == ' ',
        s.len() > 0,
        forall|i: int| 0 <= i < s.len() ==> '0' <= #[trigger] s[i] <= '9',
    ensures
        ({
            let n: nat = s.fold_left(0nat, |x: nat, c: char| (x * 10 + (c as nat - '0' as nat)) as nat);
            number(front + s + back) == if n <= u64::MAX {
                Ok(n)
            } else {
                Err::<nat, NumberError>(NumberError::Overflow)
            }
        }),
{
    let f: spec_fn(nat, char) -> nat = |x: nat, c: char|
        x * 10 + match digit_value(c, 10) {
            Some(d) => d,
            None => 0,
        };
    assert('0' <= s[0] <= '9' && '0' <= s.last() <= '9');
    lemma_number_read(front, s, back);
    assert(prefix_radix(s) is None) by {
        lemma_prefixes(s);
        if s.len() >= 2 {
            assert('0' <= s[1] <= '9');
            assert(s.take(2)[1] == s[1]);
            reveal_strlit("0x");
            reveal_strlit("0X");
            reveal_strlit("0o");
            reveal_strlit("0O");
            reveal_strlit("0b");
            reveal_strlit("0B");
        }
    }
    let keep: spec_fn(char) -> bool = |c: char| c != '_';
    lemma_all_kept(s, keep);
    lemma_plus_sign(s, 10);
    lemma_digits_number(s, 10);
    lemma_decimal_fold(s, s.len() as int);
    assert forall|i: int| 0 <= i < s.len() implies digit_value(#[trigger] s[i], 10) is Some by {
        assert('0' <= s[i] <= '9');
    }
    if digits_number(s, 10) == Err::<nat, NumberError>(NumberError::Overflow) {
        let i: int = choose|i: int|
            0 <= i < s.len() && digit_value(#[trigger] s[i], 10) is Some && digits_number(s.take(i), 10) is Ok && s.take(
                i + 1,
            ).fold_left(0nat, f) > u64::MAX;
        lemma_decimal_fold(s, i + 1);
    }
}

/// A filter that refuses nothing keeps everything.
proof fn lemma_all_kept(s: Seq<char>, keep: spec_fn(char) -> bool)
    requires
        forall|i: int| 0 <= i < s.len() ==> keep(#[trigger] s[i]),
    ensures
        s.filter(keep) == s,
    decreases s.len(),
{
    reveal(Seq::filter);
    if s.len() > 0 {
        let r: Seq<char> = s.drop_last();
        assert forall|i: int| 0 <= i < r.len() implies keep(#[trigger] r[i]) by {
            assert(r[i] == s[i]);
        }
        lemma_all_kept(r, keep);
        assert(keep(s[s.len() - 1]));
        assert(r.push(s.last()) =~= s);
    } else {
        assert(s.filter(keep) =~= s);
    }
}

/// Digit values make up the number, and fewer digits a smaller one.
proof fn lemma_decimal_fold(s: Seq<char>, k: int)
    requires
        0 <= k <= s.len(),
        forall|i: int| 0 <= i < s.len() ==> '0' <= #[trigger] s[i] <= '9',
    ensures
        ({
            let f: spec_fn(nat, char) -> nat = |x: nat, c: char|
                x * 10 + match digit_value(c, 10) {
                    Some(d) => d,
                    None => 0,
                };
            let g: spec_fn(nat, char) -> nat = |x: nat, c: char| (x * 10 + (c as nat - '0' as nat)) as nat;
            &&& s.fold_left(0nat, f) == s.fold_left(0nat, g)
            &&& s.take(k).fold_left(0nat, f) <= s.fold_left(0nat, f)
        }),
    decreases s.len(),
{
    if s.len() > 0 {
        let r: Seq<char> = s.drop_last();
        assert forall|i: int| 0 <= i < r.len() implies '0' <= #[trigger] r[i] <= '9' by {
            assert(r[i] == s[i]);
        }
        assert('0' <= s[s.len() - 1] <= '9');
        if k == s.len() {
            lemma_decimal_fold(r, 0);
            assert(s.take(k) =~= s);
        } else {
            lemma_decimal_fold(r, k);
            assert(s.take(k) =~= r.take(k));
        }
    } else {
        assert(s.take(k) =~= s);
    }
}

} // verus!
