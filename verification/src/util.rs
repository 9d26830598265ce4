//! Utilities.
use std::fmt::Display;

use vstd::prelude::*;
use vstd::string::*;

use crate::text;
use crate::text::append_superscript;

verus! {

/// Number of threads in the Rayon global thread pool.
///
/// This is the single thread-count source for every parallel phase, so all of them honour
/// `RAYON_NUM_THREADS` (which itself defaults to the number of available cores). The pool of
/// [`rayon::current_num_threads`] has at least one thread, and fewer than 2^16 of them.
#[verifier::external_body]
pub fn parallelism() -> (r: usize)
    ensures
        1 <= r < 0x1_0000,
{
    rayon::current_num_threads()
}

/// Renders an integer as a Unicode superscript string, so exponents such as 2⁶⁴ can be printed
/// inline; e.g. `superscript(64)` returns `"⁶⁴"`.
///
/// The value is taken through [`Display`], so every integer type works without a cast. Decimal
/// digits map to their superscript code points and `-` to the superscript minus `⁻`; any other
/// character is passed through unchanged.
pub fn superscript(n: impl Display) -> (r: String)
    ensures
        exists|shown: String|
            #[trigger] to_string_from_display_ensures(&n, shown) && r@ == text::superscripted(shown@),
{
    let shown: String = n.to_string();
    let mut r: String = String::new();
    append_superscript(&mut r, shown.as_str());
    proof {
        assert(r@ =~= text::superscripted(shown@));
    }
    r
}

} // verus!
