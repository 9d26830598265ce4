//! Pseudorandom number generators.
//!
//! Every generator is a type named `Prng`, in a module of its own, with a constructor
//! `new(seed)`, a step function `next_u64()`, and a method `try_skip(n)` that skips ahead by `n`
//! steps where the generator can do so. The test runners are generic over [`Generator`], which
//! all of them implement. The [`Prng`] of this module is SplitMix.
//!
//! Generators whose output is narrower than 64 bits return it in the upper bits of the word.
use vstd::prelude::*;

pub mod affine;
pub mod bignum;
pub mod incr;
pub mod lcg_32_32_0x915f77f5;
pub mod lcg_32_32_0xec65035;
pub mod lcg_64_64_0xa5b9ee81534fa94d;
pub mod modular;
pub mod msws_ctr;
pub mod mwc;
pub mod mwc_128_32_0xfffea2df;
pub mod mwc_128_64_0xff96d28c3f3329da;
pub mod mwc_128_64_0xffebb71d94fcdaf9;
pub mod mwc_192_64_0xffa04e67b3c95d86;
pub mod mwc_256_64_0xfff62cf2ccc0cdaf;
pub mod romuduo;
pub mod romuduojr;
pub mod romutrio;
pub mod romutrio32;
pub mod splitmix;
pub mod wyrand;
pub mod wyrand_reinerp;

pub use crate::prng::splitmix::Prng;

verus! {

/// The mathematics of a generator: a sequence of states, and a word for each of them.
pub trait Recurrence {
    /// What the generator remembers between draws.
    type State;

    /// The state of a freshly seeded generator.
    spec fn seeded(seed: u64) -> Self::State;

    /// The word drawn from a state.
    spec fn output(s: Self::State) -> u64;

    /// The state after one draw.
    spec fn step(s: Self::State) -> Self::State;

    /// The states on which jump-ahead agrees with stepping.
    spec fn valid(s: Self::State) -> bool;

    /// Whether the generator has jump-ahead.
    spec fn jumps() -> bool;

    /// Seeding gives a valid state.
    proof fn lemma_seeded_valid(seed: u64)
        ensures
            Self::valid(Self::seeded(seed)),
    ;

    /// Stepping keeps a state valid.
    proof fn lemma_step_valid(s: Self::State)
        requires
            Self::valid(s),
        ensures
            Self::valid(Self::step(s)),
    ;
}

/// The state after `n` draws from `s`.
pub open spec fn orbit<G: Recurrence>(s: G::State, n: nat) -> G::State
    decreases n,
{
    if n == 0 {
        s
    } else {
        G::step(orbit::<G>(s, (n - 1) as nat))
    }
}

/// A deterministic generator of 64-bit words, which follows its [`Recurrence`].
pub trait Generator: Recurrence + Copy + Send + Sync {
    /// The state that this value holds.
    spec fn state(&self) -> Self::State;

    /// Creates a generator from a seed.
    fn new(seed: u64) -> (g: Self)
        ensures
            g.state() == Self::seeded(seed),
    ;

    /// Draws the next word.
    fn next_u64(&mut self) -> (r: u64)
        ensures
            r == Self::output(old(self).state()),
            final(self).state() == Self::step(old(self).state()),
    ;

    /// Skips `n` draws. A generator without jump-ahead refuses and stays where it is.
    fn try_skip(&mut self, n: u64) -> (r: Result<(), ()>)
        requires
            Self::valid(old(self).state()),
        ensures
            r is Ok <==> Self::jumps(),
            r is Ok ==> final(self).state() == orbit::<Self>(old(self).state(), n as nat),
            r is Err ==> final(self).state() == old(self).state(),
    ;
}

/// The word that the draw number `i`, counting from zero, gives when starting from `s`.
pub open spec fn word<G: Recurrence>(s: G::State, i: nat) -> u64 {
    G::output(orbit::<G>(s, i))
}

/// Two successive walks along the orbit compose.
pub proof fn lemma_orbit_compose<G: Recurrence>(s: G::State, m: nat, n: nat)
    ensures
        orbit::<G>(orbit::<G>(s, m), n) == orbit::<G>(s, m + n),
    decreases n,
{
    if n > 0 {
        lemma_orbit_compose::<G>(s, m, (n - 1) as nat);
    }
}

/// Every state on the orbit of a valid state is valid.
pub proof fn lemma_orbit_valid<G: Recurrence>(s: G::State, n: nat)
    requires
        G::valid(s),
    ensures
        G::valid(orbit::<G>(s, n)),
    decreases n,
{
    if n > 0 {
        lemma_orbit_valid::<G>(s, (n - 1) as nat);
        G::lemma_step_valid(orbit::<G>(s, (n - 1) as nat));
    }
}

/// The orbit starts at the state itself, one draw makes one step, and the words drawn after some draws
/// are those of the state reached.
pub proof fn lemma_orbit_words<G: Recurrence>(s: G::State, m: nat, n: nat)
    ensures
        orbit::<G>(s, 0) == s,
        orbit::<G>(s, 1) == G::step(s),
        orbit::<G>(s, m + n) == orbit::<G>(orbit::<G>(s, m), n),
        word::<G>(s, 0) == G::output(s),
        word::<G>(s, 1) == G::output(G::step(s)),
        word::<G>(s, m + n) == word::<G>(orbit::<G>(s, m), n),
{
    reveal_with_fuel(orbit, 2);
    lemma_orbit_compose::<G>(s, m, n);
}

/// Which generators can jump ahead: all but those of the Romu family.
pub proof fn lemma_who_jumps()
    ensures
        splitmix::Prng::jumps(),
        wyrand::Prng::jumps(),
        wyrand_reinerp::Prng::jumps(),
        incr::Prng::jumps(),
        msws_ctr::Prng::jumps(),
        lcg_32_32_0x915f77f5::Prng::jumps(),
        lcg_32_32_0xec65035::Prng::jumps(),
        lcg_64_64_0xa5b9ee81534fa94d::Prng::jumps(),
        mwc_128_32_0xfffea2df::Prng::jumps(),
        mwc_128_64_0xff96d28c3f3329da::Prng::jumps(),
        mwc_128_64_0xffebb71d94fcdaf9::Prng::jumps(),
        mwc_192_64_0xffa04e67b3c95d86::Prng::jumps(),
        mwc_256_64_0xfff62cf2ccc0cdaf::Prng::jumps(),
        !romuduo::Prng::jumps(),
        !romuduojr::Prng::jumps(),
        !romutrio::Prng::jumps(),
        !romutrio32::Prng::jumps(),
{
}

} // verus!
