//! The seeded pseudorandom generator that drives key generation and encryption.
//!
//! The words come from the MT19937 Mersenne Twister of the `mt19937` crate.
//! Its output is fixed by the seed words alone, so the library names the
//! `i`-th word after seeding with `seed` as [`mt_word`]`(seed, i)` and keeps,
//! as ghost state, the seed and how many words have been drawn.
//!
//! Every generator also carries a budget of words that may still be drawn.
//! The searches of key generation retry until they succeed; the budget is
//! what bounds them, and running out is reported to the caller.
use mt19937::MT19937;
use rand_core::RngCore;
use vstd::prelude::*;

verus! {

#[verifier::external_type_specification]
#[verifier::external_body]
pub struct ExMT19937(MT19937);

/// The `i`-th word (from zero) that MT19937 yields after seeding with `seed`.
pub uninterp spec fn mt_word(seed: Seq<u32>, i: nat) -> u32;

/// The abstract state of a generator.
pub ghost struct PrngState {
    /// Words the generator was seeded with.
    pub seed: Seq<u32>,
    /// Words drawn since seeding.
    pub pos: nat,
    /// Words that may still be drawn.
    pub budget: nat,
}

/// The next word a generator in state `st` yields.
pub open spec fn next_word(st: PrngState) -> u32 {
    mt_word(st.seed, st.pos)
}

/// State `st` after `n` more words were drawn.
pub open spec fn advance(st: PrngState, n: nat) -> PrngState {
    PrngState { seed: st.seed, pos: st.pos + n, budget: (st.budget - n) as nat }
}

/// The largest budget a generator can have.
pub const MAX_BUDGET: u64 = 0xffff_ffff_ffff_ffff;

/// A reproducible stream of 32-bit words.
pub struct Prng {
    gen: MT19937,
    budget: u64,
    seed: Ghost<Seq<u32>>,
    pos: Ghost<nat>,
}

impl View for Prng {
    type V = PrngState;

    closed spec fn view(&self) -> PrngState {
        PrngState { seed: self.seed@, pos: self.pos@, budget: self.budget as nat }
    }
}

/// Relies on `MT19937::new_with_slice_seed`, which indexes the seed and so
/// panics on an empty one.
#[verifier::external_body]
fn mt_seeded(seed: &[u32]) -> (r: MT19937)
    requires
        seed@.len() > 0,
{
    MT19937::new_with_slice_seed(seed)
}

impl Prng {
    /// A generator seeded with `seed` that may draw at most `budget` words.
    /// An empty seed is not accepted.
    pub fn with_budget(seed: &[u32], budget: u64) -> (r: Prng)
        requires
            seed@.len() > 0,
        ensures
            r@ == (PrngState { seed: seed@, pos: 0, budget: budget as nat }),
    {
        Prng { gen: mt_seeded(seed), budget, seed: Ghost(seed@), pos: Ghost(0) }
    }

    /// A generator seeded with `seed`, with the largest budget.
    /// An empty seed is not accepted.
    pub fn new_with_slice_seed(seed: &[u32]) -> (r: Prng)
        requires
            seed@.len() > 0,
        ensures
            r@ == (PrngState { seed: seed@, pos: 0, budget: MAX_BUDGET as nat }),
    {
        Prng::with_budget(seed, MAX_BUDGET)
    }

    /// Words that may still be drawn.
    pub fn budget(&self) -> (r: u64)
        ensures
            r as nat == self@.budget,
    {
        self.budget
    }

    /// Relies on `RngCore::next_u32` of MT19937: the word drawn depends only
    /// on the seed and on how many words were drawn before it.
    #[verifier::external_body]
    fn draw(&mut self) -> (r: u32)
        ensures
            r == mt_word(old(self)@.seed, old(self)@.pos),
            final(self)@.seed == old(self)@.seed,
            final(self)@.pos == old(self)@.pos + 1,
            final(self).budget == old(self).budget,
    {
        self.gen.next_u32()
    }

    /// Draws the next word, spending one word of the budget.
    pub fn next_u32(&mut self) -> (r: u32)
        requires
            old(self)@.budget > 0,
        ensures
            r == next_word(old(self)@),
            final(self)@ == advance(old(self)@, 1),
    {
        let r = self.draw();
        self.budget = self.budget - 1;
        r
    }
}

} // verus!
