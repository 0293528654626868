//! The training context: the explicit carrier of a session's seed, and the
//! deterministic random source derived from it.
//!
//! A xoshiro256++ generator seeded from a `u64` produces a fixed sequence of
//! outputs: the same seed gives the same sequence on every run and machine.
//! The generator is kept together with its seed and the number of outputs
//! drawn so far, so that every draw is known as output `k` of seed `s`.

use vstd::prelude::*;
use rand_xoshiro::Xoshiro256PlusPlus;
use rand_xoshiro::rand_core::{Rng, SeedableRng};

verus! {

#[verifier::external_type_specification]
#[verifier::external_body]
pub struct ExXoshiro256PlusPlus(Xoshiro256PlusPlus);

/// Output number `k` (counting from 0) of `Rng::next_u64` on a
/// `Xoshiro256PlusPlus` made by `seed_from_u64(seed)`.
pub uninterp spec fn xoshiro_output(seed: u64, k: nat) -> u64;

/// A xoshiro256++ generator, with the seed it was made from and the number
/// of outputs drawn from it so far.
pub struct SeededRng {
    inner: Xoshiro256PlusPlus,
    seed: Ghost<u64>,
    drawn: Ghost<nat>,
}

impl View for SeededRng {
    type V = (u64, nat);

    /// `(seed, outputs drawn)`.
    closed spec fn view(&self) -> (u64, nat) {
        (self.seed@, self.drawn@)
    }
}

/// `Xoshiro256PlusPlus::seed_from_u64(seed)`, wrapped with its seed: a
/// generator that has drawn nothing yet.
#[verifier::external_body]
fn seeded_xoshiro(seed: u64) -> (g: SeededRng)
    ensures
        g@ == (seed, 0nat),
{
    SeededRng { inner: Xoshiro256PlusPlus::seed_from_u64(seed), seed: Ghost(seed), drawn: Ghost(0) }
}

/// `Rng::next_u64` on the wrapped generator: the output numbered by the
/// draws so far, for the generator's seed; one more output is drawn.
#[verifier::external_body]
fn next_random(rng: &mut SeededRng) -> (r: u64)
    ensures
        r == xoshiro_output(old(rng)@.0, old(rng)@.1),
        final(rng)@ == (old(rng)@.0, old(rng)@.1 + 1),
{
    rng.inner.next_u64()
}

impl SeededRng {
    /// A generator seeded from `seed`.
    pub fn seed_from_u64(seed: u64) -> (g: SeededRng)
        ensures
            g@ == (seed, 0nat),
    {
        seeded_xoshiro(seed)
    }

    /// The next 64 random bits: output number `drawn` of the seed.
    pub fn next_u64(&mut self) -> (r: u64)
        ensures
            r == xoshiro_output(old(self)@.0, old(self)@.1),
            final(self)@ == (old(self)@.0, old(self)@.1 + 1),
    {
        next_random(self)
    }
}

/// The context of one training session, passed explicitly.
#[derive(Debug, Clone, Copy)]
pub struct TrainingContext {
    rng_seed: u64,
}

impl TrainingContext {
    /// A deterministic context from a fixed seed.
    pub fn new(rng_seed: u64) -> (c: TrainingContext)
        ensures
            c.spec_rng_seed() == rng_seed,
    {
        TrainingContext { rng_seed }
    }

    pub closed spec fn spec_rng_seed(&self) -> u64 {
        self.rng_seed
    }

    /// The seed.
    pub fn rng_seed(&self) -> (s: u64)
        ensures
            s == self.spec_rng_seed(),
    {
        self.rng_seed
    }

    /// A fresh random source seeded from the context's seed: every call
    /// starts the same sequence.
    pub fn rng(&self) -> (g: SeededRng)
        ensures
            g@ == (self.spec_rng_seed(), 0nat),
    {
        seeded_xoshiro(self.rng_seed)
    }
}

/// Swapping two entries keeps the values.
pub proof fn lemma_swap_multiset(s: Seq<usize>, i: int, j: int)
    requires
        0 <= i < s.len(),
        0 <= j < s.len(),
    ensures
        s.update(i, s[j]).update(j, s[i]).to_multiset() == s.to_multiset(),
{
    broadcast use vstd::seq_lib::group_to_multiset_ensures;
    broadcast use vstd::multiset::group_multiset_axioms;

    let s1 = s.update(i, s[j]);
    assert(s1.to_multiset() == s.to_multiset().insert(s[j]).remove(s[i]));
    assert(s1[j] == s[j]);
    let s2 = s1.update(j, s[i]);
    assert(s2.to_multiset() == s1.to_multiset().insert(s[i]).remove(s[j]));
    assert(s2.to_multiset() =~= s.to_multiset());
}

/// The position drawn for index `i`: the draw, as a `usize`, modulo `i + 1`.
pub open spec fn swap_partner(draw: u64, i: int) -> int {
    ((draw as usize) as int) % (i + 1)
}

/// Fisher-Yates from index `i` down to 1: index `i` is swapped with the
/// position drawn by output `k` of `seed`, then index `i - 1` with output
/// `k + 1`, and so on.
pub open spec fn fisher_yates(s: Seq<usize>, seed: u64, k: nat, i: int) -> Seq<usize>
    decreases i,
{
    if i < 1 || i >= s.len() {
        s
    } else {
        let j = swap_partner(xoshiro_output(seed, k), i);
        fisher_yates(s.update(i, s[j]).update(j, s[i]), seed, k + 1, i - 1)
    }
}

/// Shuffling the same values with two generators made from the same seed
/// (each having drawn as many outputs) gives the same order.
pub proof fn law_same_seed_same_shuffle(s: Seq<usize>, a: (u64, nat), b: (u64, nat))
    requires
        a == b,
    ensures
        fisher_yates(s, a.0, a.1, s.len() - 1) == fisher_yates(s, b.0, b.1, s.len() - 1),
{
}

/// Fisher-Yates shuffle: for `i` from the last index down to 1, swap entry
/// `i` with entry `next_u64 % (i + 1)`. The order is a function of the
/// values, the seed and the draws made before; the values are kept.
pub fn shuffle(slice: &mut Vec<usize>, rng: &mut SeededRng)
    ensures
        final(slice)@ == fisher_yates(old(slice)@, old(rng)@.0, old(rng)@.1, old(slice)@.len() - 1),
        final(slice)@.to_multiset() == old(slice)@.to_multiset(),
        final(rng)@.0 == old(rng)@.0,
        final(rng)@.1 == old(rng)@.1 + (if old(slice)@.len() < 2 {
            0
        } else {
            old(slice)@.len() - 1
        }),
{
    let ghost start = slice@;
    let ghost seed = rng@.0;
    let ghost k0 = rng@.1;
    let len = slice.len();
    if len < 2 {
        return;
    }
    let mut i: usize = len - 1;
    while i >= 1
        invariant
            slice@.len() == len,
            len >= 2,
            i < len,
            rng@.0 == seed,
            rng@.1 == k0 + (len - 1 - i),
            fisher_yates(slice@, seed, rng@.1, i as int) == fisher_yates(start, seed, k0, len - 1),
            slice@.to_multiset() == start.to_multiset(),
        decreases i,
    {
        let ghost before = slice@;
        let ghost k = rng@.1;
        let r = next_random(rng);
        let j = (r as usize) % (i + 1);
        assert(j as int == swap_partner(xoshiro_output(seed, k), i as int));
        let a = slice[i];
        let b = slice[j];
        proof {
            lemma_swap_multiset(slice@, i as int, j as int);
        }
        slice.set(i, b);
        slice.set(j, a);
        assert(slice@ == before.update(i as int, before[j as int]).update(j as int, before[i as int]));
        i = i - 1;
    }
}

} // verus!
