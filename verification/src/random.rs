//! Uniform random choices drawn from the simulation's seeded generator.
use vstd::prelude::*;
use rand::Rng;
use rand::rngs::StdRng;

verus! {

broadcast use {vstd::seq_lib::group_to_multiset_ensures, vstd::multiset::group_multiset_axioms};

/// The seeded random generator of the simulation.
#[verifier::external_type_specification]
#[verifier::external_body]
pub struct ExStdRng(StdRng);

/// Calls `rand::Rng::gen_range(0..n)` on the generator. The contract claims
/// only what the source guarantees of every outcome: the index is below
/// `n`. Which index comes back depends on the generator's state.
#[verifier::external_body]
pub(crate) fn random_index(rng: &mut StdRng, n: usize) -> (i: usize)
    requires
        n > 0,
    ensures
        i < n,
{
    rng.gen_range(0..n)
}

/// Calls `rand::Rng::gen_ratio(numerator, denominator)`: `true` with
/// probability `numerator / denominator`. The contract claims what the
/// documentation guarantees of every outcome: a ratio of one always gives
/// `true` and a zero numerator always gives `false`; otherwise the outcome
/// depends on the generator's state. The source panics when the denominator
/// is zero or below the numerator, which `requires` rules out.
#[verifier::external_body]
pub(crate) fn random_ratio(rng: &mut StdRng, numerator: u32, denominator: u32) -> (b: bool)
    requires
        denominator > 0,
        numerator <= denominator,
    ensures
        numerator == denominator ==> b,
        numerator == 0 ==> !b,
{
    rng.gen_ratio(numerator, denominator)
}

/// Shuffle in place (Fisher–Yates, from the back): position `i` is swapped
/// with a uniformly chosen position `j <= i`. Whatever the generator
/// yields, the result holds the same elements.
pub fn shuffle_candidates(candidates: &mut Vec<usize>, rng: &mut StdRng)
    ensures
        final(candidates)@.to_multiset() == old(candidates)@.to_multiset(),
        final(candidates)@.len() == old(candidates)@.len(),
{
    let mut i: usize = candidates.len();
    while i > 1
        invariant
            i <= candidates@.len(),
            candidates@.len() == old(candidates)@.len(),
            candidates@.to_multiset() == old(candidates)@.to_multiset(),
        decreases i,
    {
        i -= 1;
        let j = random_index(rng, i + 1);
        let a = candidates[i];
        let b = candidates[j];
        let ghost s0 = candidates@;
        candidates.set(i, b);
        candidates.set(j, a);
        proof {
            let s1 = s0.update(i as int, b);
            assert(candidates@ == s1.update(j as int, a));
            assert(s1.to_multiset() == s0.to_multiset().insert(b).remove(a));
            assert(s1[j as int] == if j == i { b } else { b });
            assert(candidates@.to_multiset() == s1.to_multiset().insert(a).remove(s1[j as int]));
            assert(s0.to_multiset().count(a) > 0) by {
                assert(s0.contains(a)) by { assert(s0[i as int] == a); }
            }
            assert(s0.to_multiset().insert(b).remove(a).insert(a).remove(b) =~= s0.to_multiset());
        }
    }
}

} // verus!
