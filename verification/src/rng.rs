//! The game's source of chance: the thread-local generator of `rand`, and the few draws the
//! game makes from it.
use vstd::prelude::*;

use rand::distributions::{Distribution, WeightedIndex};
use rand::rngs::ThreadRng;
use rand::seq::SliceRandom;
use rand::Rng;

verus! {

/// The thread-local generator of `rand`, carried through as an opaque value.
#[verifier::external_type_specification]
#[verifier::external_body]
pub struct ExThreadRng(ThreadRng);

/// Sum of the weights.
pub open spec fn weight_sum(weights: Seq<i32>) -> int
    decreases weights.len(),
{
    if weights.len() == 0 {
        0
    } else {
        weight_sum(weights.drop_last()) + weights.last()
    }
}

/// Weights that `rand`'s `WeightedIndex` accepts: at least one, none negative, not all zero,
/// and a total that fits the weight type.
pub open spec fn valid_weights(weights: Seq<i32>) -> bool {
    &&& weights.len() > 0
    &&& forall|i: int| 0 <= i < weights.len() ==> #[trigger] weights[i] >= 0
    &&& exists|i: int| 0 <= i < weights.len() && #[trigger] weights[i] > 0
    &&& weight_sum(weights) <= i32::MAX
}

/// `rand::thread_rng`: a handle to this thread's generator. Nothing is claimed of its state.
#[verifier::external_body]
pub(crate) fn thread_rng() -> ThreadRng {
    rand::thread_rng()
}

/// `Rng::gen_range` over the half-open range `lo..hi`. `rand` panics on an empty range, hence
/// the `requires`; its documentation promises a value inside the range, which is all that is
/// claimed: which value comes is chance.
#[verifier::external_body]
pub(crate) fn gen_range(rng: &mut ThreadRng, lo: i64, hi: i64) -> (r: i64)
    requires
        lo < hi,
    ensures
        lo <= r < hi,
{
    rng.gen_range(lo..hi)
}

/// `Rng::gen_ratio`: `true` with probability `numerator / denominator`. `rand` panics unless
/// `numerator <= denominator` and `denominator > 0`; it documents that equal arguments always
/// give `true` and a zero numerator always gives `false`. Otherwise the outcome is chance.
#[verifier::external_body]
pub(crate) fn gen_ratio(rng: &mut ThreadRng, numerator: u32, denominator: u32) -> (r: bool)
    requires
        numerator <= denominator,
        denominator > 0,
    ensures
        numerator == denominator ==> r,
        numerator == 0 ==> !r,
{
    rng.gen_ratio(numerator, denominator)
}

/// `WeightedIndex::new` over `weights`, then one `Distribution::sample` of it: an index into
/// `weights`. `new` fails on weights that `valid_weights` rules out (and its running total
/// would overflow past `i32::MAX`); `sample` draws uniformly below the total and returns the
/// index whose cumulative interval holds the draw, so an index of zero weight never comes.
/// Which index comes is chance.
#[verifier::external_body]
pub(crate) fn weighted_sample(rng: &mut ThreadRng, weights: &Vec<i32>) -> (r: usize)
    requires
        valid_weights(weights@),
    ensures
        r < weights@.len(),
        weights@[r as int] > 0,
{
    WeightedIndex::new(weights.as_slice()).unwrap().sample(rng)
}

/// `SliceRandom::choose`: one item of `items`, or `None` when there is none. Which item comes
/// is chance.
#[verifier::external_body]
pub(crate) fn choose_one<T: Copy>(rng: &mut ThreadRng, items: &Vec<T>) -> (r: Option<T>)
    ensures
        r is None <==> items@.len() == 0,
        r matches Some(v) ==> items@.contains(v),
{
    items.as_slice().choose(rng).copied()
}

/// Draw an integer uniformly from `lo..=hi`.
pub fn roll_inclusive(rng: &mut ThreadRng, lo: i32, hi: i32) -> (r: i32)
    requires
        lo <= hi,
    ensures
        lo <= r <= hi,
{
    let v = gen_range(rng, lo as i64, hi as i64 + 1);
    v as i32
}

/// Throw a 1D6, if result is <= skill then the check passes
///
/// The result is that of some face of the die: which face came up is chance, so no more can
/// be said of one check than that it is `roll <= skill` for some `roll` in `1..=6`.
pub fn skill_check(skill: i32) -> (r: bool)
    ensures
        exists|roll: int| 1 <= roll <= 6 && r == #[trigger] die_passes(roll, skill as int),
        skill >= 6 ==> r,
        skill < 1 ==> !r,
{
    let mut rng = thread_rng();
    let roll = roll_inclusive(&mut rng, 1, 6);
    let r = skill_passes(roll, skill);
    assert(1 <= roll as int <= 6 && r == die_passes(roll as int, skill as int));
    r
}

/// A die showing `roll` passes a check against `skill` when it shows at most `skill`.
pub open spec fn die_passes(roll: int, skill: int) -> bool {
    roll <= skill
}

/// Whether a die showing `roll` passes a check against `skill`.
pub fn skill_passes(roll: i32, skill: i32) -> (r: bool)
    ensures
        r == (roll <= skill),
{
    roll <= skill
}

} // verus!
