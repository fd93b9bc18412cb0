//! The source of chance: the thread-local generator of `rand`, behind
//! functions that state what holds of every draw.

use rand::rngs::ThreadRng;
use rand::seq::SliceRandom;
use rand::Rng;
use vstd::prelude::*;
use crate::textgen::PunctuationType;

verus! {

#[verifier::external_type_specification]
#[verifier::external_body]
pub struct ExThreadRng(ThreadRng);

/// `rand::thread_rng`: a handle to the generator of this thread. It fails
/// only where the system hands out no entropy to seed it.
#[verifier::external_body]
pub(crate) fn thread_rng() -> ThreadRng {
    rand::thread_rng()
}

/// `Rng::gen_range` on the range from zero up to, not including, `bound`: a
/// number of that range.
#[verifier::external_body]
pub(crate) fn gen_below(rng: &mut ThreadRng, bound: u64) -> (r: u64)
    requires
        bound > 0,
    ensures
        r < bound,
{
    rng.gen_range(0..bound)
}

/// `Rng::gen_ratio`: a yes with a chance of `numerator` in `denominator`,
/// which is never a yes where the numerator is zero, and always one where the
/// two are equal.
#[verifier::external_body]
pub(crate) fn gen_ratio(rng: &mut ThreadRng, numerator: u32, denominator: u32) -> (r: bool)
    requires
        0 < denominator,
        numerator <= denominator,
    ensures
        numerator == 0 ==> !r,
        numerator == denominator ==> r,
{
    rng.gen_ratio(numerator, denominator)
}

/// `SliceRandom::choose` on a list of rules that is not empty: one of them.
#[verifier::external_body]
pub(crate) fn choose_rule(rng: &mut ThreadRng, rules: &Vec<PunctuationType>) -> (r:
    PunctuationType)
    requires
        rules@.len() > 0,
    ensures
        rules@.contains(r),
{
    *rules.choose(rng).unwrap()
}

} // verus!
