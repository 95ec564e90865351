use rand::rngs::ThreadRng;
use rand::seq::SliceRandom;
use rand::Rng;
use vstd::prelude::*;

verus! {

/// The thread-local generator of `rand`, carried through opaque.
#[verifier::external_type_specification]
#[verifier::external_body]
pub struct ExThreadRng(ThreadRng);

/// `Rng::gen_range(low..high)` of `rand`: a value drawn uniformly from the
/// half-open range `[low, high)`.  `rand` panics on an empty range, so the
/// range must hold a value.  Which value comes out is left open.
#[verifier::external_body]
pub(crate) fn gen_range_i16(rng: &mut ThreadRng, low: i16, high: i16) -> (r: i16)
    requires
        low < high,
    ensures
        low <= r < high,
{
    rng.gen_range(low..high)
}

/// `SliceRandom::choose` of `rand` on the items: `None` for no items, and
/// otherwise one of them, drawn uniformly.  Which one comes out is left
/// open.
#[verifier::external_body]
pub(crate) fn choose_copied<T: Copy>(items: &Vec<T>, rng: &mut ThreadRng) -> (r: Option<T>)
    ensures
        r is None <==> items.len() == 0,
        r matches Some(v) ==> items@.contains(v),
{
    items.choose(rng).copied()
}

} // verus!
