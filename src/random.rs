//! The random choices of the spawn rule, drawn from rand's thread-local generator.
use rand::seq::SliceRandom;
use rand::Rng;
use vstd::prelude::*;

verus! {

/// Relies on rand's `SliceRandom::choose`: `None` exactly when the slice is
/// empty, otherwise one of its items, picked uniformly.
#[verifier::external_body]
pub(crate) fn choose_cell(cells: &Vec<(usize, usize)>) -> (r: Option<(usize, usize)>)
    ensures
        r.is_none() <==> cells@.len() == 0,
        r.is_some() ==> cells@.contains(r.unwrap()),
{
    cells.choose(&mut rand::thread_rng()).copied()
}

/// Relies on rand's `Rng::gen_ratio`: `true` with probability
/// `numerator / denominator`, so always when the two are equal and never when
/// the numerator is 0. It panics when the denominator is 0 or below the numerator.
#[verifier::external_body]
pub(crate) fn chance(numerator: u32, denominator: u32) -> (r: bool)
    requires
        0 < denominator,
        numerator <= denominator,
    ensures
        numerator == denominator ==> r,
        numerator == 0 ==> !r,
{
    rand::thread_rng().gen_ratio(numerator, denominator)
}

} // verus!
