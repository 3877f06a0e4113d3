use vstd::prelude::*;

verus! {

/// Declares rand's seedable standard generator, so that verified
/// signatures can thread one handle by reference through every carving
/// call; the value itself is opaque here.
#[verifier::external_type_specification]
#[verifier::external_body]
pub struct ExStdRng(rand::rngs::StdRng);

/// Relies on rand's `Rng::gen_range` over the half-open range `0..n`: it
/// returns a value of that range and panics only when the range is empty,
/// which `n > 0` rules out. Nothing is claimed about which value comes
/// back: the callers state what holds of every outcome.
#[verifier::external_body]
pub(crate) fn random_below(rng: &mut rand::rngs::StdRng, n: u32) -> (r: u32)
    requires
        n > 0,
    ensures
        r < n,
{
    rand::Rng::gen_range(rng, 0..n)
}

} // verus!
