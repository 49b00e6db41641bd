use vstd::prelude::*;

verus! {

/// Relies on `rand::Rng::gen_range` with the thread-local generator: a value
/// drawn from `[min, max)`. The call panics on an empty range, which the
/// precondition rules out.
#[verifier::external_body]
pub fn int_range(min: u32, max: u32) -> (r: u32)
    requires
        min < max,
    ensures
        min <= r < max,
{
    rand::Rng::gen_range(&mut rand::thread_rng(), min..max)
}

} // verus!
