use vstd::prelude::*;

verus! {

/// Relies on `rand::random_range` over `0..n`: draws a uniformly distributed
/// index strictly below `n` from the thread-local generator. The range is
/// never empty, so the call cannot panic; nothing else is promised of the
/// outcome.
#[verifier::external_body]
pub(crate) fn random_index(n: usize) -> (r: usize)
    requires
        n > 0,
    ensures
        r < n,
{
    rand::random_range(0..n)
}

} // verus!
