//! The library's one source of randomness.
//!
//! Every random quantity of the tracer (sample jitter, scattering, lens
//! sampling) is drawn through `random_raw`, so each call site states what
//! holds of every outcome rather than of one particular draw. The generator
//! is thread-local, so concurrent pixel work never shares generator state.

use vstd::prelude::*;

verus! {

/// Relies on rand's `Rng::gen_range` over a thread-local generator: a draw
/// from a half-open range `lo..hi` lies in that range; the range is
/// non-empty, so the call cannot panic. Nothing more is assumed: two calls
/// with equal arguments may differ.
#[verifier::external_body]
pub(crate) fn random_raw(lo: i64, hi: i64) -> (r: i64)
    requires
        lo < hi,
    ensures
        lo <= r < hi,
{
    rand::Rng::gen_range(&mut rand::thread_rng(), lo..hi)
}

} // verus!
