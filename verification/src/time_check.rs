use vstd::prelude::*;

verus! {

#[verifier::external_type_specification]
#[verifier::external_body]
pub struct ExInstant(std::time::Instant);

/// Relies on std::time::Instant::now: an opaque moment used later as the
/// start of a budget.  Nothing is promised of the value.
#[verifier::external_body]
pub(crate) fn instant_now() -> std::time::Instant {
    std::time::Instant::now()
}

/// Relies on std::time::Instant::elapsed and Duration's ordering: whether
/// more than `limit` has passed since `start`.  The result depends on the
/// clock, so nothing is promised of it.
#[verifier::external_body]
pub(crate) fn elapsed_exceeds(start: &std::time::Instant, limit: &std::time::Duration) -> bool {
    start.elapsed() > *limit
}

} // verus!
