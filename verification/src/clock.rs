//! The clock by which an analysis is timed. Nothing is known of what it
//! shows.

use std::time::{Duration, Instant};
use vstd::prelude::*;

verus! {

/// `std::time::Instant`, carried through as an opaque type.
#[verifier::external_type_specification]
#[verifier::external_body]
pub struct ExInstant(Instant);

/// `Instant::now`. Trusted to return; nothing is claimed of the moment.
pub assume_specification[ Instant::now ]() -> (start: Instant)
;

/// `Instant::elapsed`. Trusted to return; nothing is claimed of the time.
pub assume_specification[ Instant::elapsed ](start: &Instant) -> (spent: Duration)
;

/// `Duration::as_nanos`. Trusted to return; nothing is claimed of the
/// number.
pub assume_specification[ Duration::as_nanos ](spent: &Duration) -> (nanos: u128)
;

} // verus!
