//! The one place the library reaches an outside crate: drawing a random
//! fixed-point value for parameter initialization.
use rand::Rng;
use vstd::prelude::*;

verus! {

/// Relies on rand::Rng::gen_range on a half-open integer range: it returns a
/// value in `[low, high)` and panics only on an empty range, which the
/// precondition rules out. Nothing more is assumed of which value comes back.
#[verifier::external_body]
pub(crate) fn randomize_value(low: i64, high: i64) -> (r: i64)
    requires
        low < high,
    ensures
        low <= r < high,
{
    let mut rng = rand::thread_rng();
    rng.gen_range(low..high)
}

} // verus!
