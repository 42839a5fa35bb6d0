use vstd::prelude::*;
use web_time::{Duration, Instant};

verus! {

#[verifier::external_type_specification]
#[verifier::external_body]
pub struct ExInstant(web_time::Instant);

/// `web_time::Instant::now`: the current time. Nothing is claimed of it.
#[verifier::external_body]
pub(crate) fn now() -> (r: Instant) {
    Instant::now()
}

/// `<` on `web_time::Instant`: whether `a` comes before `b`. Nothing is claimed of the
/// answer, which rests on the clock.
#[verifier::external_body]
pub(crate) fn earlier(a: &Instant, b: &Instant) -> (r: bool) {
    *a < *b
}

/// `web_time::Instant::checked_add`: the instant `d` after `i`, or `None` when the clock
/// cannot represent it. Nothing is claimed of the answer, which rests on the clock's
/// representation.
#[verifier::external_body]
pub(crate) fn later_by(i: Instant, d: Duration) -> (r: Option<Instant>) {
    i.checked_add(d)
}

/// The instant `d` after now; now itself when the clock cannot represent the sum (a
/// deadline that has passed at once).
pub(crate) fn deadline_after(d: Duration) -> (r: Instant) {
    let start = now();
    match later_by(start, d) {
        Some(t) => t,
        None => start,
    }
}

/// Whether the deadline, if there is one, has passed.
pub(crate) fn past(deadline: &Option<Instant>) -> (r: bool)
    ensures
        deadline is None ==> !r,
{
    match deadline {
        Some(d) => !earlier(&now(), d),
        None => false,
    }
}

} // verus!
