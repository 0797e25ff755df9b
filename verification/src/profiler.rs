//! Wall-clock profiling handle: a named starting instant.

use vstd::prelude::*;

verus! {

/// Declares `std::time::Instant` so that it can be held in a field; the
/// type stays opaque.
#[verifier::external_type_specification]
#[verifier::external_body]
pub struct ExInstant(std::time::Instant);

/// Relies on `std::time::Instant::now`: returns the current instant.
/// Nothing is promised of the value, which depends on the clock.
#[verifier::external_body]
fn now_instant() -> (r: std::time::Instant) {
    std::time::Instant::now()
}

/// A profiling handle: the instant it was created and a label.
pub struct Profiler {
    pub t: std::time::Instant,
    pub name: &'static str,
}

impl Profiler {
    /// A handle starting now, labeled with `name` (or with the empty
    /// label).
    pub fn new(name: Option<&'static str>) -> (r: Profiler)
        ensures
            name is Some ==> r.name == name->Some_0,
            name is None ==> r.name@ == ""@,
    {
        let label: &'static str = match name {
            Some(s) => s,
            None => "",
        };
        Profiler { t: now_instant(), name: label }
    }
}

} // verus!
