//! What the library reads from the system: the page size, the clock rate and the
//! monotonic clock.
use vstd::prelude::*;

verus! {

#[verifier::external_type_specification]
#[verifier::external_body]
pub struct ExSysconfError(sysconf::raw::SysconfError);

/// Relies on sysconf::page::pagesize: the size in bytes of a memory page on this system.
/// It panics only where `sysconf(_SC_PAGESIZE)`, which POSIX requires, is missing.
#[verifier::external_body]
pub(crate) fn page_size() -> (r: usize) {
    sysconf::page::pagesize()
}

/// Relies on sysconf::raw::sysconf: the number of CPU clock ticks per second,
/// or an error where the system does not report it.
#[verifier::external_body]
pub(crate) fn clock_ticks() -> (r: Result<isize, sysconf::raw::SysconfError>) {
    sysconf::raw::sysconf(sysconf::raw::SysconfVariable::ScClkTck)
}

#[verifier::external_type_specification]
#[verifier::external_body]
pub struct ExInstant(std::time::Instant);

/// Relies on std::time::Instant::now: a reading of the monotonic clock.
#[verifier::external_body]
pub(crate) fn now() -> (r: std::time::Instant) {
    std::time::Instant::now()
}

/// Relies on std::time::Instant::elapsed: the time since `start`.
#[verifier::external_body]
pub(crate) fn elapsed(start: &std::time::Instant) -> (r: std::time::Duration) {
    start.elapsed()
}

/// Relies on std::time::Duration::as_millis: the whole milliseconds of `d`.
#[verifier::external_body]
pub(crate) fn millis(d: &std::time::Duration) -> (r: u128) {
    d.as_millis()
}

} // verus!
