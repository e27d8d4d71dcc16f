//! How many workers scan records in parallel.
use vstd::prelude::*;

verus! {

/// CPUs left free for reading input and writing output.
pub const RESERVED_CPUS: usize = 2;

/// The worker count used when none is asked for: the available CPUs less
/// the reserve, and at least one.
pub open spec fn default_workers(available: usize) -> usize {
    if available > RESERVED_CPUS + 1 {
        (available - RESERVED_CPUS) as usize
    } else {
        1
    }
}

/// Relies on num_cpus::get: the number of logical CPUs this process may use,
/// which its documentation promises is at least 1.
#[verifier::external_body]
fn available_cpus() -> (r: usize)
    ensures
        r >= 1,
{
    num_cpus::get()
}

/// The worker count: `requested` when it is positive, else the available
/// CPUs less the reserve, floored at one.
pub fn resolve_worker_count(requested: Option<usize>, available: usize) -> (r: usize)
    ensures
        r >= 1,
        r == match requested {
            Some(n) => if n >= 1 { n } else { default_workers(available) },
            None => default_workers(available),
        },
{
    match requested {
        Some(n) if n >= 1 => n,
        _ => {
            if available > RESERVED_CPUS + 1 {
                available - RESERVED_CPUS
            } else {
                1
            }
        },
    }
}

/// The worker count for this machine: `requested` when it is positive, else
/// the CPUs available to this process less the reserve, floored at one.
pub fn worker_count(requested: Option<usize>) -> (r: usize)
    ensures
        r >= 1,
        requested is Some && requested->0 >= 1 ==> r == requested->0,
        !(requested is Some && requested->0 >= 1) ==> exists|available: usize|
            available >= 1 && r == #[trigger] default_workers(available),
{
    let available = available_cpus();
    let r = resolve_worker_count(requested, available);
    assert(!(requested is Some && requested->0 >= 1) ==> r == default_workers(available));
    r
}

} // verus!
