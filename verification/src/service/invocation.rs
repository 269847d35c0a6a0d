//! Invocations as the dispatcher knows them.
use vstd::prelude::*;

verus! {

/// An invocation that runs on a process.
#[derive(Debug)]
pub struct RunningInvocation {
    /// A UUID representing the unique invocation of a service.
    pub invocation_id: u128,
    /// The name of the service.
    pub name: String,
    /// PID of the process handling the invocation (not unique, as multiple
    /// invocations can be scheduled on a single process).
    pub pid: i32,
}

} // verus!
