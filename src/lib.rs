//! Process-and-session orchestration core: a bounded output history, a
//! per-session byte bridge, a session registry, a backend supervisor, a port
//! negotiator, the frames of the local socket protocol, and the hub that routes
//! control requests among them. Each is a verified state machine or codec; the
//! outside work (spawning, probing, socket I/O) is left to the caller.
use vstd::prelude::*;

pub mod bridge;
pub mod frame;
pub mod history;
pub mod hub;
pub mod port;
pub mod session;
pub mod supervisor;

verus! {

/// Initialisation hook for targets that need no native setup.
pub fn init() {
}

} // verus!
