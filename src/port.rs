//! Port negotiation: given what occupies the preferred port and the ports after
//! it, choose the port the backend will listen on. Binding and the
//! same-application handshake that tells a stale instance apart are the
//! caller's; this decides on their findings.
use vstd::prelude::*;

use crate::frame::{field, read_be};

verus! {

/// The process id in greeting `b`, if `b` is one. An instance of this
/// application greets each connection to its port with the bytes `SHUB`, then
/// its process id in four big-endian bytes.
pub open spec fn greeting_pid(b: Seq<u8>) -> Option<u32> {
    if b.len() == 8 && b[0] == 0x53 && b[1] == 0x48 && b[2] == 0x55 && b[3] == 0x42 {
        Some(field(b, 4, 4) as u32)
    } else {
        None
    }
}

/// Reads the greeting that an occupant of a port sent; `None` when it is not
/// one of this application's, so the occupant is someone else's.
pub fn parse_greeting(b: &[u8]) -> (r: Option<u32>)
    ensures
        r == greeting_pid(b@),
{
    if b.len() == 8 && b[0] == 0x53 && b[1] == 0x48 && b[2] == 0x55 && b[3] == 0x42 {
        Some(read_be(b, 4, 4) as u32)
    } else {
        None
    }
}

/// The greeting that an instance with process id `pid` sends.
pub fn greeting(pid: u32) -> (r: Vec<u8>)
    ensures
        greeting_pid(r@) == Some(pid),
{
    let mut v: Vec<u8> = Vec::new();
    v.push(0x53);
    v.push(0x48);
    v.push(0x55);
    v.push(0x42);
    let b = pid_bytes(pid);
    v.push(b.0);
    v.push(b.1);
    v.push(b.2);
    v.push(b.3);
    proof {
        let s = v@;
        reveal_with_fuel(crate::frame::be, 5);
        assert(s.subrange(4, 8) =~= seq![b.0, b.1, b.2, b.3]);
        assert(seq![b.0, b.1, b.2, b.3].drop_last() =~= seq![b.0, b.1, b.2]);
        assert(seq![b.0, b.1, b.2].drop_last() =~= seq![b.0, b.1]);
        assert(seq![b.0, b.1].drop_last() =~= seq![b.0]);
        assert(seq![b.0].drop_last() =~= Seq::<u8>::empty());
    }
    v
}

fn pid_bytes(pid: u32) -> (r: (u8, u8, u8, u8))
    ensures
        ((r.0 as nat * 256 + r.1 as nat) * 256 + r.2 as nat) * 256 + r.3 as nat == pid as nat,
{
    let r = ((pid / 16777216) as u8, (pid / 65536 % 256) as u8, (pid / 256 % 256) as u8, (pid % 256) as u8);
    assert(((r.0 as nat * 256 + r.1 as nat) * 256 + r.2 as nat) * 256 + r.3 as nat == pid as nat)
        by (nonlinear_arith)
        requires
            r.0 == pid / 16777216,
            r.1 == pid / 65536 % 256,
            r.2 == pid / 256 % 256,
            r.3 == pid % 256,
    ;
    r
}

/// What a probe found on one port.
#[derive(Clone, Copy, PartialEq, Eq, Debug, Structural)]
pub enum Occupant {
    Free,
    /// A leftover instance of this application, confirmed by handshake.
    StaleInstance,
    /// Anything else.
    Other,
}

#[derive(Clone, Copy, PartialEq, Eq, Debug, Structural)]
pub enum LeaseOutcome {
    Free,
    /// The stale instance on the preferred port is to be terminated first.
    ReclaimedFromStale,
    /// The preferred port is held by another process; an alternate was taken.
    Alternate,
}

#[derive(Clone, Copy, PartialEq, Eq, Debug, Structural)]
pub struct PortLease {
    pub port: u16,
    pub outcome: LeaseOutcome,
}

#[derive(Clone, Copy, PartialEq, Eq, Debug, Structural)]
pub enum PortError {
    PortExhausted,
}

/// The first offset from `i` on whose port the probe found nothing, within
/// the probes and the port space.
pub open spec fn first_free(preferred: u16, probes: Seq<Occupant>, i: nat) -> Option<nat>
    decreases probes.len() - i,
{
    if i >= probes.len() || preferred + i > u16::MAX {
        None
    } else if probes[i as int] == Occupant::Free {
        Some(i)
    } else {
        first_free(preferred, probes, i + 1)
    }
}

/// The lease for the findings `probes`, where `probes[i]` is what occupies
/// port `preferred + i`.
pub open spec fn negotiate(preferred: u16, probes: Seq<Occupant>) -> Result<PortLease, PortError> {
    if probes.len() == 0 {
        Err(PortError::PortExhausted)
    } else {
        match probes[0] {
            Occupant::Free => Ok(PortLease { port: preferred, outcome: LeaseOutcome::Free }),
            Occupant::StaleInstance => Ok(
                PortLease { port: preferred, outcome: LeaseOutcome::ReclaimedFromStale },
            ),
            Occupant::Other => match first_free(preferred, probes, 1) {
                Some(i) => Ok(PortLease { port: (preferred + i) as u16, outcome: LeaseOutcome::Alternate }),
                None => Err(PortError::PortExhausted),
            },
        }
    }
}

proof fn lemma_first_free(preferred: u16, probes: Seq<Occupant>, i: nat)
    ensures
        match first_free(preferred, probes, i) {
            Some(j) => i <= j < probes.len() && preferred + j <= u16::MAX && probes[j as int]
                == Occupant::Free && forall|k: int| i <= k < j ==> probes[k] != Occupant::Free,
            None => forall|k: int|
                i <= k < probes.len() && preferred + k <= u16::MAX ==> probes[k] != Occupant::Free,
        },
    decreases probes.len() - i,
{
    if !(i >= probes.len() || preferred + i > u16::MAX) && probes[i as int] != Occupant::Free {
        lemma_first_free(preferred, probes, i + 1);
    }
}

/// When another process holds the preferred port, negotiation moves to the
/// first free port after it in the probed range, or reports exhaustion when
/// there is none; it never asks to terminate the occupant.
pub proof fn lemma_occupied_preferred_moves_on(preferred: u16, probes: Seq<Occupant>)
    requires
        probes.len() > 0,
        probes[0] == Occupant::Other,
    ensures
        match negotiate(preferred, probes) {
            Ok(l) => l.outcome == LeaseOutcome::Alternate && l.port != preferred && preferred
                < l.port < preferred + probes.len() && probes[l.port - preferred]
                == Occupant::Free,
            Err(_) => forall|k: int|
                1 <= k < probes.len() && preferred + k <= u16::MAX ==> probes[k]
                    != Occupant::Free,
        },
{
    lemma_first_free(preferred, probes, 1);
}

/// Chooses the port to listen on from the probe findings.
pub fn acquire(preferred: u16, probes: &Vec<Occupant>) -> (r: Result<PortLease, PortError>)
    ensures
        r == negotiate(preferred, probes@),
{
    if probes.len() == 0 {
        return Err(PortError::PortExhausted);
    }
    match probes[0] {
        Occupant::Free => Ok(PortLease { port: preferred, outcome: LeaseOutcome::Free }),
        Occupant::StaleInstance => Ok(
            PortLease { port: preferred, outcome: LeaseOutcome::ReclaimedFromStale },
        ),
        Occupant::Other => {
            let mut i: usize = 1;
            while i < probes.len()
                invariant
                    1 <= i <= probes@.len(),
                    probes@[0] == Occupant::Other,
                    i <= 65536,
                    first_free(preferred, probes@, 1) == first_free(preferred, probes@, i as nat),
                decreases probes@.len() - i,
            {
                if preferred as usize + i > 65535 {
                    return Err(PortError::PortExhausted);
                }
                if probes[i] == Occupant::Free {
                    return Ok(
                        PortLease { port: (preferred as usize + i) as u16, outcome: LeaseOutcome::Alternate },
                    );
                }
                i = i + 1;
            }
            Err(PortError::PortExhausted)
        },
    }
}

} // verus!
