//! Split-tunneling helper core: a registry of remote addresses observed in a
//! pending (SYN-sent) state, the policy that escalates long-pending addresses
//! to host routes, the decoding of the kernel's per-process TCP table, the
//! client/daemon wire protocol, and the supervision of per-process monitors.
//!
//! Everything here is pure logic over plain values; the surrounding daemon
//! performs the actual I/O (reading the kernel table, invoking the route
//! command, carrying bytes over sockets) and feeds the results in.

pub mod address;
pub mod engine;
pub mod messages;
pub mod registry;
pub mod status;
pub mod supervisor;
pub mod table;

use vstd::prelude::*;

verus! {

} // verus!
