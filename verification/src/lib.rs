//! habi_core: a disconnection-tolerant ledger of bearer instruments.
//!
//! Nodes hold bearers in a ledger and record the bearers they spent. Links
//! between nodes go down and come up; a spend reaches only the nodes
//! directly linked at that moment, so a node cut off from a spend can later
//! spend the same bearer. The library models this (`network`), checks the
//! two safety properties (no bearer spent by two nodes; no linked pair out
//! of step), and closes the gap with a Conversion Day settlement barrier,
//! both over the whole model (`conversion_day`) and over snapshots gathered
//! from networked nodes (`conversion_day_coordinator`, `admin`). The
//! networked node's protocol (`wire`, `peer_protocol`, `shared_state`),
//! its peer book (`peers`) and its saved state (`persistence`) are here
//! too; sockets, threads and files are not.
use vstd::prelude::*;

pub mod admin;
pub mod audit;
pub mod conversion_day;
pub mod conversion_day_coordinator;
pub mod names;
pub mod network;
pub mod node;
pub mod peer_protocol;
pub mod peers;
pub mod persistence;
pub mod render;
pub mod shared_state;
pub mod text;
pub mod wire;
pub mod wire_format;

verus! {
} // verus!
