//! A cortical-mesh simulator's verified core: columns, lateral topologies,
//! mesh wiring and routing, consensus bookkeeping, command-line planning,
//! server setup, and benchmark judging.
use vstd::prelude::*;

pub mod bench;
pub mod cli;
pub mod column;
pub mod consensus;
pub mod judge;
pub mod mesh;
pub mod order;
pub mod pack;
pub mod setup;
pub mod stimulus;
pub mod text;
pub mod topology;

verus! {

} // verus!
