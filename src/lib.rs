//! Register-residency tracking for a three-register accumulator machine,
//! with the listing formats its code is read from and written to.
//!
//! - `block`: snapshots of residency and emitted instructions, the
//!   overwrite scan, forward patches and the successor function.
//! - `laws`: properties of those operations, proved.
//! - `listing`, `parse`, `assembly`, `detached`: dotted-group numbers and the
//!   assembly and detached listing formats.
//! - `registry`: the architecture header of a container's metadata.
use vstd::prelude::*;

pub mod block;
pub mod laws;
pub mod listing;
pub mod parse;
pub mod registry;
pub mod assembly;
pub mod detached;

verus! {

/// The three interchangeable accumulator-machine registers.
#[derive(Clone, Copy, PartialEq, Eq, PartialOrd, Ord, Debug, Structural)]
pub enum Reg {
    A,
    X,
    Y,
}

} // verus!
