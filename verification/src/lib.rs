//! Logical time for incremental dataflow: bounded lattices of timestamps, the
//! product clock built from two of them, and the rules by which capabilities,
//! frontiers and change sets move a computation forward through such times.

pub mod batch;
pub mod capability;
pub mod capture;
pub mod changes;
pub mod driver;
pub mod frontier;
pub mod lattice;
pub mod order;
pub mod pair;
pub mod reach;
pub mod shard;
pub mod tally;
pub mod trace;

pub use capability::{Capability, CapabilityViolation, InputFeed};
pub use capture::Capture;
pub use changes::{Change, Datum};
pub use driver::{worker_share, Batch, Driver, Stage, Step, Time};
pub use frontier::Frontier;
pub use lattice::Lattice;
pub use order::Ordered;
pub use pair::Pair;
pub use trace::Trace;
