//! Lock-free dispensers over a fixed domain: a ticket counter that hands out
//! each value below its count once, and a partitioner that hands out the
//! consecutive chunks of a buffer once each.
//!
//! Each dispenser keeps its state in one atomic word. A pure step function
//! decides the next state from the current one, and one atomic
//! read-modify-write (std's `fetch_update`) commits it. Given the atomicity
//! of that update, which is relied on and not proved here, the successful
//! calls of all threads form one sequence of steps from the initial state.
//! The laws of each module describe that sequence.

pub mod cas;
pub mod chunks;
pub mod counter;

pub use chunks::AtomicChunksMut;
pub use counter::Counter;
