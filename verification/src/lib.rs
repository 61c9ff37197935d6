//! Core of a distributed stream-processing engine: the controller-side
//! scheduler that places worker processes across a fleet of nodes, and the
//! worker-side operator runtime that multiplexes records, watermarks and
//! checkpoint barriers across multi-input operators.

pub mod frames;
pub mod ids;
pub mod placement;
pub mod plan;
pub mod process;
pub mod rest;
pub mod runtime;
pub mod scheduler;
pub mod sse;
