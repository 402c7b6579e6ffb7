//! Diagonal-wavefront execution engine for elastic distances between time series.
//!
//! The library holds the host-side logic of the engine: series packing, the
//! ring diagonal, the diamond scheduler, the kernel launch geometry, the
//! push-constant layout and batch splitting, and a host executor of the warp
//! kernel over exact integer costs. The executor runs the same dispatches,
//! diamonds, lanes and ring slots as the device, and is proved to leave in
//! each pair's ring the last cell of the pair's cost matrix.
pub mod batching;
pub mod cost;
pub mod engine;
pub mod launch;
pub mod laws;
pub mod layout;
pub mod measures;
pub mod params;
pub mod ring;
pub mod schedule;
pub mod wavefront;
