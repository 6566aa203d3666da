//! Health agent core for a parallel-block (DAG-based) consensus network.
//!
//! The library keeps a bounded window of live DAG topology, detects
//! fractures (branch points whose descendant tips have diverged in blue
//! score), adapts its sensitivity and payout size to observed network
//! stress, and builds and checks the signed stitch messages that ask
//! miners to heal a fracture.
//!
//! All fractional quantities (stress score, orphan rate, blocks per
//! second) are carried as fixed-point integers in milli-units: the value
//! 1000 stands for 1.0.

pub mod adaptive;
pub mod bytes;
pub mod dag;
pub mod orchestrator;
pub mod crypto;
pub mod stitch;
