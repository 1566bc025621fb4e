//! A tracing JIT for a small stack-bytecode VM: hotness policy, region scans,
//! a typed IR builder for hot functions and loops, and the marshalling that
//! moves interpreter values across the native boundary.

pub mod bytecode;
pub mod scan;
pub mod value;
pub mod ir;
pub mod builder;
pub mod jit;
pub mod shim;
