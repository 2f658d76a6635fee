//! Elderforge engine core: the discrete, integer-valued logic of the physics,
//! platform and renderer layers, with contracts proved by Verus.

pub mod handle;
pub mod physics;
pub mod platform;
pub mod renderer;
pub mod seq_count;
