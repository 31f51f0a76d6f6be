//! Verified core of a GPU fluid-simulation toolkit: shader source assembly,
//! sphere mesh topology, spatial-hash bookkeeping for smoothed-particle
//! hydrodynamics, and the packing of GPU buffers as 32-bit words.

pub mod geometry;
pub mod gpu;
pub mod mls_mpm;
pub mod shader_module;
pub mod sph;
