//! Verified core of the Varadhan / Maslov toolkit: the tropical semirings that
//! Maslov dequantization converges to, the edge structure of the graphs that the
//! heat kernel runs on, and the dependency-respecting order of the GPU scheduler.

pub mod heat_kernel;
pub mod gpu_schedule;
pub mod maslov;
