//! Daylight-coefficient solar radiation library.
//!
//! Estimates incident radiation on building surfaces with the daylight
//! coefficient method: a stochastic path tracer builds, once per surface,
//! a matrix mapping a discretized-sky radiance vector to incident
//! irradiance. The crate provides the dense matrix container, its on-disk
//! text format, the tracing engine's control logic, and the surface
//! bookkeeping around it.

pub mod ascii;
pub mod daylight_coefficients;
pub mod matrix;
pub mod matrix_text;
pub mod model;
pub mod optical_info;
pub mod solar_surface;
