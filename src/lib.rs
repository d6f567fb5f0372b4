//! Isochrone weather routing on fixed-point quantities.
//!
//! Every real quantity is held as an integer number of millionths of its unit
//! (micro-degrees, micro-knots, micro-metres per second); time is held in
//! whole seconds.
pub mod fixed;
pub mod mask;
pub mod models;
pub mod router;
pub mod polars;
pub mod physics;
pub mod wind_field;
pub mod grib;
pub mod csv;
