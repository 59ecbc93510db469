//! A generic driver for kinetic Monte Carlo simulations.
//!
//! A concrete physical model implements the capability traits of
//! [`closet`]; [`engine::simulate`] runs it to its horizon and returns the
//! recorded trajectory; [`ensemble::Ensemble`] bins many trajectories on a
//! regular time grid and reduces them to ensemble means. Simulated time is
//! measured in integer ticks, so that binning is exact.
pub mod closet;
pub mod engine;
pub mod ensemble;
pub mod helpers;
pub mod spin;
