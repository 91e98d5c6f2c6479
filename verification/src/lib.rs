//! A discrete-event simulation of a single hardware module that increments a
//! 32-bit register once per scheduling tick.
//!
//! The crate has two pieces: a register store with tick-based commit
//! ([`register`]) and a tick scheduler that drives simulated time forward,
//! decides which events are due, runs the one module, and tracks idleness.
#![allow(non_snake_case)]

pub mod driver;
pub mod laws;
pub mod register;
pub mod simulator;
