//! A dataization engine for φ-calculus programs.
//!
//! A program is a graph of immutable objects; dataization instantiates
//! objects into evaluation frames (baskets) and rewrites them until the
//! root frame holds a 16-bit datum.

pub mod atom;
pub mod basket;
pub mod cache;
pub mod cli;
pub mod data;
pub mod emu;
pub mod executor;
pub mod fibonacci;
pub mod loc;
pub mod locator;
pub mod object;
pub mod perf;
pub mod register;
pub mod round_trip;
pub mod table;
pub mod text;
