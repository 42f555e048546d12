//! A price oracle for asset pairs, with the components that trade on it.
//!
//! The oracle records a price per pair and five-minute bucket, averages the
//! prices of a window of time, scores the deviation of a price from that
//! average, and converts an amount of any asset into the base currency:
//! directly where the pair is priced, else along a shortest path of priced
//! pairs, with a cache of the rates that it resolved. Every operation takes
//! the state that it works on and the current time as arguments, and every
//! function is verified against a contract over a mathematical model of that
//! state.

pub mod auto_trade;
pub mod common;
pub mod keyed_map;
pub mod oracle;
pub mod signal_registry;
