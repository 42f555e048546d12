//! Automatic execution of trades on signals.

pub mod errors;
pub mod sdex;
