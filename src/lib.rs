//! Collision bookkeeping for a set of rotating gear bodies.
//!
//! A simulation step has three phases: every body's collision counter is
//! reset, every ordered pair of touching bodies is resolved, and every body
//! is integrated. The geometry and the integration work on real numbers and
//! belong to the caller; this crate decides, for a given contact graph, which
//! velocity adjustments each body receives, in which order, and with which
//! weights, and it proves what those adjustments amount to in exact arithmetic.
pub mod body;
pub mod detect;
pub mod resolve;
pub mod world;
