//! A minimal forward-only neural computation engine.
//!
//! A small set of composable vector-transform layers is wired into a fixed
//! topology that maps a discrete event (a typed character or a timer tick)
//! into fixed-length numeric vectors and back into an output event, while a
//! recurrent wrapper carries a persistent memory vector across successive
//! calls.
//!
//! Scalars are fixed-point numbers held in `i64`: a real value x is stored as
//! round(x * 65536), so one unit is `SCALE = 65536`. All arithmetic saturates
//! at `BOUND`, the engine's representable magnitude limit.

pub mod fixed;

pub mod codec;

pub mod layer;

pub mod softmax;

pub mod rng;

pub mod brain;
