//! Integer physics and scoring for a wall-to-wall ball game.
//!
//! A heavy main ball falls under gravity between two side walls and a
//! ceiling; each time it reaches the wall that is currently the target, the
//! score goes up. The player fires lighter balls that push it around.
//!
//! All quantities are integers. Lengths are in micro-pixels, times in
//! milliseconds, speeds in micro-pixels per millisecond, accelerations in
//! micro-pixels per square millisecond and masses in tenths of a unit.

pub mod geometry;
pub mod body;
pub mod collision;
pub mod scoring;
pub mod world;
