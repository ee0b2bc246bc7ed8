//! Procedural generation of branching tree skeletons.
//!
//! The library has two halves: a bounded parameter space with a smooth
//! random walk over it (`params`), and a pure recursive generator that
//! turns a parameter record into an ordered sequence of placement nodes
//! (`tree`). All quantities are carried in a fixed-point encoding with six
//! fractional decimal digits (`fixed`), and the trigonometry the placement
//! formulas need is a verified polynomial approximation (`trig`).

pub mod fixed;
pub mod params;
pub mod tree;
pub mod trig;
