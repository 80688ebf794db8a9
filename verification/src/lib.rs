//! Solvers for a series of puzzle quests, with every solver's behaviour stated
//! as a contract and proved.
//!
//! Each quest takes the raw bytes of its notes and a [`common::Part`], and
//! yields the answer as text; [`quests::solve`] finds the solver by the
//! quest's number. The centrepiece is the erosion engine of
//! [`quests::quest03`], which peels a depth map layer by layer until it is
//! stable.
//!
//! [`text`] and [`sums`] hold what the quests share: lines and numbers in
//! text, and finite sums with the lemmas about them.

pub mod common;
pub mod quests;
pub mod sums;
pub mod text;
