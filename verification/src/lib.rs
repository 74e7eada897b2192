//! Simulation of vehicles circulating a multi-lane annular roundabout.
//!
//! Cars travel along concentric circular lanes, may switch between adjacent
//! lanes, and exit at a configured intersection angle on the outermost lane.
//! Every step the engine gathers one proposed action per car, arbitrates
//! collisions under an explicit policy, picks the largest safe time
//! increment, and integrates the motion.
//!
//! All quantities are fixed-point integers: angles in microradians reduced
//! modulo a full turn, lengths and times in millionths of a unit. This keeps
//! every step exactly reproducible.

use vstd::prelude::*;

pub mod car;
pub mod common;
pub mod drivers;
mod rng;
pub mod setting;
pub mod sim;
