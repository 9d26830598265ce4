//! Collision and birthday-spacings tests for pseudorandom number generators.
//!
//! A test reads the upper bits of successive words of a generator, and assembles them into the
//! indices of cells of a grid. The collision test counts the points that fall into a cell that is
//! taken already. The birthday-spacings test counts the collisions among the spacings of the sorted
//! points on a circle of cells.
//!
//! - [`prng`]: the generators, and what it means to follow one;
//! - [`sampling`]: the points that a stretch of the orbit of a generator gives;
//! - [`cell`]: the storage of cell indices, and the drawing of one;
//! - [`tally`], [`circle`]: collisions, selections, and spacings;
//! - [`fill`], [`orbit`], [`par`]: generation of points, on one thread or on many;
//! - [`collision`], [`birthday`], [`classes`], [`stages`]: the runners of one repetition;
//! - [`runs`], [`parallel`], [`parallel_birthday`]: whole tests;
//! - [`cli`], [`sizing`]: arguments, and what follows from them;
//! - [`describe`], [`text`]: messages;
//! - [`progress`]: what a running test reports;
//! - [`calls`]: laws of calls of all of these.
use vstd::prelude::*;

pub mod birthday;
pub mod bits;
pub mod calls;
pub mod cell;
pub mod circle;
pub mod classes;
pub mod cli;
pub mod collision;
pub mod common;
pub mod describe;
pub mod fill;
pub mod orbit;
pub mod par;
pub mod parallel;
pub mod parallel_birthday;
pub mod prng;
pub mod progress;
pub mod runs;
pub mod sampling;
pub mod sizing;
pub mod stages;
pub mod tally;
pub mod text;
pub mod util;

verus! {

} // verus!
