//! Deterministic "bag of crafting" engine.
//!
//! A recipe is a bag of exactly eight pickups drawn from 25 categories. The
//! crafter maps each recipe to one item id through a seeded bit-mixing
//! generator and a weighted draw over a catalog of item pools; the draw
//! reproduces IEEE-754 single-precision arithmetic bit for bit, computed here
//! on integer bit patterns so that every step is verified. An incremental
//! index tracks, as held pickup counts change one unit at a time, every
//! currently craftable item together with the exact set of recipes that
//! produce it, enumerating only the combinatorially relevant sub-bags.

pub mod pickup;
pub mod rng;
pub mod ieee754;
pub mod recipe;
pub mod errors;
pub mod catalog;
pub mod crafter;
pub mod enumerator;
pub mod index;
