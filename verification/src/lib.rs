//! A tick-based 2-D block world with a declarative rule engine.
//!
//! The world is a dense grid of blocks plus a registry of free entities.
//! Selectors turn predicates over world objects into weighted relations,
//! a storage manager keeps those relations current incrementally, and the
//! rule executor and the built-in physics rules mutate the world.
//!
//! Every quantity is an integer. The weight of a pair in a relation counts
//! the ways that lead from its source to its target. Stored scalars are
//! thousandths, densities hundredths, stabilities chances out of a hundred,
//! rates chances out of a million, and bounds thousandths of a cell. A
//! random draw is a `u32` that stands for the fraction of 2^32 it is.

pub mod blocks;
pub mod cells;
pub mod chemistry;
pub mod object;
pub mod object_set;
pub mod random;
pub mod relation;
pub mod rules;
pub mod sparse_matrices;
pub mod spells;
pub mod storage;
pub mod table;
pub mod toposort;
