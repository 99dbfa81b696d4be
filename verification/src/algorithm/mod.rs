//! The three parts of a node's state and the rules by which each evolves.
pub mod coloring;
pub mod parenting;
pub mod timers;
