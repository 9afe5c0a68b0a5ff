//! Construction of static single assignment form over a control-flow graph.
//!
//! A conversion takes three steps. `dominator_tree` computes, from the edges
//! of the graph, the immediate dominator and the dominance frontier of every
//! block. `phi_placement` gives every variable a phi statement in each block
//! of the iterated dominance frontier of the blocks that write it.
//! `renaming` walks the dominator tree, gives each assignment a version of
//! its own, lets each read name the version that reaches it, and enters into
//! the phi statements the versions that arrive over each edge.
//!
//! Placement and renaming work on any blocks and environments that implement
//! the traits of `traits`. The blocks of `basic_block`, with the statements
//! of `ir` and the environment of `environment`, are one such
//! implementation; `cfg` holds graphs of them, and `conversion` states what
//! holds of every converted graph. `field_arithmetic` is an analysis of such
//! graphs.
pub mod basic_block;
pub mod cfg;
pub mod conversion;
pub mod dominance;
pub mod dominance_property;
pub mod dominator_tree;
pub mod environment;
pub mod errors;
pub mod field_arithmetic;
pub mod graph;
pub mod ir;
pub mod occurrences;
pub mod phi_arguments;
pub mod phi_coverage;
pub mod phi_placement;
pub mod renaming;
pub mod report;
pub mod single_assignment;
pub mod traits;
pub mod versioning;
