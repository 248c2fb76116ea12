//! Shape-level simulation of tensor programs on a machine with a small
//! accelerator memory (SRAM) backed by an unbounded host memory (DRAM).
//!
//! A program is lowered from a DAG of tensor operators to a tree of
//! micro-instructions (loads, stores, computes), and the tree is interpreted
//! against the two memory tiers. When SRAM runs out, an eviction heuristic
//! picks a resident tensor to write back or drop; an evicted tensor that is
//! needed again is rematerialized from DRAM.
pub mod heuristics;
pub mod insn;
pub mod lowering;
pub mod memory;
pub mod sim;
pub mod steps;
pub mod supply;
pub mod text;
