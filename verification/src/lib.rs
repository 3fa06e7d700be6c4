//! Control-flow graph construction and basic-block aggregation.
//!
//! A worklist pass turns an address-successor oracle and an entry address into
//! a directed graph with one instruction address per node; a second pass then
//! merges linear chains of single-successor/single-predecessor nodes into
//! maximal basic blocks with a union-find forest.

pub mod agg;
pub mod builder;
pub mod disasm;
pub mod graph;
pub mod uf;

pub use agg::aggregate;
pub use builder::build_simple_cfg;
pub use disasm::Disassembler;
pub use disasm::TableOracle;
pub use graph::ControlFlowGraph;
pub use uf::disjoint_find;
