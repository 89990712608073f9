//! Lowering of chosen e-graph representatives to structural Verilog, and
//! generation of the module-enumeration rewrites with their canonicalizer.
pub mod canon;
pub mod graph;
pub mod laws;
pub mod lower;
pub mod rules;
pub mod shape;
pub mod termdag;
pub mod text;
pub mod verilog;
pub mod walk;

pub use canon::canonicalize;
pub use graph::{AnythingExtractor, Graph, Node};
pub use lower::{
    lower, InstanceRecord, LowerError, Netlist, PortBinding, RegisterBlock, WireDecl, WireDef,
};
pub use rules::{
    generate_module_enumeration_rewrite, generate_module_enumeration_rewrites,
    module_enumeration_rules,
};
pub use shape::{decode, BinOp, Kind};
pub use verilog::{output_roots, render, to_verilog_egraph_serialize};
pub use termdag::{lower_terms, to_verilog, Term, TermDag, TermDecl, TermDef, TermError};
