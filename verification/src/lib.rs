//! Verified core of a language server for Makefiles.

pub mod strs;
pub mod position;
pub mod goto;
pub mod builtins;
pub mod makefile;
pub mod dep_graph;
pub mod sorted;
pub mod scip;
pub mod diagnostics;
pub mod completion;
pub mod semantic;
pub mod rename;
pub mod hover;
pub mod references;
pub mod highlights;
pub mod symbols;
pub mod folding;
pub mod document_links;
pub mod signature_help;
pub mod inlay_hints;
pub mod code_actions;
pub mod selection_ranges;
pub mod editing;
pub mod paths;
