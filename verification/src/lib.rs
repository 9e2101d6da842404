//! A source-to-source linker for a parenthesised, WebAssembly-text-like module format.
//!
//! The crate parses module files into a tree, runs an ordered list of tree-rewriting
//! features over it (imports, numeral normalisation, constant folding, memory sizing,
//! start merging, sorting) and writes the tree back as canonical or pretty-printed text.
pub mod ast;
pub mod error;
pub mod eval;
pub mod features;
pub mod hooks;
pub mod linker;
pub mod loader;
pub mod parser;
pub mod passes;
pub mod pretty;
pub mod reprint;
pub mod roundtrip;
pub mod settle;
pub mod text;
pub mod utils;
pub mod walk;
