pub mod agnes;
pub mod collatz;
pub mod compiler;
pub mod compiler_state;
pub mod config;
pub mod constitution;
pub mod count_tables;
pub mod cube_record;
pub mod dual_loader;
pub mod embedding_compressor;
pub mod focus;
pub mod friction;
pub mod generation;
pub mod grammar_file;
pub mod grammar_record;
pub mod hierarchical;
pub mod hypercube;
pub mod lexicon;
pub mod pcfg;
pub mod signatures;
pub mod snn;
pub mod syntax;
pub mod syntax_ast;
pub mod token7;
pub mod triple_counts;
pub mod underworld;
