//! Verified core of the Amadeus morphological grammar engine.
pub mod amadeus_m;
pub mod hako;
pub mod model;
pub mod parse;
pub mod quant;
pub mod random;
pub mod text;
pub mod tokenizer;
pub mod unicode;
pub mod wiki_compiler;
