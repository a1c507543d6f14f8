//! Reading model metadata from GGUF headers.
pub mod loader;
pub mod settings;
