//! Teoz sequence-diagram engine.
pub mod builder;
