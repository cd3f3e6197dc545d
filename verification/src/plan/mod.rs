//! The SQL front end and the optimizer.
pub mod ast;
pub mod bind;
pub mod grammar;
pub mod laws;
pub mod meaning;
pub mod optimize;
pub mod physical;
pub mod prepare;
pub mod print;
pub mod spell;
