//! Namespace-based project navigation: namespace maps, lookup, completion,
//! configuration edits and shell integration text.
pub mod text;
pub mod sorting;
pub mod config;
pub mod namespace;
pub mod commands;
pub mod shell;
pub mod doctor;
pub mod validity;
pub mod laws;
