//! Core of a safety-obligation checker: a registry of named safety
//! properties, a parser for the property attribute DSL, and a discharge
//! state machine that reports obligations a caller left unmet.
pub mod configuration;
pub mod data;
pub mod safety;
pub mod strutil;
