//! A context-aware configuration store: default values with JSON schemas,
//! contexts that pair a condition over runtime dimensions with an override,
//! and the resolution of the effective configuration for a runtime context.

pub mod json;
pub mod text;
pub mod error;
pub mod digest;
pub mod config;
pub mod priority;
pub mod registry;
pub mod predicate;
pub mod resolve;
pub mod laws;
pub mod request;
pub mod describe;
