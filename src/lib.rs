//! Core of a multi-tenant todo-list service: the single-table key scheme,
//! the typed decoding of stored records, the command handlers' decisions,
//! the counter consumer, and an in-memory store that gives the store
//! adapter's operations their meaning.
pub mod commands;
pub mod errors;
pub mod events;
pub mod ids;
pub mod keys;
pub mod laws;
pub mod model;
pub mod service;
pub mod store;
pub mod text;
