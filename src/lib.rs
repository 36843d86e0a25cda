//! Core logic of a desktop notes-and-chat host: which documents can be read
//! and how, the warm-up of the document converter, and the versioned schema
//! migrations. The `store` module and `schema::SchemaLog` are in-memory
//! models of the database's rules (unique paths, a foreign key, a full-text
//! index that never drifts from its rows, migrations applied at most once);
//! the application itself keeps its data in SQLite, which enforces those
//! rules through the schema's constraints and triggers.

pub mod converter;
pub mod document;
pub mod schema;
pub mod store;
