//! Records of the template database, and lookups in it.
pub mod reader;
pub mod schema;
