//! Reducer-resistant circuit obfuscation.
pub mod gadgets;
pub mod mixer;
pub mod passes;
