//! Deterministic symbolic episode memory: an in-memory kernel of immutable
//! episodes with sparse directed feedback, and the pure rules of its storage
//! formats, semantic index and command line.

pub mod attribute;
pub mod attribute_laws;
pub mod bytes;
pub mod cli;
pub mod diagnostic_laws;
pub mod episode;
pub mod heap;
pub mod memory;
pub mod model;
pub mod order;
pub mod order_laws;
pub mod parameters;
pub mod semantic;
pub mod semantic_index;
pub mod sqlite;
pub mod statement;
pub mod statement_laws;
pub mod text;
pub mod text_laws;
pub mod text_table;
