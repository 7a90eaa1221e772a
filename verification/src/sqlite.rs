//! Pure rules of the SQLite snapshot adapter: encodings, row validation and
//! save plans. Opening files and running statements is the caller's part.

pub mod codec;
pub mod entropy;
pub mod episode_codec;
pub mod error;
pub mod feedback;
pub mod format;
pub mod laws;
pub mod layout_laws;
pub mod normalize;
pub mod normalize_laws;
pub mod prepare;
pub mod prepare_laws;
pub mod row;
pub mod schema_laws;
pub mod semantic_laws;
pub mod semantic_recall;
pub mod session;
pub mod snapshot;
pub mod snapshot_laws;
pub mod store;
pub mod store_laws;
pub mod symbol_checks;
pub mod symbol_laws;
pub mod symbol_values;
pub mod symbols;
pub mod vectors;
pub mod wire;
