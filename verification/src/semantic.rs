//! Fixed-profile semantic encoding: texts, embeddings and runtime rules.

pub mod encoder;
pub mod encoder_laws;
pub mod error;
pub mod laws;
pub mod model;
pub mod profile;
