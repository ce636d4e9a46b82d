//! State, rules and file formats of an asynchronous particle-routing network.
//!
//! A token's embedding is scattered into particles that hop from node to node of a mesh until
//! they settle, and is gathered again from those that did. Scalars are held as bit patterns:
//! what is computed with them comes in as arguments, and what is decided by them, moved,
//! counted, ordered, framed or written is proved here.
pub mod bytes;
pub mod checkpoint;
pub mod checkpoint_laws;
pub mod config;
pub mod cuda;
pub mod dataset;
pub mod evaluation;
pub mod export;
pub mod generation;
pub mod hardening;
pub mod json;
pub mod mesh;
pub mod metrics;
pub mod micro_block;
pub mod model;
pub mod order;
pub mod particle;
pub mod reports;
pub mod restore;
pub mod routing;
pub mod scalar;
pub mod scattering;
pub mod serializer;
pub mod settings;
pub mod subnode;
pub mod synthetic;
pub mod tables;
pub mod text;
pub mod topology;
pub mod training;
pub mod words;
