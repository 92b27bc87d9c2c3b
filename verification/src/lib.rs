//! Refractive graph database core: CSR graph topology, rooms and partitioning,
//! relation vocabularies, the level file format, learned-state snapshot formats,
//! query intent classification and the integer parts of the legacy angle-bin model.
//!
//! Floating-point quantities (reflection, attenuation, similarities, learned
//! counts) are carried here as their IEEE-754 bit patterns (`u32`); arithmetic on
//! them lives outside this crate.

pub mod messages;
pub mod bytes;
pub mod error;
pub mod graph;
pub mod rooms;
pub mod partitioning;

pub mod text;
pub mod intent;
pub mod llm_integration;
pub mod relation;
pub mod level_file;
pub mod legacy_level;
pub mod level_v1;
pub mod property_map;
pub mod cuda;
pub mod pvs;
pub mod reasoning;
pub mod transitions;
pub mod depth_profile;
pub mod reranker;
pub mod engine;
pub mod personalization;
pub mod embedding_file;
