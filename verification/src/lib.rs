//! Multi-frame record linkage over tabular snapshots.
//!
//! Given an ordered sequence of frames, each holding records of string-valued
//! fields, the engine links records across consecutive frames into tracking
//! chains that follow one entity through time despite noisy textual variation.
//! The output is a tracking graph: for every frame and record position, the
//! chain edges entering and leaving it.

pub mod api;
pub mod casting;
pub mod codec;
pub mod config;
pub mod diagnostics;
pub mod evaluation;
pub mod distances;
pub mod frame;
pub mod id;
pub mod record;
pub mod resolvers;
pub mod tracking_engine;
pub mod tracking_graph;
pub mod trackers;
pub mod word;
