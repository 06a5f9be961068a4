//! Summary metrics over a finished tracking graph: chain length statistics
//! and per-frame match counts. Averages and ratios are reported as exact
//! numerator and denominator pairs.

pub mod tracking_graph;
