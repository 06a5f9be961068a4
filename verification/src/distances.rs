//! Distance computation: the edit-distance model, the word metrics, the
//! symmetric distance cache and the cached calculator that fills it once per
//! frame transition.

pub mod levenshtein;
pub mod distance;
pub mod distance_metric;
pub mod distance_matrix;
pub mod distance_calculator;
pub mod median_word;
