//! Template-based recognition of two numeric readings (a currency counter and an
//! attack level) from small grayscale screen regions, and the projection of an
//! upgrade path from those readings.

pub mod binarize;
pub mod distance;
pub mod gallery;
pub mod matcher;
pub mod processor;
pub mod raster;
pub mod recognizer;
pub mod segment;
