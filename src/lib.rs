//! Historical accuracy of a block classifier: a bounded history of
//! observations per (true label, node) pair, and the confusion matrix
//! derived from them on demand.

pub mod classify;
pub mod history;
pub mod interner;
pub mod model;
pub mod summary;
pub mod tracker;

pub use classify::{Block, BlockprintClassification, ClassifyRequest};
pub use history::{NodeAccuracy, Observation};
pub use summary::{AggregateSummary, LabelCount, NodeSummary, Summary};
pub use tracker::{AccuracyTracker, NodeEntry, LIMIT};
