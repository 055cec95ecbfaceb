//! Incremental connected-components maintenance for a dynamic undirected
//! graph: a least-label propagation fixpoint over a delta-based edge
//! collection, re-evaluated per epoch, with a component-size
//! aggregation stage.

pub mod aggregate;
pub mod components;
pub mod delta;
pub mod epoch;
pub mod fixpoint;
pub mod labels;
pub mod reach;
pub mod scheduler;
