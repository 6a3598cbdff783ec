//! A locally consistent replica of a venue's order book, kept up to date from
//! snapshots and incremental depth updates, together with an estimate of the
//! individual resting orders behind each aggregate price level.

pub mod amount;
pub mod level;
pub mod side;
pub mod exchanges;
pub mod replica;
pub mod orchestrator;
pub mod centroids;
pub mod kmeans;
