pub mod batch;
pub mod coalesce;
pub mod error;
pub mod sink;
