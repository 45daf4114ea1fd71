//! The retention engine of a terminal resource monitor: chunked per-metric
//! histories on a shared time axis, the ingestion of one harvested snapshot
//! per tick, and the process hierarchy rebuilt on every tick.

pub mod chunk;
pub mod process;
pub mod harvest;
pub mod series;
pub mod collection;
pub mod layout;
pub mod temperature;
pub mod scroll;
