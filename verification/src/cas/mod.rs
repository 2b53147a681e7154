pub mod browse;
pub mod buckets;
pub mod complete;
pub mod execution;
pub mod flows;
pub mod gc;
pub mod model;
pub mod objects;
pub mod order;
pub mod parts;
pub mod records;
pub mod recovery;
pub mod restart;
pub mod store;
pub mod sweep;
pub mod task;
pub mod upload_flows;
pub mod upload_model;
pub mod uploads;
