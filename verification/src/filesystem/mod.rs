//! A store in the plain layout: an object is a file below its bucket with a sidecar next to it.

pub mod execution;
pub mod flows;
pub mod model;
pub mod objects;
pub mod store;
pub mod task;
pub mod uploads;
