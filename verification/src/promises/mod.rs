//! What the operations promise their callers, in terms of what goes in and what comes out.

pub mod answers;
pub mod bodies;
pub mod buckets;
pub mod claims;
pub mod durability;
pub mod files;
pub mod listing;
pub mod locks;
pub mod names;
pub mod numbers;
pub mod objects;
pub mod plain;
pub mod plain_answers;
pub mod plain_parts;
pub mod plain_uploads;
pub mod ranges;
pub mod requests;
pub mod running;
pub mod sweeps;
pub mod tasks;
pub mod undoing;
pub mod uploads;
