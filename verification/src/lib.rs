//! The storage engine of an object gateway, without its input and output.
//!
//! A request is a plan: calls to make on the disk, in order, with a rule for each of them on what
//! its failure means. A plan may end with a question; the answer leads to the next plan. Tasks
//! hand calls and questions out one at a time, and whoever drives them performs them.
//!
//! There are two layouts. `cas` keeps the bytes of objects in immutable blobs and describes each
//! object by a manifest, which is replaced in one step. `filesystem` keeps each object in a file of
//! its own with a sidecar next to it.

pub mod aligned;
pub mod blob;
pub mod cas;
pub mod directio;
pub mod filesystem;
pub mod listing;
pub mod manifest;
pub mod metadata;
pub mod numbers;
pub mod outside;
pub mod path;
pub mod plan;
pub mod promises;
pub mod reader;
pub mod sorting;
pub mod text;
pub mod types;
pub mod walk;
