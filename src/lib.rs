//! Snapshots of a project's directory layout: manifest metadata, ignore
//! patterns, and the flattening of a scanned tree into a directory map.

pub mod config;
pub mod flatten;
pub mod ignore;
pub mod scan;
pub mod snapshot;
pub mod text;
pub mod tree;
