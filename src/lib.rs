//! A multigraph of labelled nodes with integer edge weights, and the
//! traversals and structural measures computed over it.

pub mod graph;
pub mod traversal;
pub mod components;
pub mod flights;
pub mod metrics;
pub mod ranking;
pub mod weighted;
pub mod paths;
