//! combee: a strongly typed, verified data-analysis library.
//!
//! The crate revolves around [`dataframe::DataFrame`], an owned, ordered
//! collection of homogeneous rows, with functional transforms (map, filter,
//! sort, slicing) and a grouping/aggregation engine, plus a generic row
//! decoder ([`deserializer`]) that turns self-describing records into typed
//! values.

pub mod dataframe;
pub mod deserializer;
pub mod functions;
pub mod errors;
pub mod nn;
