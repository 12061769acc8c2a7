//! A generic flow-network engine: a residual graph store with a blocking-flow
//! maximum-flow engine, a successive-shortest-path minimum-cost engine and a
//! minimum-cut extractor, all stated over a mathematical model of the network.
//!
//! - `scalar`: the number types of capacities and costs.
//! - `costtype`: the product of a capacity and a cost.
//! - `network`: the model of a residual network, with the laws of flows,
//!   cuts and costs.
//! - `graph`: the store and the engines, and the graph as bytes and as a
//!   text in the dot language.
//! - `io`: values as bytes and as text.
pub mod scalar;
pub mod network;
pub mod costtype;
pub mod graph;
pub mod io;
