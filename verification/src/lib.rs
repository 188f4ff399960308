//! A road-network routing kernel.
//!
//! The crate builds an undirected, integer-weighted road graph from
//! OpenStreetMap primitives and answers shortest-travel-time queries over it
//! with a generalized Dijkstra engine, optionally accelerated by A* with
//! landmark heuristics (ALT).

pub mod components;
pub mod ext_cost;
pub mod geo;
pub mod id_map;
pub mod landmarks;
pub mod paths;
pub mod pqueue;
pub mod road_network;
pub mod search;
