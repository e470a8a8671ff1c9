//! Cost-weighted bicycle routing over a lazily fetched road graph.
//!
//! - `tags`, `speed`: reading the key/value tags of map ways.
//! - `cost`: which edges a bicycle may take and what each costs.
//! - `geo`: great-circle distances in fixed-point arithmetic.
//! - `node`, `way`: the graph's nodes, their edges, and the ways they come from.
//! - `graph`: the store of fetched nodes and the edges leaving a node.
//! - `search`: the A* search, as a resumable state machine and as `astar`.
//! - `exhaustion`: why an exhausted frontier means the goal is unreachable.
pub mod cost;
pub mod exhaustion;
pub mod geo;
pub mod graph;
pub mod node;
pub mod search;
pub mod speed;
pub mod tags;
pub mod way;
