//! Asynchronous backtracking for distributed constraint satisfaction:
//! agents that each own one variable, the messages they exchange, the
//! round scheduler that drives them, and the quiescence detector that
//! stops a run. The protocol is instantiated on N-Queens and, in a
//! simpler shared-graph form, on graph colouring.

pub mod position;
pub mod board;
pub mod message;
pub mod inbox;
pub mod error;
pub mod detector;
pub mod trial;
pub mod agent;
pub mod partition;
pub mod scheduler;
pub mod invariants;
pub mod lockstep;

pub mod three_coloring;
pub mod four_coloring;
pub mod seven_coloring;
pub mod graph;
pub mod graph_search;
pub mod graph_abt;
pub mod graph_laws;

pub mod manual_vec;
pub mod mont;
