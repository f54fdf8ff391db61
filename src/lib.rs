//! Cables strung between connection points, and sparks that travel along them.
//!
//! [`network`] holds the connection graph: points, the cables between them
//! with their cached curve samples, and the per-point indexes of cables that
//! start and end there. [`generation`] fills a cable's cache once from the
//! samples of a curve solver, and [`wiring`] connects the matching slots of
//! two adjacent structures. [`spark`] moves travellers along the graph,
//! crossing junctions. [`text_queue`] plays queued texts one after another.

pub mod generation;
pub mod network;
pub mod spark;
pub mod text_queue;
pub mod wiring;

