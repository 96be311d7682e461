//! Family-layer model of the chess manifold: family keys and their derived
//! features, the coarse family transition graph, the placement address codec
//! and the legality predicate.

pub mod family;
pub mod graph;
pub mod viewer;
pub mod position;
pub mod placement;
pub mod legality;
pub mod checksum;
