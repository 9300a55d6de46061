//! Name resolution, integer bounds, function lookup and phi elimination.

pub mod edge_blocks;
pub mod function_utils;
pub mod resolve_phi;
pub mod resolve_phi_to_dsa;
pub mod var_utils;
