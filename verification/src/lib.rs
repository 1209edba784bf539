//! Newtonian N-body simulation over a deterministic software real-number type.

pub mod accuracy;
pub mod algebra;
pub mod grid;
pub mod laws;
pub mod model;
pub mod number;
pub mod record;
pub mod sim;
pub mod vector;
