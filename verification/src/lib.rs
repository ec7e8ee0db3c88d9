use vstd::prelude::*;

pub mod agreement;
pub mod arith;
pub mod bake;
pub mod bounds;
pub mod geo;
pub mod grid;
pub mod intersect;
pub mod math;
pub mod mesh;
pub mod passage;
pub mod query;
pub mod ratio;
pub mod timer;
pub mod traverse;
pub mod vector;
pub mod vertex;
pub mod world_data;
