//! Grid containers and city-generation logic with verified contracts.
pub mod array2d;
pub mod utils;
pub mod buildings;
pub mod name_gen;
pub mod pool;
pub mod logistics;
pub mod vertices;
pub mod subdivide;
pub mod prof;
pub mod generator;
pub mod cleanup;
pub mod roads;
pub mod water;
