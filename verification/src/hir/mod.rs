pub mod copy;
pub mod model;
pub mod shape;
pub mod types;
