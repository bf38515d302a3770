pub mod objects;
pub mod physics;
pub mod quadtree;
