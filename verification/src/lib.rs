pub mod area;
pub mod entry;
pub mod iter;
pub mod qtinner;
pub mod quadtree;
pub mod traversal;
pub mod uuid_iter;

pub use crate::quadtree::Quadtree;
