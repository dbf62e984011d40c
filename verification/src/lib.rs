//! Spatial indexes over 2-D integer points: a point k-d tree and a point
//! quadtree, both built on a shared axis-aligned bounding box.

pub mod aabb;
pub mod draw;
pub mod kd_search;
pub mod kdtree;
pub mod leaf_tree;
pub mod order;
pub mod plot;
pub mod quad_regions;
pub mod quad_search;
pub mod quadtree;
