//! Spatial simulation core of a grid-based city builder: a world grid with
//! footprint-aware entity placement, per-cell and global effect sets, a
//! wrap-around scanning cursor, an 8-directional shortest-path query and a
//! perimeter road-adjacency query.

pub mod effects;
pub mod entities;
pub mod map;
pub mod production;
