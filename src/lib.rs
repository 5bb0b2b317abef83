pub mod animation;
pub mod classify;
mod entries;
pub mod entity;
pub mod grid;
mod keyed;
pub mod terrain_map;
pub mod occluders;
pub mod stream;
