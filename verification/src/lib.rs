//! A software voxel world: a dense grid of tiles, rays walked through it cell
//! by cell, and a byte framebuffer that the hits are painted into.

pub mod angle;
pub mod crossing;
pub mod game;
pub mod pixels;
pub mod ray;
pub mod render;
pub mod scene;
pub mod text;
pub mod world;
