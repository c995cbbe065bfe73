//! A small rendering core: keyboard state tracking, backend selection, a
//! software rasterizer, render-order planning and primitive meshes.

pub mod keyboard;
pub mod cpu_drawer;
pub mod backend;
pub mod surface;
pub mod ordering;
pub mod scene;
pub mod primitives;
