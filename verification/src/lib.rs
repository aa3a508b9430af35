//! Eggplant: the scene graph of a small real-time 3D engine, the render
//! context that a frame threads through it, and the reading of the meshes
//! that it draws.

pub mod graphics;
