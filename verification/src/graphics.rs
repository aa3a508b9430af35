//! What is drawn and how: render context, scene graph, mesh files.

pub mod laws;
pub mod loader;
pub mod render;
pub mod scenegraph;
pub mod text;
