//! A software rasterizer: meshes read from OBJ text, a frame buffer with a
//! depth grid, thin lines, thick depth-tested line stamps and wireframe
//! triangles.
use vstd::prelude::*;

pub mod depth;
pub mod framebuffer;
pub mod line;
pub mod obj;
pub mod outline;
pub mod pixel;
pub mod setup;
pub mod shaders;
pub mod text;
pub mod triangle;

verus! {

} // verus!
