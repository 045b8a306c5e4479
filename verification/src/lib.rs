//! A software rasterizer for a small solar-system scene: colors, a depth-tested
//! framebuffer, integer line drawing, the cube-map sky fill, shader layer
//! selection and the scene's inspection state.
pub mod app;
pub mod color;
pub mod framebuffer;
pub mod line;
pub mod shaders;
pub mod skybox;
