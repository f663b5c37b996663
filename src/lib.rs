//! The core of a CPU rasterization pipeline: a bottom-left-origin framebuffer,
//! the pipeline state with its depth test, the bookkeeping of homogeneous
//! clipping, a fixed-point edge-function triangle rasterizer and a Bresenham
//! line rasterizer.
pub mod buf;
pub mod clip;
pub mod color;
pub mod depth;
pub mod fb;
pub mod line;
pub mod raster;
pub mod renderer;
