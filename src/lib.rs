//! A small real-time application shell: a software rasterizer that owns a
//! row-major framebuffer, an input snapshot, and the decisions of the frame
//! lifecycle. Window creation, presentation and file access are done by the
//! embedding program around this library.
pub mod assets;
pub mod input;
pub mod lifecycle;
pub mod logger;
pub mod renderer;
pub mod window;
