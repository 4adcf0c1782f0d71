//! Rendering data that does not touch the graphics device.

pub mod renderer;
