//! Plain rendering parameters: viewports, detail levels and the renderer's
//! error kinds.

use vstd::prelude::*;

verus! {

/// A rectangular region of the render target, in pixels.
#[derive(Debug, Clone, Copy)]
pub struct Viewport {
    pub x: u32,
    pub y: u32,
    pub width: u32,
    pub height: u32,
}

impl Viewport {
    /// Creates a viewport with the given origin and size.
    pub fn new(x: u32, y: u32, width: u32, height: u32) -> (v: Self)
        ensures
            v.x == x,
            v.y == y,
            v.width == width,
            v.height == height,
    {
        Viewport { x, y, width, height }
    }

    /// A viewport that covers a whole target of the given size.
    pub fn full_screen(width: u32, height: u32) -> (v: Self)
        ensures
            v.x == 0,
            v.y == 0,
            v.width == width,
            v.height == height,
    {
        Viewport { x: 0, y: 0, width, height }
    }
}

/// Level of geometric detail used when rendering.
#[derive(Debug, Clone, Copy)]
pub enum LodLevel {
    /// Full detail, no simplification.
    High,
    /// About half of the triangles.
    Medium,
    /// About a quarter of the triangles.
    Low,
    /// Chosen from the distance to the camera.
    Adaptive,
}

impl Default for LodLevel {
    /// Full detail.
    fn default() -> (l: LodLevel)
        ensures
            l is High,
    {
        LodLevel::High
    }
}

/// Errors of the renderer.
#[derive(Debug)]
pub enum RendererError {
    /// No surface is configured.
    NoSurface,
    /// The renderer is not configured.
    NotConfigured,
    /// The surface reported an error.
    SurfaceError,
    /// No depth texture exists.
    NoDepthTexture,
}

impl RendererError {
    /// The error's message.
    pub fn message(&self) -> (r: &'static str)
        ensures
            r@ == match self {
                RendererError::NoSurface => "No surface configured"@,
                RendererError::NotConfigured => "Renderer not configured"@,
                RendererError::SurfaceError => "Surface error"@,
                RendererError::NoDepthTexture => "No depth texture"@,
            },
    {
        match self {
            RendererError::NoSurface => "No surface configured",
            RendererError::NotConfigured => "Renderer not configured",
            RendererError::SurfaceError => "Surface error",
            RendererError::NoDepthTexture => "No depth texture",
        }
    }
}

/// The MSAA sample count a render configuration uses for a requested
/// count: the request clamped to 1..=8.
pub fn msaa_sample_count(n: u32) -> (r: u32)
    ensures
        r == if n < 1 {
            1
        } else if n > 8 {
            8
        } else {
            n
        },
{
    if n < 1 {
        1
    } else if n > 8 {
        8
    } else {
        n
    }
}

} // verus!
