use cadagent::gpu::renderer::msaa_sample_count;
use cadagent::gpu::renderer::{LodLevel, RendererError, Viewport};

#[test]
fn test_lod_level_default() {
    let lod = LodLevel::default();
    assert!(matches!(lod, LodLevel::High));
}

#[test]
fn viewport_new_keeps_fields() {
    let v = Viewport::new(1, 2, 640, 480);
    assert_eq!((v.x, v.y, v.width, v.height), (1, 2, 640, 480));
    let f = Viewport::full_screen(1920, 1080);
    assert_eq!((f.x, f.y, f.width, f.height), (0, 0, 1920, 1080));
}

#[test]
fn renderer_error_messages() {
    assert_eq!(RendererError::NoSurface.message(), "No surface configured");
    assert_eq!(RendererError::NotConfigured.message(), "Renderer not configured");
    assert_eq!(RendererError::SurfaceError.message(), "Surface error");
    assert_eq!(RendererError::NoDepthTexture.message(), "No depth texture");
}

#[test]
fn msaa_sample_counts_are_clamped() {
    assert_eq!(msaa_sample_count(0), 1);
    assert_eq!(msaa_sample_count(4), 4);
    assert_eq!(msaa_sample_count(8), 8);
    assert_eq!(msaa_sample_count(32), 8);
}
