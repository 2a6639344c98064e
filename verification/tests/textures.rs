use nodegraph::scene::Node;
use nodegraph::scene::Viewport;
use nodegraph::texture::AlphaMode;
use nodegraph::texture::Filter;
use nodegraph::texture::Format;
use nodegraph::texture::Sampler;
use nodegraph::texture::TextureDescription;
use nodegraph::texture::TextureError;
use nodegraph::texture::WorldTexture;
use nodegraph::texture::WrappingMode;

fn describe(width: u32, height: u32, pixels: Vec<u8>, format: Format) -> TextureDescription {
    TextureDescription {
        width,
        height,
        pixels,
        format,
    }
}

#[test]
fn bytes_per_pixel_of_each_format() {
    let table = [
        (Format::R8, 1),
        (Format::R8G8, 2),
        (Format::R8G8B8, 3),
        (Format::B8G8R8, 3),
        (Format::R8G8B8A8, 4),
        (Format::B8G8R8A8, 4),
        (Format::R16, 2),
        (Format::R16F, 2),
        (Format::R16G16, 4),
        (Format::R16G16F, 4),
        (Format::R16G16B16, 6),
        (Format::R16G16B16F, 6),
        (Format::R16G16B16A16, 8),
        (Format::R16G16B16A16F, 8),
        (Format::R32, 4),
        (Format::R32F, 4),
        (Format::R32G32, 8),
        (Format::R32G32F, 8),
        (Format::R32G32B32, 12),
        (Format::R32G32B32F, 12),
        (Format::R32G32B32A32, 16),
        (Format::R32G32B32A32F, 16),
    ];
    for (format, bytes) in table {
        assert_eq!(describe(1, 1, vec![], format).bytes_per_pixel(), bytes);
    }
}

#[test]
fn bytes_per_row_is_pixel_size_times_width() {
    assert_eq!(describe(65, 2, vec![], Format::R8G8B8A8).bytes_per_row(), 260);
    assert_eq!(describe(0, 2, vec![], Format::R32G32B32A32F).bytes_per_row(), 0);
    assert_eq!(describe(7, 1, vec![], Format::R16G16B16).bytes_per_row(), 42);
}

#[test]
fn padded_rows_are_multiples_of_the_alignment() {
    assert_eq!(
        describe(65, 2, vec![], Format::R8G8B8A8).padded_bytes_per_row(256),
        512
    );
    assert_eq!(
        describe(64, 2, vec![], Format::R8G8B8A8).padded_bytes_per_row(256),
        256
    );
    assert_eq!(
        describe(1, 1, vec![], Format::R8).padded_bytes_per_row(256),
        256
    );
    assert_eq!(
        describe(0, 1, vec![], Format::R8).padded_bytes_per_row(256),
        0
    );
    assert_eq!(
        describe(7, 1, vec![], Format::R16G16B16).padded_bytes_per_row(1),
        42
    );
    assert_eq!(
        describe(7, 1, vec![], Format::R16G16B16).padded_bytes_per_row(5),
        45
    );
}

#[test]
fn rgb_pixels_get_an_alpha_byte() {
    let mut texture = describe(2, 1, vec![1, 2, 3, 4, 5, 6], Format::R8G8B8);
    assert!(texture.convert_24bit_format().is_ok());
    assert_eq!(texture.format, Format::R8G8B8A8);
    assert_eq!(texture.pixels, vec![1, 2, 3, 255, 4, 5, 6, 255]);
    assert_eq!((texture.width, texture.height), (2, 1));

    let mut texture = describe(1, 2, vec![9, 8, 7, 6, 5, 4, 3], Format::B8G8R8);
    assert!(texture.convert_24bit_format().is_ok());
    assert_eq!(texture.format, Format::B8G8R8A8);
    assert_eq!(texture.pixels, vec![9, 8, 7, 255, 6, 5, 4, 255]);

    let mut texture = describe(0, 5, vec![1, 2], Format::R8G8B8);
    assert!(texture.convert_24bit_format().is_ok());
    assert_eq!(texture.pixels, Vec::<u8>::new());
}

#[test]
fn other_formats_are_left_alone() {
    let mut texture = describe(2, 1, vec![1, 2, 3, 4, 5, 6, 7, 8], Format::R8G8B8A8);
    assert!(texture.convert_24bit_format().is_ok());
    assert_eq!(texture.format, Format::R8G8B8A8);
    assert_eq!(texture.pixels, vec![1, 2, 3, 4, 5, 6, 7, 8]);

    let mut texture = describe(100, 100, vec![], Format::R16G16B16);
    assert!(texture.convert_24bit_format().is_ok());
    assert_eq!(texture.format, Format::R16G16B16);
}

#[test]
fn short_pixel_data_is_refused() {
    let mut texture = describe(2, 1, vec![1, 2, 3, 4, 5], Format::R8G8B8);
    assert!(matches!(
        texture.convert_24bit_format(),
        Err(TextureError::RawPixels)
    ));
    assert_eq!(texture.format, Format::R8G8B8A8);
    assert_eq!(texture.pixels, vec![1, 2, 3, 4, 5]);

    let mut texture = describe(u32::MAX, u32::MAX, vec![0; 12], Format::R8G8B8A8);
    assert!(matches!(
        texture.attach_alpha_channel(),
        Err(TextureError::RawPixels)
    ));
    assert_eq!(
        TextureError::RawPixels.message(),
        "Failed to load image from raw pixels!"
    );
}

#[test]
fn texture_from_description() {
    let texture = WorldTexture::from_description(
        describe(1, 1, vec![10, 20, 30], Format::R8G8B8),
        None,
    )
    .unwrap();
    assert_eq!(texture.description.pixels, vec![10, 20, 30, 255]);
    assert_eq!(texture.description.format, Format::R8G8B8A8);
    assert_eq!(texture.sampler.name, "");
    assert!(matches!(texture.sampler.min_filter, Filter::Nearest));
    assert!(matches!(texture.sampler.mag_filter, Filter::Nearest));
    assert!(matches!(texture.sampler.wrap_s, WrappingMode::Repeat));
    assert!(matches!(texture.sampler.wrap_t, WrappingMode::Repeat));

    let sampler = Sampler {
        name: "soft".to_string(),
        min_filter: Filter::Linear,
        mag_filter: Filter::Nearest,
        wrap_s: WrappingMode::ClampToEdge,
        wrap_t: WrappingMode::MirroredRepeat,
    };
    let texture = WorldTexture::from_description(
        describe(1, 1, vec![1, 2, 3, 4], Format::B8G8R8A8),
        Some(sampler),
    )
    .unwrap();
    assert_eq!(texture.description.pixels, vec![1, 2, 3, 4]);
    assert_eq!(texture.sampler.name, "soft");
    assert!(matches!(texture.sampler.min_filter, Filter::Linear));
    assert!(matches!(texture.sampler.wrap_s, WrappingMode::ClampToEdge));
    assert!(matches!(texture.sampler.wrap_t, WrappingMode::MirroredRepeat));

    assert!(matches!(
        WorldTexture::from_description(describe(2, 2, vec![0; 11], Format::R8G8B8), None),
        Err(TextureError::RawPixels)
    ));
}

#[test]
fn defaults() {
    assert_eq!(Format::default(), Format::R8G8B8A8);
    assert_eq!(AlphaMode::default(), AlphaMode::Opaque);
    assert!(matches!(Filter::default(), Filter::Nearest));
    assert!(matches!(WrappingMode::default(), WrappingMode::Repeat));
    let texture = TextureDescription::default();
    assert_eq!((texture.width, texture.height), (0, 0));
    assert!(texture.pixels.is_empty());
    assert_eq!(texture.format, Format::R8G8B8A8);
    let viewport = Viewport::default();
    assert_eq!(
        (viewport.x, viewport.y, viewport.width, viewport.height),
        (0, 0, 0, 0)
    );
    assert_eq!(Node::Rectangle.label(), "Rectangle");
}
