//! Tests of the texture atlas allocator.

use bvh::texture::FilterMode;
use bvh::texture::Image;
use bvh::texture::PixelFormat;
use bvh::texture::colour_rgba;
use bvh::texture::Sampler;
use bvh::texture::TextureAtlas;
use bvh::texture::WrapMode;
use bvh::texture::next_pow2;

#[test]
fn next_pow2_values() {
    assert_eq!(next_pow2(0), 1);
    assert_eq!(next_pow2(1), 1);
    assert_eq!(next_pow2(2), 2);
    assert_eq!(next_pow2(3), 4);
    assert_eq!(next_pow2(5), 8);
    assert_eq!(next_pow2(16), 16);
    assert_eq!(next_pow2(17), 32);
    assert_eq!(next_pow2(16384), 16384);
}

#[test]
fn fresh_atlas_is_empty() {
    let atlas = TextureAtlas::new(64, 64, 16, 16);
    assert_eq!(atlas.cell_width, 16);
    assert_eq!(atlas.cell_height, 16);
    assert_eq!(atlas.texture.image.width, 64);
    assert_eq!(atlas.texture.image.height, 64);
    assert_eq!(atlas.texture.image.depth, 4);
    assert_eq!(atlas.texture.gl_id, 0);
    assert_eq!(atlas.grid.len(), 16);
    assert!(atlas.grid.iter().all(|&c| c == 0));
}

#[test]
fn first_fit_allocates_row_major() {
    let mut atlas = TextureAtlas::new(64, 64, 16, 16);
    let a = atlas.allocate_texture(16, 16).expect("fits");
    assert_eq!((a.x, a.y, a.w, a.h), (0, 0, 16, 16));
    let b = atlas.allocate_texture(16, 16).expect("fits");
    assert_eq!((b.x, b.y), (16, 0));
    // A 32x32 request needs a 2x2 cell block; the first free one starts
    // at cell (2,0).
    let c = atlas.allocate_texture(32, 32).expect("fits");
    assert_eq!((c.x, c.y, c.w, c.h), (32, 0, 32, 32));
}

#[test]
fn requested_size_rounds_up_to_pow2() {
    let mut atlas = TextureAtlas::new(64, 64, 16, 16);
    // 17 rounds up to 32: a 2x2 cell block.
    let a = atlas.allocate_texture(17, 17).expect("fits");
    assert_eq!((a.x, a.y, a.w, a.h), (0, 0, 17, 17));
    // The next 2x2 block starts at cell (2,0).
    let b = atlas.allocate_texture(17, 17).expect("fits");
    assert_eq!((b.x, b.y), (32, 0));
}

#[test]
fn exhausted_atlas_returns_none() {
    let mut atlas = TextureAtlas::new(64, 64, 16, 16);
    // A full-size allocation claims the whole grid.
    let a = atlas.allocate_texture(64, 64).expect("fits");
    assert_eq!((a.x, a.y), (0, 0));
    assert!(atlas.allocate_texture(16, 16).is_none());
}

#[test]
fn oversized_request_returns_none() {
    let mut atlas = TextureAtlas::new(64, 64, 16, 16);
    assert!(atlas.allocate_texture(128, 16).is_none());
    assert!(atlas.allocate_texture(16, 128).is_none());
    // The atlas is untouched: a fitting request still succeeds at the
    // origin.
    let a = atlas.allocate_texture(16, 16).expect("fits");
    assert_eq!((a.x, a.y), (0, 0));
}

#[test]
fn sampler_holds_its_configuration() {
    let s = Sampler {
        filter_mode_mag: FilterMode::Linear,
        filter_mode_min: FilterMode::Point,
        filter_mode_mipmap: FilterMode::Point,
        wrap_mode_s: WrapMode::Repeat,
        wrap_mode_t: WrapMode::Clamp,
        mipmap_enabled: true,
    };
    assert!(s.mipmap_enabled);
    assert!(s.filter_mode_mag == FilterMode::Linear);
    assert!(matches!(s.wrap_mode_t, WrapMode::Clamp));
}

#[test]
fn pixel_packing_is_exact() {
    assert_eq!(colour_rgba(0xAA, 0xBB, 0xCC, 0xDD), 0xAABBCCDD);
    // Four-channel input [r,g,b,a] packs to 0xAARRGGBB.
    let bytes = vec![1u8, 2, 3, 4, 5, 6, 7, 8];
    let img = Image::from_bytes(2, 1, 4, &bytes);
    assert_eq!(img.depth, 4);
    assert_eq!(img.data, vec![0x04010203u32, 0x08050607]);
    // Three-channel input gets an opaque alpha; a trailing byte that does
    // not fill a pixel is ignored.
    let bytes3 = vec![1u8, 2, 3, 4, 5, 6, 7];
    let img3 = Image::from_bytes(2, 1, 3, &bytes3);
    assert_eq!(img3.data, vec![0xFF010203u32, 0xFF040506]);
    assert_eq!((img3.width, img3.height), (2, 1));
}

#[test]
fn gltf_swizzle_per_format() {
    // Single-channel: red in the low byte, everything else opaque.
    let img = Image::load_image_from_gltf(PixelFormat::R8, 2, 1, &vec![0x11u8, 0x22]);
    assert_eq!(img.depth, 4);
    assert_eq!(img.data, vec![0xFFFFFF11u32, 0xFFFFFF22]);
    // Four 8-bit channels land red-to-alpha in the low-to-high bytes.
    let img = Image::load_image_from_gltf(
        PixelFormat::R8G8B8A8,
        1,
        1,
        &vec![0x10u8, 0x20, 0x30, 0x40],
    );
    assert_eq!(img.data, vec![0x40302010u32]);
    // 16-bit channels keep their second byte.
    let img = Image::load_image_from_gltf(
        PixelFormat::R16G16,
        1,
        1,
        &vec![0x01u8, 0xAB, 0x02, 0xCD],
    );
    assert_eq!(img.data, vec![0xFFFFCDABu32]);
    let img = Image::load_image_from_gltf(
        PixelFormat::R16G16B16A16,
        1,
        1,
        &vec![0u8, 0x11, 0, 0x22, 0, 0x33, 0, 0x44],
    );
    assert_eq!(img.data, vec![0x44332211u32]);
}
