use album_mosaic::api::{dedup_albums, get_cover_urls, MosaicError, PlaylistEntry, CoverVariant};
use album_mosaic::args::TileArrangement;
use album_mosaic::images::{generate_mosaic, plan_blur, Canvas};

fn png_bytes(w: u32, h: u32, rgb: [u8; 3]) -> Vec<u8> {
    let mut img = image::RgbImage::new(w, h);
    for p in img.pixels_mut() {
        *p = image::Rgb(rgb);
    }
    let mut buf = std::io::Cursor::new(Vec::new());
    img.write_to(&mut buf, image::ImageFormat::Png).unwrap();
    buf.into_inner()
}

fn canvas_px(c: &Canvas, x: u32, y: u32) -> [u8; 3] {
    let base = (3 * (y * c.width + x)) as usize;
    [c.data[base], c.data[base + 1], c.data[base + 2]]
}

#[test]
fn composer_cropping_exact() {
    let covers: Vec<Vec<u8>> = (0..25).map(|_| png_bytes(300, 300, [10, 20, 30])).collect();
    let c = generate_mosaic(&covers, 640).unwrap();
    assert_eq!(c.width, 640);
    assert_eq!(c.height, 640);
    assert_eq!(c.data.len(), 3 * 640 * 640);
}

#[test]
fn composer_cropping_remainder() {
    let covers: Vec<Vec<u8>> = (0..25).map(|_| png_bytes(300, 300, [10, 20, 30])).collect();
    let c = generate_mosaic(&covers, 641).unwrap();
    assert_eq!(c.width, 640);
    assert_eq!(c.height, 640);
}

#[test]
fn composer_places_tiles_in_order() {
    let colors = [[255u8, 0, 0], [0, 255, 0], [0, 0, 255], [255, 255, 0]];
    let covers: Vec<Vec<u8>> = colors.iter().map(|c| png_bytes(300, 300, *c)).collect();
    let c = generate_mosaic(&covers, 64).unwrap();
    // side 2, tile 32: probe the middle of each tile
    assert_eq!(canvas_px(&c, 16, 16), colors[0]);
    assert_eq!(canvas_px(&c, 48, 16), colors[1]);
    assert_eq!(canvas_px(&c, 16, 48), colors[2]);
    assert_eq!(canvas_px(&c, 48, 48), colors[3]);
}

#[test]
fn composer_stretches_to_tile() {
    // a non-square cover still fills its whole square tile
    let covers = vec![png_bytes(300, 40, [9, 90, 200])];
    let c = generate_mosaic(&covers, 32).unwrap();
    assert_eq!(c.width, 32);
    assert_eq!(canvas_px(&c, 0, 0), [9, 90, 200]);
    assert_eq!(canvas_px(&c, 31, 31), [9, 90, 200]);
}

#[test]
fn composer_rejects_undecodable_bytes() {
    let covers = vec![vec![1u8, 2, 3, 4]];
    assert_eq!(generate_mosaic(&covers, 16).err(), Some(MosaicError::CoverDecodeFailed));
}

#[test]
fn composer_empty_catalog() {
    let covers: Vec<Vec<u8>> = Vec::new();
    let c = generate_mosaic(&covers, 640).unwrap();
    assert_eq!(c.width, 0);
    assert_eq!(c.height, 0);
    assert_eq!(c.data.len(), 0);
}

#[test]
fn blur_zero_coefficient_is_identity() {
    assert!(plan_blur(640, 25, 0).is_none());
    assert!(plan_blur(399, 9, 0).is_none());
}

#[test]
fn blur_radius_exact_value() {
    // (640 / 5) * 0.5 * 1.0 = 64 = 640000 / 10000
    let b = plan_blur(640, 25, 1000).unwrap();
    assert_eq!(b.numerator, 640_000);
    assert_eq!(b.denominator, 10_000);
}

#[test]
fn blur_radius_grows_with_coefficient() {
    let b1 = plan_blur(640, 25, 300).unwrap();
    let b2 = plan_blur(640, 25, 600).unwrap();
    assert!(b1.numerator * b2.denominator < b2.numerator * b1.denominator);
}

#[test]
fn end_to_end_first_nine_albums() {
    // ten distinct albums, one 300x300 cover variant each
    let entries: Vec<PlaylistEntry> = (0..10)
        .map(|i| PlaylistEntry {
            album_id: Some(format!("album{i}")),
            cover_variants: vec![CoverVariant {
                url: format!("https://img/{i}"),
                width: Some(300),
                height: Some(300),
            }],
        })
        .collect();
    let albums = dedup_albums(entries);
    assert_eq!(albums.len(), 10);
    let urls = get_cover_urls(albums, 4, TileArrangement::First).unwrap();
    assert_eq!(urls.len(), 9);
    for (i, u) in urls.iter().enumerate() {
        assert_eq!(u, &format!("https://img/{i}"));
    }
    // "fetch" each cover: one distinct color per album
    let covers: Vec<Vec<u8>> = (0..9u8).map(|i| png_bytes(300, 300, [i * 20, 0, 0])).collect();
    let c = generate_mosaic(&covers, 400).unwrap();
    // side 3, tile 133: the canvas is cropped to 399 x 399
    assert_eq!(c.width, 399);
    assert_eq!(c.height, 399);
    // tile row 2, column 1 shows the eighth cover
    assert_eq!(canvas_px(&c, 133 + 66, 266 + 66), [7 * 20, 0, 0]);
    // a zero blur coefficient keeps the canvas as it is
    assert!(plan_blur(c.width, 9, 0).is_none());
}
