use image::{GenericImage, GenericImageView};
use image_enhancer::raster::{ColorKind, Image};

fn image_of(width: u32, height: u32, kind: ColorKind, data: Vec<u8>) -> Image {
    Image::from_raw(width, height, kind, data).expect("buffer of the right length")
}

fn pattern(len: usize) -> Vec<u8> {
    (0..len).map(|i| ((i * 37 + 11) % 251) as u8).collect()
}

fn dynamic_of(img: &Image) -> image::DynamicImage {
    let (w, h) = img.dimensions();
    let raw = img.as_raw().clone();
    match img.kind() {
        ColorKind::Luma => image::DynamicImage::ImageLuma8(image::ImageBuffer::from_raw(w, h, raw).unwrap()),
        ColorKind::Rgb => image::DynamicImage::ImageRgb8(image::ImageBuffer::from_raw(w, h, raw).unwrap()),
        ColorKind::Rgba => image::DynamicImage::ImageRgba8(image::ImageBuffer::from_raw(w, h, raw).unwrap()),
    }
}

#[test]
fn from_raw_accepts_exact_length_only() {
    assert!(Image::from_raw(2, 2, ColorKind::Rgb, vec![0; 12]).is_some());
    assert!(Image::from_raw(2, 2, ColorKind::Rgb, vec![0; 11]).is_none());
    assert!(Image::from_raw(2, 2, ColorKind::Rgb, vec![0; 13]).is_none());
    assert!(Image::from_raw(0, 5, ColorKind::Luma, vec![]).is_some());
    let img = image_of(3, 1, ColorKind::Luma, vec![1, 2, 3]);
    assert_eq!(img.dimensions(), (3, 1));
    assert_eq!(img.into_raw(), vec![1, 2, 3]);
}

#[test]
fn new_image_is_black() {
    let img = Image::new(3, 2, ColorKind::Rgba);
    assert_eq!(img.width(), 3);
    assert_eq!(img.height(), 2);
    assert_eq!(img.kind(), ColorKind::Rgba);
    assert_eq!(img.as_raw(), &vec![0u8; 24]);
}

#[test]
fn from_fn_places_samples_row_major() {
    let img = Image::from_fn(3, 2, ColorKind::Rgb, |x, y, k| (100 * y + 10 * x + k as u32) as u8);
    assert_eq!(
        img.as_raw(),
        &vec![0, 1, 2, 10, 11, 12, 20, 21, 22, 100, 101, 102, 110, 111, 112, 120, 121, 122]
    );
    assert_eq!(img.sample(2, 1, 1), 121);
}

#[test]
fn get_pixel_reads_each_layout_as_rgba() {
    let luma = image_of(2, 1, ColorKind::Luma, vec![7, 9]);
    assert_eq!(luma.get_pixel(1, 0), [9, 9, 9, 255]);
    let rgb = image_of(1, 2, ColorKind::Rgb, vec![1, 2, 3, 4, 5, 6]);
    assert_eq!(rgb.get_pixel(0, 1), [4, 5, 6, 255]);
    let rgba = image_of(1, 1, ColorKind::Rgba, vec![1, 2, 3, 4]);
    assert_eq!(rgba.get_pixel(0, 0), [1, 2, 3, 4]);
}

#[test]
fn put_pixel_stores_each_layout() {
    let mut luma = Image::new(2, 2, ColorKind::Luma);
    luma.put_pixel(1, 0, [10, 20, 30, 40]);
    // (2126 * 10 + 7152 * 20 + 722 * 30) / 10000 = 185960 / 10000 = 18
    assert_eq!(luma.as_raw(), &vec![0, 18, 0, 0]);
    let mut rgb = Image::new(1, 1, ColorKind::Rgb);
    rgb.put_pixel(0, 0, [10, 20, 30, 40]);
    assert_eq!(rgb.as_raw(), &vec![10, 20, 30]);
    let mut rgba = Image::new(2, 1, ColorKind::Rgba);
    rgba.put_pixel(1, 0, [10, 20, 30, 40]);
    assert_eq!(rgba.as_raw(), &vec![0, 0, 0, 0, 10, 20, 30, 40]);
}

#[test]
fn pixel_access_agrees_with_dynamic_image() {
    for kind in [ColorKind::Luma, ColorKind::Rgb, ColorKind::Rgba] {
        let c = match kind {
            ColorKind::Luma => 1,
            ColorKind::Rgb => 3,
            ColorKind::Rgba => 4,
        };
        let mut img = image_of(4, 3, kind, pattern(4 * 3 * c));
        let mut dynamic = dynamic_of(&img);
        for (x, y) in [(0, 0), (3, 2), (1, 1)] {
            assert_eq!(img.get_pixel(x, y), dynamic.get_pixel(x, y).0);
        }
        img.put_pixel(2, 1, [200, 100, 50, 25]);
        dynamic.put_pixel(2, 1, image::Rgba([200, 100, 50, 25]));
        assert_eq!(img.as_raw().as_slice(), dynamic.as_bytes());
    }
}

#[test]
fn law_get_after_put_scenario() {
    let mut rgba = Image::new(2, 2, ColorKind::Rgba);
    rgba.put_pixel(1, 1, [9, 8, 7, 6]);
    assert_eq!(rgba.get_pixel(1, 1), [9, 8, 7, 6]);
    let mut rgb = Image::new(2, 2, ColorKind::Rgb);
    rgb.put_pixel(1, 1, [9, 8, 7, 6]);
    assert_eq!(rgb.get_pixel(1, 1), [9, 8, 7, 255]);
    let mut luma = Image::new(2, 2, ColorKind::Luma);
    luma.put_pixel(0, 1, [100, 100, 100, 0]);
    assert_eq!(luma.get_pixel(0, 1), [100, 100, 100, 255]);
}

#[test]
fn law_put_what_was_read_scenario() {
    let raw = pattern(5 * 4);
    let mut luma = image_of(5, 4, ColorKind::Luma, raw.clone());
    let p = luma.get_pixel(3, 2);
    luma.put_pixel(3, 2, p);
    assert_eq!(luma.as_raw(), &raw);
}

#[test]
fn crop_imm_clamps_to_the_image() {
    let img = image_of(4, 3, ColorKind::Luma, (0..12).collect());
    let crop = img.crop_imm(2, 1, 5, 5);
    assert_eq!(crop.dimensions(), (2, 2));
    assert_eq!(crop.as_raw(), &vec![6, 7, 10, 11]);
    let outside = img.crop_imm(9, 9, 1, 1);
    assert_eq!(outside.dimensions(), (0, 0));
    let inner = img.crop_imm(1, 0, 2, 2);
    assert_eq!(inner.as_raw(), &vec![1, 2, 5, 6]);
}

#[test]
fn crop_imm_agrees_with_dynamic_image() {
    let img = image_of(6, 5, ColorKind::Rgb, pattern(6 * 5 * 3));
    let dynamic = dynamic_of(&img);
    for (x, y, w, h) in [(1, 2, 3, 2), (4, 4, 9, 9), (0, 0, 6, 5), (7, 1, 2, 2)] {
        let ours = img.crop_imm(x, y, w, h);
        let theirs = dynamic.crop_imm(x, y, w, h);
        assert_eq!(ours.dimensions(), theirs.dimensions());
        assert_eq!(ours.as_raw().as_slice(), theirs.as_bytes());
    }
}

#[test]
fn replace_clips_the_top_image() {
    let mut bottom = Image::new(3, 3, ColorKind::Luma);
    let top = image_of(2, 2, ColorKind::Luma, vec![1, 2, 3, 4]);
    bottom.replace(&top, -1, 2);
    assert_eq!(bottom.as_raw(), &vec![0, 0, 0, 0, 0, 0, 2, 0, 0]);
    let mut bottom = Image::new(3, 3, ColorKind::Luma);
    bottom.replace(&top, 1, 1);
    assert_eq!(bottom.as_raw(), &vec![0, 0, 0, 0, 1, 2, 0, 3, 4]);
    let mut bottom = Image::new(3, 3, ColorKind::Luma);
    bottom.replace(&top, 3, 0);
    assert_eq!(bottom.as_raw(), &vec![0; 9]);
}

#[test]
fn replace_agrees_with_imageops() {
    let top = image_of(3, 2, ColorKind::Rgba, pattern(3 * 2 * 4));
    for (x, y) in [(0i64, 0i64), (-2, 1), (3, 3), (4, -1), (-5, 0), (5, 5)] {
        let mut ours = image_of(5, 4, ColorKind::Rgba, vec![9; 5 * 4 * 4]);
        let mut theirs = image::RgbaImage::from_raw(5, 4, vec![9; 5 * 4 * 4]).unwrap();
        let top_buf = image::RgbaImage::from_raw(3, 2, top.as_raw().clone()).unwrap();
        ours.replace(&top, x, y);
        image::imageops::replace(&mut theirs, &top_buf, x, y);
        assert_eq!(ours.as_raw(), theirs.as_raw());
    }
}

#[test]
fn law_crop_then_replace_scenario() {
    let raw = pattern(7 * 5 * 3);
    let mut img = image_of(7, 5, ColorKind::Rgb, raw.clone());
    let crop = img.crop_imm(2, 1, 3, 3);
    img.put_pixel(3, 2, [0, 0, 0, 0]);
    img.replace(&crop, 2, 1);
    assert_eq!(img.as_raw(), &raw);
}
