use image_enhancer::blending::stitch_face_seamless;
use image_enhancer::raster::{ColorKind, Image};
use image_enhancer::segmentation::BoundingBox;

fn image_of(width: u32, height: u32, kind: ColorKind, data: Vec<u8>) -> Image {
    Image::from_raw(width, height, kind, data).expect("buffer of the right length")
}

fn bbox(x: u32, y: u32, width: u32, height: u32) -> BoundingBox {
    BoundingBox { x, y, width, height, class: "face".to_string() }
}

/// The blending formula of the pipeline: new * alpha + old * (1 - alpha).
fn alpha_blend(new: u8, old: u8, mask: u8) -> u8 {
    let alpha = mask as f32 / 255.0;
    (new as f32 * alpha + old as f32 * (1.0 - alpha)) as u8
}

fn pick(new: u8, old: u8, mask: u8) -> u8 {
    if mask >= 128 { new } else { old }
}

const CROP_MISMATCH: &str = "O recorte processado possui dimensões diferentes da BoundingBox original.";
const MASK_MISMATCH: &str = "A máscara de mesclagem é incompatível com o tamanho do recorte.";

#[test]
fn stitch_blends_inside_the_box_only() {
    let base = image_of(3, 3, ColorKind::Rgba, vec![10; 36]);
    let crop = image_of(2, 2, ColorKind::Rgb, vec![200; 12]);
    let mask = image_of(2, 2, ColorKind::Luma, vec![255, 0, 255, 0]);
    let out = stitch_face_seamless(base, &crop, &mask, &bbox(1, 1, 2, 2), pick).unwrap();
    let mut expected = vec![10u8; 36];
    for (x, y) in [(1usize, 1usize), (1, 2)] {
        let i = (y * 3 + x) * 4;
        expected[i..i + 3].copy_from_slice(&[200, 200, 200]);
    }
    assert_eq!(out.as_raw(), &expected);
}

#[test]
fn stitch_with_the_alpha_blend_formula() {
    let base = image_of(1, 1, ColorKind::Rgba, vec![100, 0, 255, 77]);
    let crop = image_of(1, 1, ColorKind::Rgba, vec![200, 255, 0, 1]);
    let mask = image_of(1, 1, ColorKind::Luma, vec![255]);
    let out = stitch_face_seamless(base, &crop, &mask, &bbox(0, 0, 1, 1), alpha_blend).unwrap();
    assert_eq!(out.get_pixel(0, 0), [200, 255, 0, 77]);
    let base = image_of(1, 1, ColorKind::Rgba, vec![100, 0, 255, 77]);
    let mask = image_of(1, 1, ColorKind::Luma, vec![0]);
    let out = stitch_face_seamless(base, &crop, &mask, &bbox(0, 0, 1, 1), alpha_blend).unwrap();
    assert_eq!(out.get_pixel(0, 0), [100, 0, 255, 77]);
}

#[test]
fn law_stitch_keeps_alpha_scenario() {
    let base = image_of(2, 2, ColorKind::Rgba, vec![1, 2, 3, 40, 5, 6, 7, 80, 9, 10, 11, 120, 13, 14, 15, 160]);
    let crop = image_of(2, 2, ColorKind::Rgba, vec![255; 16]);
    let mask = image_of(2, 2, ColorKind::Luma, vec![255; 4]);
    let out = stitch_face_seamless(base, &crop, &mask, &bbox(0, 0, 2, 2), alpha_blend).unwrap();
    let alphas: Vec<u8> = out.as_raw().chunks(4).map(|p| p[3]).collect();
    assert_eq!(alphas, vec![40, 80, 120, 160]);
    assert!(out.as_raw().chunks(4).all(|p| p[0..3] == [255, 255, 255]));
}

#[test]
fn stitch_skips_box_pixels_past_the_edge() {
    let base = image_of(4, 4, ColorKind::Rgb, vec![0; 48]);
    let crop = image_of(2, 2, ColorKind::Rgb, vec![9; 12]);
    let mask = image_of(2, 2, ColorKind::Luma, vec![255; 4]);
    let out = stitch_face_seamless(base, &crop, &mask, &bbox(3, 3, 2, 2), pick).unwrap();
    let mut expected = vec![0u8; 48];
    expected[45..48].copy_from_slice(&[9, 9, 9]);
    assert_eq!(out.as_raw(), &expected);
}

#[test]
fn law_stitch_outside_keeps_base_scenario() {
    let base = image_of(2, 2, ColorKind::Rgb, (0..12).collect());
    let crop = image_of(1, 1, ColorKind::Rgb, vec![99; 3]);
    let mask = image_of(1, 1, ColorKind::Luma, vec![255]);
    let out = stitch_face_seamless(base, &crop, &mask, &bbox(5, 0, 1, 1), pick).unwrap();
    assert_eq!(out.as_raw(), &(0..12).collect::<Vec<u8>>());
}

#[test]
fn stitch_into_grey_stores_luminance() {
    let base = image_of(1, 1, ColorKind::Luma, vec![0]);
    let crop = image_of(1, 1, ColorKind::Rgb, vec![10, 20, 30]);
    let mask = image_of(1, 1, ColorKind::Luma, vec![255]);
    let out = stitch_face_seamless(base, &crop, &mask, &bbox(0, 0, 1, 1), pick).unwrap();
    assert_eq!(out.as_raw(), &vec![18]);
}

#[test]
fn stitch_reads_grey_crop_and_colour_mask_as_image_does() {
    let base = image_of(2, 1, ColorKind::Rgb, vec![0; 6]);
    let crop = image_of(2, 1, ColorKind::Luma, vec![50, 60]);
    // green reads as light grey (taken), red as dark grey (kept)
    let mask = image_of(2, 1, ColorKind::Rgb, vec![0, 255, 0, 255, 0, 0]);
    let out = stitch_face_seamless(base, &crop, &mask, &bbox(0, 0, 2, 1), pick).unwrap();
    let crop_rgba = image::DynamicImage::ImageLuma8(image::GrayImage::from_raw(2, 1, vec![50, 60]).unwrap()).to_rgba8();
    let first = crop_rgba.get_pixel(0, 0);
    assert_eq!(out.as_raw(), &vec![first[0], first[1], first[2], 0, 0, 0]);
}

#[test]
fn stitch_refuses_a_crop_of_another_size() {
    let base = image_of(3, 3, ColorKind::Rgba, vec![0; 36]);
    let crop = image_of(2, 1, ColorKind::Rgba, vec![0; 8]);
    let mask = image_of(2, 2, ColorKind::Luma, vec![0; 4]);
    let res = stitch_face_seamless(base, &crop, &mask, &bbox(0, 0, 2, 2), pick);
    assert_eq!(res.unwrap_err(), CROP_MISMATCH);
}

#[test]
fn stitch_refuses_a_mask_of_another_size() {
    let base = image_of(3, 3, ColorKind::Rgba, vec![0; 36]);
    let crop = image_of(2, 2, ColorKind::Rgba, vec![0; 16]);
    let mask = image_of(1, 2, ColorKind::Luma, vec![0; 2]);
    let res = stitch_face_seamless(base, &crop, &mask, &bbox(0, 0, 2, 2), pick);
    assert_eq!(res.unwrap_err(), MASK_MISMATCH);
}

#[test]
fn law_white_mask_takes_crop_scenario() {
    let base = image_of(3, 2, ColorKind::Rgba, (0..24).collect());
    let crop = image_of(2, 2, ColorKind::Rgb, vec![200, 201, 202, 203, 204, 205, 206, 207, 208, 209, 210, 211]);
    let mask = image_of(2, 2, ColorKind::Luma, vec![255; 4]);
    let out = stitch_face_seamless(base, &crop, &mask, &bbox(1, 0, 2, 2), alpha_blend).unwrap();
    assert_eq!(out.get_pixel(1, 0), [200, 201, 202, 7]);
    assert_eq!(out.get_pixel(2, 1), [209, 210, 211, 23]);
    assert_eq!(out.get_pixel(0, 1), [12, 13, 14, 15]);
}

#[test]
fn law_black_mask_keeps_base_scenario() {
    let raw: Vec<u8> = (0..16).map(|v| v * 13).collect();
    let base = image_of(4, 4, ColorKind::Luma, raw.clone());
    let crop = image_of(3, 3, ColorKind::Rgba, vec![250; 36]);
    let mask = image_of(3, 3, ColorKind::Luma, vec![0; 9]);
    let out = stitch_face_seamless(base, &crop, &mask, &bbox(1, 1, 3, 3), alpha_blend).unwrap();
    assert_eq!(out.as_raw(), &raw);
}

#[test]
fn law_unprocessed_crop_is_near_no_op_scenario() {
    let raw: Vec<u8> = (0..6 * 5 * 4).map(|i| ((i * 53 + 7) % 256) as u8).collect();
    let base = image_of(6, 5, ColorKind::Rgba, raw.clone());
    let b = bbox(1, 1, 4, 3);
    let crop = image_enhancer::segmentation::crop_to_box(&base, &b).unwrap();
    let mask_raw: Vec<u8> = (0..12).map(|i| (i * 23) as u8).collect();
    let mask = image_of(4, 3, ColorKind::Luma, mask_raw);
    let out = stitch_face_seamless(base, &crop, &mask, &b, alpha_blend).unwrap();
    for (i, (&o, &r)) in out.as_raw().iter().zip(raw.iter()).enumerate() {
        if i % 4 == 3 {
            assert_eq!(o, r);
        } else {
            assert!(r.saturating_sub(1) <= o && o <= r);
        }
    }
}
