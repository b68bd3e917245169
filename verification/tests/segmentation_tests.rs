use image_enhancer::raster::{ColorKind, Image};
use image_enhancer::segmentation::{crop_to_box, detect_faces_and_features, face_box, hard_mask, BoundingBox};
use image_enhancer::tensor::Planar;

fn image_of(width: u32, height: u32, kind: ColorKind, data: Vec<u8>) -> Image {
    Image::from_raw(width, height, kind, data).expect("buffer of the right length")
}

fn pattern(len: usize) -> Vec<u8> {
    (0..len).map(|i| ((i * 37 + 11) % 251) as u8).collect()
}

fn bbox(x: u32, y: u32, width: u32, height: u32) -> BoundingBox {
    BoundingBox { x, y, width, height, class: "face".to_string() }
}

#[test]
fn face_box_is_the_centred_half() {
    let b = face_box(100, 81);
    assert_eq!((b.x, b.y, b.width, b.height), (25, 20, 50, 40));
    assert_eq!(b.class, "face");
}

#[test]
fn detect_hands_the_resized_image_to_the_model_by_row_and_column() {
    let raw = pattern(10 * 8 * 3);
    let img = image_of(10, 8, ColorKind::Rgb, raw.clone());
    let expected = image::DynamicImage::ImageRgb8(image::RgbImage::from_raw(10, 8, raw).unwrap())
        .resize_exact(640, 640, image::imageops::FilterType::Triangle)
        .to_rgb8();
    let boxes = detect_faces_and_features(&img, |p: Planar| {
        assert_eq!((p.channels, p.height, p.width), (3, 640, 640));
        // plane c, row r, column s holds channel c of pixel (s, r)
        for (c, r, s) in [(0usize, 0usize, 0usize), (1, 5, 600), (2, 639, 17), (0, 320, 321)] {
            let pixel = expected.get_pixel(s as u32, r as u32);
            assert_eq!(p.data[(c * 640 + r) * 640 + s], pixel[c]);
        }
        Ok(Planar { channels: 5, height: 1, width: 8400, data: vec![0; 5 * 8400] })
    })
    .unwrap();
    assert_eq!(boxes.len(), 1);
    assert_eq!((boxes[0].x, boxes[0].y, boxes[0].width, boxes[0].height), (2, 2, 5, 4));
    assert_eq!(boxes[0].class, "face");
}

#[test]
fn detect_passes_on_model_errors() {
    let img = image_of(4, 4, ColorKind::Rgba, pattern(64));
    let res = detect_faces_and_features(&img, |_p: Planar| Err("Falha na NPU YOLO: x".to_string()));
    assert_eq!(res.unwrap_err(), "Falha na NPU YOLO: x");
}

#[test]
fn crop_to_box_cuts_a_fitting_box() {
    let img = image_of(4, 3, ColorKind::Luma, (0..12).collect());
    let crop = crop_to_box(&img, &bbox(1, 1, 3, 2)).unwrap();
    assert_eq!(crop.dimensions(), (3, 2));
    assert_eq!(crop.kind(), ColorKind::Luma);
    assert_eq!(crop.as_raw(), &vec![5, 6, 7, 9, 10, 11]);
}

#[test]
fn crop_to_box_refuses_a_box_past_the_edge() {
    let img = image_of(4, 3, ColorKind::Luma, (0..12).collect());
    assert!(crop_to_box(&img, &bbox(2, 0, 3, 1)).is_none());
    assert!(crop_to_box(&img, &bbox(0, 2, 1, 2)).is_none());
    assert!(crop_to_box(&img, &bbox(4, 3, 0, 0)).is_some());
}

#[test]
fn hard_mask_is_white_inside_the_margin() {
    let m = hard_mask(10, 8, 2);
    assert_eq!(m.kind(), ColorKind::Luma);
    assert_eq!(m.dimensions(), (10, 8));
    for y in 0..8 {
        for x in 0..10 {
            let inside = (2..8).contains(&x) && (2..6).contains(&y);
            assert_eq!(m.sample(x, y, 0), if inside { 255 } else { 0 });
        }
    }
}

#[test]
fn hard_mask_with_no_room_inside_is_black() {
    let m = hard_mask(1, 4, 2);
    assert_eq!(m.as_raw(), &vec![0, 0, 0, 0]);
    let m = hard_mask(60, 60, 30);
    assert!(m.as_raw().iter().all(|v| *v == 0));
}
