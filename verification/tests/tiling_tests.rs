use image_enhancer::models::process_scunet;
use image_enhancer::raster::{ColorKind, Image};
use image_enhancer::tensor::{padded_tile, planar_rgb, tile_count_exec, Planar};
use image_enhancer::upscaler::process_realesrgan;

fn image_of(width: u32, height: u32, kind: ColorKind, data: Vec<u8>) -> Image {
    Image::from_raw(width, height, kind, data).expect("buffer of the right length")
}

fn pattern(len: usize) -> Vec<u8> {
    (0..len).map(|i| ((i * 37 + 11) % 251) as u8).collect()
}

const UNDERSIZED: &str = "A saída do modelo é menor que o bloco processado.";

#[test]
fn planar_rgb_splits_channels_into_planes() {
    let img = image_of(2, 1, ColorKind::Rgb, vec![1, 2, 3, 4, 5, 6]);
    let p = planar_rgb(&img);
    assert_eq!((p.channels, p.height, p.width), (3, 1, 2));
    assert_eq!(p.data, vec![1, 4, 2, 5, 3, 6]);
    let rgba = image_of(1, 1, ColorKind::Rgba, vec![1, 2, 3, 4]);
    assert_eq!(planar_rgb(&rgba).data, vec![1, 2, 3]);
}

#[test]
fn padded_tile_pads_with_black() {
    let img = image_of(3, 2, ColorKind::Rgba, (1..=24).collect());
    let p = padded_tile(&img, 1, 1, 4);
    assert_eq!((p.channels, p.height, p.width), (3, 4, 4));
    // red plane: row 0 holds pixels (1, 1) and (2, 1), the rest is black
    assert_eq!(&p.data[0..16], &[17, 21, 0, 0, 0, 0, 0, 0, 0, 0, 0, 0, 0, 0, 0, 0]);
    assert_eq!(&p.data[32..36], &[19, 23, 0, 0]);
}

#[test]
fn tile_count_rounds_up() {
    assert_eq!(tile_count_exec(1000, 512), 2);
    assert_eq!(tile_count_exec(1024, 512), 2);
    assert_eq!(tile_count_exec(1025, 512), 3);
    assert_eq!(tile_count_exec(0, 512), 0);
    assert_eq!(tile_count_exec(1, 256), 1);
}

#[test]
fn law_echo_model_restores_image_scenario() {
    let img = image_of(700, 300, ColorKind::Rgb, pattern(700 * 300 * 3));
    let calls = std::cell::Cell::new(0);
    let out = process_scunet(&img, |p: Planar| {
        calls.set(calls.get() + 1);
        assert_eq!((p.channels, p.height, p.width), (3, 512, 512));
        Ok(p)
    })
    .unwrap();
    assert_eq!(calls.get(), 2);
    assert_eq!(out.kind(), ColorKind::Rgb);
    assert_eq!(out.dimensions(), (700, 300));
    assert_eq!(out.as_raw(), img.as_raw());
}

#[test]
fn scunet_places_each_tile_answer_at_its_tile() {
    let img = image_of(600, 520, ColorKind::Rgb, pattern(600 * 520 * 3));
    let out = process_scunet(&img, |p: Planar| {
        let data = p.data.iter().map(|v| 255 - v).collect();
        Ok(Planar { data, ..p })
    })
    .unwrap();
    let expected: Vec<u8> = img.as_raw().iter().map(|v| 255 - v).collect();
    assert_eq!(out.as_raw(), &expected);
}

#[test]
fn scunet_drops_alpha_of_rgba_input() {
    let img = image_of(3, 2, ColorKind::Rgba, (1..=24).collect());
    let out = process_scunet(&img, |p: Planar| Ok(p)).unwrap();
    assert_eq!(out.as_raw(), &vec![1, 2, 3, 5, 6, 7, 9, 10, 11, 13, 14, 15, 17, 18, 19, 21, 22, 23]);
}

#[test]
fn scunet_converts_grey_input_as_image_does() {
    let raw = pattern(5 * 4);
    let img = image_of(5, 4, ColorKind::Luma, raw.clone());
    let out = process_scunet(&img, |p: Planar| Ok(p)).unwrap();
    let expected = image::DynamicImage::ImageLuma8(image::GrayImage::from_raw(5, 4, raw).unwrap()).to_rgb8();
    assert_eq!(out.as_raw(), expected.as_raw());
}

#[test]
fn scunet_passes_on_model_errors() {
    let img = image_of(4, 4, ColorKind::Rgb, pattern(48));
    let res = process_scunet(&img, |_p: Planar| Err("Falha predição SCUNet: boom".to_string()));
    assert_eq!(res.unwrap_err(), "Falha predição SCUNet: boom");
}

#[test]
fn scunet_refuses_undersized_answers() {
    let img = image_of(4, 4, ColorKind::Rgb, pattern(48));
    let res = process_scunet(&img, |_p: Planar| Ok(Planar { channels: 3, height: 2, width: 2, data: vec![0; 12] }));
    assert_eq!(res.unwrap_err(), UNDERSIZED);
    let res = process_scunet(&img, |_p: Planar| Ok(Planar { channels: 3, height: 512, width: 512, data: vec![0; 5] }));
    assert_eq!(res.unwrap_err(), UNDERSIZED);
}

#[test]
fn scunet_on_empty_image() {
    let img = Image::new(0, 7, ColorKind::Rgb);
    let out = process_scunet(&img, |_p: Planar| -> Result<Planar, String> { panic!("no tile to run") }).unwrap();
    assert_eq!(out.dimensions(), (0, 7));
}

fn nearest_x4(p: Planar) -> Result<Planar, String> {
    let (h, w) = (p.height * 4, p.width * 4);
    let mut data = vec![0u8; 3 * h * w];
    for c in 0..3 {
        for y in 0..h {
            for x in 0..w {
                data[(c * h + y) * w + x] = p.data[(c * p.height + y / 4) * p.width + x / 4];
            }
        }
    }
    Ok(Planar { channels: 3, height: h, width: w, data })
}

#[test]
fn law_nearest_model_enlarges_image_scenario() {
    let img = image_of(5, 3, ColorKind::Rgba, pattern(5 * 3 * 4));
    let out = process_realesrgan(&img, nearest_x4).unwrap();
    assert_eq!(out.kind(), ColorKind::Rgba);
    assert_eq!(out.dimensions(), (20, 12));
    for y in 0..12 {
        for x in 0..20 {
            assert_eq!(out.get_pixel(x, y), img.get_pixel(x / 4, y / 4));
        }
    }
}

#[test]
fn realesrgan_keeps_source_alpha_across_tiles() {
    let img = image_of(300, 2, ColorKind::Rgba, pattern(300 * 2 * 4));
    let calls = std::cell::Cell::new(0);
    let out = process_realesrgan(&img, |p: Planar| {
        calls.set(calls.get() + 1);
        assert_eq!((p.channels, p.height, p.width), (3, 256, 256));
        Ok(Planar { channels: 3, height: 1024, width: 1024, data: vec![7; 3 * 1024 * 1024] })
    })
    .unwrap();
    assert_eq!(calls.get(), 2);
    assert_eq!(out.dimensions(), (1200, 8));
    for (x, y) in [(0, 0), (1199, 7), (1023, 3), (1024, 4), (517, 1)] {
        let p = out.get_pixel(x, y);
        assert_eq!(p, [7, 7, 7, img.get_pixel(x / 4, y / 4)[3]]);
    }
}

#[test]
fn realesrgan_makes_rgb_input_opaque() {
    let img = image_of(2, 2, ColorKind::Rgb, pattern(12));
    let out = process_realesrgan(&img, nearest_x4).unwrap();
    for (x, y) in [(0, 0), (7, 7), (3, 5)] {
        let src = img.get_pixel(x / 4, y / 4);
        assert_eq!(out.get_pixel(x, y), [src[0], src[1], src[2], 255]);
    }
}

#[test]
fn realesrgan_passes_on_errors_and_refuses_undersized_answers() {
    let img = image_of(3, 3, ColorKind::Rgba, pattern(36));
    let res = process_realesrgan(&img, |_p: Planar| Err("Falha na predição Real-ESRGAN: x".to_string()));
    assert_eq!(res.unwrap_err(), "Falha na predição Real-ESRGAN: x");
    // the enlarged tile is 12 by 12; an 11 by 12 answer is too small
    let res = process_realesrgan(&img, |_p: Planar| Ok(Planar { channels: 3, height: 12, width: 11, data: vec![0; 3 * 12 * 11] }));
    assert_eq!(res.unwrap_err(), UNDERSIZED);
    let res = process_realesrgan(&img, |_p: Planar| Ok(Planar { channels: 3, height: 12, width: 12, data: vec![0; 3 * 12 * 12] }));
    assert!(res.is_ok());
}

#[test]
fn law_conversion_keeps_colour_scenario() {
    let rgba = image_of(2, 1, ColorKind::Rgba, vec![1, 2, 3, 4, 5, 6, 7, 8]);
    let out = process_scunet(&rgba, |p: Planar| Ok(p)).unwrap();
    assert_eq!(out.as_raw(), &vec![1, 2, 3, 5, 6, 7]);
    let rgb = image_of(1, 1, ColorKind::Rgb, vec![9, 8, 7]);
    let big = process_realesrgan(&rgb, nearest_x4).unwrap();
    assert_eq!(big.get_pixel(3, 3), [9, 8, 7, 255]);
}

#[test]
fn scunet_runs_tiles_row_by_row_and_stops_at_the_first_failure() {
    // 3 tiles across, 2 down; the red sample at (0, 0) of each tile names it
    let img = Image::from_fn(1100, 600, ColorKind::Rgb, |x, y, k| if k == 0 { (x / 512 + 10 * (y / 512)) as u8 } else { 0 });
    let seen = std::cell::RefCell::new(Vec::new());
    let res = process_scunet(&img, |p: Planar| {
        seen.borrow_mut().push(p.data[0]);
        if seen.borrow().len() == 5 {
            Err(format!("tile {}", p.data[0]))
        } else {
            Ok(p)
        }
    });
    assert_eq!(res.unwrap_err(), "tile 11");
    assert_eq!(*seen.borrow(), vec![0, 1, 2, 10, 11]);
}

#[test]
fn scunet_accepts_answers_that_cover_their_tile_only() {
    // a 3 by 2 image is one tile; an answer of 3 by 2 planes is enough
    let img = image_of(3, 2, ColorKind::Rgb, pattern(18));
    let out = process_scunet(&img, |p: Planar| {
        let mut data = Vec::new();
        for c in 0..3 {
            for y in 0..2 {
                for x in 0..3 {
                    data.push(p.data[(c * 512 + y) * 512 + x]);
                }
            }
        }
        Ok(Planar { channels: 3, height: 2, width: 3, data })
    })
    .unwrap();
    assert_eq!(out.as_raw(), img.as_raw());
}

#[test]
fn scunet_refuses_a_later_undersized_tile_without_running_more() {
    let img = image_of(1030, 4, ColorKind::Rgb, pattern(1030 * 4 * 3));
    let calls = std::cell::Cell::new(0);
    let res = process_scunet(&img, |p: Planar| {
        calls.set(calls.get() + 1);
        if calls.get() == 2 {
            Ok(Planar { channels: 3, height: 4, width: 511, data: vec![0; 3 * 4 * 511] })
        } else {
            Ok(p)
        }
    });
    assert_eq!(res.unwrap_err(), UNDERSIZED);
    assert_eq!(calls.get(), 2);
}

#[test]
fn law_tiles_are_independent_scenario() {
    let a = image_of(600, 3, ColorKind::Rgb, pattern(600 * 3 * 3));
    let mut raw = a.as_raw().clone();
    // change only pixels of the second tile (x >= 512)
    for y in 0..3 {
        for x in 512..600 {
            raw[(y * 600 + x) * 3] ^= 0xff;
        }
    }
    let b = image_of(600, 3, ColorKind::Rgb, raw);
    let model = |p: Planar| -> Result<Planar, String> {
        let data = p.data.iter().map(|v| v / 2 + 3).collect();
        Ok(Planar { data, ..p })
    };
    let out_a = process_scunet(&a, model).unwrap();
    let out_b = process_scunet(&b, model).unwrap();
    for y in 0..3 {
        for x in 0..512 {
            assert_eq!(out_a.get_pixel(x, y), out_b.get_pixel(x, y));
        }
    }
    assert_ne!(out_a.get_pixel(512, 0), out_b.get_pixel(512, 0));
}

#[test]
fn realesrgan_runs_no_tile_of_an_empty_image_and_stops_at_the_first_failure() {
    let empty = Image::new(5, 0, ColorKind::Rgba);
    let out = process_realesrgan(&empty, |_p: Planar| -> Result<Planar, String> { panic!("no tile to run") }).unwrap();
    assert_eq!(out.dimensions(), (20, 0));
    let img = image_of(600, 2, ColorKind::Rgba, pattern(600 * 2 * 4));
    let calls = std::cell::Cell::new(0);
    let res = process_realesrgan(&img, |p: Planar| {
        calls.set(calls.get() + 1);
        if calls.get() == 2 { Err("Falha na predição Real-ESRGAN: 2".to_string()) } else { nearest_x4(p) }
    });
    assert_eq!(res.unwrap_err(), "Falha na predição Real-ESRGAN: 2");
    assert_eq!(calls.get(), 2);
}

#[test]
fn law_conversion_keeps_grey_scenario() {
    let grey = image_of(2, 1, ColorKind::Luma, vec![0, 200]);
    let out = process_scunet(&grey, |p: Planar| Ok(p)).unwrap();
    assert_eq!(out.as_raw(), &vec![0, 0, 0, 200, 200, 200]);
    let big = process_realesrgan(&grey, nearest_x4).unwrap();
    assert_eq!(big.get_pixel(5, 2), [200, 200, 200, 255]);
}

#[test]
fn scunet_on_an_empty_image_of_the_largest_height() {
    let img = Image::new(0, u32::MAX, ColorKind::Rgb);
    let out = process_scunet(&img, |_p: Planar| -> Result<Planar, String> { panic!("no tile to run") }).unwrap();
    assert_eq!(out.dimensions(), (0, u32::MAX));
}
