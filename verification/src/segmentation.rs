//! Face detection around the YOLOv8 model, cropping to a detected box, and the
//! hard mask that a feathered blending mask is blurred from.
use vstd::prelude::*;

use crate::raster::{channel_count, rgb8_view, triangle_resized_samples, ColorKind, Image, ImageView};
use crate::tensor::{planar_rgb, Planar};

verus! {

/// A rectangle of an image that a detection found, with what was found there
/// (`"face"`, `"body"`, `"tattoo"`, ...).
#[derive(Clone, Debug)]
pub struct BoundingBox {
    pub x: u32,
    pub y: u32,
    pub width: u32,
    pub height: u32,
    pub class: String,
}

/// Side of the square input that YOLOv8 takes.
pub const YOLO_SIZE: u32 = 640;

/// The box reported for an image of `width` by `height`: the centred rectangle
/// of half its width and height, classed as a face.
pub open spec fn face_box_spec(width: u32, height: u32, b: BoundingBox) -> bool {
    &&& b.x == width / 4
    &&& b.y == height / 4
    &&& b.width == width / 2
    &&& b.height == height / 2
    &&& b.class@ == "face"@
}

/// The box reported for an image of `width` by `height`: the centred rectangle
/// of half its width and height, classed as a face.
pub fn face_box(width: u32, height: u32) -> (b: BoundingBox)
    ensures
        face_box_spec(width, height, b),
{
    BoundingBox {
        x: width / 4,
        y: height / 4,
        width: width / 2,
        height: height / 2,
        class: String::from_str("face"),
    }
}

/// The detector's input: `img` resized to 640 by 640 with the triangle filter,
/// converted to RGB, as planes indexed by channel, row and column.
pub open spec fn detector_input(img: ImageView, p: Planar) -> bool {
    let resized = ImageView {
        width: 640,
        height: 640,
        kind: img.kind,
        data: triangle_resized_samples(img.width, img.height, img.kind, img.data, 640, 640),
    };
    let rgb = rgb8_view(resized);
    &&& p.well_formed()
    &&& p.channels == 3
    &&& p.height == 640
    &&& p.width == 640
    &&& forall|c: int, r: int, s: int|
        0 <= c < 3 && 0 <= r < 640 && 0 <= s < 640 ==> #[trigger] p.at(c, r, s) == rgb.at(s, r, c)
}

/// Runs the face detector on an image and reports the detected regions.
///
/// The image is resized to 640 by 640 with the triangle filter and handed to
/// `infer` as RGB planes (batch, channel, height, width); the
/// model's answer is not decoded yet: the region reported is the centred box of
/// half the image's width and height, classed as a face. An error of `infer` is
/// passed on.
pub fn detect_faces_and_features<F: Fn(Planar) -> Result<Planar, String>>(img: &Image, infer: F) -> (res:
    Result<Vec<BoundingBox>, String>)
    requires
        forall|p: Planar| call_requires(infer, (p,)),
    ensures
        (forall|p: Planar, r: Result<Planar, String>|
            #[trigger] call_ensures(infer, (p,), r) ==> r is Ok) ==> res is Ok,
        match res {
            Ok(boxes) => {
                &&& boxes@.len() == 1
                &&& face_box_spec(img@.width as u32, img@.height as u32, boxes@[0])
                &&& exists|p: Planar, o: Planar| #[trigger] call_ensures(infer, (p,), Ok(o)) && detector_input(img@, p)
            },
            Err(e) => exists|p: Planar| #[trigger] call_ensures(infer, (p,), Err(e)) && detector_input(img@, p),
        },
{
    let (orig_w, orig_h) = img.dimensions();
    proof {
        use_type_invariant(img);
        assert(640 * 640 * channel_count(img@.kind) <= 640 * 640 * 4);
    }
    let resized = img.resize_exact_triangle(YOLO_SIZE, YOLO_SIZE);
    let rgb = resized.to_rgb8();
    let input = planar_rgb(&rgb);
    let ghost gin = input;
    assert(detector_input(img@, gin));
    let answer = infer(input);
    if let Err(e) = answer {
        assert(call_ensures(infer, (gin,), Err(e)));
        let r: Result<Vec<BoundingBox>, String> = Err(e);
        assert(r matches Err(e2) && e2 == e);
        return r;
    }
    assert(exists|p: Planar, o: Planar|
        #[trigger] call_ensures(infer, (p,), Ok(o)) && detector_input(img@, p)) by {
        assert(call_ensures(infer, (gin,), answer));
    }
    let mut boxes: Vec<BoundingBox> = Vec::new();
    boxes.push(face_box(orig_w, orig_h));
    Ok(boxes)
}

/// Whether the box lies inside a `width` by `height` image, computed as
/// `x + box width > width || y + box height > height` is, left to right.
pub open spec fn box_fits(bbox: BoundingBox, width: nat, height: nat) -> bool {
    bbox.x + bbox.width <= width && bbox.y + bbox.height <= height
}

/// The part of the image under the box, or `None` when the box reaches past the
/// image (the cropping step of cropping a face and making its mask).
pub fn crop_to_box(img: &Image, bbox: &BoundingBox) -> (res: Option<Image>)
    requires
        bbox.x + bbox.width <= u32::MAX,
        bbox.x + bbox.width <= img@.width ==> bbox.y + bbox.height <= u32::MAX,
    ensures
        res is Some <==> box_fits(*bbox, img@.width, img@.height),
        res matches Some(c) ==> {
            &&& c@.width == bbox.width
            &&& c@.height == bbox.height
            &&& c@.kind == img@.kind
            &&& forall|i: int, j: int, k: int|
                c@.contains(i, j) && 0 <= k < c@.chans() ==> #[trigger] c@.at(i, j, k) == img@.at(
                    bbox.x + i,
                    bbox.y + j,
                    k,
                )
        },
{
    if bbox.x + bbox.width > img.width() || bbox.y + bbox.height > img.height() {
        return None;
    }
    Some(img.crop_imm(bbox.x, bbox.y, bbox.width, bbox.height))
}

/// Whether pixel `(x, y)` of a `width` by `height` mask lies at least `margin`
/// pixels inside every edge.
pub open spec fn inside_margin(width: nat, height: nat, margin: nat, x: int, y: int) -> bool {
    margin <= x < width - margin && margin <= y < height - margin
}

/// A grey mask of `width` by `height`: white (255) at least `margin` pixels
/// inside every edge, black elsewhere. This is the mask that the feathered
/// blending mask is blurred from.
pub fn hard_mask(width: u32, height: u32, margin: u32) -> (m: Image)
    requires
        margin <= height,
        margin < height - margin ==> margin <= width,
        width * height <= usize::MAX,
    ensures
        m@.kind == ColorKind::Luma,
        m@.width == width,
        m@.height == height,
        forall|x: int, y: int|
            m@.contains(x, y) ==> #[trigger] m@.at(x, y, 0) == if inside_margin(
                width as nat,
                height as nat,
                margin as nat,
                x,
                y,
            ) {
                255u8
            } else {
                0u8
            },
{
    let f = |x: u32, y: u32, k: usize| -> (v: u8)
        ensures
            v == if inside_margin(width as nat, height as nat, margin as nat, x as int, y as int) {
                255u8
            } else {
                0u8
            },
        {
            if margin <= x && (x as u64) + (margin as u64) < width as u64 && margin <= y && (y as u64)
                + (margin as u64) < height as u64 {
                255u8
            } else {
                0u8
            }
        };
    assert(width * height * 1 == width * height) by (nonlinear_arith);
    Image::from_fn(width, height, ColorKind::Luma, f)
}

/// The reported face box is the centred half of the image itself, whatever its
/// size: it lies inside the image, each side is half the image's (to within a
/// pixel), and its margins on either side differ by at most two pixels.
pub proof fn law_face_box_is_centred_half(width: u32, height: u32, b: BoundingBox)
    requires
        face_box_spec(width, height, b),
    ensures
        b.x + b.width <= width,
        b.y + b.height <= height,
        2 * b.width <= width <= 2 * b.width + 1,
        2 * b.height <= height <= 2 * b.height + 1,
        width <= 2 * b.x + b.width + 2,
        height <= 2 * b.y + b.height + 2,
        2 * b.x + b.width <= width,
        2 * b.y + b.height <= height,
{
}

} // verus!
