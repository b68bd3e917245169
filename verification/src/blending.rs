//! Putting a processed face crop back into the base image, blended through a
//! feathered mask.
use vstd::prelude::*;

use crate::raster::{luma8_view, rgba8_view, stored_samples, ColorKind, Image, ImageView};
use crate::segmentation::BoundingBox;

verus! {

/// Whether pixel `(px, py)` lies in the box.
pub open spec fn in_box(bbox: BoundingBox, px: int, py: int) -> bool {
    bbox.x <= px < bbox.x + bbox.width && bbox.y <= py < bbox.y + bbox.height
}

/// The samples of pixel `(x, y)`.
pub open spec fn pixel_samples(v: ImageView, x: int, y: int) -> Seq<u8> {
    Seq::new(v.chans(), |k: int| v.at(x, y, k))
}

/// `samples` is what a pixel of `kind` holds after blending the new RGBA colour
/// `new` over the current one `cur` with weight `alpha`: `blend` gives red, green
/// and blue one channel at a time, the current alpha is kept, and the colour is
/// stored in the image's layout.
pub open spec fn blended<B: Fn(u8, u8, u8) -> u8>(
    blend: B,
    kind: ColorKind,
    new: Seq<u8>,
    cur: Seq<u8>,
    alpha: u8,
    samples: Seq<u8>,
) -> bool {
    exists|r: u8, g: u8, b: u8|
        #![trigger call_ensures(blend, (new[0], cur[0], alpha), r), call_ensures(blend, (new[1], cur[1], alpha), g), call_ensures(blend, (new[2], cur[2], alpha), b)]
        {
            &&& call_ensures(blend, (new[0], cur[0], alpha), r)
            &&& call_ensures(blend, (new[1], cur[1], alpha), g)
            &&& call_ensures(blend, (new[2], cur[2], alpha), b)
            &&& samples == stored_samples(kind, seq![r, g, b, cur[3]])
        }
}

/// `out` is `base` with every pixel under the box blended: pixel `(px, py)` takes
/// the colour of crop pixel `(px - x, py - y)` (read as RGBA) over its own, weighted
/// by mask pixel `(px - x, py - y)` (read as grey). Other pixels are kept.
pub open spec fn stitched<B: Fn(u8, u8, u8) -> u8>(
    blend: B,
    base: ImageView,
    crop: ImageView,
    mask: ImageView,
    bbox: BoundingBox,
    out: ImageView,
) -> bool {
    &&& out.same_shape(base)
    &&& forall|px: int, py: int|
        base.contains(px, py) && in_box(bbox, px, py) ==> #[trigger] blended(
            blend,
            base.kind,
            rgba8_view(crop).rgba(px - bbox.x, py - bbox.y),
            base.rgba(px, py),
            luma8_view(mask).at(px - bbox.x, py - bbox.y, 0),
            pixel_samples(out, px, py),
        )
    &&& forall|px: int, py: int, k: int|
        base.contains(px, py) && !in_box(bbox, px, py) && 0 <= k < base.chans() ==> #[trigger] out.at(
            px,
            py,
            k,
        ) == base.at(px, py, k)
}

/// The error given when the processed crop's size differs from the box.
pub open spec fn crop_size_message() -> Seq<char> {
    "O recorte processado possui dimensões diferentes da BoundingBox original."@
}

/// The error given when the mask's size differs from the box.
pub open spec fn mask_size_message() -> Seq<char> {
    "A máscara de mesclagem é incompatível com o tamanho do recorte."@
}

/// Puts a processed crop back into the base image at its box, alpha-blended
/// through a feathered mask.
///
/// The mask says how much of the new pixel to take: 255 (white, the centre of
/// the face) takes the new pixel whole, 0 (black, outside the face) keeps the
/// base pixel. `blend(new, old, weight)` mixes one colour channel; the base pixel's
/// alpha is kept. Box pixels that fall outside the base image are skipped.
pub fn stitch_face_seamless<B: Fn(u8, u8, u8) -> u8>(
    base_img: Image,
    processed_crop: &Image,
    feathered_mask: &Image,
    bbox: &BoundingBox,
    blend: B,
) -> (res: Result<Image, String>)
    requires
        forall|n: u8, o: u8, a: u8| call_requires(blend, (n, o, a)),
        processed_crop@.width == bbox.width && processed_crop@.height == bbox.height
            && feathered_mask@.width == bbox.width && feathered_mask@.height == bbox.height
            ==> processed_crop@.width * processed_crop@.height * 4 <= usize::MAX,
        processed_crop@.width == bbox.width && processed_crop@.height == bbox.height
            && feathered_mask@.width == bbox.width && feathered_mask@.height == bbox.height
            && bbox.width > 0 && bbox.height > 0 ==> bbox.x + bbox.width <= u32::MAX + 1 && bbox.y
            + bbox.height <= u32::MAX + 1,
    ensures
        match res {
            Ok(out) => {
                &&& processed_crop@.width == bbox.width
                &&& processed_crop@.height == bbox.height
                &&& feathered_mask@.width == bbox.width
                &&& feathered_mask@.height == bbox.height
                &&& stitched(blend, base_img@, processed_crop@, feathered_mask@, *bbox, out@)
            },
            Err(e) => {
                ||| (processed_crop@.width != bbox.width || processed_crop@.height != bbox.height)
                    && e@ == crop_size_message()
                ||| processed_crop@.width == bbox.width && processed_crop@.height == bbox.height && (
                feathered_mask@.width != bbox.width || feathered_mask@.height != bbox.height) && e@
                    == mask_size_message()
            },
        },
{
    if processed_crop.width() != bbox.width || processed_crop.height() != bbox.height {
        let r: Result<Image, String> = Err(
            String::from_str("O recorte processado possui dimensões diferentes da BoundingBox original."),
        );
        return r;
    }
    if feathered_mask.width() != bbox.width || feathered_mask.height() != bbox.height {
        let r: Result<Image, String> = Err(
            String::from_str("A máscara de mesclagem é incompatível com o tamanho do recorte."),
        );
        return r;
    }
    let mask_luma = feathered_mask.to_luma8();
    let crop_rgba = processed_crop.to_rgba8();
    let mut base = base_img;
    let ghost old = base@;
    let (width, height) = base.dimensions();
    let mut y: u32 = 0;
    while y < bbox.height
        invariant
            y <= bbox.height,
            bbox.width > 0 && bbox.height > 0 ==> bbox.x + bbox.width <= u32::MAX + 1 && bbox.y
                + bbox.height <= u32::MAX + 1,
            forall|n: u8, o: u8, a: u8| call_requires(blend, (n, o, a)),
            mask_luma@ == luma8_view(feathered_mask@),
            crop_rgba@ == rgba8_view(processed_crop@),
            mask_luma@.width == bbox.width,
            mask_luma@.height == bbox.height,
            crop_rgba@.width == bbox.width,
            crop_rgba@.height == bbox.height,
            crop_rgba@.kind == ColorKind::Rgba,
            width == old.width,
            height == old.height,
            base@.same_shape(old),
            forall|px: int, py: int|
                old.contains(px, py) && in_box(*bbox, px, py) && py < bbox.y + y ==> #[trigger] blended(
                    blend,
                    old.kind,
                    crop_rgba@.rgba(px - bbox.x, py - bbox.y),
                    old.rgba(px, py),
                    mask_luma@.at(px - bbox.x, py - bbox.y, 0),
                    pixel_samples(base@, px, py),
                ),
            forall|px: int, py: int, k: int|
                old.contains(px, py) && !(in_box(*bbox, px, py) && py < bbox.y + y) && 0 <= k
                    < old.chans() ==> #[trigger] base@.at(px, py, k) == old.at(px, py, k),
        decreases bbox.height - y,
    {
        let mut x: u32 = 0;
        while x < bbox.width
            invariant
                y < bbox.height,
                x <= bbox.width,
                bbox.width > 0 ==> bbox.x + bbox.width <= u32::MAX + 1 && bbox.y + bbox.height
                    <= u32::MAX + 1,
                forall|n: u8, o: u8, a: u8| call_requires(blend, (n, o, a)),
                mask_luma@ == luma8_view(feathered_mask@),
                crop_rgba@ == rgba8_view(processed_crop@),
                mask_luma@.width == bbox.width,
                mask_luma@.height == bbox.height,
                crop_rgba@.width == bbox.width,
                crop_rgba@.height == bbox.height,
                crop_rgba@.kind == ColorKind::Rgba,
                width == old.width,
                height == old.height,
                base@.same_shape(old),
                forall|px: int, py: int|
                    old.contains(px, py) && in_box(*bbox, px, py) && (py < bbox.y + y || (py == bbox.y
                        + y && px < bbox.x + x)) ==> #[trigger] blended(
                        blend,
                        old.kind,
                        crop_rgba@.rgba(px - bbox.x, py - bbox.y),
                        old.rgba(px, py),
                        mask_luma@.at(px - bbox.x, py - bbox.y, 0),
                        pixel_samples(base@, px, py),
                    ),
                forall|px: int, py: int, k: int|
                    old.contains(px, py) && !(in_box(*bbox, px, py) && (py < bbox.y + y || (py
                        == bbox.y + y && px < bbox.x + x))) && 0 <= k < old.chans()
                        ==> #[trigger] base@.at(px, py, k) == old.at(px, py, k),
            decreases bbox.width - x,
        {
            let base_x = bbox.x + x;
            let base_y = bbox.y + y;
            if base_x < width && base_y < height {
                let alpha = mask_luma.sample(x, y, 0);
                let new_pixel = crop_rgba.get_pixel(x, y);
                let current = base.get_pixel(base_x, base_y);
                let r = blend(new_pixel[0], current[0], alpha);
                let g = blend(new_pixel[1], current[1], alpha);
                let b = blend(new_pixel[2], current[2], alpha);
                let a = current[3];
                let blended_pixel = [r, g, b, a];
                let ghost before = base@;
                proof {
                    assert(current@ =~= old.rgba(base_x as int, base_y as int)) by {
                        assert(forall|k: int| 0 <= k < old.chans() ==> #[trigger] before.at(
                            base_x as int,
                            base_y as int,
                            k,
                        ) == old.at(base_x as int, base_y as int, k));
                    }
                }
                base.put_pixel(base_x, base_y, blended_pixel);
                proof {
                    assert(pixel_samples(base@, base_x as int, base_y as int) =~= stored_samples(
                        old.kind,
                        blended_pixel@,
                    ));
                    assert(blended_pixel@ =~= seq![r, g, b, current@[3]]);
                    assert(blended(
                        blend,
                        old.kind,
                        crop_rgba@.rgba(x as int, y as int),
                        old.rgba(base_x as int, base_y as int),
                        mask_luma@.at(x as int, y as int, 0),
                        pixel_samples(base@, base_x as int, base_y as int),
                    ));
                    assert forall|px: int, py: int|
                        old.contains(px, py) && in_box(*bbox, px, py) && (py < bbox.y + y || (py
                            == bbox.y + y && px < bbox.x + x + 1)) implies #[trigger] blended(
                        blend,
                        old.kind,
                        crop_rgba@.rgba(px - bbox.x, py - bbox.y),
                        old.rgba(px, py),
                        mask_luma@.at(px - bbox.x, py - bbox.y, 0),
                        pixel_samples(base@, px, py),
                    ) by {
                        if px != base_x || py != base_y {
                            assert(pixel_samples(base@, px, py) =~= pixel_samples(before, px, py));
                        }
                    }
                }
            }
            x = x + 1;
        }
        y = y + 1;
    }
    Ok(base)
}

/// The base image's transparency is kept: stitching into an RGBA image leaves
/// every pixel's alpha as it was, inside the box and out.
pub proof fn law_stitch_keeps_alpha<B: Fn(u8, u8, u8) -> u8>(
    blend: B,
    base: ImageView,
    crop: ImageView,
    mask: ImageView,
    bbox: BoundingBox,
    out: ImageView,
)
    requires
        base.kind == ColorKind::Rgba,
        stitched(blend, base, crop, mask, bbox, out),
    ensures
        forall|px: int, py: int| base.contains(px, py) ==> #[trigger] out.at(px, py, 3) == base.at(px, py, 3),
{
    assert forall|px: int, py: int| base.contains(px, py) implies #[trigger] out.at(px, py, 3)
        == base.at(px, py, 3) by {
        if in_box(bbox, px, py) {
            let new = rgba8_view(crop).rgba(px - bbox.x, py - bbox.y);
            let cur = base.rgba(px, py);
            let alpha = luma8_view(mask).at(px - bbox.x, py - bbox.y, 0);
            assert(blended(blend, base.kind, new, cur, alpha, pixel_samples(out, px, py)));
            let (r, g, b) = choose|r: u8, g: u8, b: u8|
                {
                    &&& call_ensures(blend, (new[0], cur[0], alpha), r)
                    &&& call_ensures(blend, (new[1], cur[1], alpha), g)
                    &&& call_ensures(blend, (new[2], cur[2], alpha), b)
                    &&& pixel_samples(out, px, py) == stored_samples(base.kind, seq![r, g, b, cur[3]])
                };
            assert(pixel_samples(out, px, py)[3] == out.at(px, py, 3));
        }
    }
}

/// A box that lies wholly outside the base image changes nothing.
pub proof fn law_stitch_outside_keeps_base<B: Fn(u8, u8, u8) -> u8>(
    blend: B,
    base: ImageView,
    crop: ImageView,
    mask: ImageView,
    bbox: BoundingBox,
    out: ImageView,
)
    requires
        bbox.x >= base.width || bbox.y >= base.height,
        stitched(blend, base, crop, mask, bbox, out),
    ensures
        out.same_pixels(base),
{
}

/// White (255) takes the new pixel whole: when `blend` gives the new value at
/// full weight and the mask is white over the whole box, stitching into an RGBA
/// image puts the crop's colour in the box and keeps the base's alpha.
pub proof fn law_white_mask_takes_crop<B: Fn(u8, u8, u8) -> u8>(
    blend: B,
    base: ImageView,
    crop: ImageView,
    mask: ImageView,
    bbox: BoundingBox,
    out: ImageView,
)
    requires
        base.kind == ColorKind::Rgba,
        forall|n: u8, o: u8, r: u8| #[trigger] call_ensures(blend, (n, o, 255u8), r) ==> r == n,
        forall|i: int, j: int|
            0 <= i < bbox.width && 0 <= j < bbox.height ==> #[trigger] luma8_view(mask).at(i, j, 0)
                == 255,
        stitched(blend, base, crop, mask, bbox, out),
    ensures
        forall|px: int, py: int, k: int|
            base.contains(px, py) && in_box(bbox, px, py) && 0 <= k < 4 ==> #[trigger] out.at(px, py, k)
                == if k < 3 {
                rgba8_view(crop).at(px - bbox.x, py - bbox.y, k)
            } else {
                base.at(px, py, 3)
            },
{
    assert forall|px: int, py: int, k: int|
        base.contains(px, py) && in_box(bbox, px, py) && 0 <= k < 4 implies #[trigger] out.at(px, py, k)
            == if k < 3 {
            rgba8_view(crop).at(px - bbox.x, py - bbox.y, k)
        } else {
            base.at(px, py, 3)
        } by {
        let new = rgba8_view(crop).rgba(px - bbox.x, py - bbox.y);
        let cur = base.rgba(px, py);
        let alpha = luma8_view(mask).at(px - bbox.x, py - bbox.y, 0);
        assert(alpha == 255);
        assert(blended(blend, base.kind, new, cur, alpha, pixel_samples(out, px, py)));
        let (r, g, b) = choose|r: u8, g: u8, b: u8|
            {
                &&& call_ensures(blend, (new[0], cur[0], alpha), r)
                &&& call_ensures(blend, (new[1], cur[1], alpha), g)
                &&& call_ensures(blend, (new[2], cur[2], alpha), b)
                &&& pixel_samples(out, px, py) == stored_samples(base.kind, seq![r, g, b, cur[3]])
            };
        assert(pixel_samples(out, px, py)[k] == out.at(px, py, k));
    }
}

/// Black (0) keeps the base pixel: when `blend` gives the old value at zero
/// weight and the mask is black over the whole box, stitching changes nothing,
/// whatever the base image's layout.
pub proof fn law_black_mask_keeps_base<B: Fn(u8, u8, u8) -> u8>(
    blend: B,
    base: ImageView,
    crop: ImageView,
    mask: ImageView,
    bbox: BoundingBox,
    out: ImageView,
)
    requires
        forall|n: u8, o: u8, r: u8| #[trigger] call_ensures(blend, (n, o, 0u8), r) ==> r == o,
        forall|i: int, j: int|
            0 <= i < bbox.width && 0 <= j < bbox.height ==> #[trigger] luma8_view(mask).at(i, j, 0)
                == 0,
        stitched(blend, base, crop, mask, bbox, out),
    ensures
        out.same_pixels(base),
{
    assert forall|px: int, py: int, k: int|
        out.contains(px, py) && 0 <= k < out.chans() implies #[trigger] out.at(px, py, k) == base.at(
        px,
        py,
        k,
    ) by {
        if in_box(bbox, px, py) {
            let new = rgba8_view(crop).rgba(px - bbox.x, py - bbox.y);
            let cur = base.rgba(px, py);
            let alpha = luma8_view(mask).at(px - bbox.x, py - bbox.y, 0);
            assert(alpha == 0);
            assert(blended(blend, base.kind, new, cur, alpha, pixel_samples(out, px, py)));
            let (r, g, b) = choose|r: u8, g: u8, b: u8|
                {
                    &&& call_ensures(blend, (new[0], cur[0], alpha), r)
                    &&& call_ensures(blend, (new[1], cur[1], alpha), g)
                    &&& call_ensures(blend, (new[2], cur[2], alpha), b)
                    &&& pixel_samples(out, px, py) == stored_samples(base.kind, seq![r, g, b, cur[3]])
                };
            assert(pixel_samples(out, px, py)[k] == out.at(px, py, k));
            if base.kind == ColorKind::Luma {
                let l = base.at(px, py, 0);
                assert(crate::raster::luma_of(l, l, l) == l);
            }
        }
    }
}

/// Putting an unprocessed crop back is nearly a no-op: when the crop is the part
/// of an RGB or RGBA base image under the box, and `blend` mixes a value with
/// itself into that value or one less (as truncating a weighted mean does), every
/// colour sample of the result is the base's or one less, and alpha is kept,
/// whatever the mask.
pub proof fn law_unprocessed_crop_is_near_no_op<B: Fn(u8, u8, u8) -> u8>(
    blend: B,
    base: ImageView,
    crop: ImageView,
    mask: ImageView,
    bbox: BoundingBox,
    out: ImageView,
)
    requires
        base.well_formed(),
        base.kind != ColorKind::Luma,
        crop.well_formed(),
        crop.kind == base.kind,
        crop.width == bbox.width,
        crop.height == bbox.height,
        forall|i: int, j: int, k: int|
            crop.contains(i, j) && 0 <= k < crop.chans() ==> #[trigger] crop.at(i, j, k) == base.at(
                bbox.x + i,
                bbox.y + j,
                k,
            ),
        forall|v: u8, a: u8, r: u8| #[trigger] call_ensures(blend, (v, v, a), r) ==> v - 1 <= r <= v,
        stitched(blend, base, crop, mask, bbox, out),
    ensures
        forall|px: int, py: int, k: int|
            base.contains(px, py) && 0 <= k < base.chans() ==> if k < 3 {
                base.at(px, py, k) - 1 <= #[trigger] out.at(px, py, k) <= base.at(px, py, k)
            } else {
                out.at(px, py, k) == base.at(px, py, k)
            },
{
    assert forall|px: int, py: int, k: int| base.contains(px, py) && 0 <= k < base.chans() implies if k < 3 {
        base.at(px, py, k) - 1 <= #[trigger] out.at(px, py, k) <= base.at(px, py, k)
    } else {
        out.at(px, py, k) == base.at(px, py, k)
    } by {
        if in_box(bbox, px, py) {
            let i = px - bbox.x;
            let j = py - bbox.y;
            let new = rgba8_view(crop).rgba(i, j);
            let cur = base.rgba(px, py);
            let alpha = luma8_view(mask).at(i, j, 0);
            assert(crop.contains(i, j));
            crate::raster::law_conversion_keeps_colour(crop, i, j, 0);
            crate::raster::law_conversion_keeps_colour(crop, i, j, 1);
            crate::raster::law_conversion_keeps_colour(crop, i, j, 2);
            assert(crop.at(i, j, 0) == base.at(px, py, 0));
            assert(crop.at(i, j, 1) == base.at(px, py, 1));
            assert(crop.at(i, j, 2) == base.at(px, py, 2));
            assert(new[0] == cur[0] && new[1] == cur[1] && new[2] == cur[2]);
            assert(blended(blend, base.kind, new, cur, alpha, pixel_samples(out, px, py)));
            let (r, g, b) = choose|r: u8, g: u8, b: u8|
                {
                    &&& call_ensures(blend, (new[0], cur[0], alpha), r)
                    &&& call_ensures(blend, (new[1], cur[1], alpha), g)
                    &&& call_ensures(blend, (new[2], cur[2], alpha), b)
                    &&& pixel_samples(out, px, py) == stored_samples(base.kind, seq![r, g, b, cur[3]])
                };
            assert(pixel_samples(out, px, py)[k] == out.at(px, py, k));
        }
    }
}

/// The mask's grey level itself is the weight: when `blend` computes `mix`, each
/// colour sample of a box pixel of an RGB or RGBA base becomes `mix` of the crop's
/// sample, the base's sample and the mask's grey at that place, for every grey
/// level from 0 to 255.
pub proof fn law_mask_grey_is_the_weight<B: Fn(u8, u8, u8) -> u8>(
    blend: B,
    mix: spec_fn(u8, u8, u8) -> u8,
    base: ImageView,
    crop: ImageView,
    mask: ImageView,
    bbox: BoundingBox,
    out: ImageView,
    px: int,
    py: int,
    c: int,
)
    requires
        forall|n: u8, o: u8, a: u8, r: u8| #[trigger] call_ensures(blend, (n, o, a), r) ==> r == mix(n, o, a),
        base.kind != ColorKind::Luma,
        stitched(blend, base, crop, mask, bbox, out),
        base.contains(px, py),
        in_box(bbox, px, py),
        0 <= c < 3,
    ensures
        out.at(px, py, c) == mix(
            rgba8_view(crop).at(px - bbox.x, py - bbox.y, c),
            base.at(px, py, c),
            luma8_view(mask).at(px - bbox.x, py - bbox.y, 0),
        ),
{
    let new = rgba8_view(crop).rgba(px - bbox.x, py - bbox.y);
    let cur = base.rgba(px, py);
    let alpha = luma8_view(mask).at(px - bbox.x, py - bbox.y, 0);
    assert(blended(blend, base.kind, new, cur, alpha, pixel_samples(out, px, py)));
    let (r, g, b) = choose|r: u8, g: u8, b: u8|
        {
            &&& call_ensures(blend, (new[0], cur[0], alpha), r)
            &&& call_ensures(blend, (new[1], cur[1], alpha), g)
            &&& call_ensures(blend, (new[2], cur[2], alpha), b)
            &&& pixel_samples(out, px, py) == stored_samples(base.kind, seq![r, g, b, cur[3]])
        };
    assert(pixel_samples(out, px, py)[c] == out.at(px, py, c));
}

} // verus!
