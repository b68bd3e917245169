//! Tiled restoration (denoising) with the SCUNet model.
use vstd::prelude::*;

use crate::raster::{covered_by, rgb8_view, ColorKind, Image, ImageView};
use crate::tensor::{
    all_tiles_done, answered, fits_tile, is_tile_input, lemma_pixel_tile, lemma_tile_count,
    lemma_tile_index, lemma_tile_index_before, model_fits_every_tile, padded_tile, tile_cols,
    tile_count, tile_count_exec, tile_index, tiled_runs, Planar,
};

verus! {

/// What a region of the pipeline is processed as.
#[derive(Debug)]
pub enum ProcessTarget {
    /// A face crop and its blending mask.
    Face(Image, Image),
    /// The base image or a large block of it.
    Body(Image),
}

/// Side of the square tiles that SCUNet is run on.
pub const SCUNET_TILE: u32 = 512;

/// The error given when the model answers a tile with a tensor too small to
/// hold the tile's part of the result.
pub open spec fn undersized_output_message() -> Seq<char> {
    "A saída do modelo é menor que o bloco processado."@
}

/// The error given when the model answers a tile with a tensor too small to
/// hold the tile's part of the result.
pub fn undersized_output_error() -> (e: String)
    ensures
        e@ == undersized_output_message(),
{
    String::from_str("A saída do modelo é menor que o bloco processado.")
}

/// The pass stopped at its last model run because that answer was not usable:
/// the error is the model's own, or the undersized-output error when the model
/// answered with a tensor too small for the tile.
pub open spec fn failed_on_last(
    src: ImageView,
    t: nat,
    scale: nat,
    answers: Seq<Result<Planar, String>>,
    e: String,
) -> bool {
    let k = answers.len() - 1;
    let cols = tile_cols(src, t) as int;
    &&& answers.len() >= 1
    &&& !fits_tile(src, t, scale, k % cols, k / cols, answers[k])
    &&& match answers[k] {
        Err(e2) => e == e2,
        Ok(_) => e@ == undersized_output_message(),
    }
}

/// `out` is the restored image made of the answers to the 512 by 512 tiles of
/// `src`: each pixel is read from the answer to the tile it lies in, at its place
/// inside the tile.
pub open spec fn denoised(src: ImageView, out: ImageView, answers: Seq<Result<Planar, String>>) -> bool {
    &&& out.kind == ColorKind::Rgb
    &&& out.width == src.width
    &&& out.height == src.height
    &&& forall|x: int, y: int, c: int|
        out.contains(x, y) && 0 <= c < 3 ==> #[trigger] out.at(x, y, c) == answered(
            answers[tile_index(src, 512, x / 512, y / 512)],
        ).at(c, y % 512, x % 512)
}

/// Restores (denoises) an image with the SCUNet model, tile by tile.
///
/// The image is converted to RGB and cut into 512 by 512 tiles, row by row; each
/// tile is padded with black to full size and handed to `infer` as RGB planes, and
/// the corner of the answer that covers the tile is copied into the result. An
/// error of `infer`, or an answer too small for its tile, ends the pass with that
/// error before any later tile is run. An image with no pixels is not handed to
/// the model at all.
#[verifier::loop_isolation(false)]
pub fn process_scunet<F: Fn(Planar) -> Result<Planar, String>>(img: &Image, infer: F) -> (res: Result<
    Image,
    String,
>)
    requires
        forall|p: Planar| call_requires(infer, (p,)),
        img@.width > 0 && img@.height > 0 ==> img@.width + 512 <= u32::MAX + 1 && img@.height + 512
            <= u32::MAX + 1,
        img@.width * img@.height * 3 <= usize::MAX,
    ensures
        model_fits_every_tile(infer, rgb8_view(img@), 512, 1) ==> res is Ok,
        img@.width == 0 || img@.height == 0 ==> res is Ok,
        exists|ins: Seq<Planar>, answers: Seq<Result<Planar, String>>|
            #[trigger] tiled_runs(infer, rgb8_view(img@), 512, 1, ins, answers) && match res {
                Ok(out) => all_tiles_done(rgb8_view(img@), 512, 1, answers) && denoised(
                    rgb8_view(img@),
                    out@,
                    answers,
                ),
                Err(e) => failed_on_last(rgb8_view(img@), 512, 1, answers, e),
            },
{
    let rgb = img.to_rgb8();
    let (width, height) = rgb.dimensions();
    proof {
        use_type_invariant(&rgb);
    }
    let mut out = Image::new(width, height, ColorKind::Rgb);
    let rows = tile_count_exec(height, SCUNET_TILE);
    let cols = tile_count_exec(width, SCUNET_TILE);
    proof {
        lemma_tile_count(height as nat, 512, 0);
        lemma_tile_count(width as nat, 512, 0);
    }
    let ghost src = rgb@;
    let ghost mut ins: Seq<Planar> = Seq::empty();
    let ghost mut answers: Seq<Result<Planar, String>> = Seq::empty();
    let mut j: u32 = 0;
    while j < rows
        invariant
            j <= rows,
            out@.kind == ColorKind::Rgb,
            out@.width == width,
            out@.height == height,
            ins.len() == j * cols,
            tiled_runs(infer, src, 512, 1, ins, answers),
            forall|k: int|
                0 <= k < answers.len() ==> fits_tile(src, 512, 1, k % (cols as int), k / (cols as int), #[trigger] answers[k]),
            forall|x: int, y: int, c: int|
                out@.contains(x, y) && 0 <= c < 3 && y < j * 512 ==> #[trigger] out@.at(x, y, c)
                    == answered(answers[tile_index(src, 512, x / 512, y / 512)]).at(c, y % 512, x % 512),
        decreases rows - j,
    {
        proof {
            lemma_tile_count(height as nat, 512, j as int);
        }
        let y = j * SCUNET_TILE;
        let mut i: u32 = 0;
        while i < cols
            invariant
                j < rows,
                y == j * 512,
                y < height,
                i <= cols,
                out@.kind == ColorKind::Rgb,
                out@.width == width,
                out@.height == height,
                ins.len() == j * cols + i,
                tiled_runs(infer, src, 512, 1, ins, answers),
                forall|k: int|
                    0 <= k < answers.len() ==> fits_tile(src, 512, 1, k % (cols as int), k / (cols as int), #[trigger] answers[k]),
                forall|x: int, y2: int, c: int|
                    out@.contains(x, y2) && 0 <= c < 3 && (y2 < y || (y2 < y + 512 && x < i * 512))
                        ==> #[trigger] out@.at(x, y2, c) == answered(answers[tile_index(src, 512, x / 512, y2 / 512)]).at(
                        c,
                        y2 % 512,
                        x % 512,
                    ),
            decreases cols - i,
        {
            proof {
                lemma_tile_count(width as nat, 512, i as int);
                lemma_tile_index(cols as int, rows as int, i as int, j as int);
            }
            let x = i * SCUNET_TILE;
            let input = padded_tile(&rgb, x, y, SCUNET_TILE);
            let ghost gin = input;
            let answer = infer(input);
            let ghost gans = answer;
            let ghost k = j * cols + i;
            let crop_w = if x + SCUNET_TILE > width {
                width - x
            } else {
                SCUNET_TILE
            };
            let crop_h = if y + SCUNET_TILE > height {
                height - y
            } else {
                SCUNET_TILE
            };
            proof {
                assert(is_tile_input(src, 512, i as int, j as int, gin));
                assert(call_ensures(infer, (gin,), gans));
                ins = ins.push(gin);
                answers = answers.push(gans);
                assert(ins[k] == gin);
                assert(answers[k] == gans);
                assert(k % (cols as int) == i && k / (cols as int) == j);
            }
            match answer {
                Err(e) => {
                    proof {
                        assert(!fits_tile(src, 512, 1, i as int, j as int, gans));
                        assert(!model_fits_every_tile(infer, src, 512, 1));
                        assert(tiled_runs(infer, src, 512, 1, ins, answers));
                        assert(failed_on_last(src, 512, 1, answers, e));
                    }
                    let r: Result<Image, String> = Err(e);
                    return r;
                },
                Ok(o) => {
                    if !o.covers_exec(crop_w, crop_h) {
                        let r: Result<Image, String> = Err(undersized_output_error());
                        proof {
                            assert(!fits_tile(src, 512, 1, i as int, j as int, gans));
                            assert(!model_fits_every_tile(infer, src, 512, 1));
                            assert(tiled_runs(infer, src, 512, 1, ins, answers));
                            assert(r matches Err(e) && failed_on_last(src, 512, 1, answers, e));
                        }
                        return r;
                    }
                    let ghost go = o;
                    let oref = &o;
                    let pick = |a: u32, b: u32, c: usize| -> (v: u8)
                        requires
                            a < crop_w,
                            b < crop_h,
                            c < 3,
                        ensures
                            v == go.at(c as int, b as int, a as int),
                        { oref.get(c, b as usize, a as usize) };
                    assert(crop_w * crop_h * 3 <= 512 * 512 * 3) by (nonlinear_arith)
                        requires
                            crop_w <= 512,
                            crop_h <= 512,
                    ;
                    let region = Image::from_fn(crop_w, crop_h, ColorKind::Rgb, pick);
                    let ghost before = out@;
                    let ghost old_answers = answers.drop_last();
                    out.replace(&region, x as i64, y as i64);
                    proof {
                        assert(fits_tile(src, 512, 1, i as int, j as int, gans));
                        assert(tiled_runs(infer, src, 512, 1, ins, answers));
                        assert forall|x2: int, y2: int, c: int|
                            out@.contains(x2, y2) && 0 <= c < 3 && (y2 < y || (y2 < y + 512 && x2 < (
                            i + 1) * 512)) implies #[trigger] out@.at(x2, y2, c) == answered(
                            answers[tile_index(src, 512, x2 / 512, y2 / 512)],
                        ).at(c, y2 % 512, x2 % 512) by {
                            lemma_pixel_tile(width as nat, 512, x2);
                            lemma_pixel_tile(height as nat, 512, y2);
                            if covered_by(region@, x as int, y as int, x2, y2) {
                                vstd::arithmetic::div_mod::lemma_fundamental_div_mod_converse(
                                    x2,
                                    512,
                                    i as int,
                                    x2 - x,
                                );
                                vstd::arithmetic::div_mod::lemma_fundamental_div_mod_converse(
                                    y2,
                                    512,
                                    j as int,
                                    y2 - y,
                                );
                            } else {
                                assert(before.at(x2, y2, c) == out@.at(x2, y2, c));
                                if y2 >= y && x2 >= x {
                                    assert(y2 >= y + crop_h || x2 >= x + crop_w);
                                    assert(false);
                                }
                                assert(y2 < y || x2 < i * 512);
                                lemma_tile_index_before(
                                    cols as int,
                                    i as int,
                                    j as int,
                                    x2 / 512,
                                    y2 / 512,
                                );
                                assert(answers[tile_index(src, 512, x2 / 512, y2 / 512)] == old_answers[tile_index(src, 512, x2 / 512, y2 / 512)]);
                            }
                        }
                    }
                },
            }
            i = i + 1;
        }
        proof {
            lemma_tile_count(width as nat, 512, cols as int);
            assert((j + 1) * cols == j * cols + cols) by (nonlinear_arith);
        }
        j = j + 1;
    }
    proof {
        lemma_tile_count(height as nat, 512, rows as int);
        assert(rows * cols == cols * rows) by (nonlinear_arith);
        assert(all_tiles_done(src, 512, 1, answers));
        assert forall|x: int, y: int, c: int|
            out@.contains(x, y) && 0 <= c < 3 implies #[trigger] out@.at(x, y, c) == answered(
            answers[tile_index(src, 512, x / 512, y / 512)],
        ).at(c, y % 512, x % 512) by {
            lemma_pixel_tile(height as nat, 512, y);
        }
        assert(denoised(src, out@, answers));
    }
    let res: Result<Image, String> = Ok(out);
    assert(res matches Ok(o) && o@ == out@);
    res
}

/// The model answered a tile with the tile itself.
pub open spec fn echoes(input: Planar, output: Planar) -> bool {
    &&& output.channels == input.channels
    &&& output.height == input.height
    &&& output.width == input.width
    &&& forall|c: int, y: int, x: int|
        0 <= c < input.channels && 0 <= y < input.height && 0 <= x < input.width ==> #[trigger] output.at(
            c,
            y,
            x,
        ) == input.at(c, y, x)
}

/// Tiles cover the image exactly and are put back where they were cut from: when
/// the model gives every tile back unchanged, the tiled pass gives back the
/// image (as RGB), with no seam and no padding left in it.
pub proof fn law_echo_model_restores_image<F: Fn(Planar) -> Result<Planar, String>>(
    infer: F,
    src: ImageView,
    out: ImageView,
    ins: Seq<Planar>,
    answers: Seq<Result<Planar, String>>,
)
    requires
        src.well_formed(),
        src.kind == ColorKind::Rgb,
        tiled_runs(infer, src, 512, 1, ins, answers),
        all_tiles_done(src, 512, 1, answers),
        denoised(src, out, answers),
        forall|k: int| 0 <= k < ins.len() ==> #[trigger] echoes(ins[k], answered(answers[k])),
    ensures
        out.same_pixels(src),
{
    assert forall|x: int, y: int, c: int|
        out.contains(x, y) && 0 <= c < out.chans() implies #[trigger] out.at(x, y, c) == src.at(
        x,
        y,
        c,
    ) by {
        let i = x / 512;
        let j = y / 512;
        let cols = tile_cols(src, 512) as int;
        lemma_pixel_tile(src.width, 512, x);
        lemma_pixel_tile(src.height, 512, y);
        lemma_tile_index(cols, tile_count(src.height, 512) as int, i, j);
        let k = j * cols + i;
        assert(is_tile_input(src, 512, i, j, ins[k]));
        assert(echoes(ins[k], answered(answers[k])));
        assert(ins[k].at(c, y % 512, x % 512) == crate::tensor::padded_sample(
            src,
            (i * 512) as nat,
            (j * 512) as nat,
            512,
            c,
            y % 512,
            x % 512,
        ));
    }
}

/// `p` and `q` have the same shape and the same samples.
pub open spec fn same_samples(p: Planar, q: Planar) -> bool {
    &&& p.channels == q.channels
    &&& p.height == q.height
    &&& p.width == q.width
    &&& forall|c: int, y: int, x: int|
        0 <= c < p.channels && 0 <= y < p.height && 0 <= x < p.width ==> #[trigger] p.at(c, y, x)
            == q.at(c, y, x)
}

/// The model's answer depends on the samples of its input alone.
pub open spec fn answers_by_samples<F: Fn(Planar) -> Result<Planar, String>>(infer: F) -> bool {
    forall|p: Planar, q: Planar, r1: Result<Planar, String>, r2: Result<Planar, String>|
        #[trigger] same_samples(p, q) && #[trigger] call_ensures(infer, (p,), r1) && #[trigger] call_ensures(
            infer,
            (q,),
            r2,
        ) ==> r1 == r2
}

/// Tiles are restored independently: with a model whose answer depends on its
/// input alone, two images of the same size that agree on one 512 by 512 tile
/// are restored alike on that tile, whatever the rest of them holds.
pub proof fn law_tiles_are_independent<F: Fn(Planar) -> Result<Planar, String>>(
    infer: F,
    src1: ImageView,
    src2: ImageView,
    out1: ImageView,
    out2: ImageView,
    ins1: Seq<Planar>,
    answers1: Seq<Result<Planar, String>>,
    ins2: Seq<Planar>,
    answers2: Seq<Result<Planar, String>>,
    x: int,
    y: int,
    c: int,
)
    requires
        answers_by_samples(infer),
        src1.width == src2.width,
        src1.height == src2.height,
        tiled_runs(infer, src1, 512, 1, ins1, answers1),
        all_tiles_done(src1, 512, 1, answers1),
        denoised(src1, out1, answers1),
        tiled_runs(infer, src2, 512, 1, ins2, answers2),
        all_tiles_done(src2, 512, 1, answers2),
        denoised(src2, out2, answers2),
        forall|x2: int, y2: int, c2: int|
            src1.contains(x2, y2) && x2 / 512 == x / 512 && y2 / 512 == y / 512 && 0 <= c2 < 3
                ==> #[trigger] src1.at(x2, y2, c2) == src2.at(x2, y2, c2),
        out1.contains(x, y),
        0 <= c < 3,
    ensures
        out1.at(x, y, c) == out2.at(x, y, c),
{
    let i = x / 512;
    let j = y / 512;
    let cols = tile_cols(src1, 512) as int;
    lemma_pixel_tile(src1.width, 512, x);
    lemma_pixel_tile(src1.height, 512, y);
    lemma_tile_index(cols, tile_count(src1.height, 512) as int, i, j);
    let k = j * cols + i;
    let p = ins1[k];
    let q = ins2[k];
    assert(is_tile_input(src1, 512, i, j, p));
    assert(is_tile_input(src2, 512, i, j, q));
    assert forall|c2: int, y2: int, x2: int|
        0 <= c2 < p.channels && 0 <= y2 < p.height && 0 <= x2 < p.width implies #[trigger] p.at(
        c2,
        y2,
        x2,
    ) == q.at(c2, y2, x2) by {
        assert(p.at(c2, y2, x2) == crate::tensor::padded_sample(
            src1,
            (i * 512) as nat,
            (j * 512) as nat,
            512,
            c2,
            y2,
            x2,
        ));
        assert(q.at(c2, y2, x2) == crate::tensor::padded_sample(
            src2,
            (i * 512) as nat,
            (j * 512) as nat,
            512,
            c2,
            y2,
            x2,
        ));
        vstd::arithmetic::div_mod::lemma_fundamental_div_mod_converse(i * 512 + x2, 512, i, x2);
        vstd::arithmetic::div_mod::lemma_fundamental_div_mod_converse(j * 512 + y2, 512, j, y2);
    }
    assert(same_samples(p, q));
    assert(call_ensures(infer, (p,), answers1[k]));
    assert(call_ensures(infer, (q,), answers2[k]));
    assert(answers1[k] == answers2[k]);
}

/// Every tile's answer lands on its own tile, whatever its row or column: pixel
/// `(512 i + a, 512 j + b)` of the restored image has the colour that the answer
/// to tile `(i, j)` (the run numbered `j * columns + i`) holds at row `b`, column `a`.
pub proof fn law_tile_answer_lands_on_its_tile(
    src: ImageView,
    out: ImageView,
    answers: Seq<Result<Planar, String>>,
    i: int,
    j: int,
    a: int,
    b: int,
    c: int,
)
    requires
        denoised(src, out, answers),
        0 <= i,
        0 <= j,
        0 <= a < 512,
        0 <= b < 512,
        out.contains(512 * i + a, 512 * j + b),
        0 <= c < 3,
    ensures
        out.at(512 * i + a, 512 * j + b, c) == answered(answers[j * tile_count(src.width, 512) + i]).at(
            c,
            b,
            a,
        ),
{
    vstd::arithmetic::div_mod::lemma_fundamental_div_mod_converse(512 * i + a, 512, i, a);
    vstd::arithmetic::div_mod::lemma_fundamental_div_mod_converse(512 * j + b, 512, j, b);
    assert(out.at(512 * i + a, 512 * j + b, c) == answered(
        answers[tile_index(src, 512, (512 * i + a) / 512, (512 * j + b) / 512)],
    ).at(c, (512 * j + b) % 512, (512 * i + a) % 512));
}

} // verus!
