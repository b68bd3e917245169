//! Tiled four-times upscaling with the Real-ESRGAN model.
use vstd::prelude::*;

use crate::models::undersized_output_error;
use crate::raster::{covered_by, rgba8_view, ColorKind, Image, ImageView};
use crate::models::failed_on_last;
use crate::tensor::{
    all_tiles_done, answered, fits_tile, is_tile_input, lemma_pixel_tile, lemma_tile_count,
    lemma_tile_index, lemma_tile_index_before, model_fits_every_tile, padded_tile, tile_cols,
    tile_count, tile_count_exec, tile_index, tiled_runs, Planar,
};

verus! {

/// Side of the square tiles that Real-ESRGAN is run on.
pub const REALESRGAN_TILE: u32 = 256;

/// How many times Real-ESRGAN enlarges each side.
pub const REALESRGAN_SCALE: u32 = 4;

/// `out` is the four-times enlargement made of the answers to the 256 by 256
/// tiles of `src`: the colour of each pixel is read from the answer to the tile
/// it lies in, at its place inside the enlarged tile, and its alpha is that of
/// the source pixel it enlarges.
pub open spec fn upscaled(src: ImageView, out: ImageView, answers: Seq<Result<Planar, String>>) -> bool {
    &&& out.kind == ColorKind::Rgba
    &&& out.width == 4 * src.width
    &&& out.height == 4 * src.height
    &&& forall|x: int, y: int, c: int|
        out.contains(x, y) && 0 <= c < 4 ==> #[trigger] out.at(x, y, c) == if c < 3 {
            answered(answers[tile_index(src, 256, x / 1024, y / 1024)]).at(c, y % 1024, x % 1024)
        } else {
            src.at(x / 4, y / 4, 3)
        }
}

/// Position arithmetic: inside an enlarged tile, output pixel `x` enlarges source
/// pixel `x / 4`.
proof fn lemma_enlarged_source(x: int, x0: int, a: int)
    requires
        0 <= a,
        x == 4 * x0 + a,
    ensures
        x / 4 == x0 + a / 4,
{
    vstd::arithmetic::div_mod::lemma_fundamental_div_mod(a, 4);
    vstd::arithmetic::div_mod::lemma_fundamental_div_mod_converse(x, 4, x0 + a / 4, a % 4);
}

/// Position arithmetic: output pixel `x` lies in the enlarged tile of the source
/// tile that its source pixel `x / 4` lies in.
proof fn lemma_enlarged_tile(x: int)
    requires
        0 <= x,
    ensures
        x / 1024 == (x / 4) / 256,
        (x / 4) * 4 <= x,
{
    vstd::arithmetic::div_mod::lemma_fundamental_div_mod(x, 4);
    vstd::arithmetic::div_mod::lemma_fundamental_div_mod(x / 4, 256);
    vstd::arithmetic::div_mod::lemma_fundamental_div_mod_converse(
        x,
        1024,
        (x / 4) / 256,
        ((x / 4) % 256) * 4 + x % 4,
    );
}

/// Upscales an image four times with the Real-ESRGAN model, tile by tile.
///
/// The image is converted to RGBA and cut into 256 by 256 tiles, row by row; each
/// tile is padded with black to full size and handed to `infer` as RGB planes.
/// The corner of the answer that covers the enlarged tile is copied into a canvas
/// four times the size; the alpha of each output pixel is that of the source pixel
/// it enlarges. An error of `infer`, or an answer too small for its enlarged tile,
/// ends the pass with that error before any later tile is run. An image with no
/// pixels is not handed to the model at all.
#[verifier::loop_isolation(false)]
pub fn process_realesrgan<F: Fn(Planar) -> Result<Planar, String>>(img: &Image, infer: F) -> (res:
    Result<Image, String>)
    requires
        forall|p: Planar| call_requires(infer, (p,)),
        4 * img@.width <= u32::MAX,
        4 * img@.height <= u32::MAX,
        (4 * img@.width) * (4 * img@.height) * 4 <= usize::MAX,
    ensures
        model_fits_every_tile(infer, rgba8_view(img@), 256, 4) ==> res is Ok,
        img@.width == 0 || img@.height == 0 ==> res is Ok,
        exists|ins: Seq<Planar>, answers: Seq<Result<Planar, String>>|
            #[trigger] tiled_runs(infer, rgba8_view(img@), 256, 4, ins, answers) && match res {
                Ok(out) => all_tiles_done(rgba8_view(img@), 256, 4, answers) && upscaled(
                    rgba8_view(img@),
                    out@,
                    answers,
                ),
                Err(e) => failed_on_last(rgba8_view(img@), 256, 4, answers, e),
            },
{
    assert(img@.width * img@.height * 4 <= (4 * img@.width) * (4 * img@.height) * 4) by (nonlinear_arith);
    let rgba = img.to_rgba8();
    let (width, height) = rgba.dimensions();
    proof {
        use_type_invariant(&rgba);
    }
    let out_width = width * REALESRGAN_SCALE;
    let out_height = height * REALESRGAN_SCALE;
    let mut out = Image::new(out_width, out_height, ColorKind::Rgba);
    let rows = tile_count_exec(height, REALESRGAN_TILE);
    let cols = tile_count_exec(width, REALESRGAN_TILE);
    proof {
        lemma_tile_count(height as nat, 256, 0);
        lemma_tile_count(width as nat, 256, 0);
    }
    let ghost src = rgba@;
    let ghost mut ins: Seq<Planar> = Seq::empty();
    let ghost mut answers: Seq<Result<Planar, String>> = Seq::empty();
    let mut j: u32 = 0;
    while j < rows
        invariant
            j <= rows,
            out@.kind == ColorKind::Rgba,
            out@.width == out_width,
            out@.height == out_height,
            ins.len() == j * cols,
            tiled_runs(infer, src, 256, 4, ins, answers),
            forall|k: int|
                0 <= k < answers.len() ==> fits_tile(src, 256, 4, k % (cols as int), k / (cols as int), #[trigger] answers[k]),
            forall|x: int, y: int, c: int|
                out@.contains(x, y) && 0 <= c < 4 && y < j * 1024 ==> #[trigger] out@.at(x, y, c)
                    == if c < 3 {
                    answered(answers[tile_index(src, 256, x / 1024, y / 1024)]).at(c, y % 1024, x % 1024)
                } else {
                    src.at(x / 4, y / 4, 3)
                },
        decreases rows - j,
    {
        proof {
            lemma_tile_count(height as nat, 256, j as int);
        }
        let y = j * REALESRGAN_TILE;
        let mut i: u32 = 0;
        while i < cols
            invariant
                j < rows,
                y == j * 256,
                y < height,
                i <= cols,
                out@.kind == ColorKind::Rgba,
                out@.width == out_width,
                out@.height == out_height,
                ins.len() == j * cols + i,
                tiled_runs(infer, src, 256, 4, ins, answers),
                forall|k: int|
                    0 <= k < answers.len() ==> fits_tile(src, 256, 4, k % (cols as int), k / (cols as int), #[trigger] answers[k]),
                forall|x: int, y2: int, c: int|
                    out@.contains(x, y2) && 0 <= c < 4 && (y2 < 4 * y || (y2 < 4 * y + 1024 && x < i
                        * 1024)) ==> #[trigger] out@.at(x, y2, c) == if c < 3 {
                        answered(answers[tile_index(src, 256, x / 1024, y2 / 1024)]).at(c, y2 % 1024, x % 1024)
                    } else {
                        src.at(x / 4, y2 / 4, 3)
                    },
            decreases cols - i,
        {
            proof {
                lemma_tile_count(width as nat, 256, i as int);
                lemma_tile_index(cols as int, rows as int, i as int, j as int);
            }
            let x = i * REALESRGAN_TILE;
            let input = padded_tile(&rgba, x, y, REALESRGAN_TILE);
            let ghost gin = input;
            let answer = infer(input);
            let ghost gans = answer;
            let ghost k = j * cols + i;
            let crop_w = if x + REALESRGAN_TILE > width {
                width - x
            } else {
                REALESRGAN_TILE
            };
            let crop_h = if y + REALESRGAN_TILE > height {
                height - y
            } else {
                REALESRGAN_TILE
            };
            proof {
                assert(is_tile_input(src, 256, i as int, j as int, gin));
                assert(call_ensures(infer, (gin,), gans));
                ins = ins.push(gin);
                answers = answers.push(gans);
                assert(ins[k] == gin);
                assert(answers[k] == gans);
                assert(k % (cols as int) == i && k / (cols as int) == j);
            }
            match answer {
                Err(e) => {
                    proof {
                        assert(!fits_tile(src, 256, 4, i as int, j as int, gans));
                        assert(!model_fits_every_tile(infer, src, 256, 4));
                        assert(tiled_runs(infer, src, 256, 4, ins, answers));
                        assert(failed_on_last(src, 256, 4, answers, e));
                    }
                    let r: Result<Image, String> = Err(e);
                    return r;
                },
                Ok(o) => {
                    let tile_out_w = crop_w * REALESRGAN_SCALE;
                    let tile_out_h = crop_h * REALESRGAN_SCALE;
                    if !o.covers_exec(tile_out_w, tile_out_h) {
                        let r: Result<Image, String> = Err(undersized_output_error());
                        proof {
                            assert(!fits_tile(src, 256, 4, i as int, j as int, gans));
                            assert(!model_fits_every_tile(infer, src, 256, 4));
                            assert(tiled_runs(infer, src, 256, 4, ins, answers));
                            assert(r matches Err(e) && failed_on_last(src, 256, 4, answers, e));
                        }
                        return r;
                    }
                    let ghost go = o;
                    let oref = &o;
                    let rref = &rgba;
                    let pick = |a: u32, b: u32, c: usize| -> (v: u8)
                        requires
                            a < tile_out_w,
                            b < tile_out_h,
                            c < 4,
                        ensures
                            v == if c < 3 {
                                go.at(c as int, b as int, a as int)
                            } else {
                                rref@.at(x + a / 4, y + b / 4, 3)
                            },
                        {
                            if c < 3 {
                                oref.get(c, b as usize, a as usize)
                            } else {
                                rref.sample(x + a / REALESRGAN_SCALE, y + b / REALESRGAN_SCALE, 3)
                            }
                        };
                    assert(tile_out_w * tile_out_h * 4 <= 1024 * 1024 * 4) by (nonlinear_arith)
                        requires
                            tile_out_w <= 1024,
                            tile_out_h <= 1024,
                    ;
                    let region = Image::from_fn(tile_out_w, tile_out_h, ColorKind::Rgba, pick);
                    let dest_x = x * REALESRGAN_SCALE;
                    let dest_y = y * REALESRGAN_SCALE;
                    let ghost before = out@;
                    let ghost old_answers = answers.drop_last();
                    out.replace(&region, dest_x as i64, dest_y as i64);
                    proof {
                        assert(fits_tile(src, 256, 4, i as int, j as int, gans));
                        assert(tiled_runs(infer, src, 256, 4, ins, answers));
                        assert forall|x2: int, y2: int, c: int|
                            out@.contains(x2, y2) && 0 <= c < 4 && (y2 < 4 * y || (y2 < 4 * y + 1024
                                && x2 < (i + 1) * 1024)) implies #[trigger] out@.at(x2, y2, c) == if c
                            < 3 {
                            answered(answers[tile_index(src, 256, x2 / 1024, y2 / 1024)]).at(c, y2 % 1024, x2 % 1024)
                        } else {
                            src.at(x2 / 4, y2 / 4, 3)
                        } by {
                            lemma_pixel_tile(width as nat, 256, x2 / 4);
                            lemma_pixel_tile(height as nat, 256, y2 / 4);
                            lemma_enlarged_tile(x2);
                            lemma_enlarged_tile(y2);
                            if covered_by(region@, dest_x as int, dest_y as int, x2, y2) {
                                vstd::arithmetic::div_mod::lemma_fundamental_div_mod_converse(
                                    x2,
                                    1024,
                                    i as int,
                                    x2 - dest_x,
                                );
                                vstd::arithmetic::div_mod::lemma_fundamental_div_mod_converse(
                                    y2,
                                    1024,
                                    j as int,
                                    y2 - dest_y,
                                );
                                lemma_enlarged_source(x2, x as int, x2 - dest_x);
                                lemma_enlarged_source(y2, y as int, y2 - dest_y);
                            } else {
                                assert(before.at(x2, y2, c) == out@.at(x2, y2, c));
                                if y2 >= dest_y && x2 >= dest_x {
                                    assert(y2 >= dest_y + tile_out_h || x2 >= dest_x + tile_out_w);
                                    assert(false);
                                }
                                if c < 3 {
                                    lemma_tile_index_before(
                                        cols as int,
                                        i as int,
                                        j as int,
                                        x2 / 1024,
                                        y2 / 1024,
                                    );
                                    assert(answers[tile_index(src, 256, x2 / 1024, y2 / 1024)] == old_answers[tile_index(src, 256, x2 / 1024, y2 / 1024)]);
                                }
                            }
                        }
                    }
                },
            }
            i = i + 1;
        }
        proof {
            lemma_tile_count(width as nat, 256, cols as int);
            assert((j + 1) * cols == j * cols + cols) by (nonlinear_arith);
        }
        j = j + 1;
    }
    proof {
        lemma_tile_count(height as nat, 256, rows as int);
        assert(rows * cols == cols * rows) by (nonlinear_arith);
        assert(all_tiles_done(src, 256, 4, answers));
        assert forall|x: int, y: int, c: int|
            out@.contains(x, y) && 0 <= c < 4 implies #[trigger] out@.at(x, y, c) == if c < 3 {
            answered(answers[tile_index(src, 256, x / 1024, y / 1024)]).at(c, y % 1024, x % 1024)
        } else {
            src.at(x / 4, y / 4, 3)
        } by {
            lemma_pixel_tile(height as nat, 256, y / 4);
            lemma_enlarged_tile(y);
        }
        assert(upscaled(src, out@, answers));
    }
    let res: Result<Image, String> = Ok(out);
    assert(res matches Ok(o) && o@ == out@);
    res
}

/// The model answered a 256 by 256 tile with its nearest-neighbour enlargement:
/// every output sample repeats the input sample it lies over.
pub open spec fn enlarges(input: Planar, output: Planar) -> bool {
    forall|c: int, y: int, x: int|
        0 <= c < 3 && 0 <= y < 1024 && 0 <= x < 1024 && y < output.height && x < output.width
            ==> #[trigger] output.at(c, y, x) == input.at(c, y / 4, x / 4)
}

/// Tiles are enlarged in place and alpha follows the pixels: when the model
/// enlarges every tile by repeating each pixel four times across and down, the
/// tiled pass gives the nearest-neighbour enlargement of the image (as RGBA),
/// alpha included.
pub proof fn law_nearest_model_enlarges_image<F: Fn(Planar) -> Result<Planar, String>>(
    infer: F,
    src: ImageView,
    out: ImageView,
    ins: Seq<Planar>,
    answers: Seq<Result<Planar, String>>,
)
    requires
        src.well_formed(),
        src.kind == ColorKind::Rgba,
        tiled_runs(infer, src, 256, 4, ins, answers),
        all_tiles_done(src, 256, 4, answers),
        upscaled(src, out, answers),
        forall|k: int| 0 <= k < ins.len() ==> #[trigger] enlarges(ins[k], answered(answers[k])),
    ensures
        forall|x: int, y: int, c: int|
            out.contains(x, y) && 0 <= c < 4 ==> #[trigger] out.at(x, y, c) == src.at(x / 4, y / 4, c),
{
    assert forall|x: int, y: int, c: int| out.contains(x, y) && 0 <= c < 4 implies #[trigger] out.at(
        x,
        y,
        c,
    ) == src.at(x / 4, y / 4, c) by {
        if c < 3 {
            let i = x / 1024;
            let j = y / 1024;
            let cols = tile_cols(src, 256) as int;
            lemma_enlarged_tile(x);
            lemma_enlarged_tile(y);
            lemma_pixel_tile(src.width, 256, x / 4);
            lemma_pixel_tile(src.height, 256, y / 4);
            lemma_tile_index(cols, tile_count(src.height, 256) as int, i, j);
            let k = j * cols + i;
            vstd::arithmetic::div_mod::lemma_fundamental_div_mod(x, 1024);
            vstd::arithmetic::div_mod::lemma_fundamental_div_mod(y, 1024);
            lemma_enlarged_source(x, 256 * i, x % 1024);
            lemma_enlarged_source(y, 256 * j, y % 1024);
            vstd::arithmetic::div_mod::lemma_fundamental_div_mod(x % 1024, 4);
            vstd::arithmetic::div_mod::lemma_fundamental_div_mod(y % 1024, 4);
            assert(is_tile_input(src, 256, i, j, ins[k]));
            assert(fits_tile(src, 256, 4, i, j, answers[k]));
            assert(enlarges(ins[k], answered(answers[k])));
            assert(ins[k].at(c, (y % 1024) / 4, (x % 1024) / 4) == crate::tensor::padded_sample(
                src,
                (i * 256) as nat,
                (j * 256) as nat,
                256,
                c,
                (y % 1024) / 4,
                (x % 1024) / 4,
            ));
        }
    }
}

/// Every output pixel takes the model's sample at its own place: pixel
/// `(1024 i + a, 1024 j + b)` of the enlarged image has the colour that the answer
/// to tile `(i, j)` (the run numbered `j * columns + i`) holds at row `b`, column
/// `a`, for every `a` and `b` below 1024, and the alpha of source pixel
/// `(256 i + a / 4, 256 j + b / 4)`.
pub proof fn law_output_pixel_takes_its_own_sample(
    src: ImageView,
    out: ImageView,
    answers: Seq<Result<Planar, String>>,
    i: int,
    j: int,
    a: int,
    b: int,
    c: int,
)
    requires
        upscaled(src, out, answers),
        0 <= i,
        0 <= j,
        0 <= a < 1024,
        0 <= b < 1024,
        out.contains(1024 * i + a, 1024 * j + b),
        0 <= c < 4,
    ensures
        out.at(1024 * i + a, 1024 * j + b, c) == if c < 3 {
            answered(answers[j * tile_count(src.width, 256) + i]).at(c, b, a)
        } else {
            src.at(256 * i + a / 4, 256 * j + b / 4, 3)
        },
{
    vstd::arithmetic::div_mod::lemma_fundamental_div_mod_converse(1024 * i + a, 1024, i, a);
    vstd::arithmetic::div_mod::lemma_fundamental_div_mod_converse(1024 * j + b, 1024, j, b);
    lemma_enlarged_source(1024 * i + a, 256 * i, a);
    lemma_enlarged_source(1024 * j + b, 256 * j, b);
    assert(out.at(1024 * i + a, 1024 * j + b, c) == if c < 3 {
        answered(answers[tile_index(src, 256, (1024 * i + a) / 1024, (1024 * j + b) / 1024)]).at(
            c,
            (1024 * j + b) % 1024,
            (1024 * i + a) % 1024,
        )
    } else {
        src.at((1024 * i + a) / 4, (1024 * j + b) / 4, 3)
    });
}

} // verus!
