//! Plane-by-plane 8-bit tensors: the layout (batch, channel, row, column) in
//! which the ONNX models take and give images, one batch of one.
use vstd::prelude::*;

use crate::raster::{flat_index, lemma_flat_index_bounds, lemma_table_size, tabulate, ColorKind, Image, ImageView};

verus! {

/// An 8-bit tensor of shape `(1, channels, height, width)` in standard
/// (row-major) layout: sample `(c, y, x)` lies at `(c * height + y) * width + x`.
pub struct Planar {
    pub channels: usize,
    pub height: usize,
    pub width: usize,
    pub data: Vec<u8>,
}

impl Planar {
    /// The buffer holds exactly one sample per channel, row and column.
    pub open spec fn well_formed(&self) -> bool {
        self.data@.len() == self.channels * self.height * self.width
    }

    /// Sample `(c, y, x)`.
    pub open spec fn at(&self, c: int, y: int, x: int) -> u8 {
        self.data@[flat_index(self.height as nat, self.width as nat, y, c, x)]
    }

    /// The tensor has at least three channels and covers a `width` by `height` corner.
    pub open spec fn covers(&self, width: nat, height: nat) -> bool {
        &&& self.well_formed()
        &&& self.channels >= 3
        &&& self.height >= height
        &&& self.width >= width
    }

    /// Sample `(c, y, x)`.
    pub fn get(&self, c: usize, y: usize, x: usize) -> (v: u8)
        requires
            self.well_formed(),
            c < self.channels,
            y < self.height,
            x < self.width,
        ensures
            v == self.at(c as int, y as int, x as int),
    {
        proof {
            lemma_flat_index_bounds(
                self.height as nat,
                self.channels as nat,
                self.width as nat,
                y as int,
                c as int,
                x as int,
            );
            lemma_table_size(self.channels as nat, self.height as nat, self.width as nat);
        }
        assert(self.data@.len() == self.data.len());
        self.data[(c * self.height + y) * self.width + x]
    }
}

/// How much of a tile of side `t` starting at `origin` fits in `size`
/// (the tile is cut at the image's edge).
pub open spec fn tile_extent(size: nat, origin: nat, t: nat) -> nat {
    if origin + t > size {
        (size - origin) as nat
    } else {
        t
    }
}

/// Sample `(c, y, x)` of the `t` by `t` tile of `src` at `(x0, y0)`, padded with
/// black where the tile reaches past the image.
pub open spec fn padded_sample(src: ImageView, x0: nat, y0: nat, t: nat, c: int, y: int, x: int) -> u8 {
    if x < tile_extent(src.width, x0, t) && y < tile_extent(src.height, y0, t) {
        src.at(x0 + x, y0 + y, c)
    } else {
        0
    }
}

/// The red, green and blue planes of an RGB or RGBA image (alpha is dropped).
pub fn planar_rgb(img: &Image) -> (p: Planar)
    requires
        img@.kind != ColorKind::Luma,
    ensures
        p.well_formed(),
        p.channels == 3,
        p.height == img@.height,
        p.width == img@.width,
        forall|c: int, y: int, x: int|
            0 <= c < 3 && 0 <= y < img@.height && 0 <= x < img@.width ==> #[trigger] p.at(c, y, x)
                == img@.at(x, y, c),
{
    proof {
        use_type_invariant(img);
        assert(3 * img@.height * img@.width <= img@.width * img@.height * img@.chans())
            by (nonlinear_arith)
            requires
                img@.chans() >= 3,
        ;
    }
    let h = img.height() as usize;
    let w = img.width() as usize;
    let f = |c: usize, y: usize, x: usize| -> (r: u8)
        requires
            c < 3,
            y < h,
            x < w,
        ensures
            r == img@.at(x as int, y as int, c as int),
        { img.sample(x as u32, y as u32, c) };
    let data = tabulate(3, h, w, f);
    Planar { channels: 3, height: h, width: w, data }
}

/// The model input for the `t` by `t` tile of `src` at `(x0, y0)`: the part of the
/// image under the tile, copied into a black `t` by `t` canvas of the same layout
/// (`view(..).to_image()` then `imageops::replace` at the origin), as RGB planes.
pub fn padded_tile(src: &Image, x0: u32, y0: u32, t: u32) -> (p: Planar)
    requires
        src@.kind != ColorKind::Luma,
        x0 < src@.width,
        y0 < src@.height,
        x0 + t <= u32::MAX,
        y0 + t <= u32::MAX,
        t * t * 4 <= usize::MAX,
    ensures
        p.well_formed(),
        p.channels == 3,
        p.height == t,
        p.width == t,
        forall|c: int, y: int, x: int|
            0 <= c < 3 && 0 <= y < t && 0 <= x < t ==> #[trigger] p.at(c, y, x) == padded_sample(
                src@,
                x0 as nat,
                y0 as nat,
                t as nat,
                c,
                y,
                x,
            ),
{
    let (w, h) = src.dimensions();
    let crop_w = if x0 + t > w { w - x0 } else { t };
    let crop_h = if y0 + t > h { h - y0 } else { t };
    let crop = src.crop_imm(x0, y0, crop_w, crop_h);
    proof {
        assert(t * t * crate::raster::channel_count(src@.kind) <= t * t * 4) by (nonlinear_arith)
            requires
                crate::raster::channel_count(src@.kind) <= 4,
        ;
    }
    let mut tile = Image::new(t, t, src.kind());
    tile.replace(&crop, 0, 0);
    let p = planar_rgb(&tile);
    assert forall|c: int, y: int, x: int|
        0 <= c < 3 && 0 <= y < t && 0 <= x < t implies #[trigger] p.at(c, y, x) == padded_sample(
            src@,
            x0 as nat,
            y0 as nat,
            t as nat,
            c,
            y,
            x,
        ) by {
        assert(tile@.contains(x, y));
        if x < crop_w && y < crop_h {
        } else {
            lemma_flat_index_bounds(t as nat, t as nat, tile@.chans(), x, y, c);
        }
    }
    p
}

impl Planar {
    /// Whether the buffer holds exactly one sample per channel, row and column.
    pub fn is_well_formed(&self) -> (b: bool)
        ensures
            b == self.well_formed(),
    {
        assert(self.data@.len() == self.data.len());
        match self.channels.checked_mul(self.height) {
            Some(ch) => match ch.checked_mul(self.width) {
                Some(n) => self.data.len() == n,
                None => false,
            },
            None => {
                if self.width == 0 {
                    assert(self.channels * self.height * 0 == 0) by (nonlinear_arith);
                    self.data.len() == 0
                } else {
                    assert(self.channels * self.height * self.width >= self.channels * self.height)
                        by (nonlinear_arith)
                        requires
                            self.width >= 1,
                    ;
                    false
                }
            },
        }
    }

    /// Whether the tensor is well formed, has at least three channels and covers
    /// a `width` by `height` corner.
    pub fn covers_exec(&self, width: u32, height: u32) -> (b: bool)
        ensures
            b == self.covers(width as nat, height as nat),
    {
        self.is_well_formed() && self.channels >= 3 && self.height >= height as usize && self.width
            >= width as usize
    }
}

/// Number of tiles of side `t` that cover `size`, the last one possibly cut.
pub open spec fn tile_count(size: nat, t: nat) -> nat {
    size / t + if size % t == 0 {
        0nat
    } else {
        1nat
    }
}

/// Tile `i` exists exactly when it starts inside the image.
pub proof fn lemma_tile_count(size: nat, t: nat, i: int)
    requires
        t > 0,
        0 <= i,
    ensures
        (i < tile_count(size, t)) <==> (i * t < size),
        tile_count(size, t) <= size,
{
    let q = size / t;
    let r = size % t;
    vstd::arithmetic::div_mod::lemma_fundamental_div_mod(size as int, t as int);
    assert(size == t * q + r);
    if r == 0 {
        assert((i < q) <==> (i * t < size)) by (nonlinear_arith)
            requires
                size == t * q,
                t > 0,
                0 <= i,
        ;
        assert(q <= size) by (nonlinear_arith)
            requires
                size == t * q,
                t > 0,
                q >= 0,
        ;
    } else {
        assert((i < q + 1) <==> (i * t < size)) by (nonlinear_arith)
            requires
                size == t * q + r,
                0 < r < t,
                0 <= i,
        ;
        assert(q + 1 <= size) by (nonlinear_arith)
            requires
                size == t * q + r,
                0 < r < t,
                q >= 0,
        ;
    }
}

/// Number of tiles of side `t` that cover `size`.
pub fn tile_count_exec(size: u32, t: u32) -> (n: u32)
    requires
        t > 0,
    ensures
        n == tile_count(size as nat, t as nat),
{
    proof {
        lemma_tile_count(size as nat, t as nat, 0);
    }
    size / t + if size % t == 0 {
        0
    } else {
        1
    }
}

/// `p` is the model input for tile `(i, j)` of side `t` of `src`: the tile's
/// RGB planes, padded with black to `t` by `t`.
pub open spec fn is_tile_input(src: ImageView, t: nat, i: int, j: int, p: Planar) -> bool {
    &&& p.well_formed()
    &&& p.channels == 3
    &&& p.height == t
    &&& p.width == t
    &&& forall|c: int, y: int, x: int|
        0 <= c < 3 && 0 <= y < t && 0 <= x < t ==> #[trigger] p.at(c, y, x) == padded_sample(
            src,
            (i * t) as nat,
            (j * t) as nat,
            t,
            c,
            y,
            x,
        )
}

/// The model's answer `r` to tile `(i, j)` of side `t` is usable: it is a
/// tensor with at least three channels that covers `scale` times the part of the
/// tile that lies inside the image.
pub open spec fn fits_tile(src: ImageView, t: nat, scale: nat, i: int, j: int, r: Result<Planar, String>) -> bool {
    r matches Ok(o) && o.covers(
        tile_extent(src.width, (i * t) as nat, t) * scale,
        tile_extent(src.height, (j * t) as nat, t) * scale,
    )
}

/// The tensor of an answer that is not an error.
pub open spec fn answered(r: Result<Planar, String>) -> Planar {
    r->Ok_0
}

/// Number of tiles of side `t` in a row of `src`.
pub open spec fn tile_cols(src: ImageView, t: nat) -> nat {
    tile_count(src.width, t)
}

/// Number of tiles of side `t` that cover `src`.
pub open spec fn tiles_in(src: ImageView, t: nat) -> nat {
    tile_count(src.width, t) * tile_count(src.height, t)
}

/// Position of tile `(i, j)` in the order in which the tiles are run: row by
/// row, left to right.
pub open spec fn tile_index(src: ImageView, t: nat, i: int, j: int) -> int {
    j * tile_cols(src, t) + i
}

/// The model runs of a tiled pass over `src` with tiles of side `t`: run `k`
/// was handed tile `k` in row-by-row order and answered `answers[k]`, and every
/// run before the last was answered with a usable tensor.
pub open spec fn tiled_runs<F: Fn(Planar) -> Result<Planar, String>>(
    infer: F,
    src: ImageView,
    t: nat,
    scale: nat,
    ins: Seq<Planar>,
    answers: Seq<Result<Planar, String>>,
) -> bool {
    let cols = tile_cols(src, t) as int;
    &&& ins.len() == answers.len()
    &&& ins.len() <= tiles_in(src, t)
    &&& forall|k: int|
        0 <= k < ins.len() ==> is_tile_input(src, t, k % cols, k / cols, #[trigger] ins[k])
            && call_ensures(infer, (ins[k],), answers[k])
    &&& forall|k: int|
        0 <= k < ins.len() - 1 ==> fits_tile(src, t, scale, k % cols, k / cols, #[trigger] answers[k])
}

/// Every tile of the pass was run and answered with a usable tensor.
pub open spec fn all_tiles_done(
    src: ImageView,
    t: nat,
    scale: nat,
    answers: Seq<Result<Planar, String>>,
) -> bool {
    let cols = tile_cols(src, t) as int;
    &&& answers.len() == tiles_in(src, t)
    &&& forall|k: int|
        0 <= k < answers.len() ==> fits_tile(src, t, scale, k % cols, k / cols, #[trigger] answers[k])
}

/// Whatever the model answers on each tile's input is usable.
pub open spec fn model_fits_every_tile<F: Fn(Planar) -> Result<Planar, String>>(
    infer: F,
    src: ImageView,
    t: nat,
    scale: nat,
) -> bool {
    forall|i: int, j: int, p: Planar, r: Result<Planar, String>|
        0 <= i < tile_count(src.width, t) && 0 <= j < tile_count(src.height, t) && #[trigger] is_tile_input(
            src,
            t,
            i,
            j,
            p,
        ) && #[trigger] call_ensures(infer, (p,), r) ==> fits_tile(src, t, scale, i, j, r)
}

/// Tile `(i, j)` is run at position `j * cols + i`: for a tile inside the grid
/// that position lies in the grid and gives the tile back.
pub proof fn lemma_tile_index(cols: int, rows: int, i: int, j: int)
    requires
        0 <= i < cols,
        0 <= j < rows,
    ensures
        0 <= j * cols + i < cols * rows,
        (j * cols + i) % cols == i,
        (j * cols + i) / cols == j,
{
    assert(0 <= j * cols + i < cols * rows) by (nonlinear_arith)
        requires
            0 <= i < cols,
            0 <= j < rows,
    ;
    vstd::arithmetic::div_mod::lemma_fundamental_div_mod_converse(j * cols + i, cols, j, i);
}

/// A tile of an earlier row, or an earlier tile of the same row, is run before
/// tile `(i, j)`.
pub proof fn lemma_tile_index_before(cols: int, i: int, j: int, i2: int, j2: int)
    requires
        0 <= i2 < cols,
        0 <= i,
        0 <= j2,
        j2 < j || (j2 == j && i2 < i),
    ensures
        j2 * cols + i2 < j * cols + i,
{
    if j2 < j {
        assert(j2 * cols + cols <= j * cols) by (nonlinear_arith)
            requires
                j2 < j,
                cols > 0,
        ;
    }
}

/// The tile that pixel `x` of a row lies in is one of the row's tiles.
pub proof fn lemma_pixel_tile(size: nat, t: nat, x: int)
    requires
        t > 0,
        0 <= x < size,
    ensures
        0 <= x / (t as int) < tile_count(size, t),
        (x / (t as int)) * t <= x < (x / (t as int)) * t + t,
        x % (t as int) == x - (x / (t as int)) * t,
{
    let ti = t as int;
    let q = x / ti;
    let r = x % ti;
    vstd::arithmetic::div_mod::lemma_fundamental_div_mod(x, ti);
    assert(0 <= r < ti);
    assert(q * ti == ti * q) by (nonlinear_arith);
    assert(x == q * ti + r);
    assert(q >= 0) by (nonlinear_arith)
        requires
            x == q * ti + r,
            0 <= x,
            r < ti,
            ti > 0,
    ;
    lemma_tile_count(size, t, q);
    assert(q * ti <= x < q * ti + ti);
}

} // verus!
