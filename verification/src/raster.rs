//! 8-bit raster images: the pixel model that every stage of the pipeline works on.
//!
//! An [`Image`] holds its samples row by row, pixel by pixel, channel by channel,
//! exactly as an `image::ImageBuffer` does. Its view is an [`ImageView`], over which
//! all contracts of the crate are written.
use image::imageops::FilterType;
use image::{DynamicImage, ImageBuffer};
use vstd::prelude::*;

verus! {

/// Pixel layout of an 8-bit image.
#[derive(Clone, Copy, Debug, PartialEq, Eq, Structural)]
pub enum ColorKind {
    /// One grey sample per pixel.
    Luma,
    /// Red, green and blue samples.
    Rgb,
    /// Red, green, blue and alpha samples.
    Rgba,
}

/// Number of samples that one pixel of `kind` occupies.
pub open spec fn channel_count(kind: ColorKind) -> nat {
    match kind {
        ColorKind::Luma => 1,
        ColorKind::Rgb => 3,
        ColorKind::Rgba => 4,
    }
}

/// Number of samples that one pixel of `kind` occupies.
pub fn channels_of(kind: ColorKind) -> (c: usize)
    ensures
        c as nat == channel_count(kind),
{
    match kind {
        ColorKind::Luma => 1,
        ColorKind::Rgb => 3,
        ColorKind::Rgba => 4,
    }
}

/// Position of sample `k` of pixel `(x, y)` in a row-major buffer.
pub open spec fn flat_index(width: nat, chans: nat, x: int, y: int, k: int) -> int {
    (y * width + x) * chans + k
}

/// The luminance that `image` stores for an RGB triple (ITU-R BT.709 weights,
/// integer arithmetic, rounded down).
pub open spec fn luma_of(r: u8, g: u8, b: u8) -> u8 {
    ((2126 * r + 7152 * g + 722 * b) / 10000) as u8
}

/// The samples that a pixel of `kind` stores when an RGBA colour `p` is written to it.
pub open spec fn stored_samples(kind: ColorKind, p: Seq<u8>) -> Seq<u8> {
    match kind {
        ColorKind::Luma => seq![luma_of(p[0], p[1], p[2])],
        ColorKind::Rgb => seq![p[0], p[1], p[2]],
        ColorKind::Rgba => seq![p[0], p[1], p[2], p[3]],
    }
}

/// Mathematical model of an [`Image`].
pub struct ImageView {
    pub width: nat,
    pub height: nat,
    pub kind: ColorKind,
    pub data: Seq<u8>,
}

impl ImageView {
    pub open spec fn chans(self) -> nat {
        channel_count(self.kind)
    }

    /// Dimensions fit in `u32`, the buffer holds exactly one sample per channel and
    /// pixel, and its length fits in `usize`.
    pub open spec fn well_formed(self) -> bool {
        &&& self.width <= u32::MAX
        &&& self.height <= u32::MAX
        &&& self.data.len() == self.width * self.height * self.chans()
        &&& self.data.len() <= usize::MAX
    }

    pub open spec fn contains(self, x: int, y: int) -> bool {
        0 <= x < self.width && 0 <= y < self.height
    }

    /// Sample `k` of pixel `(x, y)`.
    pub open spec fn at(self, x: int, y: int, k: int) -> u8 {
        self.data[flat_index(self.width, self.chans(), x, y, k)]
    }

    /// Pixel `(x, y)` read as RGBA, as `GenericImageView::get_pixel` of a
    /// `DynamicImage` reads it: grey is copied to red, green and blue, and a
    /// missing alpha is opaque.
    pub open spec fn rgba(self, x: int, y: int) -> Seq<u8> {
        match self.kind {
            ColorKind::Luma => seq![self.at(x, y, 0), self.at(x, y, 0), self.at(x, y, 0), 255u8],
            ColorKind::Rgb => seq![self.at(x, y, 0), self.at(x, y, 1), self.at(x, y, 2), 255u8],
            ColorKind::Rgba => seq![
                self.at(x, y, 0),
                self.at(x, y, 1),
                self.at(x, y, 2),
                self.at(x, y, 3),
            ],
        }
    }

    /// Same size and layout.
    pub open spec fn same_shape(self, other: ImageView) -> bool {
        &&& self.width == other.width
        &&& self.height == other.height
        &&& self.kind == other.kind
    }

    /// All samples of every pixel agree.
    pub open spec fn same_pixels(self, other: ImageView) -> bool {
        &&& self.same_shape(other)
        &&& forall|x: int, y: int, k: int|
            self.contains(x, y) && 0 <= k < self.chans() ==> #[trigger] self.at(x, y, k)
                == other.at(x, y, k)
    }
}

/// Index arithmetic: a sample of a pixel inside the image lies inside the buffer.
pub proof fn lemma_flat_index_bounds(w: nat, h: nat, c: nat, x: int, y: int, k: int)
    requires
        0 <= x < w,
        0 <= y < h,
        0 <= k < c,
    ensures
        0 <= y * w + x < w * h,
        0 <= flat_index(w, c, x, y, k) < w * h * c,
        flat_index(w, c, x, y, k) == (y * w + x) * c + k,
        (y * w + x) * c + c <= w * h * c,
        w * h <= w * h * c,
{
    assert(0 <= y * w) by (nonlinear_arith)
        requires
            0 <= y,
    ;
    assert(y * w + x < w * h) by (nonlinear_arith)
        requires
            0 <= x < w,
            0 <= y < h,
    ;
    let n = y * w + x;
    assert(0 <= n * c) by (nonlinear_arith)
        requires
            0 <= n,
    ;
    assert(n * c + c <= w * h * c) by (nonlinear_arith)
        requires
            0 <= n < w * h,
    ;
    assert(w * h <= w * h * c) by (nonlinear_arith)
        requires
            0 <= k < c,
            0 <= w * h,
    ;
}

/// Index arithmetic: distinct samples of pixels inside the image occupy distinct positions.
pub proof fn lemma_flat_index_injective(
    w: nat,
    c: nat,
    x1: int,
    y1: int,
    k1: int,
    x2: int,
    y2: int,
    k2: int,
)
    requires
        0 <= x1 < w,
        0 <= x2 < w,
        0 <= y1,
        0 <= y2,
        0 <= k1 < c,
        0 <= k2 < c,
        flat_index(w, c, x1, y1, k1) == flat_index(w, c, x2, y2, k2),
    ensures
        x1 == x2,
        y1 == y2,
        k1 == k2,
{
    let n1 = y1 * w + x1;
    let n2 = y2 * w + x2;
    assert(n1 == n2 && k1 == k2) by (nonlinear_arith)
        requires
            0 <= k1 < c,
            0 <= k2 < c,
            n1 * c + k1 == n2 * c + k2,
    ;
    assert(y1 == y2 && x1 == x2) by (nonlinear_arith)
        requires
            0 <= x1 < w,
            0 <= x2 < w,
            0 <= y1,
            0 <= y2,
            y1 * w + x1 == y2 * w + x2,
    ;
}

/// Index arithmetic: positions grow with the lexicographic order of `(y, x, k)`.
pub proof fn lemma_flat_index_lex(
    w: nat,
    c: nat,
    x1: int,
    y1: int,
    k1: int,
    x2: int,
    y2: int,
    k2: int,
)
    requires
        0 <= x1 < w,
        0 <= x2 <= w,
        0 <= y1,
        0 <= k1 < c,
        0 <= k2,
        y1 < y2 || (y1 == y2 && x1 < x2) || (y1 == y2 && x1 == x2 && k1 < k2),
    ensures
        flat_index(w, c, x1, y1, k1) < flat_index(w, c, x2, y2, k2),
{
    let n1 = y1 * w + x1;
    let n2 = y2 * w + x2;
    if y1 < y2 || x1 < x2 {
        assert(n1 < n2) by (nonlinear_arith)
            requires
                0 <= x1 < w,
                0 <= x2,
                0 <= y1,
                y1 < y2 || (y1 == y2 && x1 < x2),
                n1 == y1 * w + x1,
                n2 == y2 * w + x2,
        ;
        assert(n1 * c + k1 < n2 * c + k2) by (nonlinear_arith)
            requires
                0 <= n1 < n2,
                0 <= k1 < c,
                0 <= k2,
        ;
    }
}

/// Index arithmetic: the sample after the last of a pixel is the first of the next
/// pixel, and the pixel after the last of a row is the first of the next row.
pub proof fn lemma_flat_index_step(w: nat, c: nat, x: int, y: int)
    ensures
        flat_index(w, c, x, y, c as int) == flat_index(w, c, x + 1, y, 0),
        flat_index(w, c, w as int, y, 0) == flat_index(w, c, 0, y + 1, 0),
{
    assert((y * w + x) * c + c == (y * w + x + 1) * c) by (nonlinear_arith);
    assert((y * w + w) * c == ((y + 1) * w) * c) by (nonlinear_arith);
}

/// Index arithmetic: the buffer of `n0` rows of `n1` cells of `n2` samples has
/// `n0 * n1 * n2` samples, and every sample of it fits below that bound.
pub proof fn lemma_table_size(n0: nat, n1: nat, n2: nat)
    ensures
        flat_index(n1, n2, 0, n0 as int, 0) == n0 * n1 * n2,
        n1 * n0 * n2 == n0 * n1 * n2,
{
    assert((n0 * n1 + 0) * n2 + 0 == n0 * n1 * n2) by (nonlinear_arith);
    assert(n1 * n0 * n2 == n0 * n1 * n2) by (nonlinear_arith);
}

/// A row-major 8-bit raster, the library's counterpart of the 8-bit variants
/// of `image::DynamicImage`.
#[derive(Debug)]
pub struct Image {
    width: u32,
    height: u32,
    kind: ColorKind,
    data: Vec<u8>,
}

impl View for Image {
    type V = ImageView;

    closed spec fn view(&self) -> ImageView {
        ImageView {
            width: self.width as nat,
            height: self.height as nat,
            kind: self.kind,
            data: self.data@,
        }
    }
}

/// A row-major table of `n0 * n1 * n2` bytes whose entry `(a, b, c)`, at
/// `flat_index(n1, n2, b, a, c)`, is `f(a, b, c)`.
pub fn tabulate<F: Fn(usize, usize, usize) -> u8>(n0: usize, n1: usize, n2: usize, f: F) -> (v: Vec<u8>)
    requires
        n0 * n1 * n2 <= usize::MAX,
        forall|a: usize, b: usize, c: usize|
            a < n0 && b < n1 && c < n2 ==> call_requires(f, (a, b, c)),
    ensures
        v@.len() == n0 * n1 * n2,
        forall|a: int, b: int, c: int|
            0 <= a < n0 && 0 <= b < n1 && 0 <= c < n2 ==> call_ensures(
                f,
                (a as usize, b as usize, c as usize),
                #[trigger] v@[flat_index(n1 as nat, n2 as nat, b, a, c)],
            ),
{
    let ghost w = n1 as nat;
    let ghost ch = n2 as nat;
    proof {
        lemma_table_size(n0 as nat, n1 as nat, n2 as nat);
        assert(flat_index(w, ch, 0, 0, 0) == 0) by (nonlinear_arith);
    }
    let mut v: Vec<u8> = Vec::new();
    let mut a: usize = 0;
    while a < n0
        invariant
            a <= n0,
            n0 * n1 * n2 <= usize::MAX,
            w == n1 as nat,
            ch == n2 as nat,
            forall|a: usize, b: usize, c: usize|
                a < n0 && b < n1 && c < n2 ==> call_requires(f, (a, b, c)),
            v@.len() == flat_index(w, ch, 0, a as int, 0),
            forall|aa: int, bb: int, cc: int|
                0 <= aa < a && 0 <= bb < n1 && 0 <= cc < n2 ==> call_ensures(
                    f,
                    (aa as usize, bb as usize, cc as usize),
                    #[trigger] v@[flat_index(w, ch, bb, aa, cc)],
                ),
        decreases n0 - a,
    {
        let mut b: usize = 0;
        while b < n1
            invariant
                a < n0,
                b <= n1,
                n0 * n1 * n2 <= usize::MAX,
                w == n1 as nat,
                ch == n2 as nat,
                forall|a: usize, b: usize, c: usize|
                    a < n0 && b < n1 && c < n2 ==> call_requires(f, (a, b, c)),
                v@.len() == flat_index(w, ch, b as int, a as int, 0),
                forall|aa: int, bb: int, cc: int|
                    0 <= bb < n1 && 0 <= cc < n2 && (0 <= aa < a || (aa == a && 0 <= bb < b))
                        ==> call_ensures(
                        f,
                        (aa as usize, bb as usize, cc as usize),
                        #[trigger] v@[flat_index(w, ch, bb, aa, cc)],
                    ),
            decreases n1 - b,
        {
            let mut c: usize = 0;
            while c < n2
                invariant
                    a < n0,
                    b < n1,
                    c <= n2,
                    n0 * n1 * n2 <= usize::MAX,
                    w == n1 as nat,
                    ch == n2 as nat,
                    forall|a: usize, b: usize, c: usize|
                        a < n0 && b < n1 && c < n2 ==> call_requires(f, (a, b, c)),
                    v@.len() == flat_index(w, ch, b as int, a as int, c as int),
                    forall|aa: int, bb: int, cc: int|
                        0 <= bb < n1 && 0 <= cc < n2 && (0 <= aa < a || (aa == a && 0 <= bb < b) || (
                        aa == a && bb == b && 0 <= cc < c)) ==> call_ensures(
                            f,
                            (aa as usize, bb as usize, cc as usize),
                            #[trigger] v@[flat_index(w, ch, bb, aa, cc)],
                        ),
                decreases n2 - c,
            {
                proof {
                    lemma_flat_index_bounds(w, n0 as nat, ch, b as int, a as int, c as int);
                }
                let x = f(a, b, c);
                let ghost old_v = v@;
                v.push(x);
                proof {
                    assert forall|aa: int, bb: int, cc: int|
                        0 <= bb < n1 && 0 <= cc < n2 && (0 <= aa < a || (aa == a && 0 <= bb < b) || (
                        aa == a && bb == b && 0 <= cc < c + 1)) implies call_ensures(
                            f,
                            (aa as usize, bb as usize, cc as usize),
                            #[trigger] v@[flat_index(w, ch, bb, aa, cc)],
                        ) by {
                        if aa == a && bb == b && cc == c {
                        } else {
                            lemma_flat_index_lex(w, ch, bb, aa, cc, b as int, a as int, c as int);
                            assert(v@[flat_index(w, ch, bb, aa, cc)] == old_v[flat_index(w, ch, bb, aa, cc)]);
                        }
                    }
                }
                c = c + 1;
            }
            proof {
                lemma_flat_index_step(w, ch, b as int, a as int);
            }
            b = b + 1;
        }
        proof {
            lemma_flat_index_step(w, ch, b as int, a as int);
        }
        a = a + 1;
    }
    v
}

/// A vector of `n` zero bytes.
fn zeroed(n: usize) -> (v: Vec<u8>)
    ensures
        v@ == Seq::new(n as nat, |i: int| 0u8),
{
    let mut v: Vec<u8> = Vec::with_capacity(n);
    let mut i: usize = 0;
    while i < n
        invariant
            i <= n,
            v@ == Seq::new(i as nat, |j: int| 0u8),
        decreases n - i,
    {
        v.push(0u8);
        i = i + 1;
    }
    v
}

impl Image {
    #[verifier::type_invariant]
    pub open spec fn inv(self) -> bool {
        self@.well_formed()
    }

    /// A black (all samples zero) image, as `ImageBuffer::new` makes it.
    pub fn new(width: u32, height: u32, kind: ColorKind) -> (img: Image)
        requires
            width * height * channel_count(kind) <= usize::MAX,
        ensures
            img@.width == width,
            img@.height == height,
            img@.kind == kind,
            img@.data == Seq::new((width * height * channel_count(kind)) as nat, |i: int| 0u8),
    {
        let c = channels_of(kind);
        assert(0 <= width * height) by (nonlinear_arith);
        assert(width * height <= width * height * c) by (nonlinear_arith)
            requires
                c >= 1,
        ;
        let n = (width as usize) * (height as usize) * c;
        Image { width, height, kind, data: zeroed(n) }
    }

    /// Wraps a raw sample buffer; `None` unless it holds exactly one sample per
    /// channel and pixel.
    pub fn from_raw(width: u32, height: u32, kind: ColorKind, data: Vec<u8>) -> (res: Option<Image>)
        ensures
            res is Some <==> data@.len() == width * height * channel_count(kind),
            res matches Some(img) ==> img@ == (ImageView {
                width: width as nat,
                height: height as nat,
                kind,
                data: data@,
            }),
    {
        let c = channels_of(kind);
        let len = data.len();
        let w = width as u64;
        let h = height as u64;
        assert(w * h <= u32::MAX * u32::MAX) by (nonlinear_arith)
            requires
                w <= u32::MAX,
                h <= u32::MAX,
        ;
        let wh = w * h;
        if wh > (usize::MAX as u64) / (c as u64) {
            assert(wh * c > usize::MAX) by (nonlinear_arith)
                requires
                    wh > (usize::MAX as int) / (c as int),
                    c >= 1,
            ;
            return None;
        }
        assert(wh * c <= usize::MAX) by (nonlinear_arith)
            requires
                wh <= (usize::MAX as int) / (c as int),
                c >= 1,
        ;
        let n = (wh as usize) * c;
        if data.len() == n {
            Some(Image { width, height, kind, data })
        } else {
            None
        }
    }

    /// The raw sample buffer.
    pub fn into_raw(self) -> (data: Vec<u8>)
        ensures
            data@ == self@.data,
    {
        self.data
    }

    /// The raw sample buffer.
    pub fn as_raw(&self) -> (data: &Vec<u8>)
        ensures
            data@ == self@.data,
    {
        &self.data
    }

    pub fn width(&self) -> (w: u32)
        ensures
            w == self@.width,
    {
        self.width
    }

    pub fn height(&self) -> (h: u32)
        ensures
            h == self@.height,
    {
        self.height
    }

    pub fn kind(&self) -> (k: ColorKind)
        ensures
            k == self@.kind,
    {
        self.kind
    }

    /// `(width, height)`, as `GenericImageView::dimensions` gives it.
    pub fn dimensions(&self) -> (d: (u32, u32))
        ensures
            d.0 == self@.width,
            d.1 == self@.height,
    {
        (self.width, self.height)
    }

    /// Position in the buffer of the first sample of pixel `(x, y)`.
    fn offset(&self, x: u32, y: u32) -> (i: usize)
        requires
            self@.contains(x as int, y as int),
        ensures
            i == flat_index(self@.width, self@.chans(), x as int, y as int, 0),
            i + self@.chans() <= self@.data.len(),
            self@.data.len() <= usize::MAX,
    {
        proof {
            use_type_invariant(self);
            lemma_flat_index_bounds(
                self@.width,
                self@.height,
                self@.chans(),
                x as int,
                y as int,
                0,
            );
        }
        let c = channels_of(self.kind);
        let n = (y as usize) * (self.width as usize) + (x as usize);
        n * c
    }

    /// Sample `k` of pixel `(x, y)`.
    pub fn sample(&self, x: u32, y: u32, k: usize) -> (v: u8)
        requires
            self@.contains(x as int, y as int),
            k < self@.chans(),
        ensures
            v == self@.at(x as int, y as int, k as int),
    {
        let i = self.offset(x, y);
        self.data[i + k]
    }

    /// Pixel `(x, y)` as RGBA (`GenericImageView::get_pixel` on a `DynamicImage`).
    pub fn get_pixel(&self, x: u32, y: u32) -> (p: [u8; 4])
        requires
            self@.contains(x as int, y as int),
        ensures
            p@ == self@.rgba(x as int, y as int),
    {
        let i = self.offset(x, y);
        let p = match self.kind {
            ColorKind::Luma => {
                let l = self.data[i];
                [l, l, l, 255u8]
            },
            ColorKind::Rgb => [self.data[i], self.data[i + 1], self.data[i + 2], 255u8],
            ColorKind::Rgba => [self.data[i], self.data[i + 1], self.data[i + 2], self.data[i + 3]],
        };
        assert(p@ =~= self@.rgba(x as int, y as int));
        p
    }
}

/// Pixel `(px, py)` of an image lies under pixel `(px - x, py - y)` of `top` when
/// `top` is laid with its origin at `(x, y)`.
pub open spec fn covered_by(top: ImageView, x: int, y: int, px: int, py: int) -> bool {
    0 <= px - x < top.width && 0 <= py - y < top.height
}

/// Where `imageops::crop_imm` clamps a requested rectangle to: the origin is
/// moved inside the image and the size shrunk to what remains of it.
pub open spec fn clamped_rect(
    iw: nat,
    ih: nat,
    x: nat,
    y: nat,
    w: nat,
    h: nat,
) -> (nat, nat, nat, nat) {
    let cx = if x < iw { x } else { iw };
    let cy = if y < ih { y } else { ih };
    let cw = if w < iw - cx { w } else { (iw - cx) as nat };
    let ch = if h < ih - cy { h } else { (ih - cy) as nat };
    (cx, cy, cw, ch)
}

/// `res` is `old` with the RGBA colour `p` written to pixel `(x, y)` in the
/// image's layout, and every other pixel kept.
pub open spec fn is_put(res: ImageView, old: ImageView, x: int, y: int, p: Seq<u8>) -> bool {
    &&& res.same_shape(old)
    &&& forall|px: int, py: int, pk: int|
        res.contains(px, py) && 0 <= pk < res.chans() ==> #[trigger] res.at(px, py, pk) == if px
            == x && py == y {
            stored_samples(old.kind, p)[pk]
        } else {
            old.at(px, py, pk)
        }
}

/// `res` is the part of `src` inside the rectangle at `(x, y)` of size `w` by
/// `h`, clamped to `src` as `imageops::crop_imm` clamps it.
pub open spec fn is_crop(res: ImageView, src: ImageView, x: nat, y: nat, w: nat, h: nat) -> bool {
    let (cx, cy, cw, ch) = clamped_rect(src.width, src.height, x, y, w, h);
    &&& res.width == cw
    &&& res.height == ch
    &&& res.kind == src.kind
    &&& forall|i: int, j: int, k: int|
        res.contains(i, j) && 0 <= k < res.chans() ==> #[trigger] res.at(i, j, k) == src.at(
            cx + i,
            cy + j,
            k,
        )
}

/// `res` is `bottom` with `top` laid over it, origin at `(x, y)`: pixels under
/// `top` take its samples, the others are kept.
pub open spec fn is_replacement(res: ImageView, bottom: ImageView, top: ImageView, x: int, y: int) -> bool {
    &&& res.same_shape(bottom)
    &&& forall|px: int, py: int, k: int|
        res.contains(px, py) && 0 <= k < res.chans() ==> #[trigger] res.at(px, py, k) == if covered_by(
            top,
            x,
            y,
            px,
            py,
        ) {
            top.at(px - x, py - y, k)
        } else {
            bottom.at(px, py, k)
        }
}

impl Image {
    /// An image whose sample `k` of pixel `(x, y)` is `f(x, y, k)`
    /// (`ImageBuffer::from_fn`, one sample at a time).
    pub fn from_fn<F: Fn(u32, u32, usize) -> u8>(width: u32, height: u32, kind: ColorKind, f: F) -> (img:
        Image)
        requires
            width * height * channel_count(kind) <= usize::MAX,
            forall|x: u32, y: u32, k: usize|
                x < width && y < height && k < channel_count(kind) ==> call_requires(f, (x, y, k)),
        ensures
            img@.width == width,
            img@.height == height,
            img@.kind == kind,
            forall|x: int, y: int, k: int|
                0 <= x < width && 0 <= y < height && 0 <= k < channel_count(kind) ==> call_ensures(
                    f,
                    (x as u32, y as u32, k as usize),
                    #[trigger] img@.at(x, y, k),
                ),
    {
        let c = channels_of(kind);
        proof {
            lemma_table_size(height as nat, width as nat, c as nat);
        }
        let fr = &f;
        let g = |y: usize, x: usize, k: usize| -> (r: u8)
            requires
                y < height,
                x < width,
                k < c,
            ensures
                call_ensures(*fr, (x as u32, y as u32, k), r),
            { fr(x as u32, y as u32, k) };
        let data = tabulate(height as usize, width as usize, c, g);
        let img = Image { width, height, kind, data };
        assert forall|x: int, y: int, k: int|
            0 <= x < width && 0 <= y < height && 0 <= k < channel_count(kind) implies call_ensures(
                f,
                (x as u32, y as u32, k as usize),
                #[trigger] img@.at(x, y, k),
            ) by {
            assert(call_ensures(
                g,
                (y as usize, x as usize, k as usize),
                data@[flat_index(width as nat, c as nat, x, y, k)],
            ));
        }
        img
    }

    /// Overwrites sample `k` of pixel `(x, y)` with `v`.
    fn set_sample(&mut self, x: u32, y: u32, k: usize, v: u8)
        requires
            old(self)@.contains(x as int, y as int),
            k < old(self)@.chans(),
        ensures
            final(self)@.same_shape(old(self)@),
            forall|px: int, py: int, pk: int|
                final(self)@.contains(px, py) && 0 <= pk < final(self)@.chans() ==> #[trigger] final(self)@.at(px, py, pk) == if px == x && py == y && pk == k {
                    v
                } else {
                    old(self)@.at(px, py, pk)
                },
    {
        proof {
            use_type_invariant(&*self);
        }
        let i = self.offset(x, y);
        let ghost old_view = self@;
        assert(0nat * 0nat * 1nat == 0nat) by (nonlinear_arith);
        let mut taken = Image { width: 0, height: 0, kind: ColorKind::Luma, data: Vec::new() };
        std::mem::swap(&mut taken, self);
        let Image { width, height, kind, mut data } = taken;
        data.set(i + k, v);
        *self = Image { width, height, kind, data };
        proof {
            assert forall|px: int, py: int, pk: int|
                self@.contains(px, py) && 0 <= pk < self@.chans() implies #[trigger] self@.at(
                px,
                py,
                pk,
            ) == if px == x && py == y && pk == k {
                v
            } else {
                old_view.at(px, py, pk)
            } by {
                lemma_flat_index_bounds(old_view.width, old_view.height, old_view.chans(), px, py, pk);
                if flat_index(old_view.width, old_view.chans(), px, py, pk) == i + k {
                    lemma_flat_index_injective(
                        old_view.width,
                        old_view.chans(),
                        px,
                        py,
                        pk,
                        x as int,
                        y as int,
                        k as int,
                    );
                }
            }
        }
    }

    /// Writes the RGBA colour `p` to pixel `(x, y)`, converted to the image's
    /// layout (`GenericImage::put_pixel` on a `DynamicImage`).
    pub fn put_pixel(&mut self, x: u32, y: u32, p: [u8; 4])
        requires
            old(self)@.contains(x as int, y as int),
        ensures
            is_put(final(self)@, old(self)@, x as int, y as int, p@),
    {
        match self.kind {
            ColorKind::Luma => {
                let l = (2126u32 * (p[0] as u32) + 7152u32 * (p[1] as u32) + 722u32 * (p[2] as u32))
                    / 10000u32;
                self.set_sample(x, y, 0, l as u8);
            },
            ColorKind::Rgb => {
                self.set_sample(x, y, 0, p[0]);
                self.set_sample(x, y, 1, p[1]);
                self.set_sample(x, y, 2, p[2]);
            },
            ColorKind::Rgba => {
                self.set_sample(x, y, 0, p[0]);
                self.set_sample(x, y, 1, p[1]);
                self.set_sample(x, y, 2, p[2]);
                self.set_sample(x, y, 3, p[3]);
            },
        }
    }

    /// The part of the image inside the rectangle at `(x, y)` of size `width` by
    /// `height`, clamped to the image (`DynamicImage::crop_imm`).
    pub fn crop_imm(&self, x: u32, y: u32, width: u32, height: u32) -> (res: Image)
        ensures
            is_crop(res@, self@, x as nat, y as nat, width as nat, height as nat),
    {
        proof {
            use_type_invariant(self);
        }
        let cx = if x < self.width { x } else { self.width };
        let cy = if y < self.height { y } else { self.height };
        let cw = if width < self.width - cx { width } else { self.width - cx };
        let ch = if height < self.height - cy { height } else { self.height - cy };
        let c = channels_of(self.kind);
        proof {
            assert(cw * ch * c <= self@.width * self@.height * c) by (nonlinear_arith)
                requires
                    cw <= self@.width,
                    ch <= self@.height,
                    c >= 1,
            ;
        }
        let src = self;
        let f = |i: u32, j: u32, k: usize| -> (r: u8)
            requires
                i < cw,
                j < ch,
                k < c,
            ensures
                r == src@.at(cx + i, cy + j, k as int),
            { src.sample(cx + i, cy + j, k) };
        Image::from_fn(cw, ch, self.kind, f)
    }

    /// Lays `top` over this image with its origin at `(x, y)`; pixels of `top`
    /// that fall outside are dropped (`imageops::replace`).
    pub fn replace(&mut self, top: &Image, x: i64, y: i64)
        requires
            top@.kind == old(self)@.kind,
        ensures
            is_replacement(final(self)@, old(self)@, top@, x as int, y as int),
    {
        proof {
            use_type_invariant(&*self);
            use_type_invariant(top);
        }
        let ghost old_view = self@;
        let bw = self.width as i64;
        let bh = self.height as i64;
        let tw = top.width as i64;
        let th = top.height as i64;
        if x >= bw || y >= bh || x <= -tw || y <= -th {
            return;
        }
        let x0 = if x < 0 { 0i64 } else { x };
        let y0 = if y < 0 { 0i64 } else { y };
        let x1 = if x + tw < bw { x + tw } else { bw };
        let y1 = if y + th < bh { y + th } else { bh };
        let c = channels_of(self.kind);
        let mut py = y0;
        while py < y1
            invariant
                0 <= y0 <= py <= y1 <= bh,
                0 <= x0 <= x1 <= bw,
                bw == self@.width,
                bh == self@.height,
                tw == top@.width,
                th == top@.height,
                x0 == (if x < 0 { 0 } else { x }),
                y0 == (if y < 0 { 0 } else { y }),
                x1 == (if x + tw < bw { x + tw } else { bw as int }),
                y1 == (if y + th < bh { y + th } else { bh as int }),
                c == self@.chans(),
                top@.kind == self@.kind,
                top@.well_formed(),
                self@.same_shape(old_view),
                forall|qx: int, qy: int, k: int|
                    self@.contains(qx, qy) && 0 <= k < c ==> #[trigger] self@.at(qx, qy, k) == if covered_by(
                        top@,
                        x as int,
                        y as int,
                        qx,
                        qy,
                    ) && qy < py {
                        top@.at(qx - x, qy - y, k)
                    } else {
                        old_view.at(qx, qy, k)
                    },
            decreases y1 - py,
        {
            let mut px = x0;
            while px < x1
                invariant
                    0 <= y0 <= py < y1 <= bh,
                    0 <= x0 <= px <= x1 <= bw,
                    bw == self@.width,
                    bh == self@.height,
                    tw == top@.width,
                    th == top@.height,
                    x0 == (if x < 0 { 0 } else { x }),
                    y0 == (if y < 0 { 0 } else { y }),
                    x1 == (if x + tw < bw { x + tw } else { bw as int }),
                    y1 == (if y + th < bh { y + th } else { bh as int }),
                    c == self@.chans(),
                    top@.kind == self@.kind,
                    top@.well_formed(),
                    self@.same_shape(old_view),
                    forall|qx: int, qy: int, k: int|
                        self@.contains(qx, qy) && 0 <= k < c ==> #[trigger] self@.at(qx, qy, k) == if covered_by(
                            top@,
                            x as int,
                            y as int,
                            qx,
                            qy,
                        ) && (qy < py || (qy == py && qx < px)) {
                            top@.at(qx - x, qy - y, k)
                        } else {
                            old_view.at(qx, qy, k)
                        },
                decreases x1 - px,
            {
                let mut k: usize = 0;
                while k < c
                    invariant
                        0 <= y0 <= py < y1 <= bh,
                        0 <= x0 <= px < x1 <= bw,
                        bw == self@.width,
                        bh == self@.height,
                        tw == top@.width,
                        th == top@.height,
                        x0 == (if x < 0 { 0 } else { x }),
                        y0 == (if y < 0 { 0 } else { y }),
                        x1 == (if x + tw < bw { x + tw } else { bw as int }),
                        y1 == (if y + th < bh { y + th } else { bh as int }),
                        k <= c,
                        c == self@.chans(),
                        top@.kind == self@.kind,
                        top@.well_formed(),
                        self@.same_shape(old_view),
                        forall|qx: int, qy: int, kk: int|
                            self@.contains(qx, qy) && 0 <= kk < c ==> #[trigger] self@.at(qx, qy, kk)
                                == if covered_by(top@, x as int, y as int, qx, qy) && (qy < py || (qy
                                == py && qx < px) || (qy == py && qx == px && kk < k)) {
                                top@.at(qx - x, qy - y, kk)
                            } else {
                                old_view.at(qx, qy, kk)
                            },
                    decreases c - k,
                {
                    let v = top.sample((px - x) as u32, (py - y) as u32, k);
                    self.set_sample(px as u32, py as u32, k, v);
                    k = k + 1;
                }
                px = px + 1;
            }
            py = py + 1;
        }
    }
}

/// The image `DynamicImage::to_rgb8` makes of `v`: RGB is kept, RGBA loses its
/// alpha samples, each grey sample is repeated as red, green and blue.
pub open spec fn rgb8_view(v: ImageView) -> ImageView {
    ImageView {
        width: v.width,
        height: v.height,
        kind: ColorKind::Rgb,
        data: match v.kind {
            ColorKind::Luma => Seq::new(v.width * v.height * 3, |i: int| v.data[i / 3]),
            ColorKind::Rgb => v.data,
            ColorKind::Rgba => Seq::new(
                v.width * v.height * 3,
                |i: int| v.data[(i / 3) * 4 + i % 3],
            ),
        },
    }
}

/// The image `DynamicImage::to_rgba8` makes of `v`: RGBA is kept, RGB gains an
/// opaque alpha, each grey sample is repeated as red, green and blue with an
/// opaque alpha.
pub open spec fn rgba8_view(v: ImageView) -> ImageView {
    ImageView {
        width: v.width,
        height: v.height,
        kind: ColorKind::Rgba,
        data: match v.kind {
            ColorKind::Luma => Seq::new(
                v.width * v.height * 4,
                |i: int|
                    if i % 4 < 3 {
                        v.data[i / 4]
                    } else {
                        255u8
                    },
            ),
            ColorKind::Rgb => Seq::new(
                v.width * v.height * 4,
                |i: int|
                    if i % 4 < 3 {
                        v.data[(i / 4) * 3 + i % 4]
                    } else {
                        255u8
                    },
            ),
            ColorKind::Rgba => v.data,
        },
    }
}

/// The image `DynamicImage::to_luma8` makes of `v`: grey is kept, colour goes
/// through the `image` crate's colour conversion.
pub open spec fn luma8_view(v: ImageView) -> ImageView {
    ImageView {
        width: v.width,
        height: v.height,
        kind: ColorKind::Luma,
        data: match v.kind {
            ColorKind::Luma => v.data,
            _ => luma8_from_color8(v.width, v.height, v.kind, v.data),
        },
    }
}

/// Converting keeps the colour: after `to_rgb8` or `to_rgba8` the red, green and
/// blue samples are those of a colour source and the grey of a grey source, and
/// an alpha gained by an RGB or grey image is opaque.
pub proof fn law_conversion_keeps_colour(v: ImageView, x: int, y: int, c: int)
    requires
        v.well_formed(),
        v.contains(x, y),
        0 <= c < 4,
    ensures
        c < 3 ==> rgb8_view(v).at(x, y, c) == if v.kind == ColorKind::Luma {
            v.at(x, y, 0)
        } else {
            v.at(x, y, c)
        },
        rgba8_view(v).at(x, y, c) == if c < 3 {
            if v.kind == ColorKind::Luma {
                v.at(x, y, 0)
            } else {
                v.at(x, y, c)
            }
        } else if v.kind == ColorKind::Rgba {
            v.at(x, y, 3)
        } else {
            255u8
        },
{
    let n = y * v.width + x;
    lemma_flat_index_bounds(v.width, v.height, 1, x, y, 0);
    if c < 3 {
        lemma_flat_index_bounds(v.width, v.height, 3, x, y, c);
        vstd::arithmetic::div_mod::lemma_fundamental_div_mod_converse(n * 3 + c, 3, n, c);
        lemma_flat_index_bounds(v.width, v.height, 4, x, y, c);
    }
    lemma_flat_index_bounds(v.width, v.height, 4, x, y, c);
    vstd::arithmetic::div_mod::lemma_fundamental_div_mod_converse(n * 4 + c, 4, n, c);
    if c < 3 {
        lemma_flat_index_bounds(v.width, v.height, 3, x, y, c);
    }
}

/// Samples of `DynamicImage::to_luma8` applied to an 8-bit colour image of the given
/// size and layout.
pub uninterp spec fn luma8_from_color8(width: nat, height: nat, kind: ColorKind, data: Seq<u8>) -> Seq<u8>;

/// Samples of `DynamicImage::resize_exact(new_width, new_height, FilterType::Triangle)`
/// applied to an 8-bit image of the given size and layout. The triangle filter
/// computes with IEEE addition, multiplication, division, floor, ceiling and
/// rounding only, so its result is fixed by its arguments.
pub uninterp spec fn triangle_resized_samples(
    width: nat,
    height: nat,
    kind: ColorKind,
    data: Seq<u8>,
    new_width: nat,
    new_height: nat,
) -> Seq<u8>;

impl Image {
    /// `DynamicImage::to_rgb8`. Trusted: an RGB image is copied, an RGBA image
    /// loses its alpha samples, and each sample of a grey image becomes red, green
    /// and blue (the `image` crate takes grey through `v as f32 * (1.0 / 255.0)`
    /// and back through `(f * 255.0).round()`, which gives every 8-bit value back).
    #[verifier::external_body]
    pub(crate) fn to_rgb8(&self) -> (res: Image)
        requires
            self@.width * self@.height * 3 <= usize::MAX,
        ensures
            res@.well_formed(),
            res@ == rgb8_view(self@),
    {
        let (w, h, buf) = (self.width, self.height, self.data.clone());
        let dynamic = match self.kind {
            ColorKind::Luma => DynamicImage::ImageLuma8(ImageBuffer::from_raw(w, h, buf).unwrap()),
            ColorKind::Rgb => DynamicImage::ImageRgb8(ImageBuffer::from_raw(w, h, buf).unwrap()),
            ColorKind::Rgba => DynamicImage::ImageRgba8(ImageBuffer::from_raw(w, h, buf).unwrap()),
        };
        Image { width: w, height: h, kind: ColorKind::Rgb, data: dynamic.to_rgb8().into_raw() }
    }

    /// `DynamicImage::to_rgba8`. Trusted: an RGBA image is copied, an RGB image
    /// gains an opaque alpha, and each sample of a grey image becomes red, green
    /// and blue with an opaque alpha (the grey goes through the same exact float
    /// round trip as in `to_rgb8`, the alpha is `(1.0 * 255.0).round()`).
    #[verifier::external_body]
    pub(crate) fn to_rgba8(&self) -> (res: Image)
        requires
            self@.width * self@.height * 4 <= usize::MAX,
        ensures
            res@.well_formed(),
            res@ == rgba8_view(self@),
    {
        let (w, h, buf) = (self.width, self.height, self.data.clone());
        let dynamic = match self.kind {
            ColorKind::Luma => DynamicImage::ImageLuma8(ImageBuffer::from_raw(w, h, buf).unwrap()),
            ColorKind::Rgb => DynamicImage::ImageRgb8(ImageBuffer::from_raw(w, h, buf).unwrap()),
            ColorKind::Rgba => DynamicImage::ImageRgba8(ImageBuffer::from_raw(w, h, buf).unwrap()),
        };
        Image { width: w, height: h, kind: ColorKind::Rgba, data: dynamic.to_rgba8().into_raw() }
    }

    /// `DynamicImage::to_luma8`. Trusted: a grey image is copied; a colour image
    /// goes through the `image` crate's colour conversion, whose result is only
    /// named here.
    #[verifier::external_body]
    pub(crate) fn to_luma8(&self) -> (res: Image)
        ensures
            res@.well_formed(),
            res@ == luma8_view(self@),
            self@.kind != ColorKind::Luma ==> res@.data == luma8_from_color8(
                self@.width,
                self@.height,
                self@.kind,
                self@.data,
            ),
    {
        let (w, h, buf) = (self.width, self.height, self.data.clone());
        let dynamic = match self.kind {
            ColorKind::Luma => DynamicImage::ImageLuma8(ImageBuffer::from_raw(w, h, buf).unwrap()),
            ColorKind::Rgb => DynamicImage::ImageRgb8(ImageBuffer::from_raw(w, h, buf).unwrap()),
            ColorKind::Rgba => DynamicImage::ImageRgba8(ImageBuffer::from_raw(w, h, buf).unwrap()),
        };
        Image { width: w, height: h, kind: ColorKind::Luma, data: dynamic.to_luma8().into_raw() }
    }

    /// `DynamicImage::resize_exact` with `FilterType::Triangle`. Trusted: the
    /// result has the requested size and the same layout; its samples are named,
    /// and when the size does not change they are a copy of the input.
    #[verifier::external_body]
    pub(crate) fn resize_exact_triangle(&self, new_width: u32, new_height: u32) -> (res: Image)
        requires
            new_width * new_height * self@.chans() <= usize::MAX,
        ensures
            res@.well_formed(),
            res@.width == new_width,
            res@.height == new_height,
            res@.kind == self@.kind,
            res@.data == triangle_resized_samples(
                self@.width,
                self@.height,
                self@.kind,
                self@.data,
                new_width as nat,
                new_height as nat,
            ),
            self@.width > 0 && self@.height > 0 && new_width == self@.width && new_height
                == self@.height ==> res@.data == self@.data,
    {
        let (w, h, buf) = (self.width, self.height, self.data.clone());
        let dynamic = match self.kind {
            ColorKind::Luma => DynamicImage::ImageLuma8(ImageBuffer::from_raw(w, h, buf).unwrap()),
            ColorKind::Rgb => DynamicImage::ImageRgb8(ImageBuffer::from_raw(w, h, buf).unwrap()),
            ColorKind::Rgba => DynamicImage::ImageRgba8(ImageBuffer::from_raw(w, h, buf).unwrap()),
        };
        let data = dynamic.resize_exact(new_width, new_height, FilterType::Triangle).into_bytes();
        Image { width: new_width, height: new_height, kind: self.kind, data }
    }
}

/// The RGBA colour read back from a pixel of `kind` that the colour `p` was
/// written to: RGBA keeps it, RGB makes it opaque, grey keeps its luminance.
pub open spec fn read_back(kind: ColorKind, p: Seq<u8>) -> Seq<u8> {
    match kind {
        ColorKind::Luma => {
            let l = luma_of(p[0], p[1], p[2]);
            seq![l, l, l, 255u8]
        },
        ColorKind::Rgb => seq![p[0], p[1], p[2], 255u8],
        ColorKind::Rgba => p,
    }
}

/// Reading a pixel back after writing the colour `p` to it gives `p` as the
/// image's layout keeps it: all of it in RGBA, its colour with full opacity in
/// RGB, its luminance as grey in a grey image.
pub proof fn law_get_after_put(old: ImageView, new: ImageView, x: int, y: int, p: Seq<u8>)
    requires
        old.contains(x, y),
        p.len() == 4,
        is_put(new, old, x, y, p),
    ensures
        new.rgba(x, y) == read_back(old.kind, p),
{
    assert(new.at(x, y, 0) == stored_samples(old.kind, p)[0]);
    if old.kind != ColorKind::Luma {
        assert(new.at(x, y, 1) == stored_samples(old.kind, p)[1]);
        assert(new.at(x, y, 2) == stored_samples(old.kind, p)[2]);
    }
    if old.kind == ColorKind::Rgba {
        assert(new.at(x, y, 3) == stored_samples(old.kind, p)[3]);
    }
    assert(new.rgba(x, y) =~= read_back(old.kind, p));
}

/// Writing back the colour that was read from a pixel leaves the image as it was,
/// whatever its layout (for grey, the luminance of a grey colour is that grey).
pub proof fn law_put_what_was_read(old: ImageView, new: ImageView, x: int, y: int)
    requires
        old.contains(x, y),
        is_put(new, old, x, y, old.rgba(x, y)),
    ensures
        new.same_pixels(old),
{
    assert forall|px: int, py: int, k: int|
        new.contains(px, py) && 0 <= k < new.chans() implies #[trigger] new.at(px, py, k) == old.at(
        px,
        py,
        k,
    ) by {
        if px == x && py == y {
            let l = old.at(x, y, 0);
            assert(luma_of(l, l, l) == l);
        }
    }
}

/// Cutting a rectangle out of an image and laying it back at the corner it was
/// cut from gives the image back.
pub proof fn law_crop_then_replace(src: ImageView, crop: ImageView, out: ImageView, x: nat, y: nat, w: nat, h: nat)
    requires
        is_crop(crop, src, x, y, w, h),
        is_replacement(
            out,
            src,
            crop,
            clamped_rect(src.width, src.height, x, y, w, h).0 as int,
            clamped_rect(src.width, src.height, x, y, w, h).1 as int,
        ),
    ensures
        out.same_pixels(src),
{
}

} // verus!
