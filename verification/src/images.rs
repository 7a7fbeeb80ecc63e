//! The mosaic canvas: decoding of the fetched covers, pixel-exact grid
//! compositing with the remainder cropped away, and the derivation of the
//! radius of the optional final blur.

use vstd::prelude::*;
use vstd::arithmetic::div_mod::{lemma_fundamental_div_mod, lemma_mod_bound};
use crate::api::MosaicError;
use crate::numeric::{floor_sqrt, is_square, isqrt, lemma_floor_sqrt, lemma_floor_sqrt_of_square};

verus! {

/// An opaque RGB raster: three bytes per pixel, rows top to bottom.
pub struct Canvas {
    pub width: u32,
    pub height: u32,
    pub data: Vec<u8>,
}

impl Canvas {
    /// The buffer holds exactly three bytes for each pixel.
    pub open spec fn wf(self) -> bool {
        self.data@.len() == 3 * (self.width as int) * (self.height as int)
    }

    /// Channel `ch` of the pixel at column `x`, row `y`.
    pub open spec fn px(self, x: int, y: int, ch: int) -> u8 {
        self.data@[3 * (y * (self.width as int) + x) + ch]
    }
}

/// The RGB pixels that the image codec yields for `bytes`, stretched to
/// `width` by `height`; nothing if the bytes do not parse as an image.
pub uninterp spec fn decoded_rgb(bytes: Seq<u8>, width: u32, height: u32) -> Option<Seq<u8>>;

/// Relies on image's `load_from_memory`, `DynamicImage::resize_exact` with
/// the `Triangle` filter, `into_rgb8` and `into_raw`: whether the bytes
/// parse as an image, and the resampled pixels, depend on the bytes and the
/// target dimensions alone, and an RGB buffer holds three bytes per pixel.
#[verifier::external_body]
fn decode_cover(bytes: &Vec<u8>, width: u32, height: u32) -> (r: Option<Vec<u8>>)
    requires
        1 <= width <= 4096,
        1 <= height <= 4096,
    ensures
        match r {
            Some(p) => decoded_rgb(bytes@, width, height) == Some(p@) && p@.len() == 3 * (
            width as int) * (height as int),
            None => decoded_rgb(bytes@, width, height) is None,
        },
{
    match image::load_from_memory(bytes.as_slice()) {
        Ok(img) => Some(
            img.resize_exact(width, height, image::imageops::FilterType::Triangle)
                .into_rgb8()
                .into_raw(),
        ),
        Err(_) => None,
    }
}

/// The side of the mosaic's tile grid: the square root of the cover count.
pub open spec fn mosaic_side(cover_count: int) -> int {
    floor_sqrt(cover_count)
}

/// The pixel side length of one tile.
pub open spec fn mosaic_tile(resolution: u32, side: int) -> int {
    if side == 0 {
        0
    } else {
        resolution as int / side
    }
}

/// Channel `ch` of the decoded tile pixel that the finished mosaic shows at
/// column `x`, row `y`: the covers fill the grid left to right, top to
/// bottom, each stretched to the tile's size.
pub open spec fn mosaic_px(covers: Seq<Seq<u8>>, resolution: u32, x: int, y: int, ch: int) -> u8 {
    let side = mosaic_side(covers.len() as int);
    let t = mosaic_tile(resolution, side);
    let idx = (y / t) * side + x / t;
    match decoded_rgb(covers[idx], t as u32, t as u32) {
        Some(p) => p[3 * ((y % t) * t + (x % t)) + ch],
        None => 0,
    }
}

/// Compose the mosaic: decode each fetched cover, stretch it to its tile,
/// and place the tiles on a square canvas, cropped to whole tiles. The
/// cover list fills one square grid exactly.
pub fn generate_mosaic(covers: &Vec<Vec<u8>>, resolution: u32) -> (r: Result<Canvas, MosaicError>)
    requires
        is_square(covers@.len() as int),
        16 <= resolution <= 4096,
    ensures
        ({
            let n = covers@.len() as int;
            let side = mosaic_side(n);
            let t = mosaic_tile(resolution, side);
            match r {
                Ok(c) => {
                    &&& c.wf()
                    &&& c.width == t * side
                    &&& c.height == t * side
                    &&& t >= 1 ==> forall|i: int|
                        0 <= i < n ==> (#[trigger] decoded_rgb(covers@[i]@, t as u32, t as u32))
                            is Some
                    &&& forall|x: int, y: int, ch: int|
                        0 <= x < t * side && 0 <= y < t * side && 0 <= ch < 3 ==> #[trigger] c.px(
                            x, y, ch) == mosaic_px(covers@.map_values(|v: Vec<u8>| v@),
                            resolution, x, y, ch)
                },
                Err(e) => {
                    &&& e == MosaicError::CoverDecodeFailed
                    &&& t >= 1
                    &&& exists|i: int|
                        0 <= i < n && (#[trigger] decoded_rgb(covers@[i]@, t as u32, t as u32))
                            is None
                },
            }
        }),
        mosaic_tile(resolution, mosaic_side(covers@.len() as int)) == 0 ==> r is Ok,
{
    let n = covers.len();
    let ghost sq: int = choose|s: int| s >= 0 && #[trigger] (s * s) == n as int;
    proof {
        lemma_floor_sqrt_of_square(sq, n as int);
    }
    let side = isqrt(n);
    proof {
        lemma_floor_sqrt(n as int);
        crate::numeric::lemma_floor_sqrt_unique(side as int, floor_sqrt(n as int), n as int);
        assert(side as int == sq);
    }
    if n == 0 {
        proof {
            assert(sq == 0) by (nonlinear_arith)
                requires
                    sq >= 0,
                    sq * sq == 0,
            ;
            let ms = mosaic_side(covers@.len() as int);
            assert(ms == 0);
            assert(mosaic_tile(resolution, ms) * ms == 0) by (nonlinear_arith)
                requires
                    ms == 0,
                    mosaic_tile(resolution, ms) == 0,
            ;
        }
        return Ok(Canvas { width: 0, height: 0, data: Vec::new() });
    }
    let tile = resolution as usize / side;
    if tile == 0 {
        proof {
            let ms = mosaic_side(covers@.len() as int);
            let mt = mosaic_tile(resolution, ms);
            assert(mt == 0);
            assert(mt * ms == 0) by (nonlinear_arith)
                requires
                    mt == 0,
            ;
        }
        return Ok(Canvas { width: 0, height: 0, data: Vec::new() });
    }
    // Whole-tile width of the canvas; the remainder strip is never built.
    proof {
        lemma_fundamental_div_mod(resolution as int, side as int);
        lemma_mod_bound(resolution as int, side as int);
        assert(tile * side <= resolution && tile <= resolution) by (nonlinear_arith)
            requires
                resolution as int == (side as int) * (tile as int) + (resolution as int % (
                side as int)),
                resolution as int % (side as int) >= 0,
                side as int >= 1,
                tile as int >= 0,
        ;
    }
    let w = tile * side;
    let tile32 = tile as u32;
    let ghost gside: int = side as int;
    let ghost gt: int = tile as int;
    proof {
        assert(gside == mosaic_side(n as int));
        assert(gt == mosaic_tile(resolution, gside));
        assert(3 * gt * gt <= 50331648) by (nonlinear_arith)
            requires
                0 <= gt <= 4096,
        ;
    }

    // Decode every cover up front; any failure aborts the whole mosaic.
    let mut tiles: Vec<Vec<u8>> = Vec::new();
    let mut i: usize = 0;
    while i < n
        invariant
            n == covers@.len(),
            i <= n,
            tiles@.len() == i,
            1 <= tile <= 4096,
            tile32 == tile as u32,
            tile32 as int == tile as int,
            gside == mosaic_side(n as int),
            gt == mosaic_tile(resolution, gside),
            gt == tile as int,
            gside == side as int,
            side >= 1,
            forall|j: int|
                0 <= j < i ==> (#[trigger] decoded_rgb(covers@[j]@, tile32, tile32)) is Some,
            forall|j: int|
                0 <= j < i ==> (#[trigger] tiles@[j])@ == decoded_rgb(covers@[j]@, tile32,
                tile32)->Some_0,
            forall|j: int|
                0 <= j < i ==> (#[trigger] tiles@[j])@.len() == 3 * (tile as int) * (tile as int),
        decreases n - i,
    {
        match decode_cover(&covers[i], tile32, tile32) {
            Some(p) => {
                tiles.push(p);
            },
            None => {
                return Err(MosaicError::CoverDecodeFailed);
            },
        }
        i = i + 1;
    }

    let ghost cbytes = covers@.map_values(|v: Vec<u8>| v@);
    let mut data: Vec<u8> = Vec::new();
    let mut y: usize = 0;
    proof {
        assert(3 * (w as int) * (w as int) <= 50331648) by (nonlinear_arith)
            requires
                0 <= w as int <= 4096,
        ;
    }
    while y < w
        invariant
            n == covers@.len(),
            cbytes == covers@.map_values(|v: Vec<u8>| v@),
            gside * gside == n as int,
            gside == side as int,
            gt == tile as int,
            gside == mosaic_side(n as int),
            gt == mosaic_tile(resolution, gside),
            side >= 1,
            1 <= tile <= 4096,
            tile32 as int == tile as int,
            w == tile * side,
            w <= 4096,
            y <= w,
            tiles@.len() == n,
            forall|j: int|
                0 <= j < n ==> (#[trigger] decoded_rgb(covers@[j]@, tile32, tile32)) is Some,
            forall|j: int|
                0 <= j < n ==> (#[trigger] tiles@[j])@ == decoded_rgb(covers@[j]@, tile32,
                tile32)->Some_0,
            forall|j: int|
                0 <= j < n ==> (#[trigger] tiles@[j])@.len() == 3 * (tile as int) * (tile as int),
            data@.len() == 3 * ((w as int) * (y as int)),
            forall|x2: int, y2: int, ch: int|
                0 <= x2 < w && 0 <= y2 < y && 0 <= ch < 3 ==> #[trigger] data@[3 * (y2 * (
                w as int) + x2) + ch] == mosaic_px(cbytes, resolution, x2, y2, ch),
        decreases w - y,
    {
        let mut x: usize = 0;
        while x < w
            invariant
                n == covers@.len(),
                cbytes == covers@.map_values(|v: Vec<u8>| v@),
                gside * gside == n as int,
                gside == side as int,
                gt == tile as int,
                gside == mosaic_side(n as int),
                gt == mosaic_tile(resolution, gside),
                side >= 1,
                1 <= tile <= 4096,
                tile32 as int == tile as int,
                w == tile * side,
                w <= 4096,
                y < w,
                x <= w,
                tiles@.len() == n,
                forall|j: int|
                    0 <= j < n ==> (#[trigger] decoded_rgb(covers@[j]@, tile32, tile32)) is Some,
                forall|j: int|
                    0 <= j < n ==> (#[trigger] tiles@[j])@ == decoded_rgb(covers@[j]@, tile32,
                    tile32)->Some_0,
                forall|j: int|
                    0 <= j < n ==> (#[trigger] tiles@[j])@.len() == 3 * (tile as int) * (
                    tile as int),
                data@.len() == 3 * ((w as int) * (y as int) + (x as int)),
                forall|x2: int, y2: int, ch: int|
                    0 <= x2 < w && 0 <= y2 < y && 0 <= ch < 3 ==> #[trigger] data@[3 * (y2 * (
                    w as int) + x2) + ch] == mosaic_px(cbytes, resolution, x2, y2, ch),
                forall|x2: int, ch: int|
                    0 <= x2 < x && 0 <= ch < 3 ==> #[trigger] data@[3 * ((y as int) * (
                    w as int) + x2) + ch] == mosaic_px(cbytes, resolution, x2, y as int, ch),
            decreases w - x,
        {
            let row = y / tile;
            let col = x / tile;
            let dy = y % tile;
            let dx = x % tile;
            proof {
                lemma_fundamental_div_mod(y as int, tile as int);
                lemma_mod_bound(y as int, tile as int);
                lemma_fundamental_div_mod(x as int, tile as int);
                lemma_mod_bound(x as int, tile as int);
                assert((row as int) < gside && (col as int) < gside) by (nonlinear_arith)
                    requires
                        y as int == (tile as int) * (row as int) + dy as int,
                        x as int == (tile as int) * (col as int) + dx as int,
                        0 <= (dy as int) < tile as int,
                        0 <= (dx as int) < tile as int,
                        0 <= (y as int) < (tile as int) * gside,
                        0 <= (x as int) < (tile as int) * gside,
                        gt == tile as int,
                        tile as int >= 1,
                ;
                assert(((row as int) * gside + col as int) < n as int) by (nonlinear_arith)
                    requires
                        0 <= (row as int) < gside,
                        0 <= (col as int) < gside,
                        gside * gside == n as int,
                ;
                assert(3 * ((dy as int) * (tile as int) + dx as int) + 2 < 3 * (tile as int) * (
                tile as int)) by (nonlinear_arith)
                    requires
                        0 <= (dy as int) < tile as int,
                        0 <= (dx as int) < tile as int,
                        tile as int >= 1,
                ;
                assert(3 * (tile as int) * (tile as int) <= 50331648) by (nonlinear_arith)
                    requires
                        0 <= tile as int <= 4096,
                ;
            }
            let idx = row * side + col;
            let base = 3 * (dy * tile + dx);
            let tv = &tiles[idx];
            let ghost len0 = data@.len() as int;
            data.push(tv[base]);
            data.push(tv[base + 1]);
            data.push(tv[base + 2]);
            proof {
                assert(data@.len() == len0 + 3);
                assert(data@[len0 + 0] == tiles@[idx as int]@[base as int + 0]);
                assert(data@[len0 + 1] == tiles@[idx as int]@[base as int + 1]);
                assert(data@[len0 + 2] == tiles@[idx as int]@[base as int + 2]);
                assert(cbytes[idx as int] == covers@[idx as int]@);
                assert forall|ch: int| 0 <= ch < 3 implies mosaic_px(cbytes, resolution,
                    x as int, y as int, ch) == tiles@[idx as int]@[base as int + ch] by {
                    assert((y as int) / gt == row as int);
                    assert((x as int) / gt == col as int);
                    assert((y as int) % gt == dy as int);
                    assert((x as int) % gt == dx as int);
                    assert(gt as u32 == tile32);
                }
                assert forall|x2: int, ch: int|
                    0 <= x2 < x + 1 && 0 <= ch < 3 implies #[trigger] data@[3 * ((y as int) * (
                w as int) + x2) + ch] == mosaic_px(cbytes, resolution, x2, y as int, ch) by {
                    if x2 == x as int {
                        assert(len0 == 3 * ((w as int) * (y as int) + (x as int)));
                        assert(3 * ((y as int) * (w as int) + x2) + ch == len0 + ch) by (
                        nonlinear_arith)
                            requires
                                x2 == x as int,
                                len0 == 3 * ((w as int) * (y as int) + (x as int)),
                        ;
                    } else {
                        assert(3 * ((y as int) * (w as int) + x2) + ch < len0) by (
                        nonlinear_arith)
                            requires
                                0 <= x2 < x as int,
                                0 <= ch < 3,
                                len0 == 3 * ((w as int) * (y as int) + (x as int)),
                        ;
                    }
                }
                assert forall|x2: int, y2: int, ch: int|
                    0 <= x2 < w && 0 <= y2 < y && 0 <= ch < 3 implies #[trigger] data@[3 * (y2 * (
                w as int) + x2) + ch] == mosaic_px(cbytes, resolution, x2, y2, ch) by {
                    assert(3 * (y2 * (w as int) + x2) + ch < 3 * ((w as int) * (y as int))) by (
                    nonlinear_arith)
                        requires
                            0 <= x2 < w as int,
                            0 <= y2 < y as int,
                            0 <= ch < 3,
                    ;
                }
            }
            x = x + 1;
        }
        proof {
            assert(3 * ((w as int) * (y as int) + (w as int)) == 3 * ((w as int) * (y as int + 1)))
                by (nonlinear_arith);
        }
        y = y + 1;
    }
    proof {
        assert(data@.len() == 3 * (w as int) * (w as int)) by (nonlinear_arith)
            requires
                data@.len() == 3 * ((w as int) * (w as int)),
        ;
        assert(w as int == mosaic_tile(resolution, mosaic_side(covers@.len() as int))
            * mosaic_side(covers@.len() as int));
    }
    Ok(Canvas { width: w as u32, height: w as u32, data })
}

/// The exact radius of the final blur, as a fraction: the canvas side
/// divided by the tile grid's side, halved, scaled by the coefficient in
/// thousandths.
pub struct BlurRadius {
    pub numerator: u64,
    pub denominator: u64,
}

/// Decide the final blur of the mosaic. A zero coefficient means no blur at
/// all: the canvas is to be kept bit for bit as it is. Otherwise the radius
/// is `(canvas_side / sqrt(tile_count)) * 0.5 * (coefficient_milli / 1000)`,
/// returned exactly as a fraction: the numerator is `canvas_side *
/// coefficient_milli`, and the denominator squared is `4000000 * tile_count`
/// (that is, the denominator is two thousand times the tile grid's side).
pub fn plan_blur(canvas_side: u32, tile_count: u32, coefficient_milli: u32) -> (r: Option<
    BlurRadius,
>)
    requires
        is_square(tile_count as int),
        tile_count >= 1,
        coefficient_milli <= 1000,
    ensures
        r is None <==> coefficient_milli == 0,
        match r {
            Some(b) => {
                &&& b.numerator == canvas_side * coefficient_milli
                &&& b.denominator * b.denominator == 4000000 * tile_count
                &&& b.denominator >= 2000
            },
            None => true,
        },
{
    if coefficient_milli == 0 {
        return None;
    }
    let ghost sq: int = choose|s: int| s >= 0 && #[trigger] (s * s) == tile_count as int;
    proof {
        lemma_floor_sqrt_of_square(sq, tile_count as int);
    }
    let s = isqrt(tile_count as usize);
    proof {
        lemma_floor_sqrt(tile_count as int);
        crate::numeric::lemma_floor_sqrt_unique(s as int, floor_sqrt(tile_count as int),
            tile_count as int);
        assert(s as int == sq);
        assert(1 <= sq <= 65536) by (nonlinear_arith)
            requires
                sq >= 0,
                1 <= sq * sq <= 0xffff_ffff,
        ;
    }
    proof {
        assert((canvas_side as int) * (coefficient_milli as int) <= 0xffff_ffff * 1000)
            by (nonlinear_arith)
            requires
                0 <= canvas_side as int <= 0xffff_ffff,
                0 <= coefficient_milli as int <= 1000,
        ;
    }
    let numerator = (canvas_side as u64) * (coefficient_milli as u64);
    let denominator = 2000u64 * (s as u64);
    proof {
        assert(denominator * denominator == 4000000 * (tile_count as int)) by (nonlinear_arith)
            requires
                denominator == 2000 * (s as int),
                (s as int) * (s as int) == tile_count as int,
                1 <= s as int <= 65536,
        ;
    }
    Some(BlurRadius { numerator, denominator })
}

/// The blur radius grows strictly with the coefficient: over one grid and
/// canvas, the radius fraction of the larger coefficient is the larger
/// rational, compared by cross-multiplication.
pub proof fn lemma_blur_radius_monotonic(
    canvas_side: u32,
    tile_count: u32,
    c1: u32,
    c2: u32,
    b1: BlurRadius,
    b2: BlurRadius,
)
    requires
        canvas_side >= 1,
        c1 < c2,
        b1.numerator == canvas_side * c1,
        b1.denominator * b1.denominator == 4000000 * tile_count,
        b1.denominator >= 1,
        b2.numerator == canvas_side * c2,
        b2.denominator * b2.denominator == 4000000 * tile_count,
        b2.denominator >= 1,
    ensures
        b1.numerator * b2.denominator < b2.numerator * b1.denominator,
{
    assert(b1.denominator == b2.denominator) by (nonlinear_arith)
        requires
            b1.denominator * b1.denominator == 4000000 * tile_count,
            b2.denominator * b2.denominator == 4000000 * tile_count,
            b1.denominator >= 1,
            b2.denominator >= 1,
    ;
    assert(b1.numerator < b2.numerator) by (nonlinear_arith)
        requires
            b1.numerator == canvas_side * c1,
            b2.numerator == canvas_side * c2,
            canvas_side >= 1,
            c1 < c2,
    ;
    assert(b1.numerator * b2.denominator < b2.numerator * b1.denominator) by (nonlinear_arith)
        requires
            b1.numerator < b2.numerator,
            b1.denominator == b2.denominator,
            b1.denominator >= 1,
    ;
}

} // verus!
