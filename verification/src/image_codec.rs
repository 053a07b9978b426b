use vstd::prelude::*;

use crate::error::Error;
use crate::game_state::{Cell, GameState, Location, MAX_DIMENSION};
use vstd::arithmetic::div_mod::{
    lemma_fundamental_div_mod_converse_div, lemma_fundamental_div_mod_converse_mod,
};
use vstd::arithmetic::mul::{lemma_mul_inequality, lemma_mul_is_distributive_add};

verus! {

// The image encoding maps the grid one pixel per cell onto an 8-bit RGB
// raster of the same dimensions, row-major, three channel bytes per pixel:
// black for an alive cell, white for a dead one. The raster travels as PNG
// bytes; the pixel buffer itself is the verified boundary.
/// The channel value of an alive cell's pixel: black, `(0, 0, 0)`.
pub const ALIVE_CHANNEL: u8 = 0;

/// The channel value of a dead cell's pixel: white, `(255, 255, 255)`.
pub const DEAD_CHANNEL: u8 = 255;

/// The channel byte of one cell (all three channels of its pixel are equal).
pub open spec fn cell_channel(alive: bool) -> u8 {
    if alive {
        ALIVE_CHANNEL
    } else {
        DEAD_CHANNEL
    }
}

/// The index of the first channel byte of pixel `(x, y)` in a row-major
/// 8-bit RGB buffer of width `w`.
pub open spec fn pixel_base(w: int, x: int, y: int) -> int {
    3 * (y * w + x)
}

/// Whether pixel `(x, y)` of the buffer is the alive sentinel color. Only
/// the exact color counts; any other color means dead.
pub open spec fn pixel_is_alive(pixels: Seq<u8>, w: int, x: int, y: int) -> bool {
    &&& pixels[pixel_base(w, x, y)] == ALIVE_CHANNEL
    &&& pixels[pixel_base(w, x, y) + 1] == ALIVE_CHANNEL
    &&& pixels[pixel_base(w, x, y) + 2] == ALIVE_CHANNEL
}

/// The full pixel buffer of a grid: `3 * w * h` bytes, three equal channel
/// bytes per cell, rows in order.
pub open spec fn grid_pixel_bytes(rows: Seq<Seq<bool>>, w: int, h: int) -> Seq<u8> {
    Seq::new((3 * w * h) as nat, |i: int| cell_channel(rows[(i / 3) / w][(i / 3) % w]))
}

/// Law: the pixel buffer of a grid decodes back cell by cell — pixel
/// `(x, y)` is the alive color exactly where the cell `(x, y)` is alive.
pub proof fn lemma_pixel_round_trip(rows: Seq<Seq<bool>>, w: int, h: int, x: int, y: int)
    requires
        0 <= x < w,
        0 <= y < h,
    ensures
        pixel_is_alive(grid_pixel_bytes(rows, w, h), w, x, y) == rows[y][x],
{
    let p = y * w + x;
    lemma_pixel_index_facts(w, h, x, y);
    assert(grid_pixel_bytes(rows, w, h)[3 * p] == cell_channel(rows[y][x]));
    assert(grid_pixel_bytes(rows, w, h)[3 * p + 1] == cell_channel(rows[y][x]));
    assert(grid_pixel_bytes(rows, w, h)[3 * p + 2] == cell_channel(rows[y][x]));
}

/// For an in-bounds pixel `(x, y)`: its three channel indices lie inside the
/// buffer and map back to `(x, y)` under the row-major layout.
proof fn lemma_pixel_index_facts(w: int, h: int, x: int, y: int)
    requires
        0 <= x < w,
        0 <= y < h,
    ensures
        0 <= 3 * (y * w + x),
        3 * (y * w + x) + 2 < 3 * w * h,
        (3 * (y * w + x)) / 3 == y * w + x,
        (3 * (y * w + x) + 1) / 3 == y * w + x,
        (3 * (y * w + x) + 2) / 3 == y * w + x,
        (y * w + x) / w == y,
        (y * w + x) % w == x,
{
    let p = y * w + x;
    lemma_mul_inequality(y, h - 1, w);
    assert(y * w <= (h - 1) * w);
    lemma_mul_is_distributive_add(w, h - 1, 1);
    assert(w * (h - 1) + w == w * h) by {
        assert(w * ((h - 1) + 1) == w * (h - 1) + w * 1);
    }
    assert((h - 1) * w == w * (h - 1)) by {
        vstd::arithmetic::mul::lemma_mul_is_commutative(h - 1, w);
    }
    assert(p < w * h);
    assert(0 <= p) by {
        lemma_mul_inequality(0, y, w);
        vstd::arithmetic::mul::lemma_mul_is_commutative(y, w);
    }
    assert(3 * p + 2 < 3 * (w * h)) by (nonlinear_arith)
        requires
            p < w * h,
    ;
    assert(3 * (w * h) == 3 * w * h) by (nonlinear_arith);
    assert(3 * p == p * 3 + 0) by (nonlinear_arith);
    lemma_fundamental_div_mod_converse_div(3 * p, 3, p, 0);
    lemma_fundamental_div_mod_converse_div(3 * p + 1, 3, p, 1);
    lemma_fundamental_div_mod_converse_div(3 * p + 2, 3, p, 2);
    lemma_fundamental_div_mod_converse_div(p, w, y, x);
    lemma_fundamental_div_mod_converse_mod(p, w, y, x);
}

/// The grid as a raw 8-bit RGB pixel buffer, one pixel per cell, row-major:
/// black `(0, 0, 0)` for an alive cell, white `(255, 255, 255)` for a dead
/// one.
pub fn state_to_pixels(state: &GameState) -> (r: Vec<u8>)
    requires
        state.wf(),
    ensures
        r@ == grid_pixel_bytes(
            state.grid_rows(),
            state.spec_width() as int,
            state.spec_height() as int,
        ),
{
    let ghost rows = state.grid_rows();
    let ghost w = state.spec_width() as int;
    let ghost h = state.spec_height() as int;
    let ghost target = grid_pixel_bytes(rows, w, h);
    let cells = state.get_cells();
    let mut bytes: Vec<u8> = Vec::new();
    let mut y: u32 = 0;
    while y < state.height()
        invariant
            state.wf(),
            rows == state.grid_rows(),
            w == state.spec_width() as int,
            h == state.spec_height() as int,
            target == grid_pixel_bytes(rows, w, h),
            cells@.len() == h,
            forall|j: int| 0 <= j < h ==> (#[trigger] cells@[j])@.len() == w,
            forall|i: int, j: int|
                0 <= j < h && 0 <= i < w ==> (#[trigger] cells@[j]@[i]) == state.cell_at(i, j),
            y <= h,
            bytes@.len() == 3 * ((y as int) * w),
            bytes@.len() <= target.len(),
            forall|i: int| 0 <= i < bytes@.len() ==> bytes@[i] == target[i],
        decreases h - y,
    {
        let mut x: u32 = 0;
        proof {
            lemma_mul_is_distributive_add(3, (y as int) * w, 0);
        }
        while x < state.width()
            invariant
                state.wf(),
                rows == state.grid_rows(),
                w == state.spec_width() as int,
                h == state.spec_height() as int,
                target == grid_pixel_bytes(rows, w, h),
                cells@.len() == h,
                forall|j: int| 0 <= j < h ==> (#[trigger] cells@[j])@.len() == w,
                forall|i: int, j: int|
                    0 <= j < h && 0 <= i < w ==> (#[trigger] cells@[j]@[i]) == state.cell_at(i, j),
                y < h,
                x <= w,
                bytes@.len() == 3 * ((y as int) * w + x as int),
                bytes@.len() <= target.len(),
                forall|i: int| 0 <= i < bytes@.len() ==> bytes@[i] == target[i],
            decreases w - x,
        {
            let alive = cells[y as usize][x as usize].is_alive;
            proof {
                assert(rows[y as int][x as int] == alive);
                lemma_pixel_index_facts(w, h, x as int, y as int);
                assert(target[3 * ((y as int) * w + x as int)] == cell_channel(alive));
                assert(target[3 * ((y as int) * w + x as int) + 1] == cell_channel(alive));
                assert(target[3 * ((y as int) * w + x as int) + 2] == cell_channel(alive));
            }
            let channel = if alive {
                ALIVE_CHANNEL
            } else {
                DEAD_CHANNEL
            };
            bytes.push(channel);
            bytes.push(channel);
            bytes.push(channel);
            x = x + 1;
        }
        proof {
            assert(3 * ((y as int) * w + w) == 3 * ((y as int + 1) * w)) by (nonlinear_arith);
        }
        y = y + 1;
    }
    proof {
        assert(3 * ((h as int) * w) == 3 * w * h) by (nonlinear_arith);
        assert(bytes@ =~= target);
    }
    bytes
}

/// Builds a grid from a raw 8-bit RGB pixel buffer of the given dimensions:
/// a cell is alive exactly where its pixel is the alive sentinel color
/// black; every other color is dead. Fails with
/// [`Error::UnsupportedFormat`] when the buffer holds fewer than
/// `3 * width * height` bytes or a dimension is too large for a grid.
pub fn state_from_pixels(width: u32, height: u32, pixels: &Vec<u8>) -> (r: Result<GameState, Error>)
    ensures
        r is Ok <==> (width <= MAX_DIMENSION && height <= MAX_DIMENSION && pixels@.len() >= 3 * (
        width as int) * (height as int)),
        r matches Err(e) ==> e == Error::UnsupportedFormat,
        r matches Ok(g) ==> {
            &&& g.wf()
            &&& g.spec_width() == width
            &&& g.spec_height() == height
            &&& forall|x: int, y: int|
                g.in_bounds(x, y) ==> (g.alive_at(x, y) == pixel_is_alive(
                    pixels@,
                    width as int,
                    x,
                    y,
                ))
        },
{
    if width > MAX_DIMENSION || height > MAX_DIMENSION {
        return Err(Error::UnsupportedFormat);
    }
    proof {
        assert((3 * (width as int)) * (height as int) <= 0xffff_ffff_ffff_ffff)
            by (nonlinear_arith)
            requires
                width as int <= 0x7fff_ffff,
                height as int <= 0x7fff_ffff,
        ;
    }
    let needed: u64 = 3u64 * (width as u64) * (height as u64);
    proof {
        assert(needed as int == 3 * (width as int) * (height as int));
    }
    if (pixels.len() as u64) < needed {
        return Err(Error::UnsupportedFormat);
    }
    let ghost w = width as int;
    let ghost h = height as int;
    let mut state = GameState::new_blank(width, height);
    let mut idx: usize = 0;
    let mut y: u32 = 0;
    while y < height
        invariant
            state.wf(),
            state.spec_width() == width,
            state.spec_height() == height,
            width <= MAX_DIMENSION,
            height <= MAX_DIMENSION,
            w == width as int,
            h == height as int,
            pixels@.len() >= 3 * w * h,
            y <= h,
            idx == 3 * ((y as int) * w),
            forall|i: int, j: int|
                0 <= j < y && 0 <= i < w ==> (state.alive_at(i, j) == pixel_is_alive(
                    pixels@,
                    w,
                    i,
                    j,
                )),
            forall|i: int, j: int| y <= j < h && 0 <= i < w ==> !state.alive_at(i, j),
        decreases h - y,
    {
        let mut x: u32 = 0;
        proof {
            lemma_mul_is_distributive_add(3, (y as int) * w, 0);
        }
        while x < width
            invariant
                state.wf(),
                state.spec_width() == width,
                state.spec_height() == height,
                width <= MAX_DIMENSION,
                height <= MAX_DIMENSION,
                w == width as int,
                h == height as int,
                pixels@.len() >= 3 * w * h,
                y < h,
                x <= w,
                idx == 3 * ((y as int) * w + x as int),
                forall|i: int, j: int|
                    0 <= j < y && 0 <= i < w ==> (state.alive_at(i, j) == pixel_is_alive(
                        pixels@,
                        w,
                        i,
                        j,
                    )),
                forall|i: int|
                    0 <= i < x ==> (state.alive_at(i, y as int) == pixel_is_alive(
                        pixels@,
                        w,
                        i,
                        y as int,
                    )),
                forall|i: int, j: int| y < j < h && 0 <= i < w ==> !state.alive_at(i, j),
                forall|i: int| x <= i < w ==> !state.alive_at(i, y as int),
            decreases w - x,
        {
            proof {
                lemma_pixel_index_facts(w, h, x as int, y as int);
                assert(idx + 2 < pixels@.len());
            }
            let ghost pre = state;
            let pixel_count = pixels.len();
            proof {
                assert(idx + 2 < pixel_count);
            }
            let r = pixels[idx];
            let g = pixels[idx + 1];
            let b = pixels[idx + 2];
            if r == ALIVE_CHANNEL && g == ALIVE_CHANNEL && b == ALIVE_CHANNEL {
                let location = Location::new(x as i32, y as i32);
                let cell = Cell::new(true, location);
                let res = state.set_cell_by_location(&location, cell);
                proof {
                    assert(res is Ok);
                    assert(GameState::set_outcome(pre, state, location, cell));
                }
            }
            proof {
                assert forall|i: int, j: int|
                    pre.in_bounds(i, j) && !(i == x as int && j == y as int) implies state.alive_at(
                    i,
                    j,
                ) == pre.alive_at(i, j) by {
                    assert(state.cell_at(i, j) == pre.cell_at(i, j));
                }
                assert(state.alive_at(x as int, y as int) == pixel_is_alive(
                    pixels@,
                    w,
                    x as int,
                    y as int,
                ));
            }
            idx = idx + 3;
            x = x + 1;
        }
        proof {
            assert(3 * ((y as int) * w + w) == 3 * ((y as int + 1) * w)) by (nonlinear_arith);
            assert(3 * ((y as int + 1) * w) <= 3 * w * h) by (nonlinear_arith)
                requires
                    0 <= y as int + 1 <= h,
                    w >= 0,
            ;
        }
        y = y + 1;
    }
    Ok(state)
}

#[verifier::external_type_specification]
#[verifier::external_body]
pub struct ExImageError(image::error::ImageError);

/// The PNG bytes that encoding a raw 8-bit RGB buffer of the given
/// dimensions produces. The encoder is deterministic: the bytes depend on
/// the dimensions and the pixels alone.
pub uninterp spec fn png_of(width: u32, height: u32, pixels: Seq<u8>) -> Seq<u8>;

/// What decoding a byte text as an 8-bit RGB image yields: the dimensions
/// and the row-major raw channel buffer, or `None` for bytes that are no
/// image or an image in another pixel format. Decoding is deterministic: it
/// reads the given bytes and nothing else.
pub uninterp spec fn rgb8_of(bytes: Seq<u8>) -> Option<(u32, u32, Seq<u8>)>;

/// Relies on `image::load_from_memory` and `image::DynamicImage::as_rgb8`
/// with the `ImageBuffer` accessors `width`, `height` and `as_raw`: parsing
/// an encoded image reads the given bytes alone; an image already in 8-bit
/// RGB yields its dimensions and its row-major raw channel buffer, which
/// `ImageBuffer` guarantees holds at least `3 * width * height` bytes (its
/// constructors reject anything smaller); undecodable bytes and any other
/// pixel format yield `None`.
#[verifier::external_body]
fn decode_image_rgb8(bytes: &Vec<u8>) -> (r: Option<(u32, u32, Vec<u8>)>)
    ensures
        r matches Some(t) ==> rgb8_of(bytes@) == Some((t.0, t.1, t.2@)) && t.2@.len() >= 3 * (
        t.0 as int) * (t.1 as int),
        r is None ==> rgb8_of(bytes@) is None,
{
    let img = match image::load_from_memory(bytes.as_slice()) {
        Ok(img) => img,
        Err(_) => return None,
    };
    match img.as_rgb8() {
        Some(buf) => Some((buf.width(), buf.height(), buf.as_raw().clone())),
        None => None,
    }
}

/// Relies on `image::RgbImage::from_raw` and `ImageBuffer::write_to` with
/// the png crate behind them: a raw buffer of exactly `3 * width * height`
/// bytes forms an RGB image of those dimensions; writing it in the PNG
/// format produces bytes that are a function of the dimensions and the
/// pixels alone; and on a buffer of that exact size written to memory the
/// encoder fails only for a zero width or height.
#[verifier::external_body]
fn encode_png(width: u32, height: u32, pixels: &Vec<u8>) -> (r: Result<
    Vec<u8>,
    image::error::ImageError,
>)
    requires
        pixels@.len() == 3 * (width as int) * (height as int),
    ensures
        r matches Ok(b) ==> b@ == png_of(width, height, pixels@),
        width >= 1 && height >= 1 ==> r is Ok,
{
    let img = image::RgbImage::from_raw(width, height, pixels.clone()).unwrap();
    let mut out = std::io::Cursor::new(Vec::new());
    match img.write_to(&mut out, image::ImageOutputFormat::Png) {
        Ok(()) => Ok(out.into_inner()),
        Err(e) => Err(e),
    }
}

/// Encodes the grid as a PNG image, one pixel per cell: black for an alive
/// cell, white for a dead one. Every grid with at least one row and one
/// column encodes; only the degenerate empty rasters fail, with
/// [`Error::UnsupportedFormat`].
pub fn state_image_bytes(state: &GameState) -> (r: Result<Vec<u8>, Error>)
    requires
        state.wf(),
    ensures
        state.spec_width() >= 1 && state.spec_height() >= 1 ==> r is Ok,
        r matches Ok(b) ==> b@ == png_of(
            state.spec_width(),
            state.spec_height(),
            grid_pixel_bytes(
                state.grid_rows(),
                state.spec_width() as int,
                state.spec_height() as int,
            ),
        ),
        r matches Err(e) ==> e == Error::UnsupportedFormat,
{
    let pixels = state_to_pixels(state);
    match encode_png(state.width(), state.height(), &pixels) {
        Ok(b) => Ok(b),
        Err(_) => Err(Error::UnsupportedFormat),
    }
}

/// The PNG image of a blank — all-dead, so all-white — grid of the given
/// dimensions.
pub fn generate_blank_state_image(width: u32, height: u32) -> (r: Result<Vec<u8>, Error>)
    requires
        width <= MAX_DIMENSION,
        height <= MAX_DIMENSION,
    ensures
        width >= 1 && height >= 1 ==> r is Ok,
        r matches Ok(b) ==> b@ == png_of(
            width,
            height,
            grid_pixel_bytes(
                Seq::new(height as nat, |y: int| Seq::new(width as nat, |x: int| false)),
                width as int,
                height as int,
            ),
        ),
        r matches Err(e) ==> e == Error::UnsupportedFormat,
{
    let state = GameState::new_blank(width, height);
    proof {
        assert(state.grid_rows() =~~= Seq::new(
            height as nat,
            |y: int| Seq::new(width as nat, |x: int| false),
        ));
    }
    state_image_bytes(&state)
}

/// Rebuilds a grid from encoded image bytes: the image is decoded, read as
/// 8-bit RGB, and turned into a grid one cell per pixel, alive exactly
/// where the pixel is black. It succeeds on exactly the byte texts that
/// decode to an 8-bit RGB image whose dimensions fit a grid; anything else
/// — bytes that are no image, another pixel format, dimensions too large
/// for `i32` cell coordinates — fails with [`Error::UnsupportedFormat`].
/// The cell mapping itself is the verified [`state_from_pixels`].
pub fn load_state_from_image(bytes: &Vec<u8>) -> (r: Result<GameState, Error>)
    ensures
        (rgb8_of(bytes@) matches Some(t) && t.0 <= MAX_DIMENSION && t.1 <= MAX_DIMENSION) ==> r
            is Ok,
        r matches Ok(g) ==> rgb8_of(bytes@) matches Some(t) && {
            &&& g.wf()
            &&& g.spec_width() == t.0
            &&& g.spec_height() == t.1
            &&& forall|x: int, y: int|
                g.in_bounds(x, y) ==> (g.alive_at(x, y) == pixel_is_alive(t.2, t.0 as int, x, y))
        },
        r matches Err(e) ==> e == Error::UnsupportedFormat,
{
    match decode_image_rgb8(bytes) {
        Some((w, h, data)) => state_from_pixels(w, h, &data),
        None => Err(Error::UnsupportedFormat),
    }
}

} // verus!
