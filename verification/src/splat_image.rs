//! Splat-image sampling: an image (PNG, JPEG, ...) is decoded to RGBA and every
//! `stride`-th pixel of every `stride`-th row is taken, row by row, as a candidate gaussian; the
//! caller keeps the opaque ones and places them.
use vstd::prelude::*;

verus! {

/// What `image::guess_format` then `image::load_from_memory_with_format` (with the guessed
/// format) then `to_rgba8` make of a byte buffer: width, height and the RGBA bytes (row-major, 4
/// per pixel), or nothing when the bytes are not an image of a format the crate reads.
pub uninterp spec fn decoded_image(bytes: Seq<u8>) -> Option<(u32, u32, Seq<u8>)>;

/// Decodes an image held in memory: its format is guessed from its leading bytes
/// (`image::guess_format`, which compares them with the crate's built-in signatures and
/// consults no registered hook), then it is decoded with that format
/// (`image::load_from_memory_with_format`, which takes the built-in decoder of the format and
/// consults no hook either) and converted to 8-bit RGBA (`DynamicImage::to_rgba8`). The contract
/// claims that the result is the named decoding of the bytes, and that the RGBA buffer holds at
/// least `width · height · 4` bytes (what `to_rgba8` allocates). What the decoding is, byte for
/// byte, is not stated.
#[verifier::external_body]
fn decode_image(bytes: &[u8]) -> (r: Option<(u32, u32, Vec<u8>)>)
    ensures
        match r {
            Some((w, h, px)) => decoded_image(bytes@) == Some((w, h, px@)) && px@.len() >= (w as int)
                * (h as int) * 4,
            None => decoded_image(bytes@).is_none(),
        },
{
    match image::guess_format(bytes) {
        Ok(format) => match image::load_from_memory_with_format(bytes, format) {
            Ok(img) => {
                let rgba = img.to_rgba8();
                let (w, h) = (rgba.width(), rgba.height());
                Some((w, h, rgba.into_raw()))
            },
            Err(_) => None,
        },
        Err(_) => None,
    }
}

/// One sampled pixel: its column, row and RGBA.
#[derive(Clone, Copy, PartialEq, Eq, Structural, Debug)]
pub struct PixelSample {
    pub x: u32,
    pub y: u32,
    pub r: u8,
    pub g: u8,
    pub b: u8,
    pub a: u8,
}

/// Pixel `(x, y)` of a `w`-wide RGBA image.
pub open spec fn pixel_at(px: Seq<u8>, w: int, x: int, y: int) -> PixelSample {
    let i = 4 * (y * w + x);
    PixelSample { x: x as u32, y: y as u32, r: px[i], g: px[i + 1], b: px[i + 2], a: px[i + 3] }
}

/// The samples of row `y` from column `x` on, every `stride`-th column.
pub open spec fn row_samples(px: Seq<u8>, w: int, stride: int, x: int, y: int) -> Seq<PixelSample>
    decreases (if x < w {
        w - x
    } else {
        0
    }),
{
    if x >= w || stride <= 0 || x < 0 {
        seq![]
    } else {
        seq![pixel_at(px, w, x, y)] + row_samples(
            px,
            w,
            stride,
            x + stride,
            y,
        )
    }
}

/// The samples of the rows from `y` on, every `stride`-th row.
pub open spec fn grid_samples(px: Seq<u8>, w: int, h: int, stride: int, y: int) -> Seq<PixelSample>
    decreases (if y < h {
        h - y
    } else {
        0
    }),
{
    if y >= h || stride <= 0 || y < 0 {
        seq![]
    } else {
        row_samples(px, w, stride, 0, y) + grid_samples(px, w, h, stride, y + stride)
    }
}

/// The samples of an image (a stride of 0 counts as 1): nothing when it does not decode or is
/// empty.
pub open spec fn spec_sample_image(bytes: Seq<u8>, stride: usize) -> Seq<PixelSample> {
    let st = if stride == 0 {
        1
    } else {
        stride as int
    };
    match decoded_image(bytes) {
        None => seq![],
        Some((w, h, px)) => if w == 0 || h == 0 {
            seq![]
        } else {
            grid_samples(px, w as int, h as int, st, 0)
        },
    }
}

proof fn lemma_pixel_index(x: int, y: int, w: int, h: int)
    requires
        0 <= x < w,
        0 <= y < h,
    ensures
        0 <= 4 * (y * w + x),
        4 * (y * w + x) + 4 <= w * h * 4,
{
    assert(y * w + x < w * h) by (nonlinear_arith)
        requires
            0 <= x < w,
            0 <= y < h,
    ;
    assert(0 <= y * w) by (nonlinear_arith)
        requires
            0 <= y,
            0 <= w,
    ;
}

/// The width and height of the decoded image, `(0, 0)` when the bytes do not decode.
pub open spec fn spec_image_size(bytes: Seq<u8>) -> (u32, u32) {
    match decoded_image(bytes) {
        Some((w, h, px)) => (w, h),
        None => (0, 0),
    }
}

/// The samples of a decoded `w`×`h` RGBA image (a stride of 0 counts as 1): every `stride`-th
/// pixel (column) of every `stride`-th row, row by row; nothing when the image is empty.
pub open spec fn spec_sample_pixels(w: u32, h: u32, px: Seq<u8>, stride: usize) -> Seq<PixelSample> {
    let st = if stride == 0 {
        1
    } else {
        stride as int
    };
    if w == 0 || h == 0 {
        seq![]
    } else {
        grid_samples(px, w as int, h as int, st, 0)
    }
}

/// Sample the pixels of a decoded RGBA image `w` pixels wide and `h` high (`px` holds at least
/// `w · h · 4` bytes): every `stride`-th pixel of every `stride`-th row, row by row.
pub fn sample_pixels(w: u32, h: u32, px: &Vec<u8>, stride: usize) -> (r: Vec<PixelSample>)
    requires
        px@.len() >= (w as int) * (h as int) * 4,
    ensures
        r@ == spec_sample_pixels(w, h, px@, stride),
{
    let st: usize = if stride == 0 {
        1
    } else {
        stride
    };
    if w == 0 || h == 0 {
        return Vec::new();
    }
    let ghost pv = px@;
    let n = px.len();
    let mut out: Vec<PixelSample> = Vec::new();
    let mut y: u32 = 0;
    let mut stop_y = false;
    while !stop_y && y < h
        invariant
            pv == px@,
            n == px@.len(),
            px@.len() >= (w as int) * (h as int) * 4,
            st >= 1,
            st == (if stride == 0 {
                1
            } else {
                stride
            }),
            w > 0 && h > 0,
            spec_sample_pixels(w, h, pv, stride) == out@ + (if stop_y {
                Seq::<PixelSample>::empty()
            } else {
                grid_samples(pv, w as int, h as int, st as int, y as int)
            }),
        decreases h - y + (if stop_y {
            0int
        } else {
            1int
        }),
    {
        let ghost before_row = out@;
        let mut x: u32 = 0;
        let mut stop_x = false;
        while !stop_x && x < w
            invariant
                pv == px@,
                n == px@.len(),
                px@.len() >= (w as int) * (h as int) * 4,
                st >= 1,
                y < h,
                out@ + (if stop_x {
                    Seq::<PixelSample>::empty()
                } else {
                    row_samples(pv, w as int, st as int, x as int, y as int)
                }) == before_row + row_samples(pv, w as int, st as int, 0, y as int),
            decreases w - x + (if stop_x {
                0int
            } else {
                1int
            }),
        {
            proof {
                lemma_pixel_index(x as int, y as int, w as int, h as int);
            }
            proof {
                assert((y as int) * (w as int) <= (y as int) * (w as int) + (x as int));
            }
            let i: usize = 4 * ((y as usize) * (w as usize) + (x as usize));
            let s = PixelSample { x, y, r: px[i], g: px[i + 1], b: px[i + 2], a: px[i + 3] };
            let ghost old_out = out@;
            out.push(s);
            proof {
                assert(s == pixel_at(pv, w as int, x as int, y as int));
                let rest = row_samples(pv, w as int, st as int, x + st, y as int);
                assert(old_out + (seq![s] + rest) =~= out@ + rest);
            }
            if (w - x) as usize <= st {
                proof {
                    assert(row_samples(pv, w as int, st as int, x + st, y as int) =~= Seq::<PixelSample>::empty());
                    assert(out@ + Seq::<PixelSample>::empty() =~= out@);
                }
                stop_x = true;
            } else {
                x = x + st as u32;
            }
        }
        proof {
            assert(out@ + Seq::<PixelSample>::empty() =~= out@);
            let rest = grid_samples(pv, w as int, h as int, st as int, y + st);
            assert(before_row + (row_samples(pv, w as int, st as int, 0, y as int) + rest) =~= out@
                + rest);
        }
        if (h - y) as usize <= st {
            proof {
                assert(grid_samples(pv, w as int, h as int, st as int, y + st) =~= Seq::<PixelSample>::empty());
            }
            stop_y = true;
        } else {
            y = y + st as u32;
        }
    }
    proof {
        assert(out@ + Seq::<PixelSample>::empty() =~= out@);
    }
    out
}


/// Sample the pixels of an image held in memory: its width and height, and every `stride`-th pixel
/// (column) of every `stride`-th row, row by row; a size of `(0, 0)` and no pixels when it does not
/// decode.
pub fn sample_image(bytes: &[u8], stride: usize) -> (r: (u32, u32, Vec<PixelSample>))
    ensures
        (r.0, r.1) == spec_image_size(bytes@),
        r.2@ == spec_sample_image(bytes@, stride),
{
    match decode_image(bytes) {
        Some((w, h, px)) => {
            let out = sample_pixels(w, h, &px, stride);
            (w, h, out)
        },
        None => (0, 0, Vec::new()),
    }
}

/// The deterministic jitter byte of sample `k`: bits 8–15 of `k · 2654435761 (mod 2³²)`.
pub open spec fn spec_jitter_byte(k: u32) -> u8 {
    ((((k as int) * 2654435761) % 4294967296 / 256) % 256) as u8
}

pub fn jitter_byte(k: u32) -> (r: u8)
    ensures
        r == spec_jitter_byte(k),
{
    let p: u64 = (k as u64) * 2654435761u64;
    ((p % 4294967296 / 256) % 256) as u8
}

} // verus!
