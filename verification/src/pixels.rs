//! Per-pixel transforms on tightly packed 8-bit image data.

use vstd::prelude::*;

verus! {

/// `x` rounded up to a multiple of 4.
pub open spec fn ceil4(x: int) -> int {
    x + (4 - x % 4) % 4
}

/// Integer alpha premultiplication: `(v * a + 127) / 255`, which rounds
/// `v * a / 255` to the nearest integer.
pub open spec fn premul(v: u8, a: u8) -> u8 {
    ((v * a + 127) / 255) as u8
}

/// Pixel `p` of RGBA data is either fully transparent or pure white.
pub open spec fn pixel_white_or_clear(rgba: Seq<u8>, p: int) -> bool {
    rgba[4 * p + 3] > 0 ==> (rgba[4 * p] == 255 && rgba[4 * p + 1] == 255 && rgba[4 * p + 2]
        == 255)
}

/// Every complete pixel whose alpha is non-zero is pure white.
pub open spec fn white_only(rgba: Seq<u8>) -> bool {
    forall|p: int| 0 <= p < rgba.len() / 4 ==> #[trigger] pixel_white_or_clear(rgba, p)
}

proof fn lemma_premul_bounds(v: u8, a: u8)
    ensures
        v * a + 127 <= 65152,
        (v * a + 127) / 255 <= 255,
{
    assert(v * a <= 255 * 255) by (nonlinear_arith)
        requires
            v <= 255,
            a <= 255,
    ;
}

/// An opaque pixel keeps its channel values under premultiplication.
pub proof fn lemma_premul_opaque(v: u8)
    ensures
        premul(v, 255) == v,
{
    assert((v * 255 + 127) / 255 == v) by (nonlinear_arith)
        requires
            v <= 255,
    ;
}

/// A fully transparent pixel premultiplies to black.
pub proof fn lemma_premul_transparent(v: u8)
    ensures
        premul(v, 0) == 0,
{
}

/// RGBA data after premultiplication.
pub open spec fn premultiplied(old: Seq<u8>) -> Seq<u8> {
    Seq::new(old.len(), |i: int| premultiplied_byte(old, i))
}

/// RGBA data after tinting and premultiplication.
pub open spec fn tinted(old: Seq<u8>, tint: Seq<u8>) -> Seq<u8> {
    Seq::new(old.len(), |i: int| tinted_byte(old, tint, i))
}

/// The alpha byte of every complete pixel.
pub open spec fn alpha_channel(rgba: Seq<u8>) -> Seq<u8> {
    Seq::new((rgba.len() / 4) as nat, |p: int| rgba[4 * p + 3])
}

/// Check if all visible pixels (alpha > 0) are pure white (RGB = 255,255,255).
/// If true, the frame can be stored as alpha-only (1 byte/pixel) with tint applied in shader.
pub fn is_white_only(rgba: &[u8]) -> (r: bool)
    ensures
        r == white_only(rgba@),
{
    let n = rgba.len() / 4;
    let mut p: usize = 0;
    while p < n
        invariant
            n == rgba@.len() / 4,
            rgba@.len() <= usize::MAX,
            p <= n,
            forall|q: int| 0 <= q < p ==> #[trigger] pixel_white_or_clear(rgba@, q),
        decreases n - p,
    {
        let i = 4 * p;
        if rgba[i + 3] > 0 && (rgba[i] != 255 || rgba[i + 1] != 255 || rgba[i + 2] != 255) {
            assert(!pixel_white_or_clear(rgba@, p as int));
            return false;
        }
        p = p + 1;
    }
    true
}

/// Extract just the alpha channel from RGBA data (4 bytes/pixel → 1 byte/pixel).
pub fn extract_alpha(rgba: &[u8]) -> (r: Vec<u8>)
    ensures
        r@.len() == rgba@.len() / 4,
        forall|p: int| 0 <= p < r@.len() ==> #[trigger] r@[p] == rgba@[4 * p + 3],
{
    let n = rgba.len() / 4;
    let mut out: Vec<u8> = Vec::with_capacity(n);
    let mut p: usize = 0;
    while p < n
        invariant
            n == rgba@.len() / 4,
            rgba@.len() <= usize::MAX,
            p <= n,
            out@.len() == p,
            forall|q: int| 0 <= q < p ==> #[trigger] out@[q] == rgba@[4 * q + 3],
        decreases n - p,
    {
        out.push(rgba[4 * p + 3]);
        p = p + 1;
    }
    out
}

/// What premultiplication leaves at byte `i` of RGBA data: colour channels of
/// complete pixels are premultiplied by their pixel's alpha, everything else
/// is kept.
pub open spec fn premultiplied_byte(old: Seq<u8>, i: int) -> u8 {
    if i < (old.len() / 4) * 4 && i % 4 != 3 {
        premul(old[i], old[i - i % 4 + 3])
    } else {
        old[i]
    }
}

/// What tinting with `tint` and premultiplying leaves at byte `i`: each
/// colour channel is first scaled by its tint channel, then by alpha.
pub open spec fn tinted_byte(old: Seq<u8>, tint: Seq<u8>, i: int) -> u8 {
    if i < (old.len() / 4) * 4 && i % 4 != 3 {
        premul(premul(old[i], tint[i % 4]), old[i - i % 4 + 3])
    } else {
        old[i]
    }
}

/// Tinting with white changes nothing: white-tinted, premultiplied pixels
/// are the premultiplied pixels.
pub proof fn lemma_white_tint_is_identity(old: Seq<u8>)
    ensures
        tinted(old, seq![255u8, 255u8, 255u8]) == premultiplied(old),
{
    let t = seq![255u8, 255u8, 255u8];
    assert forall|i: int| 0 <= i < old.len() implies #[trigger] tinted_byte(old, t, i)
        == premultiplied_byte(old, i) by {
        if i < (old.len() / 4) * 4 && i % 4 != 3 {
            assert(t[i % 4] == 255u8);
            lemma_premul_opaque(old[i]);
        }
    }
    assert(tinted(old, t) =~= premultiplied(old));
}

/// Premultiply alpha in RGBA data in-place.
pub fn premultiply_alpha(rgba: &mut [u8])
    ensures
        final(rgba)@.len() == old(rgba)@.len(),
        forall|i: int|
            0 <= i < old(rgba)@.len() ==> #[trigger] final(rgba)@[i] == premultiplied_byte(
                old(rgba)@,
                i,
            ),
{
    let ghost orig = rgba@;
    let n = rgba.len() / 4;
    let mut p: usize = 0;
    while p < n
        invariant
            n == orig.len() / 4,
            orig.len() <= usize::MAX,
            p <= n,
            rgba@.len() == orig.len(),
            forall|i: int|
                0 <= i < 4 * p ==> #[trigger] rgba@[i] == premultiplied_byte(orig, i),
            forall|i: int| 4 * p <= i < orig.len() ==> #[trigger] rgba@[i] == orig[i],
        decreases n - p,
    {
        let i = 4 * p;
        let a = rgba[i + 3] as u16;
        proof {
            lemma_premul_bounds(rgba@[i as int], rgba@[i + 3]);
            lemma_premul_bounds(rgba@[i + 1], rgba@[i + 3]);
            lemma_premul_bounds(rgba@[i + 2], rgba@[i + 3]);
        }
        let r = ((rgba[i] as u16 * a + 127) / 255) as u8;
        let g = ((rgba[i + 1] as u16 * a + 127) / 255) as u8;
        let b = ((rgba[i + 2] as u16 * a + 127) / 255) as u8;
        rgba[i] = r;
        rgba[i + 1] = g;
        rgba[i + 2] = b;
        p = p + 1;
    }
}

/// Scale each colour channel by the matching tint channel, then premultiply
/// by alpha, in place, using the same rounding integer formula for both.
pub fn tint_and_premultiply(rgba: &mut [u8], tint: [u8; 3])
    ensures
        final(rgba)@.len() == old(rgba)@.len(),
        forall|i: int|
            0 <= i < old(rgba)@.len() ==> #[trigger] final(rgba)@[i] == tinted_byte(
                old(rgba)@,
                tint@,
                i,
            ),
{
    let ghost orig = rgba@;
    let tr = tint[0] as u32;
    let tg = tint[1] as u32;
    let tb = tint[2] as u32;
    let n = rgba.len() / 4;
    let mut p: usize = 0;
    while p < n
        invariant
            n == orig.len() / 4,
            orig.len() <= usize::MAX,
            p <= n,
            rgba@.len() == orig.len(),
            tr == tint[0],
            tg == tint[1],
            tb == tint[2],
            forall|i: int| 0 <= i < 4 * p ==> #[trigger] rgba@[i] == tinted_byte(orig, tint@, i),
            forall|i: int| 4 * p <= i < orig.len() ==> #[trigger] rgba@[i] == orig[i],
        decreases n - p,
    {
        let i = 4 * p;
        let a = rgba[i + 3] as u32;
        proof {
            lemma_premul_bounds(rgba@[i as int], tint[0]);
            lemma_premul_bounds(rgba@[i + 1], tint[1]);
            lemma_premul_bounds(rgba@[i + 2], tint[2]);
        }
        let r = (rgba[i] as u32 * tr + 127) / 255;
        let g = (rgba[i + 1] as u32 * tg + 127) / 255;
        let b = (rgba[i + 2] as u32 * tb + 127) / 255;
        proof {
            lemma_premul_bounds(r as u8, rgba@[i + 3]);
            lemma_premul_bounds(g as u8, rgba@[i + 3]);
            lemma_premul_bounds(b as u8, rgba@[i + 3]);
        }
        rgba[i] = ((r * a + 127) / 255) as u8;
        rgba[i + 1] = ((g * a + 127) / 255) as u8;
        rgba[i + 2] = ((b * a + 127) / 255) as u8;
        p = p + 1;
    }
}

} // verus!

verus! {

/// Either dimension is not a multiple of 4.
pub open spec fn needs_padding(width: int, height: int) -> bool {
    width % 4 != 0 || height % 4 != 0
}

/// The `u32` arithmetic of padding does not overflow and every source row is
/// present. Without padding nothing is required.
pub open spec fn padding_fits(width: u32, height: u32, data_len: int, bpp: u32) -> bool {
    needs_padding(width as int, height as int) ==> {
        let w4 = ceil4(width as int);
        let h4 = ceil4(height as int);
        &&& w4 <= u32::MAX
        &&& h4 <= u32::MAX
        &&& width * bpp <= u32::MAX
        &&& w4 * bpp <= u32::MAX
        &&& w4 * h4 <= u32::MAX
        &&& w4 * h4 * bpp <= u32::MAX
        &&& data_len >= height * (width * bpp)
    }
}

/// Byte `x` of padded row `y`: the source byte inside the unpadded image,
/// zero in the padding.
pub open spec fn padded_cell(data: Seq<u8>, row_bytes: int, height: int, y: int, x: int) -> u8 {
    if y < height && x < row_bytes {
        data[y * row_bytes + x]
    } else {
        0
    }
}

/// Byte `x` of row `y` in a buffer with rows of `n` bytes.
pub open spec fn row_byte(s: Seq<u8>, n: int, y: int, x: int) -> u8 {
    s[y * n + x]
}

proof fn lemma_row_index(yy: int, xx: int, y: int, n: int)
    requires
        0 <= yy < y,
        0 <= xx < n,
    ensures
        0 <= yy * n + xx < y * n,
{
    assert(0 <= yy * n + xx < y * n) by (nonlinear_arith)
        requires
            0 <= yy < y,
            0 <= xx < n,
    ;
}

/// Pad image data to dimensions that are multiples of 4.
/// Returns (padded_width, padded_height, padded_data): each source row is
/// copied to the start of its padded row and the rest is zero.
pub fn pad_to_mult4(width: u32, height: u32, data: &[u8], bpp: u32) -> (r: (u32, u32, Vec<u8>))
    requires
        padding_fits(width, height, data@.len() as int, bpp),
    ensures
        r.0 == ceil4(width as int),
        r.1 == ceil4(height as int),
        !needs_padding(width as int, height as int) ==> r.2@ == data@,
        needs_padding(width as int, height as int) ==> {
            &&& r.2@.len() == r.0 * r.1 * bpp
            &&& forall|y: int, x: int|
                0 <= y < r.1 && 0 <= x < r.0 * bpp ==> #[trigger] row_byte(r.2@, r.0 * bpp, y, x)
                    == padded_cell(data@, width * bpp, height as int, y, x)
        },
{
    let pad_w = (4 - (width % 4)) % 4;
    let pad_h = (4 - (height % 4)) % 4;
    if pad_w == 0 && pad_h == 0 {
        return (width, height, vstd::slice::slice_to_vec(data));
    }
    let new_w = width + pad_w;
    let new_h = height + pad_h;
    let row_bytes = (width * bpp) as usize;
    let new_row_bytes = (new_w * bpp) as usize;
    let total = (new_w * new_h * bpp) as usize;
    let rows = height as usize;
    let new_rows = new_h as usize;
    assert(total == new_rows * new_row_bytes) by (nonlinear_arith)
        requires
            total == new_w * new_h * bpp,
            new_rows == new_h,
            new_row_bytes == new_w * bpp,
    ;
    assert(row_bytes <= new_row_bytes) by (nonlinear_arith)
        requires
            row_bytes == width * bpp,
            new_row_bytes == new_w * bpp,
            width <= new_w,
    ;
    let data_len = data.len();
    let mut padded: Vec<u8> = Vec::with_capacity(total);
    let mut y: usize = 0;
    while y < new_rows
        invariant
            y <= new_rows,
            rows == height,
            new_rows * new_row_bytes == total,
            total <= u32::MAX,
            row_bytes == width * bpp,
            rows <= new_rows,
            row_bytes <= new_row_bytes,
            data@.len() >= rows * row_bytes,
            data@.len() == data_len,
            padded@.len() == y * new_row_bytes,
            forall|yy: int, xx: int|
                0 <= yy < y && 0 <= xx < new_row_bytes ==> #[trigger] row_byte(
                    padded@,
                    new_row_bytes as int,
                    yy,
                    xx,
                ) == padded_cell(data@, row_bytes as int, rows as int, yy, xx),
        decreases new_rows - y,
    {
        let mut x: usize = 0;
        assert(y * new_row_bytes + new_row_bytes <= total) by (nonlinear_arith)
            requires
                y < new_rows,
                new_rows * new_row_bytes == total,
        ;
        while x < new_row_bytes
            invariant
                y < new_rows,
                x <= new_row_bytes,
                rows == height,
                row_bytes == width * bpp,
                rows <= new_rows,
                row_bytes <= new_row_bytes,
                y * new_row_bytes + new_row_bytes <= total,
                total <= u32::MAX,
                data@.len() >= rows * row_bytes,
                data@.len() == data_len,
                padded@.len() == y * new_row_bytes + x,
                forall|yy: int, xx: int|
                    0 <= yy < y && 0 <= xx < new_row_bytes ==> #[trigger] row_byte(
                        padded@,
                        new_row_bytes as int,
                        yy,
                        xx,
                    ) == padded_cell(data@, row_bytes as int, rows as int, yy, xx),
                forall|xx: int|
                    0 <= xx < x ==> #[trigger] row_byte(padded@, new_row_bytes as int, y as int, xx)
                        == padded_cell(data@, row_bytes as int, rows as int, y as int, xx),
            decreases new_row_bytes - x,
        {
            let v = if y < rows && x < row_bytes {
                assert(y * row_bytes + x < rows * row_bytes) by (nonlinear_arith)
                    requires
                        y < rows,
                        x < row_bytes,
                ;
                data[y * row_bytes + x]
            } else {
                0
            };
            let ghost before = padded@;
            padded.push(v);
            proof {
                assert forall|yy: int, xx: int|
                    0 <= yy < y && 0 <= xx < new_row_bytes implies #[trigger] row_byte(
                        padded@,
                        new_row_bytes as int,
                        yy,
                        xx,
                    ) == padded_cell(data@, row_bytes as int, rows as int, yy, xx) by {
                    lemma_row_index(yy, xx, y as int, new_row_bytes as int);
                    assert(row_byte(before, new_row_bytes as int, yy, xx) == padded_cell(
                        data@,
                        row_bytes as int,
                        rows as int,
                        yy,
                        xx,
                    ));
                }
                assert forall|xx: int| 0 <= xx < x + 1 implies #[trigger] row_byte(
                    padded@,
                    new_row_bytes as int,
                    y as int,
                    xx,
                ) == padded_cell(data@, row_bytes as int, rows as int, y as int, xx) by {
                    if xx < x {
                        assert(row_byte(before, new_row_bytes as int, y as int, xx)
                            == padded_cell(data@, row_bytes as int, rows as int, y as int, xx));
                    }
                }
            }
            x = x + 1;
        }
        proof {
            assert forall|yy: int, xx: int|
                0 <= yy < y + 1 && 0 <= xx < new_row_bytes implies #[trigger] row_byte(
                padded@,
                new_row_bytes as int,
                yy,
                xx,
            ) == padded_cell(data@, row_bytes as int, rows as int, yy, xx) by {
                if yy == y {
                    assert(row_byte(padded@, new_row_bytes as int, y as int, xx) == padded_cell(
                        data@,
                        row_bytes as int,
                        rows as int,
                        y as int,
                        xx,
                    ));
                }
            }
            assert((y + 1) * new_row_bytes == y * new_row_bytes + new_row_bytes)
                by (nonlinear_arith);
        }
        y = y + 1;
    }
    assert(total == new_w * new_h * bpp);
    (new_w, new_h, padded)
}

} // verus!
