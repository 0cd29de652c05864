//! Preparing animation frames for block compression into BCF files: each
//! frame is reduced to its alpha channel (for BC4) or premultiplied (for
//! BC7) and padded to whole 4x4 blocks; the compressed frames are then stored
//! back to back after the BCF header.

use vstd::prelude::*;
use crate::bcf::{
    bcf_accepts, bcf_count, bcf_frame_bytes, bcf_header, bcf_height, bcf_payload, bcf_width,
    build_bcf, format_for, frame_bytes_for, frames_view, lemma_bcf_roundtrip, lemma_flatten_uniform_len,
};
use crate::pixels::{
    alpha_channel, ceil4, extract_alpha, is_white_only, needs_padding, pad_to_mult4,
    padded_cell, premultiplied, premultiply_alpha, row_byte, white_only,
};
use crate::png_loader::{load_png_raw, png_rgba8};

verus! {

/// Frame dimensions whose padded sizes fit the `u32` arithmetic of padding
/// and of the block encoders.
pub open spec fn frame_fits(width: u32, height: u32) -> bool {
    &&& ceil4(width as int) * 4 <= u32::MAX
    &&& ceil4(height as int) <= u32::MAX
    &&& ceil4(width as int) * ceil4(height as int) * 4 <= u32::MAX
}

/// Whether frames of these dimensions can be encoded.
pub fn frame_size_supported(width: u32, height: u32) -> (r: bool)
    ensures
        r == frame_fits(width, height),
{
    let w4 = width as u64 + ((4 - width % 4) % 4) as u64;
    let h4 = height as u64 + ((4 - height % 4) % 4) as u64;
    if w4 * 4 > u32::MAX as u64 || h4 > u32::MAX as u64 {
        return false;
    }
    assert(w4 * h4 <= 0xffff_ffff_ffff_ffff) by (nonlinear_arith)
        requires
            w4 * 4 <= u32::MAX,
            h4 <= u32::MAX,
    ;
    let area = w4 * h4;
    if area > (u32::MAX / 4) as u64 {
        return false;
    }
    true
}

/// The plane that is compressed before padding: the alpha channel for
/// alpha-only frames, else the premultiplied RGBA pixels.
pub open spec fn frame_plane(rgba: Seq<u8>, alpha_only: bool) -> Seq<u8> {
    if alpha_only {
        alpha_channel(rgba)
    } else {
        premultiplied(rgba)
    }
}

/// Bytes per texel of the compressed plane.
pub open spec fn plane_bpp(alpha_only: bool) -> u32 {
    if alpha_only {
        1
    } else {
        4
    }
}

proof fn lemma_fits(width: u32, height: u32, bpp: u32)
    requires
        frame_fits(width, height),
        bpp == 1 || bpp == 4,
    ensures
        width * bpp <= u32::MAX,
        ceil4(width as int) * bpp <= u32::MAX,
        ceil4(width as int) * ceil4(height as int) <= u32::MAX,
        ceil4(width as int) * ceil4(height as int) * bpp <= u32::MAX,
        height * (width * bpp) == width * height * bpp,
        width * height * 4 <= u32::MAX,
{
    let w4 = ceil4(width as int);
    let h4 = ceil4(height as int);
    assert(width <= w4 && height <= h4);
    assert(w4 * h4 <= w4 * h4 * 4) by (nonlinear_arith)
        requires
            w4 >= 0,
            h4 >= 0,
    ;
    assert(w4 * h4 * bpp <= w4 * h4 * 4) by (nonlinear_arith)
        requires
            w4 >= 0,
            h4 >= 0,
            bpp <= 4,
    ;
    assert(width * height * 4 <= w4 * h4 * 4) by (nonlinear_arith)
        requires
            0 <= width <= w4,
            0 <= height <= h4,
    ;
    assert(height * (width * bpp) == width * height * bpp) by (nonlinear_arith);
}

proof fn lemma_padded_len(width: u32, height: u32, bpp: u32, len: int)
    requires
        frame_fits(width, height),
        !needs_padding(width as int, height as int) ==> len == width * height * bpp,
        needs_padding(width as int, height as int) ==> len == ceil4(width as int) * ceil4(
            height as int,
        ) * bpp,
    ensures
        len == ceil4(width as int) * ceil4(height as int) * bpp,
{
}

/// The padded plane handed to the block encoder: padded width and height
/// (each rounded up to a multiple of 4) and the plane with every source row
/// at the start of its padded row and zeros elsewhere.
pub fn prepare_frame(rgba: &[u8], alpha_only: bool, width: u32, height: u32) -> (r: (u32, u32, Vec<u8>))
    requires
        rgba@.len() == width * height * 4,
        frame_fits(width, height),
    ensures
        r.0 == ceil4(width as int),
        r.1 == ceil4(height as int),
        r.2@.len() == r.0 * r.1 * plane_bpp(alpha_only),
        !needs_padding(width as int, height as int) ==> r.2@ == frame_plane(rgba@, alpha_only),
        needs_padding(width as int, height as int) ==> {
            let bpp = plane_bpp(alpha_only);
            &&& r.2@.len() == r.0 * r.1 * bpp
            &&& forall|y: int, x: int|
                0 <= y < r.1 && 0 <= x < r.0 * bpp ==> #[trigger] row_byte(r.2@, r.0 * bpp, y, x)
                    == padded_cell(frame_plane(rgba@, alpha_only), width * bpp, height as int, y, x)
        },
{
    proof {
        lemma_fits(width, height, plane_bpp(alpha_only));
    }
    if alpha_only {
        let alpha = extract_alpha(rgba);
        assert(alpha@ =~= alpha_channel(rgba@));
        assert(alpha@.len() == width * height) by (nonlinear_arith)
            requires
                alpha@.len() == rgba@.len() / 4,
                rgba@.len() == width * height * 4,
        ;
        let r = pad_to_mult4(width, height, alpha.as_slice(), 1);
        proof {
            lemma_padded_len(width, height, 1, r.2@.len() as int);
        }
        r
    } else {
        let mut px = vstd::slice::slice_to_vec(rgba);
        let ghost raw = px@;
        premultiply_alpha(px.as_mut_slice());
        assert(px@ =~= premultiplied(raw));
        let r = pad_to_mult4(width, height, px.as_slice(), 4);
        proof {
            lemma_padded_len(width, height, 4, r.2@.len() as int);
        }
        r
    }
}

/// What decoding the first frame of a sublayer tells: its width, height, and
/// whether every visible pixel is white (then the sublayer is stored as
/// alpha only). `None` when the PNG does not decode.
pub fn inspect_first_frame(png_bytes: &[u8]) -> (r: Option<(u32, u32, bool)>)
    ensures
        r is Some <==> png_rgba8(png_bytes@) is Some,
        r matches Some((w, h, alpha_only)) ==> ({
            let d = png_rgba8(png_bytes@)->0;
            w == d.0 && h == d.1 && alpha_only == white_only(d.2)
        }),
{
    match load_png_raw(png_bytes) {
        Ok((w, h, px)) => Some((w, h, is_white_only(px.as_slice()))),
        Err(_) => None,
    }
}

/// The decoded frame has the dimensions of the first frame and a complete
/// RGBA buffer.
pub open spec fn frame_matches(d: (u32, u32, Seq<u8>), width: u32, height: u32) -> bool {
    d.0 == width && d.1 == height && d.2.len() == width * height * 4
}

/// Decode one frame PNG and prepare its plane for the block encoder with
/// `prepare_frame`. `None` when the PNG does not decode, or decodes to other
/// dimensions than the first frame: the plane is laid out for the first
/// frame's dimensions, so a smaller frame would leave rows to be read past
/// its pixels and a larger one would be cut at the wrong row width; such a
/// frame is refused instead, and its sublayer is skipped.
pub fn prepare_frame_png(png_bytes: &[u8], alpha_only: bool, width: u32, height: u32) -> (r: Option<(u32, u32, Vec<u8>)>)
    requires
        frame_fits(width, height),
    ensures
        r is Some <==> (png_rgba8(png_bytes@) is Some && frame_matches(
            png_rgba8(png_bytes@)->0,
            width,
            height,
        )),
        r matches Some((pw, ph, plane)) ==> {
            let d = png_rgba8(png_bytes@)->0;
            let bpp = plane_bpp(alpha_only);
            &&& pw == ceil4(width as int)
            &&& ph == ceil4(height as int)
            &&& plane@.len() == pw * ph * bpp
            &&& !needs_padding(width as int, height as int) ==> plane@ == frame_plane(d.2, alpha_only)
            &&& needs_padding(width as int, height as int) ==> forall|y: int, x: int|
                0 <= y < ph && 0 <= x < pw * bpp ==> #[trigger] row_byte(plane@, pw * bpp, y, x)
                    == padded_cell(frame_plane(d.2, alpha_only), width * bpp, height as int, y, x)
        },
{
    proof {
        lemma_fits(width, height, 4);
    }
    match load_png_raw(png_bytes) {
        Ok((w, h, px)) => {
            if w == width && h == height && px.len() as u64 == w as u64 * h as u64 * 4 {
                Some(prepare_frame(px.as_slice(), alpha_only, w, h))
            } else {
                None
            }
        },
        Err(_) => None,
    }
}

/// Every frame was encoded, each into exactly `frame_bytes` bytes.
pub open spec fn all_encoded(frames: Seq<Option<Vec<u8>>>, frame_bytes: int) -> bool {
    forall|i: int|
        0 <= i < frames.len() ==> (#[trigger] frames[i]) is Some && frames[i]->0@.len() == frame_bytes
}

/// The bytes of the encoded frames.
pub open spec fn encoded_views(frames: Seq<Option<Vec<u8>>>) -> Seq<Seq<u8>> {
    frames.map_values(|f: Option<Vec<u8>>| f->0@)
}

/// The BCF file of a sublayer: `None` when any frame failed to encode (or
/// is not one compressed frame of `frame_bytes` bytes, which the block
/// encoders never produce), else the header for the padded dimensions and
/// frame count followed by the frames in order. Such a file is accepted
/// when read back, with the header's format, dimensions and frame count, and
/// its payload is the frames in order.
pub fn assemble_bcf(
    alpha_only: bool,
    width: u32,
    height: u32,
    frame_bytes: usize,
    frames: Vec<Option<Vec<u8>>>,
) -> (r: Option<Vec<u8>>)
    requires
        frames@.len() <= u32::MAX,
        frame_bytes == frame_bytes_for(format_for(alpha_only), width as int, height as int),
    ensures
        r is Some <==> all_encoded(frames@, frame_bytes as int),
        r matches Some(b) ==> {
            &&& b@ == bcf_header(format_for(alpha_only), width, height, frames@.len() as u32)
                + encoded_views(frames@).flatten()
            &&& bcf_accepts(b@)
            &&& b@[4] == format_for(alpha_only)
            &&& bcf_width(b@) == width
            &&& bcf_height(b@) == height
            &&& bcf_count(b@) == frames@.len()
            &&& bcf_frame_bytes(b@) == frame_bytes
            &&& bcf_payload(b@) == encoded_views(frames@).flatten()
            &&& b@.len() == 20 + frames@.len() * frame_bytes
        },
{
    let mut all: Vec<Vec<u8>> = Vec::new();
    let mut i: usize = 0;
    while i < frames.len()
        invariant
            i <= frames@.len(),
            all@.len() == i,
            forall|j: int|
                0 <= j < i ==> (#[trigger] frames@[j]) is Some && frames@[j]->0@.len() == frame_bytes,
            forall|j: int| 0 <= j < i ==> (#[trigger] all@[j])@ == frames@[j]->0@,
        decreases frames@.len() - i,
    {
        match &frames[i] {
            Some(f) => {
                if f.len() != frame_bytes {
                    return None;
                }
                all.push(f.clone());
            },
            None => {
                return None;
            },
        }
        i = i + 1;
    }
    let ghost views = encoded_views(frames@);
    assert(frames_view(all@) =~= views);
    let b = build_bcf(alpha_only, width, height, &all);
    proof {
        assert forall|j: int| 0 <= j < views.len() implies (#[trigger] views[j]).len() == frame_bytes_for(
            format_for(alpha_only),
            width as int,
            height as int,
        ) by {
            assert(frames@[j] is Some);
        }
        lemma_bcf_roundtrip(alpha_only, width, height, views);
        lemma_flatten_uniform_len(views, frame_bytes as int);
    }
    Some(b)
}

} // verus!
