//! PNG Loader — Decode PNG bytes and apply optional tint color.

use vstd::prelude::*;
use vstd::string::*;
use crate::pixels::{
    alpha_channel, lemma_white_tint_is_identity, premultiplied, premultiply_alpha,
    tint_and_premultiply, tinted, white_only,
};
use crate::tint::{parse_tint_hex, tint_channels, tint_hex_sliceable, tint_sliceable, trim_hashes};

pub use crate::pixels::{extract_alpha, is_white_only};

verus! {

/// What the `image` crate decodes from PNG bytes, converted to 8-bit RGBA:
/// width, height and the raw pixel bytes, or `None` when it rejects the bytes.
pub uninterp spec fn png_rgba8(bytes: Seq<u8>) -> Option<(u32, u32, Seq<u8>)>;

/// The text (`Display` of the `image` crate's error) of the error that
/// decoding PNG bytes gives, where it gives one.
pub uninterp spec fn png_decode_error(bytes: Seq<u8>) -> Seq<char>;

/// Decodes `bytes` as PNG with `image::load_from_memory_with_format` and
/// converts the image to RGBA8. Trusted to return exactly `png_rgba8(bytes)`,
/// and on failure the error's text, named `png_decode_error(bytes)`.
#[verifier::external_body]
fn decode_png_rgba8(bytes: &[u8]) -> (r: Result<(u32, u32, Vec<u8>), String>)
    ensures
        match r {
            Ok((w, h, px)) => png_rgba8(bytes@) == Some((w, h, px@)),
            Err(e) => png_rgba8(bytes@) is None && e@ == png_decode_error(bytes@),
        },
{
    match image::load_from_memory_with_format(bytes, image::ImageFormat::Png) {
        Ok(img) => {
            let img = img.into_rgba8();
            Ok((img.width(), img.height(), img.into_raw()))
        },
        Err(e) => Err(e.to_string()),
    }
}

/// A tint that `parse_tint_hex` accepts, or no tint.
pub open spec fn tint_usable(tint_hex: Option<&str>) -> bool {
    match tint_hex {
        Some(hex) => tint_sliceable(hex.spec_bytes()),
        None => true,
    }
}

/// Pixels that `load_png` returns for decoded pixels `px`: tinted then
/// premultiplied, or only premultiplied without a tint.
pub open spec fn loaded_pixels(px: Seq<u8>, tint_hex: Option<&str>) -> Seq<u8> {
    match tint_hex {
        Some(hex) => tinted(px, tint_channels(hex.spec_bytes())),
        None => premultiplied(px),
    }
}

/// What `load_png` gives: the decoded size and loaded pixels, or the
/// decoder's error text.
pub open spec fn spec_load_png(bytes: Seq<u8>, tint_hex: Option<&str>) -> Result<(u32, u32, Seq<u8>), Seq<char>> {
    match png_rgba8(bytes) {
        Some(d) => Ok((d.0, d.1, loaded_pixels(d.2, tint_hex))),
        None => Err(png_decode_error(bytes)),
    }
}

/// Load PNG bytes and return premultiplied-alpha RGBA pixel data.
/// Optionally applies a tint color (multiplies RGB channels).
/// Output is premultiplied to match our PREMULTIPLIED_ALPHA_BLENDING pipeline.
pub fn load_png(png_bytes: &[u8], tint_hex: Option<&str>) -> (r: Result<(u32, u32, Vec<u8>), String>)
    requires
        png_rgba8(png_bytes@) is Some ==> tint_usable(tint_hex),
    ensures
        r is Ok <==> png_rgba8(png_bytes@) is Some,
        r matches Ok((w, h, px)) ==> ({
            let d = png_rgba8(png_bytes@)->0;
            w == d.0 && h == d.1 && px@ == loaded_pixels(d.2, tint_hex)
        }),
        match r {
            Ok((w, h, px)) => spec_load_png(png_bytes@, tint_hex) == Ok::<(u32, u32, Seq<u8>), Seq<char>>((w, h, px@)),
            Err(e) => spec_load_png(png_bytes@, tint_hex) == Err::<(u32, u32, Seq<u8>), Seq<char>>(e@),
        },
{
    let (width, height, mut pixels) = match decode_png_rgba8(png_bytes) {
        Ok(decoded) => decoded,
        Err(e) => return Err(e),
    };
    let ghost raw = pixels@;
    match tint_hex {
        Some(hex) => {
            let tint = parse_tint_hex(hex);
            tint_and_premultiply(pixels.as_mut_slice(), tint);
            assert(pixels@ =~= tinted(raw, tint_channels(hex.spec_bytes())));
        },
        None => {
            premultiply_alpha(pixels.as_mut_slice());
            assert(pixels@ =~= premultiplied(raw));
        },
    }
    Ok((width, height, pixels))
}

/// Load PNG bytes and return raw RGBA pixel data (no tinting, no premultiply).
/// Used for white-detection before choosing alpha-only vs full RGBA path.
pub fn load_png_raw(png_bytes: &[u8]) -> (r: Result<(u32, u32, Vec<u8>), String>)
    ensures
        r is Ok <==> png_rgba8(png_bytes@) is Some,
        r matches Ok((w, h, px)) ==> png_rgba8(png_bytes@) == Some((w, h, px@)),
        r matches Err(e) ==> e@ == png_decode_error(png_bytes@),
{
    decode_png_rgba8(png_bytes)
}

/// `load_png` where the tint may be too short to slice: bytes that do not
/// decode give the decoder's error whatever the tint; decodable bytes with
/// such a tint give `None` (where slicing the tint would panic), and
/// otherwise the result of `load_png`.
pub fn load_png_checked(png_bytes: &[u8], tint_hex: Option<&str>) -> (r: Option<Result<(u32, u32, Vec<u8>), String>>)
    ensures
        r is None <==> (png_rgba8(png_bytes@) is Some && !tint_usable(tint_hex)),
        r matches Some(res) ==> ({
            &&& res is Ok <==> png_rgba8(png_bytes@) is Some
            &&& res matches Err(e) ==> e@ == png_decode_error(png_bytes@)
            &&& res matches Ok((w, h, px)) ==> ({
                let d = png_rgba8(png_bytes@)->0;
                w == d.0 && h == d.1 && px@ == loaded_pixels(d.2, tint_hex)
            })
        }),
{
    let usable = match tint_hex {
        Some(hex) => tint_hex_sliceable(hex),
        None => true,
    };
    if usable {
        Some(load_png(png_bytes, tint_hex))
    } else {
        match load_png_raw(png_bytes) {
            Ok(_) => None,
            Err(e) => Some(Err(e)),
        }
    }
}

/// A tint whose first six hex digits (after the leading `#`) are all `f` or
/// `F` is white, and loading with it gives the same pixels as loading
/// without a tint.
pub proof fn lemma_white_tint_string(hex: &str, px: Seq<u8>)
    requires
        tint_sliceable(hex.spec_bytes()),
        forall|i: int|
            0 <= i < 6 ==> (#[trigger] trim_hashes(hex.spec_bytes())[i] == 102 || trim_hashes(
                hex.spec_bytes(),
            )[i] == 70),
    ensures
        loaded_pixels(px, Some(hex)) == loaded_pixels(px, None),
{
    let t = trim_hashes(hex.spec_bytes());
    assert(t[0] == 102 || t[0] == 70);
    assert(t[1] == 102 || t[1] == 70);
    assert(t[2] == 102 || t[2] == 70);
    assert(t[3] == 102 || t[3] == 70);
    assert(t[4] == 102 || t[4] == 70);
    assert(t[5] == 102 || t[5] == 70);
    assert(tint_channels(hex.spec_bytes()) =~= seq![255u8, 255u8, 255u8]);
    lemma_white_tint_is_identity(px);
}

/// Loading with a white tint (six `f`/`F` hex digits after any leading
/// `#`) gives what loading without a tint gives: the same pixels for bytes
/// that decode, the same error for bytes that do not.
pub proof fn lemma_white_tint_load(bytes: Seq<u8>, hex: &str)
    requires
        tint_sliceable(hex.spec_bytes()),
        forall|i: int|
            0 <= i < 6 ==> (#[trigger] trim_hashes(hex.spec_bytes())[i] == 102 || trim_hashes(
                hex.spec_bytes(),
            )[i] == 70),
    ensures
        spec_load_png(bytes, Some(hex)) == spec_load_png(bytes, None),
{
    match png_rgba8(bytes) {
        Some(d) => {
            lemma_white_tint_string(hex, d.2);
        },
        None => {},
    }
}

/// First frame of an animation sublayer: whether every visible pixel is white
/// (then only the alpha channel is kept), else the premultiplied pixels
/// (the sublayer's tint is applied when drawing). `None` when the frame does
/// not decode.
pub fn decode_first_frame(png_bytes: &[u8]) -> (r: Option<(bool, Vec<u8>)>)
    ensures
        r is Some <==> png_rgba8(png_bytes@) is Some,
        r matches Some((alpha_only, px)) ==> ({
            let d = png_rgba8(png_bytes@)->0;
            &&& alpha_only == white_only(d.2)
            &&& px@ == frame_pixels(d, alpha_only)
        }),
{
    match load_png_raw(png_bytes) {
        Ok((_w, _h, raw)) => {
            if is_white_only(raw.as_slice()) {
                let alpha = extract_alpha(raw.as_slice());
                assert(alpha@ =~= alpha_channel(raw@));
                Some((true, alpha))
            } else {
                let mut px = raw;
                let ghost orig = px@;
                premultiply_alpha(px.as_mut_slice());
                assert(px@ =~= premultiplied(orig));
                Some((false, px))
            }
        },
        Err(_) => None,
    }
}

/// A later frame of an animation sublayer, decoded the way the first frame
/// decided: the alpha channel only, or premultiplied RGBA. `None` when the
/// frame does not decode.
pub fn decode_animation_frame(png_bytes: &[u8], alpha_only: bool) -> (r: Option<Vec<u8>>)
    ensures
        r is Some <==> png_rgba8(png_bytes@) is Some,
        r matches Some(px) ==> px@ == frame_pixels(png_rgba8(png_bytes@)->0, alpha_only),
{
    match load_png_raw(png_bytes) {
        Ok((_w, _h, raw)) => {
            if alpha_only {
                let alpha = extract_alpha(raw.as_slice());
                assert(alpha@ =~= alpha_channel(raw@));
                Some(alpha)
            } else {
                let mut px = raw;
                let ghost orig = px@;
                premultiply_alpha(px.as_mut_slice());
                assert(px@ =~= premultiplied(orig));
                Some(px)
            }
        },
        Err(_) => None,
    }
}

/// The pixels kept of a decoded animation frame: the alpha channel for
/// alpha-only sublayers, else the premultiplied RGBA. Animation frames are
/// never tinted here: the sublayer's tint is applied when drawing.
pub open spec fn frame_pixels(d: (u32, u32, Seq<u8>), alpha_only: bool) -> Seq<u8> {
    if alpha_only {
        alpha_channel(d.2)
    } else {
        premultiplied(d.2)
    }
}

/// The pixels of the frames that were read and decode, in order; frames that
/// could not be read (`None`) or do not decode are left out.
pub open spec fn decodable_frames(pngs: Seq<Option<Vec<u8>>>, alpha_only: bool) -> Seq<Seq<u8>>
    decreases pngs.len(),
{
    if pngs.len() == 0 {
        Seq::empty()
    } else {
        let before = decodable_frames(pngs.drop_last(), alpha_only);
        match pngs.last() {
            Some(bytes) => match png_rgba8(bytes@) {
                Some(d) => before.push(frame_pixels(d, alpha_only)),
                None => before,
            },
            None => before,
        }
    }
}

/// The frames of an animation sublayer without pre-compressed data: the
/// first frame decides alpha-only storage, then it and every later frame that
/// was read and decodes are kept in order. `None` when the first frame does
/// not decode (the sublayer is skipped).
pub fn load_animation_frames(first_png: &[u8], rest_pngs: &Vec<Option<Vec<u8>>>) -> (r: Option<(bool, Vec<Vec<u8>>)>)
    ensures
        r is Some <==> png_rgba8(first_png@) is Some,
        r matches Some((alpha_only, frames)) ==> ({
            let d = png_rgba8(first_png@)->0;
            &&& alpha_only == white_only(d.2)
            &&& frames@.map_values(|f: Vec<u8>| f@) == seq![frame_pixels(d, alpha_only)]
                + decodable_frames(rest_pngs@, alpha_only)
        }),
{
    let (alpha_only, first) = match decode_first_frame(first_png) {
        Some(x) => x,
        None => {
            return None;
        },
    };
    let ghost d = png_rgba8(first_png@)->0;
    let mut frames: Vec<Vec<u8>> = Vec::new();
    frames.push(first);
    let mut i: usize = 0;
    while i < rest_pngs.len()
        invariant
            i <= rest_pngs@.len(),
            frames@.map_values(|f: Vec<u8>| f@) == seq![frame_pixels(d, alpha_only)]
                + decodable_frames(rest_pngs@.take(i as int), alpha_only),
        decreases rest_pngs@.len() - i,
    {
        let ghost before = frames@;
        assert(rest_pngs@.take(i + 1).drop_last() =~= rest_pngs@.take(i as int));
        match &rest_pngs[i] {
            Some(bytes) => {
                match decode_animation_frame(bytes.as_slice(), alpha_only) {
                    Some(px) => {
                        frames.push(px);
                        assert(frames@.map_values(|f: Vec<u8>| f@) =~= before.map_values(
                            |f: Vec<u8>| f@,
                        ).push(px@));
                    },
                    None => {},
                }
            },
            None => {},
        }
        i = i + 1;
    }
    assert(rest_pngs@.take(rest_pngs@.len() as int) =~= rest_pngs@);
    Some((alpha_only, frames))
}

} // verus!
