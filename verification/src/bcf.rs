//! The BCF container: a 20-byte header followed by the block-compressed
//! frames of one animation sublayer, back to back.
//!
//! Header layout: bytes `0..4` are the magic `BCF\0`; byte `4` is the format
//! (4 for BC4, 7 for BC7); bytes `5..8` are zero; bytes `8..12`, `12..16` and
//! `16..20` are the frame width, frame height and frame count as
//! little-endian `u32`. A frame covers `(width / 4) * (height / 4)` blocks of
//! 8 bytes (BC4) or 16 bytes (any other format byte).

use vstd::prelude::*;
use vstd::slice::*;
use crate::animation::FrameStorage;

verus! {

pub const BCF_HEADER_LEN: usize = 20;

pub const BCF_FORMAT_BC4: u8 = 4;

pub const BCF_FORMAT_BC7: u8 = 7;

/// The four magic bytes `BCF\0`.
pub open spec fn has_bcf_magic(b: Seq<u8>) -> bool {
    b[0] == 66 && b[1] == 67 && b[2] == 70 && b[3] == 0
}

/// Little-endian `u32` read at byte offset `off`.
pub open spec fn le_u32(b: Seq<u8>, off: int) -> int {
    b[off] + 256 * b[off + 1] + 65536 * b[off + 2] + 16777216 * b[off + 3]
}

/// Little-endian bytes of `v`.
pub open spec fn le_bytes(v: u32) -> Seq<u8> {
    seq![(v % 256) as u8, ((v / 256) % 256) as u8, ((v / 65536) % 256) as u8, (v / 16777216) as u8]
}

/// Bytes per 4x4 block for a format byte: 8 for BC4, 16 otherwise.
pub open spec fn block_bytes(format: u8) -> int {
    if format == BCF_FORMAT_BC4 {
        8
    } else {
        16
    }
}

/// Bytes of one compressed frame of the given dimensions.
pub open spec fn frame_bytes_for(format: u8, width: int, height: int) -> int {
    (width / 4) * (height / 4) * block_bytes(format)
}

pub open spec fn bcf_width(b: Seq<u8>) -> int {
    le_u32(b, 8)
}

pub open spec fn bcf_height(b: Seq<u8>) -> int {
    le_u32(b, 12)
}

pub open spec fn bcf_count(b: Seq<u8>) -> int {
    le_u32(b, 16)
}

pub open spec fn bcf_frame_bytes(b: Seq<u8>) -> int {
    frame_bytes_for(b[4], bcf_width(b), bcf_height(b))
}

/// Payload bytes that the header announces.
pub open spec fn bcf_expected(b: Seq<u8>) -> int {
    bcf_count(b) * bcf_frame_bytes(b)
}

/// The file has a complete header with the magic, and at least as many
/// payload bytes as the header announces.
pub open spec fn bcf_accepts(b: Seq<u8>) -> bool {
    &&& b.len() >= 20
    &&& has_bcf_magic(b)
    &&& b.len() - 20 >= bcf_expected(b)
    &&& bcf_frame_bytes(b) <= usize::MAX
}

/// The announced payload; bytes after it are ignored.
pub open spec fn bcf_payload(b: Seq<u8>) -> Seq<u8> {
    b.subrange(20, 20 + bcf_expected(b))
}

/// The 20-byte header for the given format, dimensions and frame count.
pub open spec fn bcf_header(format: u8, width: u32, height: u32, count: u32) -> Seq<u8> {
    seq![66u8, 67u8, 70u8, 0u8, format, 0u8, 0u8, 0u8] + le_bytes(width) + le_bytes(height)
        + le_bytes(count)
}

/// The format byte written for alpha-only (BC4) or RGBA (BC7) frames.
pub open spec fn format_for(alpha_only: bool) -> u8 {
    if alpha_only {
        BCF_FORMAT_BC4
    } else {
        BCF_FORMAT_BC7
    }
}

/// The frames of a BCF file.
pub struct BcfFrames {
    pub format: u8,
    pub width: u32,
    pub height: u32,
    pub frame_count: usize,
    pub frame_bytes: usize,
    pub data: Vec<u8>,
}

/// Why a BCF file was not accepted.
#[derive(Debug, Clone, Copy, PartialEq, Eq)]
pub enum BcfError {
    /// Shorter than the 20-byte header.
    TooSmall,
    /// The first four bytes are not `BCF\0`.
    BadMagic,
    /// Fewer payload bytes than the header announces.
    SizeMismatch { expected: u128, available: usize },
    /// One frame does not fit in `usize` (only possible where `usize` has
    /// fewer than 64 bits).
    FrameTooLarge,
}

proof fn lemma_le_bytes(v: u32)
    ensures
        le_u32(le_bytes(v), 0) == v,
{
    let s = le_bytes(v);
    assert((v % 256) + 256 * ((v / 256) % 256) + 65536 * ((v / 65536) % 256) + 16777216 * (v
        / 16777216) == v) by (nonlinear_arith);
}

fn read_le_u32(b: &[u8], off: usize) -> (r: u32)
    requires
        off + 4 <= b@.len(),
    ensures
        r == le_u32(b@, off as int),
{
    b[off] as u32 + 256 * (b[off + 1] as u32) + 65536 * (b[off + 2] as u32) + 16777216 * (b[off
        + 3] as u32)
}

fn push_le_u32(out: &mut Vec<u8>, v: u32)
    ensures
        final(out)@ == old(out)@ + le_bytes(v),
{
    out.push((v % 256) as u8);
    out.push(((v / 256) % 256) as u8);
    out.push(((v / 65536) % 256) as u8);
    out.push((v / 16777216) as u8);
    assert(final(out)@ =~= old(out)@ + le_bytes(v));
}

/// Parse a BCF file: check the header and copy out the announced frames.
pub fn parse_bcf(file_data: &[u8]) -> (r: Result<BcfFrames, BcfError>)
    ensures
        r is Ok <==> bcf_accepts(file_data@),
        match r {
            Ok(f) => {
                &&& f.format == file_data@[4]
                &&& f.width == bcf_width(file_data@)
                &&& f.height == bcf_height(file_data@)
                &&& f.frame_count == bcf_count(file_data@)
                &&& f.frame_bytes == bcf_frame_bytes(file_data@)
                &&& f.data@ == bcf_payload(file_data@)
            },
            Err(BcfError::TooSmall) => file_data@.len() < 20,
            Err(BcfError::BadMagic) => file_data@.len() >= 20 && !has_bcf_magic(file_data@),
            Err(BcfError::SizeMismatch { expected, available }) => {
                &&& file_data@.len() >= 20
                &&& has_bcf_magic(file_data@)
                &&& expected == bcf_expected(file_data@)
                &&& available == file_data@.len() - 20
                &&& available < expected
            },
            Err(BcfError::FrameTooLarge) => {
                &&& file_data@.len() >= 20
                &&& has_bcf_magic(file_data@)
                &&& file_data@.len() - 20 >= bcf_expected(file_data@)
                &&& bcf_frame_bytes(file_data@) > usize::MAX
            },
        },
{
    if file_data.len() < BCF_HEADER_LEN {
        return Err(BcfError::TooSmall);
    }
    if !(file_data[0] == 66 && file_data[1] == 67 && file_data[2] == 70 && file_data[3] == 0) {
        return Err(BcfError::BadMagic);
    }
    let format = file_data[4];
    let bc_w = read_le_u32(file_data, 8);
    let bc_h = read_le_u32(file_data, 12);
    let frame_count = read_le_u32(file_data, 16);
    let block_size: u128 = if format == BCF_FORMAT_BC4 {
        8
    } else {
        16
    };
    let bw = (bc_w / 4) as u128;
    let bh = (bc_h / 4) as u128;
    assert(bw * bh <= 0x1_0000_0000_0000_0000) by (nonlinear_arith)
        requires
            bw <= 0x1_0000_0000,
            bh <= 0x1_0000_0000,
    ;
    let blocks = bw * bh;
    assert(blocks * block_size <= 0x10_0000_0000_0000_0000) by (nonlinear_arith)
        requires
            blocks <= 0x1_0000_0000_0000_0000,
            block_size <= 16,
    ;
    let frame_bytes = blocks * block_size;
    assert(frame_count as u128 * frame_bytes <= 0x10_0000_0000_0000_0000_0000_0000)
        by (nonlinear_arith)
        requires
            frame_count <= 0x1_0000_0000,
            frame_bytes <= 0x10_0000_0000_0000_0000,
    ;
    let expected = frame_count as u128 * frame_bytes;
    let available = file_data.len() - BCF_HEADER_LEN;
    assert(frame_bytes == bcf_frame_bytes(file_data@));
    assert(expected == bcf_expected(file_data@));
    if (available as u128) < expected {
        return Err(BcfError::SizeMismatch { expected, available });
    }
    if frame_bytes > usize::MAX as u128 {
        return Err(BcfError::FrameTooLarge);
    }
    let end = BCF_HEADER_LEN + expected as usize;
    let data = slice_to_vec(&file_data[BCF_HEADER_LEN..end]);
    Ok(
        BcfFrames {
            format,
            width: bc_w,
            height: bc_h,
            frame_count: frame_count as usize,
            frame_bytes: frame_bytes as usize,
            data,
        },
    )
}

impl BcfFrames {
    /// The frames as contiguous compressed storage.
    pub fn into_storage(self) -> (s: FrameStorage)
        ensures
            s == (FrameStorage::Compressed {
                data: self.data,
                frame_bytes: self.frame_bytes,
                frame_count: self.frame_count,
            }),
    {
        FrameStorage::Compressed {
            data: self.data,
            frame_bytes: self.frame_bytes,
            frame_count: self.frame_count,
        }
    }
}

/// Views of a list of frames.
pub open spec fn frames_view(frames: Seq<Vec<u8>>) -> Seq<Seq<u8>> {
    frames.map_values(|f: Vec<u8>| f@)
}

/// Write a BCF file: the header for `alpha_only` (BC4) or RGBA (BC7) frames of
/// the given padded dimensions, then every frame in order.
pub fn build_bcf(alpha_only: bool, width: u32, height: u32, frames: &Vec<Vec<u8>>) -> (r: Vec<u8>)
    requires
        frames@.len() <= u32::MAX,
    ensures
        r@ == bcf_header(format_for(alpha_only), width, height, frames@.len() as u32)
            + frames_view(frames@).flatten(),
{
    let mut out: Vec<u8> = Vec::new();
    out.push(66);
    out.push(67);
    out.push(70);
    out.push(0);
    let format = if alpha_only {
        BCF_FORMAT_BC4
    } else {
        BCF_FORMAT_BC7
    };
    out.push(format);
    out.push(0);
    out.push(0);
    out.push(0);
    push_le_u32(&mut out, width);
    push_le_u32(&mut out, height);
    push_le_u32(&mut out, frames.len() as u32);
    let ghost header = out@;
    assert(header =~= bcf_header(format_for(alpha_only), width, height, frames@.len() as u32));
    let mut i: usize = 0;
    assert(frames_view(frames@).take(0) =~= Seq::<Seq<u8>>::empty());
    while i < frames.len()
        invariant
            i <= frames@.len(),
            header == bcf_header(format_for(alpha_only), width, height, frames@.len() as u32),
            out@ == header + frames_view(frames@).take(i as int).flatten(),
        decreases frames@.len() - i,
    {
        let ghost before = out@;
        out.extend_from_slice(frames[i].as_slice());
        proof {
            let fv = frames_view(frames@);
            assert(fv.take(i + 1) =~= fv.take(i as int).push(fv[i as int]));
            fv.take(i as int).lemma_flatten_push(fv[i as int]);
            assert(out@ =~= header + fv.take(i + 1).flatten());
        }
        i = i + 1;
    }
    assert(frames_view(frames@).take(frames@.len() as int) =~= frames_view(frames@));
    out
}

/// Frames of one length `n` join into `frames.len() * n` bytes.
pub proof fn lemma_flatten_uniform_len(frames: Seq<Seq<u8>>, n: int)
    requires
        forall|i: int| 0 <= i < frames.len() ==> (#[trigger] frames[i]).len() == n,
    ensures
        frames.flatten().len() == frames.len() * n,
    decreases frames.len(),
{
    if frames.len() > 0 {
        lemma_flatten_uniform_len(frames.drop_first(), n);
        assert(frames.len() * n == n + (frames.len() - 1) * n) by (nonlinear_arith);
    }
}

/// Reading back a written BCF file gives the frames that were written: the
/// header is accepted, its fields are those written, and the payload is the
/// frames concatenated in order.
pub proof fn lemma_bcf_roundtrip(alpha_only: bool, width: u32, height: u32, frames: Seq<Seq<u8>>)
    requires
        frames.len() <= u32::MAX,
        frame_bytes_for(format_for(alpha_only), width as int, height as int) <= usize::MAX,
        forall|i: int|
            0 <= i < frames.len() ==> (#[trigger] frames[i]).len() == frame_bytes_for(
                format_for(alpha_only),
                width as int,
                height as int,
            ),
    ensures
        ({
            let b = bcf_header(format_for(alpha_only), width, height, frames.len() as u32)
                + frames.flatten();
            &&& bcf_accepts(b)
            &&& b[4] == format_for(alpha_only)
            &&& bcf_width(b) == width
            &&& bcf_height(b) == height
            &&& bcf_count(b) == frames.len()
            &&& bcf_frame_bytes(b) == frame_bytes_for(
                format_for(alpha_only),
                width as int,
                height as int,
            )
            &&& bcf_payload(b) == frames.flatten()
        }),
{
    let format = format_for(alpha_only);
    let h = bcf_header(format, width, height, frames.len() as u32);
    let b = h + frames.flatten();
    lemma_le_bytes(width);
    lemma_le_bytes(height);
    lemma_le_bytes(frames.len() as u32);
    assert(h.len() == 20);
    assert(le_u32(b, 8) == le_u32(le_bytes(width), 0));
    assert(le_u32(b, 12) == le_u32(le_bytes(height), 0));
    assert(le_u32(b, 16) == le_u32(le_bytes(frames.len() as u32), 0));
    lemma_flatten_uniform_len(frames, frame_bytes_for(format, width as int, height as int));
    assert(bcf_payload(b) =~= frames.flatten());
}

/// Size in bytes of a BCF file of `frame_count` frames of the given format
/// and dimensions.
pub fn bcf_file_size(alpha_only: bool, width: u32, height: u32, frame_count: u32) -> (r: u64)
    requires
        20 + frame_bytes_for(format_for(alpha_only), width as int, height as int) * frame_count
            <= u64::MAX,
    ensures
        r == 20 + frame_bytes_for(format_for(alpha_only), width as int, height as int) * frame_count,
{
    let block_size: u64 = if alpha_only {
        8
    } else {
        16
    };
    let bw = width as u64 / 4;
    let bh = height as u64 / 4;
    assert(bw * bh <= 0x1000_0000_0000_0000) by (nonlinear_arith)
        requires
            bw <= 0x4000_0000,
            bh <= 0x4000_0000,
    ;
    let blocks = bw * bh;
    assert(blocks * block_size * frame_count == frame_bytes_for(
        format_for(alpha_only),
        width as int,
        height as int,
    ) * frame_count);
    assert(blocks * block_size <= blocks * block_size * frame_count || frame_count == 0) by (nonlinear_arith)
        requires
            frame_count >= 0,
            blocks >= 0,
            block_size >= 0,
    ;
    assert(blocks <= blocks * block_size) by (nonlinear_arith)
        requires
            block_size >= 1,
            blocks >= 0,
    ;
    if frame_count == 0 {
        return 20;
    }
    20 + blocks * block_size * frame_count as u64
}

/// Padded frame width, height and compressed frame size used when encoding
/// frames of the given unpadded dimensions: both dimensions rounded up to a
/// multiple of 4, then `(w / 4) * (h / 4)` blocks of 8 (BC4) or 16 (BC7) bytes.
pub fn padded_frame_layout(alpha_only: bool, orig_w: u32, orig_h: u32) -> (r: (u32, u32, usize))
    requires
        crate::pixels::ceil4(orig_w as int) <= u32::MAX,
        crate::pixels::ceil4(orig_h as int) <= u32::MAX,
        frame_bytes_for(
            format_for(alpha_only),
            crate::pixels::ceil4(orig_w as int),
            crate::pixels::ceil4(orig_h as int),
        ) <= usize::MAX,
    ensures
        r.0 == crate::pixels::ceil4(orig_w as int),
        r.1 == crate::pixels::ceil4(orig_h as int),
        r.2 == frame_bytes_for(format_for(alpha_only), r.0 as int, r.1 as int),
{
    let pad_w = (4 - (orig_w % 4)) % 4;
    let pad_h = (4 - (orig_h % 4)) % 4;
    let padded_w = orig_w + pad_w;
    let padded_h = orig_h + pad_h;
    let block_size: usize = if alpha_only {
        8
    } else {
        16
    };
    let blocks_wide = (padded_w / 4) as usize;
    let blocks_high = (padded_h / 4) as usize;
    assert(blocks_wide * blocks_high * block_size == frame_bytes_for(
        format_for(alpha_only),
        padded_w as int,
        padded_h as int,
    ));
    assert(blocks_wide * blocks_high <= blocks_wide * blocks_high * block_size) by (nonlinear_arith)
        requires
            block_size >= 1,
    ;
    (padded_w, padded_h, blocks_wide * blocks_high * block_size)
}

} // verus!
