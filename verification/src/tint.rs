//! Parsing of `#RRGGBB` tint strings into colour channels.
//!
//! A tint string may start with any number of `#`. The three channels are the
//! byte ranges `0..2`, `2..4` and `4..6` of what follows. A channel whose two
//! bytes are not a hexadecimal number (an optional leading `+`, then digits)
//! defaults to 255.

use vstd::prelude::*;
use vstd::string::*;

verus! {

/// Number of leading `#` bytes.
pub open spec fn leading_hashes(b: Seq<u8>) -> nat
    decreases b.len(),
{
    if b.len() > 0 && b[0] == 35 {
        1 + leading_hashes(b.drop_first())
    } else {
        0
    }
}

/// The bytes after the leading `#` characters.
pub open spec fn trim_hashes(b: Seq<u8>) -> Seq<u8> {
    b.skip(leading_hashes(b) as int)
}

/// Byte offset `i` of UTF-8 bytes `t` falls on a character boundary.
pub open spec fn on_boundary(t: Seq<u8>, i: int) -> bool {
    i == t.len() || (0 <= i < t.len() && !(0x80 <= t[i] <= 0xbf))
}

/// The three two-byte channel slices of the trimmed tint exist and fall on
/// character boundaries, so slicing them out does not panic.
pub open spec fn tint_sliceable(b: Seq<u8>) -> bool {
    let t = trim_hashes(b);
    &&& t.len() >= 6
    &&& on_boundary(t, 2)
    &&& on_boundary(t, 4)
    &&& on_boundary(t, 6)
}

/// Value of one hexadecimal digit.
pub open spec fn hex_digit(c: u8) -> Option<u8> {
    if 48 <= c <= 57 {
        Some((c - 48) as u8)
    } else if 97 <= c <= 102 {
        Some((c - 87) as u8)
    } else if 65 <= c <= 70 {
        Some((c - 55) as u8)
    } else {
        None
    }
}

/// Value of a two-byte unsigned hexadecimal number, as `u8::from_str_radix`
/// with radix 16 reads it: either two digits, or `+` and one digit.
pub open spec fn hex_pair(c0: u8, c1: u8) -> Option<u8> {
    if c0 == 43 {
        hex_digit(c1)
    } else {
        match (hex_digit(c0), hex_digit(c1)) {
            (Some(h), Some(l)) => Some((16 * h + l) as u8),
            _ => None,
        }
    }
}

/// Hex digits read as radix-16 digits in both letter cases: `0`-`9` are
/// 0-9, `a`-`f` and `A`-`F` are 10-15 (a capital letter reads as its small
/// one), and no other byte is a digit.
pub proof fn lemma_hex_digit_radix16(c: u8)
    ensures
        48 <= c <= 57 ==> hex_digit(c) == Some((c - 48) as u8),
        97 <= c <= 102 ==> hex_digit(c) == Some((c - 97 + 10) as u8),
        65 <= c <= 70 ==> hex_digit(c) == Some((c - 65 + 10) as u8) && hex_digit((c + 32) as u8)
            == hex_digit(c),
        hex_digit(c) is Some <==> (48 <= c <= 57 || 97 <= c <= 102 || 65 <= c <= 70),
        hex_digit(c) matches Some(v) ==> v < 16,
{
}

/// Two hex digits in any letter case make the channel `16 * high + low`;
/// capital and small letters give the same channel.
pub proof fn lemma_channel_of_digits(c0: u8, c1: u8)
    requires
        hex_digit(c0) is Some,
        hex_digit(c1) is Some,
    ensures
        channel(c0, c1) == 16 * hex_digit(c0)->0 + hex_digit(c1)->0,
        65 <= c0 <= 70 ==> channel(c0, c1) == channel((c0 + 32) as u8, c1),
        65 <= c1 <= 70 ==> channel(c0, c1) == channel(c0, (c1 + 32) as u8),
{
    lemma_hex_digit_radix16(c0);
    lemma_hex_digit_radix16(c1);
    lemma_hex_digit_radix16((c0 + 32) as u8);
    lemma_hex_digit_radix16((c1 + 32) as u8);
}

/// One channel: the parsed pair, or 255 when it does not parse.
pub open spec fn channel(c0: u8, c1: u8) -> u8 {
    match hex_pair(c0, c1) {
        Some(v) => v,
        None => 255,
    }
}

/// The three channels of a sliceable tint string.
pub open spec fn tint_channels(b: Seq<u8>) -> Seq<u8> {
    let t = trim_hashes(b);
    seq![channel(t[0], t[1]), channel(t[2], t[3]), channel(t[4], t[5])]
}

proof fn lemma_leading_hashes_step(b: Seq<u8>, k: int)
    requires
        0 <= k < b.len(),
        b[k] == 35,
    ensures
        leading_hashes(b.skip(k)) == 1 + leading_hashes(b.skip(k + 1)),
{
    assert(b.skip(k).drop_first() =~= b.skip(k + 1));
}

/// Index of the first byte after the leading `#` characters.
fn skip_hashes(b: &[u8]) -> (k: usize)
    ensures
        k == leading_hashes(b@),
        k <= b@.len(),
{
    let mut k: usize = 0;
    assert(b@.skip(0) =~= b@);
    while k < b.len() && b[k] == 35
        invariant
            k <= b@.len(),
            leading_hashes(b@) == k + leading_hashes(b@.skip(k as int)),
        decreases b@.len() - k,
    {
        proof {
            lemma_leading_hashes_step(b@, k as int);
        }
        k = k + 1;
    }
    proof {
        assert(b@.skip(0) =~= b@);
        if k < b@.len() {
            assert(b@.skip(k as int)[0] == b@[k as int]);
        } else {
            assert(b@.skip(k as int).len() == 0);
        }
    }
    k
}

fn hex_digit_exec(c: u8) -> (r: Option<u8>)
    ensures
        r == hex_digit(c),
{
    if 48 <= c && c <= 57 {
        Some(c - 48)
    } else if 97 <= c && c <= 102 {
        Some(c - 87)
    } else if 65 <= c && c <= 70 {
        Some(c - 55)
    } else {
        None
    }
}

fn channel_exec(c0: u8, c1: u8) -> (r: u8)
    ensures
        r == channel(c0, c1),
{
    if c0 == 43 {
        match hex_digit_exec(c1) {
            Some(v) => v,
            None => 255,
        }
    } else {
        match (hex_digit_exec(c0), hex_digit_exec(c1)) {
            (Some(h), Some(l)) => 16 * h + l,
            _ => 255,
        }
    }
}

/// Whether `parse_tint_hex` can slice the channels out of `hex` (at least six
/// bytes after the leading `#`, with the channel edges on character boundaries).
pub fn tint_hex_sliceable(hex: &str) -> (r: bool)
    ensures
        r == tint_sliceable(hex.spec_bytes()),
{
    let b = hex.as_bytes();
    let k = skip_hashes(b);
    let ghost t = b@.skip(k as int);
    if b.len() - k < 6 {
        return false;
    }
    let c2 = b[k + 2];
    let c4 = b[k + 4];
    assert(t[2] == c2 && t[4] == c4);
    let ok6 = b.len() - k == 6 || !(0x80 <= b[k + 6] && b[k + 6] <= 0xbf);
    proof {
        if b@.len() - k > 6 {
            assert(t[6] == b@[k + 6]);
        }
    }
    !(0x80 <= c2 && c2 <= 0xbf) && !(0x80 <= c4 && c4 <= 0xbf) && ok6
}

/// Parse a hex colour such as `#ff8800` into its red, green and blue bytes;
/// a channel that does not parse is 255.
pub fn parse_tint_hex(hex: &str) -> (r: [u8; 3])
    requires
        tint_sliceable(hex.spec_bytes()),
    ensures
        r@ == tint_channels(hex.spec_bytes()),
{
    let b = hex.as_bytes();
    let k = skip_hashes(b);
    let ghost t = b@.skip(k as int);
    assert(t[0] == b@[k as int] && t[1] == b@[k + 1] && t[2] == b@[k + 2]);
    assert(t[3] == b@[k + 3] && t[4] == b@[k + 4] && t[5] == b@[k + 5]);
    let r = [
        channel_exec(b[k], b[k + 1]),
        channel_exec(b[k + 2], b[k + 3]),
        channel_exec(b[k + 4], b[k + 5]),
    ];
    assert(r@ =~= tint_channels(hex.spec_bytes()));
    r
}

} // verus!
