//! Names in the animation asset tree: which folders hold layers, which files
//! are numbered frames (`prefix_NNNNN.png`), and the names derived from them.

use vstd::prelude::*;
use vstd::string::*;
use crate::text::{append_char, decimal, decimal_string, str_eq};

verus! {

/// Index of the last `c` in `s`, or -1 where `s` has none.
pub open spec fn last_index_of(s: Seq<char>, c: char) -> int
    decreases s.len(),
{
    if s.len() == 0 {
        -1
    } else if s.last() == c {
        s.len() - 1
    } else {
        last_index_of(s.drop_last(), c)
    }
}

/// `i` is the last position of `c` in `s` (-1: there is none).
pub open spec fn is_last_index(s: Seq<char>, c: char, i: int) -> bool {
    &&& -1 <= i < s.len()
    &&& i >= 0 ==> s[i] == c
    &&& forall|j: int| i < j < s.len() ==> s[j] != c
}

proof fn lemma_last_index(s: Seq<char>, c: char, i: int)
    requires
        is_last_index(s, c, i),
    ensures
        last_index_of(s, c) == i,
    decreases s.len(),
{
    if s.len() > 0 && s.last() != c {
        assert(i < s.len() - 1);
        assert(is_last_index(s.drop_last(), c, i));
        lemma_last_index(s.drop_last(), c, i);
    }
}

/// `s` with every trailing copy of `suffix` removed.
pub open spec fn strip_suffixes(s: Seq<char>, suffix: Seq<char>) -> Seq<char>
    decreases s.len(),
{
    if suffix.len() > 0 && s.len() >= suffix.len() && s.subrange(
        s.len() - suffix.len(),
        s.len() as int,
    ) == suffix {
        strip_suffixes(s.subrange(0, s.len() - suffix.len()), suffix)
    } else {
        s
    }
}

/// Every character is an ASCII digit.
pub open spec fn all_ascii_digits(s: Seq<char>) -> bool {
    forall|i: int| 0 <= i < s.len() ==> '0' <= #[trigger] s[i] <= '9'
}

/// The extension of a file name is `png` in any letter case: there is a last
/// dot, it is not the first character, and exactly `png` follows it.
pub open spec fn has_png_extension(s: Seq<char>) -> bool {
    let d = last_index_of(s, '.');
    &&& d > 0
    &&& s.len() == d + 4
    &&& (s[d + 1] == 'p' || s[d + 1] == 'P')
    &&& (s[d + 2] == 'n' || s[d + 2] == 'N')
    &&& (s[d + 3] == 'g' || s[d + 3] == 'G')
}

/// A frame file name: a PNG file whose name has an underscore, where what
/// follows the last underscore, with trailing `.png` and then `.PNG` removed,
/// is all digits.
pub open spec fn frame_png_name(s: Seq<char>) -> bool {
    let u = last_index_of(s, '_');
    &&& has_png_extension(s)
    &&& u >= 0
    &&& all_ascii_digits(
        strip_suffixes(strip_suffixes(s.subrange(u + 1, s.len() as int), ".png"@), ".PNG"@),
    )
}

/// The name without its extension: everything before the last dot, unless
/// there is no dot, the dot is the first character, or the name is `..`.
pub open spec fn file_stem(s: Seq<char>) -> Seq<char> {
    let d = last_index_of(s, '.');
    if d > 0 && !(s.len() == 2 && s[0] == '.' && s[1] == '.') {
        s.subrange(0, d)
    } else {
        s
    }
}

/// The frame prefix of a sublayer: the stem of its first frame's name up to
/// the last underscore, or the sublayer's own name where the stem has none.
pub open spec fn frame_prefix_of(first_frame: Seq<char>, sub_name: Seq<char>) -> Seq<char> {
    let stem = file_stem(first_frame);
    let u = last_index_of(stem, '_');
    if u >= 0 {
        stem.subrange(0, u)
    } else {
        sub_name
    }
}

/// `digits` left-padded with zeros to at least `width` characters.
pub open spec fn zero_padded(digits: Seq<char>, width: nat) -> Seq<char> {
    if digits.len() >= width {
        digits
    } else {
        Seq::new((width - digits.len()) as nat, |i: int| '0') + digits
    }
}

/// The file name of frame `index`: `prefix_NNNNN.png`, the number zero
/// padded to five digits.
pub open spec fn frame_name(prefix: Seq<char>, index: nat) -> Seq<char> {
    prefix + "_"@ + zero_padded(decimal(index), 5) + ".png"@
}

fn chars_of(s: &str) -> (r: Vec<char>)
    ensures
        r@ == s@,
{
    let n = s.unicode_len();
    let mut out: Vec<char> = Vec::new();
    let mut i: usize = 0;
    while i < n
        invariant
            n == s@.len(),
            i <= n,
            out@ == s@.subrange(0, i as int),
        decreases n - i,
    {
        out.push(s.get_char(i));
        i = i + 1;
        assert(out@ =~= s@.subrange(0, i as int));
    }
    assert(out@ =~= s@);
    out
}

fn find_last(s: &Vec<char>, end: usize, c: char) -> (r: Option<usize>)
    requires
        end <= s@.len(),
    ensures
        match r {
            Some(i) => i == last_index_of(s@.subrange(0, end as int), c) && i < end,
            None => last_index_of(s@.subrange(0, end as int), c) == -1,
        },
{
    let mut i: usize = end;
    while i > 0
        invariant
            i <= end <= s@.len(),
            forall|j: int| i <= j < end ==> s@[j] != c,
        decreases i,
    {
        if s[i - 1] == c {
            proof {
                lemma_last_index(s@.subrange(0, end as int), c, i - 1);
            }
            return Some(i - 1);
        }
        i = i - 1;
    }
    proof {
        lemma_last_index(s@.subrange(0, end as int), c, -1);
    }
    None
}

fn ends_with_at(s: &Vec<char>, end: usize, suffix: &Vec<char>) -> (r: bool)
    requires
        end <= s@.len(),
    ensures
        r == (end >= suffix@.len() && s@.subrange(0, end as int).subrange(
            end - suffix@.len(),
            end as int,
        ) == suffix@),
{
    let k = suffix.len();
    if end < k {
        return false;
    }
    let start = end - k;
    let mut i: usize = 0;
    while i < k
        invariant
            k == suffix@.len(),
            start + k == end,
            end <= s@.len(),
            i <= k,
            forall|j: int| 0 <= j < i ==> s@[start + j] == suffix@[j],
        decreases k - i,
    {
        if s[start + i] != suffix[i] {
            assert(s@.subrange(0, end as int).subrange(start as int, end as int)[i as int]
                != suffix@[i as int]);
            return false;
        }
        i = i + 1;
    }
    assert(s@.subrange(0, end as int).subrange(start as int, end as int) =~= suffix@);
    true
}

/// End of `strip_suffixes` applied to the part of `s` between `start` and
/// `end`.
fn strip_end(s: &Vec<char>, start: usize, end: usize, suffix: &Vec<char>) -> (r: usize)
    requires
        start <= end <= s@.len(),
    ensures
        start <= r <= end,
        s@.subrange(start as int, r as int) == strip_suffixes(
            s@.subrange(start as int, end as int),
            suffix@,
        ),
{
    let mut e = end;
    while suffix.len() > 0 && e - start >= suffix.len() && ends_with_at(s, e, suffix)
        invariant
            start <= e <= end <= s@.len(),
            strip_suffixes(s@.subrange(start as int, e as int), suffix@) == strip_suffixes(
                s@.subrange(start as int, end as int),
                suffix@,
            ),
        decreases e,
    {
        let ghost t = s@.subrange(start as int, e as int);
        assert(t.subrange(t.len() - suffix@.len(), t.len() as int) =~= s@.subrange(
            0,
            e as int,
        ).subrange(e - suffix@.len(), e as int));
        assert(t.subrange(0, t.len() - suffix@.len()) =~= s@.subrange(
            start as int,
            e - suffix@.len(),
        ));
        e = e - suffix.len();
    }
    proof {
        let t = s@.subrange(start as int, e as int);
        if suffix@.len() > 0 && t.len() >= suffix@.len() {
            assert(t.subrange(t.len() - suffix@.len(), t.len() as int) =~= s@.subrange(
                0,
                e as int,
            ).subrange(e - suffix@.len(), e as int));
        }
    }
    e
}

fn ascii_case_is(c: char, lower: char, upper: char) -> (r: bool)
    ensures
        r == (c == lower || c == upper),
{
    c == lower || c == upper
}

/// Whether a file name is an animation frame: `prefix_NNNNN.png`.
pub fn is_frame_png_name(name: &str) -> (r: bool)
    ensures
        r == frame_png_name(name@),
{
    let s = chars_of(name);
    let n = s.len();
    proof {
        assert(s@.subrange(0, n as int) =~= s@);
    }
    let d = match find_last(&s, n, '.') {
        Some(d) => d,
        None => {
            return false;
        },
    };
    let ext_ok = d > 0 && n >= 4 && n - 4 == d && ascii_case_is(s[d + 1], 'p', 'P')
        && ascii_case_is(s[d + 2], 'n', 'N') && ascii_case_is(s[d + 3], 'g', 'G');
    if !ext_ok {
        return false;
    }
    let u = match find_last(&s, n, '_') {
        Some(u) => u,
        None => {
            return false;
        },
    };
    let lower = chars_of(".png");
    let upper = chars_of(".PNG");
    let start = u + 1;
    let e1 = strip_end(&s, start, n, &lower);
    let e2 = strip_end(&s, start, e1, &upper);
    assert(s@.subrange(start as int, e2 as int) == strip_suffixes(
        strip_suffixes(name@.subrange(u + 1, name@.len() as int), ".png"@),
        ".PNG"@,
    ));
    let mut i = start;
    let mut ok = true;
    while i < e2
        invariant
            start <= i <= e2 <= s@.len(),
            ok == forall|j: int| start <= j < i ==> '0' <= #[trigger] s@[j] <= '9',
        decreases e2 - i,
    {
        if !('0' <= s[i] && s[i] <= '9') {
            ok = false;
        }
        i = i + 1;
    }
    proof {
        let t = s@.subrange(start as int, e2 as int);
        if ok {
            assert forall|j: int| 0 <= j < t.len() implies '0' <= #[trigger] t[j] <= '9' by {
                assert(t[j] == s@[start + j]);
            }
        } else {
            let j = choose|j: int| start <= j < e2 && !('0' <= #[trigger] s@[j] <= '9');
            assert(t[j - start] == s@[j]);
        }
    }
    ok
}

/// Whether a folder of the asset tree holds a layer: its name starts with an
/// ASCII digit.
pub fn is_layer_folder_name(name: &str) -> (r: bool)
    ensures
        r == (name@.len() > 0 && '0' <= name@[0] <= '9'),
{
    if name.unicode_len() == 0 {
        return false;
    }
    let c = name.get_char(0);
    '0' <= c && c <= '9'
}

/// Whether a folder inside an asset is a sublayer: every folder but the one
/// named `optimized`, which holds re-encoded frames of its parent.
pub fn is_sublayer_folder_name(name: &str) -> (r: bool)
    ensures
        r == (name@ != "optimized"@),
{
    !str_eq(name, "optimized")
}

/// The frame prefix of a sublayer, taken from the name of its first frame
/// file: the stem up to its last underscore, else the sublayer's name.
pub fn frame_prefix(first_frame: &str, sub_name: &str) -> (r: String)
    ensures
        r@ == frame_prefix_of(first_frame@, sub_name@),
{
    let s = chars_of(first_frame);
    let n = s.len();
    proof {
        assert(s@.subrange(0, n as int) =~= s@);
    }
    let dotdot = n == 2 && s[0] == '.' && s[1] == '.';
    let stem_end: usize = match find_last(&s, n, '.') {
        Some(d) => {
            if d > 0 && !dotdot {
                d
            } else {
                n
            }
        },
        None => n,
    };
    let ghost stem = file_stem(s@);
    assert(stem =~= s@.subrange(0, stem_end as int));
    match find_last(&s, stem_end, '_') {
        Some(u) => {
            proof {
                assert(s@.subrange(0, stem_end as int).subrange(0, u as int) =~= s@.subrange(0, u as int));
            }
            first_frame.substring_char(0, u).to_owned()
        },
        None => sub_name.to_owned(),
    }
}

proof fn lemma_decimal_digits(n: nat)
    ensures
        all_ascii_digits(decimal(n)),
        decimal(n).len() >= 1,
    decreases n,
{
    if n >= 10 {
        lemma_decimal_digits(n / 10);
    }
    let d = decimal(n);
    assert forall|i: int| 0 <= i < d.len() implies '0' <= #[trigger] d[i] <= '9' by {
        if n >= 10 && i < d.len() - 1 {
            assert(d[i] == decimal(n / 10)[i]);
        }
    }
}

proof fn lemma_padded_digits(digits: Seq<char>, width: nat)
    requires
        all_ascii_digits(digits),
    ensures
        all_ascii_digits(zero_padded(digits, width)),
        zero_padded(digits, width).len() >= digits.len(),
{
    let z = zero_padded(digits, width);
    if digits.len() < width {
        let zeros = Seq::new((width - digits.len()) as nat, |i: int| '0');
        assert forall|i: int| 0 <= i < z.len() implies '0' <= #[trigger] z[i] <= '9' by {
            if i < zeros.len() {
                assert(z[i] == zeros[i]);
            } else {
                assert(z[i] == digits[i - zeros.len()]);
            }
        }
    }
}

proof fn lemma_digits_not_suffix(z: Seq<char>, suffix: Seq<char>)
    requires
        all_ascii_digits(z),
        suffix.len() > 0,
        suffix[0] == '.',
    ensures
        strip_suffixes(z, suffix) == z,
{
    if z.len() >= suffix.len() {
        let t = z.subrange(z.len() - suffix.len(), z.len() as int);
        assert(t[0] == z[z.len() - suffix.len()]);
        assert(t != suffix);
    }
}

/// The name of every frame that the encoder reads is recognised as a frame
/// file, and its prefix is read back from it.
pub proof fn lemma_frame_name_roundtrip(prefix: Seq<char>, index: nat, sub_name: Seq<char>)
    ensures
        frame_png_name(frame_name(prefix, index)),
        frame_prefix_of(frame_name(prefix, index), sub_name) == prefix,
{
    reveal_strlit("_");
    reveal_strlit(".png");
    reveal_strlit(".PNG");
    lemma_decimal_digits(index);
    let z = zero_padded(decimal(index), 5);
    lemma_padded_digits(decimal(index), 5);
    let s = frame_name(prefix, index);
    let l = prefix.len() as int;
    let d = l + 1 + z.len();
    assert(s == prefix + seq!['_'] + z + seq!['.', 'p', 'n', 'g']);
    assert(s.len() == d + 4);
    assert(s[l] == '_');
    assert forall|j: int| l < j < d implies s[j] == z[j - l - 1] by {}
    assert(s[d] == '.' && s[d + 1] == 'p' && s[d + 2] == 'n' && s[d + 3] == 'g');
    assert(is_last_index(s, '.', d));
    lemma_last_index(s, '.', d);
    assert forall|j: int| l < j < s.len() implies s[j] != '_' by {
        if j < d {
            assert(s[j] == z[j - l - 1]);
        }
    }
    assert(is_last_index(s, '_', l));
    lemma_last_index(s, '_', l);
    let tail = s.subrange(l + 1, s.len() as int);
    assert(tail == z + ".png"@);
    assert(tail.subrange(tail.len() - 4, tail.len() as int) == ".png"@);
    assert(tail.subrange(0, tail.len() - 4) == z);
    lemma_digits_not_suffix(z, ".png"@);
    lemma_digits_not_suffix(z, ".PNG"@);
    assert(strip_suffixes(tail, ".png"@) == z);
    let stem = file_stem(s);
    assert(stem == s.subrange(0, d));
    assert forall|j: int| l < j < stem.len() implies stem[j] != '_' by {
        assert(stem[j] == z[j - l - 1]);
    }
    assert(is_last_index(stem, '_', l));
    lemma_last_index(stem, '_', l);
    assert(stem.subrange(0, l) == prefix);
}

/// The file name of frame `index` of a sublayer: `prefix_NNNNN.png`.
pub fn frame_file_name(prefix: &str, index: u32) -> (r: String)
    ensures
        r@ == frame_name(prefix@, index as nat),
{
    let digits = decimal_string(index as u64);
    let len = digits.as_str().unicode_len();
    let mut out = prefix.to_owned();
    out.append("_");
    let ghost before = out@;
    let mut k: usize = len;
    while k < 5
        invariant
            len == decimal(index as nat).len(),
            len <= k <= 5 || (len > 5 && k == len),
            out@ == before + Seq::new((k - len) as nat, |i: int| '0'),
        decreases 5 - k,
    {
        append_char(&mut out, '0');
        k = k + 1;
        assert(out@ =~= before + Seq::new((k - len) as nat, |i: int| '0'));
    }
    let ghost zeros = out@;
    out.append(digits.as_str());
    out.append(".png");
    proof {
        if len >= 5 {
            assert(zeros =~= before);
        }
        assert(out@ =~= frame_name(prefix@, index as nat));
    }
    out
}

/// The file name of sublayer `index` (counted from 1) of a PNG stack:
/// `index.png`.
pub fn stack_file_name(index: u32) -> (r: String)
    ensures
        r@ == decimal(index as nat) + ".png"@,
{
    let mut out = decimal_string(index as u64);
    out.append(".png");
    out
}

/// The name of a sublayer's BCF file: the sublayer name with `.bcf` added.
pub fn bcf_file_name(sub_name: &str) -> (r: String)
    ensures
        r@ == sub_name@ + ".bcf"@,
{
    let mut out = sub_name.to_owned();
    out.append(".bcf");
    out
}

/// A relative path with every backslash turned into a forward slash.
pub fn forward_slashes(path: &str) -> (r: String)
    ensures
        r@ == path@.map_values(|c: char| if c == '\\' { '/' } else { c }),
{
    let s = chars_of(path);
    let mut out = String::new();
    let mut i: usize = 0;
    while i < s.len()
        invariant
            s@ == path@,
            i <= s@.len(),
            out@ == s@.subrange(0, i as int).map_values(|c: char| if c == '\\' { '/' } else { c }),
        decreases s@.len() - i,
    {
        let c = s[i];
        let mapped = if c == '\\' {
            '/'
        } else {
            c
        };
        append_char(&mut out, mapped);
        i = i + 1;
        assert(out@ =~= s@.subrange(0, i as int).map_values(
            |c: char| if c == '\\' { '/' } else { c },
        ));
    }
    assert(s@.subrange(0, s@.len() as int) =~= s@);
    out
}

/// Where a sublayer's frames are read from: its `optimized` folder when that
/// folder exists and holds frames, else the sublayer folder itself.
pub fn use_optimized_frames(optimized_exists: bool, optimized_frames: usize) -> (r: bool)
    ensures
        r == (optimized_exists && optimized_frames > 0),
{
    optimized_exists && optimized_frames > 0
}

} // verus!
