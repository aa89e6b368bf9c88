//! Segmenters: one line of text to the byte offsets of its countable units.
//!
//! Three measurement modes share the folder: raw bytes, Unicode scalar
//! values, and extended grapheme clusters. Each mode turns a line into a
//! strictly increasing sequence of byte offsets, one per unit, marking where
//! that unit starts; the folder is mode-agnostic and consumes only this
//! sequence together with the line's bytes.

use crate::fold::MaxWidth;
use crate::fold::boundaries_ok;
use crate::fold::fold_line;
use crate::fold::fold_segments;
use unicode_segmentation::UnicodeSegmentation;
use vstd::prelude::*;
use vstd::string::StringSliceAdditionalSpecFns;
use vstd::string::StrSliceExecFns;
use vstd::utf8::encode_utf8;
use vstd::utf8::is_continuation_byte;

verus! {

/// The unit a line's width is measured in.
#[derive(Debug, Clone, Copy, PartialEq, Eq, Structural)]
pub enum Mode {
    /// User-perceived characters: extended grapheme clusters per the Unicode
    /// text-segmentation rules. The default, and the only mode that counts a
    /// base letter with its combining marks, or a multi-part emoji, as one.
    Graphemes,
    /// Unicode scalar values (code points).
    Chars,
    /// Raw bytes. The only mode that can split a multi-byte encoding, so its
    /// output may hold invalid encoded text.
    Bytes,
}

/// Unit starts in `Bytes` mode: every byte offset below `len`.
pub open spec fn byte_starts(len: int) -> Seq<usize> {
    Seq::new(len as nat, |i: int| i as usize)
}

/// Whether a byte begins a Unicode scalar value in well-formed UTF-8:
/// every byte but a continuation byte does.
pub open spec fn is_char_start(b: u8) -> bool {
    !is_continuation_byte(b)
}

/// Unit starts in `Chars` mode over the first `n` bytes of a line: the
/// offsets of the bytes that begin a scalar value, in increasing order.
pub open spec fn char_starts(line: Seq<u8>, n: int) -> Seq<usize>
    decreases n,
{
    if n <= 0 {
        Seq::empty()
    } else if is_char_start(line[n - 1]) {
        char_starts(line, n - 1).push((n - 1) as usize)
    } else {
        char_starts(line, n - 1)
    }
}

/// Unit starts in `Graphemes` mode: the byte offsets, within the UTF-8
/// encoding of the text, at which its extended grapheme clusters begin.
/// The clusters are those of the Unicode text-segmentation algorithm
/// (UAX #29), computed by an outside crate; the offsets are a function of
/// the text alone.
pub uninterp spec fn grapheme_starts(text: Seq<char>) -> Seq<usize>;

/// Unit starts of one line of text under a mode, as byte offsets into the
/// line's UTF-8 encoding.
pub open spec fn mode_boundaries(text: Seq<char>, mode: Mode) -> Seq<usize> {
    match mode {
        Mode::Bytes => byte_starts(encode_utf8(text).len() as int),
        Mode::Chars => char_starts(encode_utf8(text), encode_utf8(text).len() as int),
        Mode::Graphemes => grapheme_starts(text),
    }
}

/// The folded form of one line of text under a mode: the segments the
/// folder emits for the line's UTF-8 bytes at that mode's unit boundaries.
pub open spec fn line_segments(text: Seq<char>, mode: Mode, max_width: int, split_ws: bool) -> Seq<
    Seq<u8>,
> {
    fold_segments(encode_utf8(text), mode_boundaries(text, mode), max_width, split_ws)
}

/// The folded form of a whole input: the folded segments of each line, in
/// input order.
pub open spec fn file_segments(
    lines: Seq<Seq<char>>,
    mode: Mode,
    max_width: int,
    split_ws: bool,
) -> Seq<Seq<u8>>
    decreases lines.len(),
{
    if lines.len() == 0 {
        Seq::empty()
    } else {
        line_segments(lines.first(), mode, max_width, split_ws) + file_segments(
            lines.drop_first(),
            mode,
            max_width,
            split_ws,
        )
    }
}

/// Boundaries of a line of `n` bytes in `Bytes` mode.
fn byte_boundaries(n: usize) -> (r: Vec<usize>)
    ensures
        r@ == byte_starts(n as int),
        boundaries_ok(r@, n as int),
{
    let mut r: Vec<usize> = Vec::new();
    let mut k: usize = 0;
    while k < n
        invariant
            k <= n,
            r@.len() == k,
            forall|j: int| 0 <= j < k ==> r@[j] == j,
        decreases n - k,
    {
        r.push(k);
        k = k + 1;
    }
    assert(r@ =~= byte_starts(n as int));
    r
}

/// Whether a byte begins a Unicode scalar value.
fn char_start_byte(b: u8) -> (r: bool)
    ensures
        r == is_char_start(b),
{
    !(0x80 <= b && b <= 0xbf)
}

/// Boundaries of a line in `Chars` mode: the offsets of the bytes that
/// begin a scalar value. On well-formed UTF-8 these are exactly the byte
/// offsets of the line's characters; malformed input is a precondition
/// violation of this mode, not detected here.
fn char_boundaries(line: &Vec<u8>) -> (r: Vec<usize>)
    ensures
        r@ == char_starts(line@, line@.len() as int),
        boundaries_ok(r@, line@.len() as int),
{
    let mut r: Vec<usize> = Vec::new();
    let mut k: usize = 0;
    while k < line.len()
        invariant
            k <= line@.len(),
            r@ == char_starts(line@, k as int),
            forall|j: int| 0 <= j < r@.len() ==> r@[j] < k,
            forall|i: int, j: int| 0 <= i < j < r@.len() ==> r@[i] < r@[j],
        decreases line@.len() - k,
    {
        if char_start_byte(line[k]) {
            r.push(k);
        }
        k = k + 1;
    }
    r
}

/// Boundaries of a line in `Graphemes` mode.
///
/// Relies on `unicode_segmentation::UnicodeSegmentation::grapheme_indices`
/// with extended clusters selected: it yields each grapheme cluster of the
/// string with its byte offset, the clusters partitioning the string in
/// order. So the offsets depend on the text alone, each is the offset of a
/// byte of the string (every cluster is non-empty), and they are strictly
/// increasing.
#[verifier::external_body]
fn grapheme_boundaries(line: &str) -> (r: Vec<usize>)
    ensures
        r@ == grapheme_starts(line@),
        boundaries_ok(r@, line.spec_bytes().len() as int),
{
    line.grapheme_indices(true).map(|p| p.0).collect()
}

/// Folds one line of text at the given width under a measurement mode.
///
/// The returned segments are byte ranges of the line's UTF-8 encoding; in
/// `Bytes` mode a break can fall inside a multi-byte character.
pub fn fold_mode_line(line: &str, max_width: MaxWidth, mode: Mode, split_whitespace: bool) -> (segs:
    Vec<Vec<u8>>)
    requires
        max_width.wf(),
    ensures
        segs@.map_values(|s: Vec<u8>| s@) == line_segments(
            line@,
            mode,
            max_width.spec_width(),
            split_whitespace,
        ),
{
    let bytes: Vec<u8> = line.as_bytes_vec();
    let boundaries: Vec<usize> = match mode {
        Mode::Bytes => byte_boundaries(bytes.len()),
        Mode::Chars => char_boundaries(&bytes),
        Mode::Graphemes => grapheme_boundaries(line),
    };
    assert(boundaries@ == mode_boundaries(line@, mode));
    fold_line(&bytes, &boundaries, max_width, split_whitespace)
}

/// Folds every line of an input in order, returning all emitted segments.
///
/// The driver around this library reads one line at a time (its terminator
/// already consumed) and writes each returned segment back out followed by
/// a line terminator; existing line breaks of the input are thereby kept as
/// hard breaks, and each line is folded independently.
pub fn fold_file(
    lines: &Vec<String>,
    max_width: MaxWidth,
    mode: Mode,
    split_whitespace: bool,
) -> (segs: Vec<Vec<u8>>)
    requires
        max_width.wf(),
    ensures
        segs@.map_values(|s: Vec<u8>| s@) == file_segments(
            lines@.map_values(|l: String| l@),
            mode,
            max_width.spec_width(),
            split_whitespace,
        ),
{
    let ghost texts = lines@.map_values(|l: String| l@);
    let ghost m = max_width.spec_width();
    let mut segs: Vec<Vec<u8>> = Vec::new();
    let mut i: usize = 0;
    proof {
        assert(texts.skip(0) =~= texts);
        assert(segs@.map_values(|s: Vec<u8>| s@) =~= Seq::<Seq<u8>>::empty());
        assert(Seq::<Seq<u8>>::empty() + file_segments(texts, mode, m, split_whitespace)
            =~= file_segments(texts, mode, m, split_whitespace));
    }
    while i < lines.len()
        invariant
            max_width.wf(),
            m == max_width.spec_width(),
            texts == lines@.map_values(|l: String| l@),
            i <= lines@.len(),
            segs@.map_values(|s: Vec<u8>| s@) + file_segments(
                texts.skip(i as int),
                mode,
                m,
                split_whitespace,
            ) == file_segments(texts, mode, m, split_whitespace),
        decreases lines@.len() - i,
    {
        let ghost segs0 = segs@.map_values(|s: Vec<u8>| s@);
        let mut line_segs = fold_mode_line(lines[i].as_str(), max_width, mode, split_whitespace);
        let ghost emitted = line_segs@.map_values(|s: Vec<u8>| s@);
        proof {
            let rest = texts.skip(i as int);
            assert(rest.first() == texts[i as int]);
            assert(rest.drop_first() =~= texts.skip(i + 1));
            assert(file_segments(rest, mode, m, split_whitespace) == emitted + file_segments(
                texts.skip(i + 1),
                mode,
                m,
                split_whitespace,
            ));
        }
        segs.append(&mut line_segs);
        proof {
            assert(segs@.map_values(|s: Vec<u8>| s@) =~= segs0 + emitted);
            assert(segs0 + emitted + file_segments(texts.skip(i + 1), mode, m, split_whitespace)
                =~= segs0 + (emitted + file_segments(texts.skip(i + 1), mode, m, split_whitespace)));
        }
        i = i + 1;
    }
    proof {
        assert(texts.skip(texts.len() as int) =~= Seq::<Seq<char>>::empty());
        assert(segs@.map_values(|s: Vec<u8>| s@) + Seq::<Seq<u8>>::empty() =~= segs@.map_values(
            |s: Vec<u8>| s@,
        ));
    }
    segs
}

} // verus!
