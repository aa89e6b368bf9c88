//! The greedy line folder and its mathematical model.
//!
//! A line is a sequence of bytes; its countable units are described by the
//! byte offsets at which they start (`boundaries`). The folder makes one
//! left-to-right pass: whenever counting the next unit would overflow the
//! width limit, it emits the bytes gathered so far as one segment, breaking
//! either exactly at the unit that overflowed or, when whitespace splitting is
//! on and the gathered span holds a whitespace byte, just after the rightmost
//! such byte (the trailing partial word then carries into the next segment).

use vstd::prelude::*;

verus! {

/// A validated positive fold width.
///
/// Zero is not a usable width: folding at width zero could never emit a
/// non-empty segment, so construction rejects it.
#[derive(Debug, Clone, Copy)]
pub struct MaxWidth {
    width: usize,
}

/// Errors reported by this library.
#[derive(Debug, Clone, Copy, PartialEq, Eq, Structural)]
pub enum FoldError {
    /// The requested width was zero.
    InvalidWidth,
}

impl MaxWidth {
    /// Well-formedness: the width is positive.
    pub closed spec fn wf(self) -> bool {
        self.width >= 1
    }

    /// The width as a mathematical integer.
    pub closed spec fn spec_width(self) -> int {
        self.width as int
    }

    /// Builds a fold width, rejecting zero.
    pub fn new(width: usize) -> (r: Result<MaxWidth, FoldError>)
        ensures
            width >= 1 <==> r is Ok,
            r matches Ok(mw) ==> mw.wf() && mw.spec_width() == width,
            r matches Err(e) ==> e == FoldError::InvalidWidth,
    {
        if width >= 1 {
            Ok(MaxWidth { width })
        } else {
            Err(FoldError::InvalidWidth)
        }
    }

    /// Reads the width back.
    pub fn get(&self) -> (w: usize)
        ensures
            w == self.spec_width(),
    {
        self.width
    }
}

/// ASCII whitespace, as Rust's `u8::is_ascii_whitespace` defines it:
/// space, horizontal tab, line feed, form feed, carriage return.
pub open spec fn is_ws(b: u8) -> bool {
    b == 32 || b == 9 || b == 10 || b == 12 || b == 13
}

/// Offset of the rightmost whitespace byte of `line` in `[start, end)`,
/// or -1 when that range holds no whitespace byte.
pub open spec fn last_ws(line: Seq<u8>, start: int, end: int) -> int
    decreases end - start,
{
    if end <= start {
        -1
    } else if is_ws(line[end - 1]) {
        end - 1
    } else {
        last_ws(line, start, end - 1)
    }
}

/// Valid unit boundaries for a line of `len` bytes: strictly increasing
/// byte offsets, each the offset of a byte of the line.
pub open spec fn boundaries_ok(bnds: Seq<usize>, len: int) -> bool {
    &&& forall|i: int| 0 <= i < bnds.len() ==> bnds[i] < len
    &&& forall|i: int, j: int| 0 <= i < j < bnds.len() ==> bnds[i] < bnds[j]
}

/// The interior break offsets ("cuts") the greedy folder emits, starting at
/// boundary index `i` with the running state carried between units:
/// `start` is where the segment being gathered begins, `width` how many units
/// have been counted toward it, and `last_word` the length in units of the
/// trailing run of non-whitespace units.
///
/// Each step first decides whether a break is due — exactly when the segment
/// already holds `max_width` units, so that the unit at `bnds[i]` would
/// overflow — and only then counts that unit. At a break with whitespace
/// splitting on and a whitespace byte inside the gathered span, the cut falls
/// just after the rightmost whitespace byte and the deferred partial word
/// (`last_word` units) carries over; otherwise the cut falls exactly at the
/// overflowing unit and the new segment starts empty.
pub open spec fn fold_cuts(
    line: Seq<u8>,
    bnds: Seq<usize>,
    i: int,
    start: int,
    width: int,
    last_word: int,
    max_width: int,
    split_ws: bool,
) -> Seq<int>
    decreases bnds.len() - i,
{
    if i < 0 || i >= bnds.len() {
        Seq::empty()
    } else {
        let end = bnds[i] as int;
        let nlw = if is_ws(line[end]) { 0 } else { last_word + 1 };
        if width == max_width {
            let p = last_ws(line, start, end);
            let cut = if split_ws && p >= 0 { p + 1 } else { end };
            let w2 = if split_ws && p >= 0 { last_word } else { 0 };
            seq![cut] + fold_cuts(line, bnds, i + 1, cut, w2 + 1, nlw, max_width, split_ws)
        } else {
            fold_cuts(line, bnds, i + 1, start, width + 1, nlw, max_width, split_ws)
        }
    }
}

/// All segment endpoints of one folded line: offset 0, the interior cuts,
/// and the line's length (the remainder is always emitted, even when empty).
pub open spec fn all_cuts(line: Seq<u8>, bnds: Seq<usize>, max_width: int, split_ws: bool) -> Seq<
    int,
> {
    seq![0int] + fold_cuts(line, bnds, 0, 0, 0, 0, max_width, split_ws) + seq![line.len() as int]
}

/// The folded form of one line: the byte ranges between consecutive cut points.
pub open spec fn fold_segments(
    line: Seq<u8>,
    bnds: Seq<usize>,
    max_width: int,
    split_ws: bool,
) -> Seq<Seq<u8>> {
    let cuts = all_cuts(line, bnds, max_width, split_ws);
    Seq::new((cuts.len() - 1) as nat, |j: int| line.subrange(cuts[j], cuts[j + 1]))
}

/// Whether a byte is ASCII whitespace.
fn ws_byte(b: u8) -> (r: bool)
    ensures
        r == is_ws(b),
{
    b == 32 || b == 9 || b == 10 || b == 12 || b == 13
}

/// Offset of the rightmost whitespace byte of `line` in `[start, end)`, if any.
fn rightmost_ws(line: &Vec<u8>, start: usize, end: usize) -> (r: Option<usize>)
    requires
        start <= end <= line@.len(),
    ensures
        match r {
            Some(p) => last_ws(line@, start as int, end as int) == p && start <= p < end,
            None => last_ws(line@, start as int, end as int) == -1,
        },
{
    let mut k = end;
    while k > start
        invariant
            start <= k <= end <= line@.len(),
            last_ws(line@, start as int, end as int) == last_ws(line@, start as int, k as int),
        decreases k,
    {
        k = k - 1;
        if ws_byte(line[k]) {
            assert(last_ws(line@, start as int, k + 1) == k);
            return Some(k);
        }
        assert(last_ws(line@, start as int, k + 1) == last_ws(line@, start as int, k as int));
    }
    None
}

/// Copies the byte range `[a, b)` of a line into a fresh vector.
fn copy_range(line: &Vec<u8>, a: usize, b: usize) -> (seg: Vec<u8>)
    requires
        a <= b <= line@.len(),
    ensures
        seg@ == line@.subrange(a as int, b as int),
{
    let mut seg: Vec<u8> = Vec::new();
    let mut k = a;
    while k < b
        invariant
            a <= k <= b <= line@.len(),
            seg@ == line@.subrange(a as int, k as int),
        decreases b - k,
    {
        seg.push(line[k]);
        k = k + 1;
        assert(seg@ =~= line@.subrange(a as int, k as int));
    }
    seg
}

/// Folds one line of bytes at the given unit boundaries.
///
/// Returns the emitted segments in order; their byte contents are exactly
/// those of the model [`fold_segments`], so every property proved of the
/// model holds of what this function emits.
pub fn fold_line(
    line: &Vec<u8>,
    boundaries: &Vec<usize>,
    max_width: MaxWidth,
    split_whitespace: bool,
) -> (segs: Vec<Vec<u8>>)
    requires
        max_width.wf(),
        boundaries_ok(boundaries@, line@.len() as int),
    ensures
        segs@.map_values(|s: Vec<u8>| s@) == fold_segments(
            line@,
            boundaries@,
            max_width.spec_width(),
            split_whitespace,
        ),
{
    let mw = max_width.get();
    let ghost m = max_width.spec_width();
    let ghost full = fold_cuts(line@, boundaries@, 0, 0, 0, 0, m, split_whitespace);
    let mut segs: Vec<Vec<u8>> = Vec::new();
    let ghost mut done: Seq<int> = Seq::empty();
    let mut start: usize = 0;
    let mut width: usize = 0;
    let mut last_word: usize = 0;
    let mut i: usize = 0;
    while i < boundaries.len()
        invariant
            max_width.wf(),
            m == max_width.spec_width(),
            mw == m,
            boundaries_ok(boundaries@, line@.len() as int),
            i <= boundaries@.len(),
            start <= line@.len(),
            i < boundaries@.len() ==> start <= boundaries@[i as int],
            width <= mw || width <= i,
            last_word <= i,
            full == done + fold_cuts(
                line@,
                boundaries@,
                i as int,
                start as int,
                width as int,
                last_word as int,
                m,
                split_whitespace,
            ),
            segs@.len() == done.len(),
            forall|j: int|
                0 <= j < done.len() ==> segs@[j]@ == line@.subrange(
                    if j == 0 {
                        0int
                    } else {
                        done[j - 1]
                    },
                    done[j],
                ),
            done.len() > 0 ==> done.last() == start as int,
            done.len() == 0 ==> start == 0,
        decreases boundaries@.len() - i,
    {
        let ghost start0 = start as int;
        let ghost width0 = width as int;
        let ghost lw0 = last_word as int;
        let ghost done0 = done;
        let ghost state_cuts = fold_cuts(
            line@,
            boundaries@,
            i as int,
            start0,
            width0,
            lw0,
            m,
            split_whitespace,
        );
        let end = boundaries[i];
        assert(end < line@.len());
        if width == mw {
            let line_end: usize;
            if split_whitespace {
                match rightmost_ws(line, start, end) {
                    Some(p) => {
                        line_end = p + 1;
                        width = last_word;
                    },
                    None => {
                        line_end = end;
                        width = 0;
                    },
                }
            } else {
                line_end = end;
                width = 0;
            }
            let seg = copy_range(line, start, line_end);
            segs.push(seg);
            proof {
                done = done + seq![line_end as int];
            }
            start = line_end;
        }
        width = width + 1;
        if ws_byte(line[end]) {
            last_word = 0;
        } else {
            last_word = last_word + 1;
        }
        proof {
            let endi = boundaries@[i as int] as int;
            let nlw = if is_ws(line@[endi]) { 0int } else { lw0 + 1 };
            let rest = fold_cuts(
                line@,
                boundaries@,
                i + 1,
                start as int,
                width as int,
                last_word as int,
                m,
                split_whitespace,
            );
            assert(last_word as int == nlw);
            if width0 == m {
                let p = last_ws(line@, start0, endi);
                let cut = if split_whitespace && p >= 0 {
                    p + 1
                } else {
                    endi
                };
                let w2 = if split_whitespace && p >= 0 {
                    lw0
                } else {
                    0int
                };
                assert(start as int == cut);
                assert(width as int == w2 + 1);
                assert(state_cuts == seq![cut] + rest);
                assert(done == done0 + seq![cut]);
                assert(full == done0 + state_cuts);
                assert(full =~= done + rest);
            } else {
                assert(state_cuts == rest);
            }
            assert(forall|j: int|
                0 <= j < done.len() ==> segs@[j]@ == line@.subrange(
                    if j == 0 {
                        0int
                    } else {
                        done[j - 1]
                    },
                    done[j],
                ));
            if i + 1 < boundaries@.len() {
                assert(boundaries@[i as int] < boundaries@[i + 1]);
            }
        }
        i = i + 1;
    }
    let seg = copy_range(line, start, line.len());
    segs.push(seg);
    proof {
        assert(full == done);
        let cuts = all_cuts(line@, boundaries@, m, split_whitespace);
        assert(cuts.len() == done.len() + 2);
        assert forall|j: int| 0 <= j < cuts.len() - 1 implies segs@[j]@ == line@.subrange(
            cuts[j],
            cuts[j + 1],
        ) by {
            if j < done.len() {
                assert(cuts[j] == if j == 0 {
                    0int
                } else {
                    done[j - 1]
                });
                assert(cuts[j + 1] == done[j]);
            } else {
                assert(j == done.len());
                assert(cuts[j + 1] == line@.len() as int);
                assert(cuts[j] == if j == 0 {
                    0int
                } else {
                    done[j - 1]
                });
            }
        }
        assert(segs@.map_values(|s: Vec<u8>| s@) =~= fold_segments(
            line@,
            boundaries@,
            m,
            split_whitespace,
        ));
    }
    segs
}

} // verus!
