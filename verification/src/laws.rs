//! Proved laws of the folder.
//!
//! The folder's contract pins its output to the model in [`crate::fold`];
//! the lemmas here state what that model guarantees: folding loses no byte,
//! segments respect the width limit, whitespace splitting breaks after
//! whitespace whenever the closed segment holds any, falls back to the hard
//! break otherwise, and a line already within the limit passes through
//! unsplit.

use crate::fold::all_cuts;
use crate::fold::boundaries_ok;
use crate::fold::fold_cuts;
use crate::fold::fold_segments;
use crate::fold::is_ws;
use crate::fold::last_ws;
use crate::segment::Mode;
use crate::segment::byte_starts;
use crate::segment::char_starts;
use crate::segment::is_char_start;
use crate::segment::mode_boundaries;
use vstd::prelude::*;
use vstd::utf8::encode_utf8;

verus! {

/// The concatenation of a sequence of segments.
pub open spec fn concat_segments(segs: Seq<Seq<u8>>) -> Seq<u8>
    decreases segs.len(),
{
    if segs.len() == 0 {
        Seq::empty()
    } else {
        segs.first() + concat_segments(segs.drop_first())
    }
}

/// How many unit boundaries fall in the byte range `[lo, hi)`: the measured
/// width, in units, of that range of the line.
pub open spec fn units_in(bnds: Seq<usize>, lo: int, hi: int) -> int
    decreases bnds.len(),
{
    if bnds.len() == 0 {
        0
    } else {
        units_in(bnds.drop_last(), lo, hi) + if lo <= bnds.last() < hi {
            1int
        } else {
            0int
        }
    }
}

/// How many unit boundaries fall at byte offset `lo` or beyond.
pub open spec fn units_from(bnds: Seq<usize>, lo: int) -> int
    decreases bnds.len(),
{
    if bnds.len() == 0 {
        0
    } else {
        units_from(bnds.drop_last(), lo) + if lo <= bnds.last() {
            1int
        } else {
            0int
        }
    }
}

/// What whitespace splitting promises of one closed segment `[lo, hi)`:
/// the break after it fell immediately after a whitespace byte, or the
/// segment holds no whitespace byte at all and the hard fallback applied.
pub open spec fn ws_break_or_ws_free(line: Seq<u8>, lo: int, hi: int) -> bool {
    is_ws(line[hi - 1]) || (forall|q: int| lo <= q < hi ==> !is_ws(line[q]))
}

/// Strictly increasing boundary offsets.
pub open spec fn strictly_increasing(bnds: Seq<usize>) -> bool {
    forall|a: int, b: int| 0 <= a < b < bnds.len() ==> bnds[a] < bnds[b]
}

/// Whether the byte range `[lo, hi)` of the line holds a whitespace byte.
pub open spec fn has_ws(line: Seq<u8>, lo: int, hi: int) -> bool {
    exists|q: int| lo <= q < hi && is_ws(line[q])
}

proof fn lemma_last_ws_props(line: Seq<u8>, start: int, end: int)
    ensures
        last_ws(line, start, end) == -1 || start <= last_ws(line, start, end) < end,
        last_ws(line, start, end) >= 0 ==> is_ws(line[last_ws(line, start, end)]),
        forall|q: int| start <= q < end && q > last_ws(line, start, end) ==> !is_ws(line[q]),
    decreases end - start,
{
    if end <= start {
    } else if is_ws(line[end - 1]) {
    } else {
        lemma_last_ws_props(line, start, end - 1);
    }
}

proof fn lemma_units_from_all_below(bnds: Seq<usize>, lo: int)
    requires
        forall|k: int| 0 <= k < bnds.len() ==> bnds[k] < lo,
    ensures
        units_from(bnds, lo) == 0,
    decreases bnds.len(),
{
    if bnds.len() > 0 {
        lemma_units_from_all_below(bnds.drop_last(), lo);
    }
}

proof fn lemma_units_in_eq_from(bnds: Seq<usize>, lo: int, hi: int)
    requires
        forall|k: int| 0 <= k < bnds.len() ==> bnds[k] < hi,
    ensures
        units_in(bnds, lo, hi) == units_from(bnds, lo),
    decreases bnds.len(),
{
    if bnds.len() > 0 {
        lemma_units_in_eq_from(bnds.drop_last(), lo, hi);
    }
}

proof fn lemma_units_from_step(bnds: Seq<usize>, lo: int, i: int)
    requires
        0 <= i < bnds.len(),
    ensures
        units_from(bnds.take(i + 1), lo) == units_from(bnds.take(i), lo) + if lo <= bnds[i] {
            1int
        } else {
            0int
        },
{
    assert(bnds.take(i + 1).drop_last() =~= bnds.take(i));
    assert(bnds.take(i + 1).last() == bnds[i]);
}

proof fn lemma_units_split(bnds: Seq<usize>, lo: int, i: int)
    requires
        strictly_increasing(bnds),
        0 <= i < bnds.len(),
    ensures
        units_in(bnds, lo, bnds[i] as int) == units_from(bnds.take(i), lo),
    decreases bnds.len(),
{
    if i == bnds.len() - 1 {
        assert(forall|k: int| 0 <= k < bnds.drop_last().len() ==> bnds.drop_last()[k] < bnds[i]);
        lemma_units_in_eq_from(bnds.drop_last(), lo, bnds[i] as int);
        assert(bnds.drop_last() =~= bnds.take(i));
    } else {
        let shorter = bnds.drop_last();
        assert(strictly_increasing(shorter));
        assert(shorter[i] == bnds[i]);
        lemma_units_split(shorter, lo, i);
        assert(shorter.take(i) =~= bnds.take(i));
        assert(!(lo <= bnds.last() < bnds[i] as int));
    }
}

proof fn lemma_units_from_mono(bnds: Seq<usize>, lo1: int, lo2: int)
    requires
        lo1 <= lo2,
    ensures
        units_from(bnds, lo1) >= units_from(bnds, lo2),
    decreases bnds.len(),
{
    if bnds.len() > 0 {
        lemma_units_from_mono(bnds.drop_last(), lo1, lo2);
    }
}

proof fn lemma_units_from_extra(bnds: Seq<usize>, lo: int, z: int, j: int)
    requires
        0 <= j < bnds.len(),
        lo <= bnds[j],
        (bnds[j] as int) < z,
    ensures
        units_from(bnds, lo) >= units_from(bnds, z) + 1,
    decreases bnds.len(),
{
    if j == bnds.len() - 1 {
        lemma_units_from_mono(bnds.drop_last(), lo, z);
    } else {
        lemma_units_from_extra(bnds.drop_last(), lo, z, j);
    }
}

proof fn lemma_units_in_mono_hi(bnds: Seq<usize>, lo: int, hi1: int, hi2: int)
    requires
        hi1 <= hi2,
    ensures
        units_in(bnds, lo, hi1) <= units_in(bnds, lo, hi2),
    decreases bnds.len(),
{
    if bnds.len() > 0 {
        lemma_units_in_mono_hi(bnds.drop_last(), lo, hi1, hi2);
    }
}

proof fn lemma_cuts_bounds(
    line: Seq<u8>,
    bnds: Seq<usize>,
    i: int,
    start: int,
    width: int,
    lw: int,
    mw: int,
    sw: bool,
)
    requires
        boundaries_ok(bnds, line.len() as int),
        0 <= i,
        0 <= start,
        i < bnds.len() ==> start <= bnds[i],
        (width == mw && i < bnds.len()) ==> start < bnds[i],
    ensures
        ({
            let c = fold_cuts(line, bnds, i, start, width, lw, mw, sw);
            &&& forall|k: int| #![trigger c[k]] 0 <= k < c.len() ==> start < c[k] < line.len()
            &&& forall|k: int, l: int| 0 <= k < l < c.len() ==> c[k] < c[l]
        }),
    decreases bnds.len() - i,
{
    let c = fold_cuts(line, bnds, i, start, width, lw, mw, sw);
    if 0 <= i < bnds.len() {
        let end = bnds[i] as int;
        let nlw = if is_ws(line[end]) {
            0int
        } else {
            lw + 1
        };
        if width == mw {
            let p = last_ws(line, start, end);
            lemma_last_ws_props(line, start, end);
            let cut = if sw && p >= 0 {
                p + 1
            } else {
                end
            };
            let w2 = if sw && p >= 0 {
                lw
            } else {
                0int
            };
            lemma_cuts_bounds(line, bnds, i + 1, cut, w2 + 1, nlw, mw, sw);
            let c2 = fold_cuts(line, bnds, i + 1, cut, w2 + 1, nlw, mw, sw);
            assert(c == seq![cut] + c2);
            assert(start < cut < line.len());
            assert(forall|k: int| 1 <= k < c.len() ==> c[k] == #[trigger] c2[k - 1]);
            assert(forall|k: int| #![trigger c2[k]] 0 <= k < c2.len() ==> cut < c2[k] < line.len());
            assert(forall|k: int| #![trigger c[k]] 0 <= k < c.len() ==> start < c[k] < line.len());
            assert(forall|k: int, l: int| 0 <= k < l < c.len() ==> c[k] < c[l]) by {
                assert(forall|k: int| 1 <= k < c.len() ==> c[k] == #[trigger] c2[k - 1]);
                assert(forall|k: int| #![trigger c2[k]] 0 <= k < c2.len() ==> cut < c2[k]
                    < line.len());
                assert(forall|k: int, l: int| 0 <= k < l < c2.len() ==> c2[k] < c2[l]);
            }
        } else {
            lemma_cuts_bounds(line, bnds, i + 1, start, width + 1, nlw, mw, sw);
            assert(c == fold_cuts(line, bnds, i + 1, start, width + 1, nlw, mw, sw));
        }
    }
}

proof fn lemma_concat_ranges(line: Seq<u8>, cuts: Seq<int>)
    requires
        cuts.len() >= 1,
        forall|k: int| 0 <= k < cuts.len() ==> 0 <= #[trigger] cuts[k] <= line.len(),
        forall|k: int, l: int| 0 <= k < l < cuts.len() ==> cuts[k] <= cuts[l],
    ensures
        concat_segments(
            Seq::new((cuts.len() - 1) as nat, |j: int| line.subrange(cuts[j], cuts[j + 1])),
        ) == line.subrange(cuts[0], cuts.last()),
    decreases cuts.len(),
{
    let segs = Seq::new((cuts.len() - 1) as nat, |j: int| line.subrange(cuts[j], cuts[j + 1]));
    if cuts.len() == 1 {
        assert(line.subrange(cuts[0], cuts[0]) =~= Seq::<u8>::empty());
    } else {
        let cuts2 = cuts.drop_first();
        lemma_concat_ranges(line, cuts2);
        let segs2 = Seq::new((cuts2.len() - 1) as nat, |j: int| line.subrange(cuts2[j], cuts2[j + 1]));
        assert(segs.drop_first() =~= segs2);
        assert(segs.first() == line.subrange(cuts[0], cuts[1]));
        assert(cuts2.last() == cuts.last());
        assert(cuts2[0] == cuts[1]);
        assert(line.subrange(cuts[0], cuts[1]) + line.subrange(cuts[1], cuts.last())
            =~= line.subrange(cuts[0], cuts.last()));
    }
}

/// Round trip: folding never drops, duplicates, or reorders a byte.
/// For every line, boundary sequence, width and whitespace setting, the
/// emitted segments concatenate back to exactly the original line.
pub proof fn lemma_round_trip(line: Seq<u8>, bnds: Seq<usize>, max_width: int, split_ws: bool)
    requires
        boundaries_ok(bnds, line.len() as int),
        max_width >= 1,
    ensures
        concat_segments(fold_segments(line, bnds, max_width, split_ws)) == line,
{
    lemma_cuts_bounds(line, bnds, 0, 0, 0, 0, max_width, split_ws);
    let inner = fold_cuts(line, bnds, 0, 0, 0, 0, max_width, split_ws);
    let cuts = all_cuts(line, bnds, max_width, split_ws);
    assert(cuts[0] == 0);
    assert(cuts.last() == line.len());
    assert(forall|k: int| 0 <= k < inner.len() ==> cuts[k + 1] == #[trigger] inner[k]);
    assert(forall|k: int| 0 <= k < cuts.len() ==> 0 <= #[trigger] cuts[k] <= line.len());
    assert(forall|k: int, l: int| 0 <= k < l < cuts.len() ==> cuts[k] <= cuts[l]);
    lemma_concat_ranges(line, cuts);
    assert(line.subrange(0, line.len() as int) =~= line);
}

proof fn lemma_widths_rec(
    line: Seq<u8>,
    bnds: Seq<usize>,
    i: int,
    start: int,
    width: int,
    lw: int,
    mw: int,
)
    requires
        boundaries_ok(bnds, line.len() as int),
        mw >= 1,
        0 <= i <= bnds.len(),
        0 <= start,
        i < bnds.len() ==> start <= bnds[i],
        width == units_from(bnds.take(i), start),
        width <= mw,
    ensures
        ({
            let c = fold_cuts(line, bnds, i, start, width, lw, mw, false);
            &&& forall|k: int|
                #![trigger c[k]]
                0 <= k < c.len() ==> units_in(
                    bnds,
                    if k == 0 {
                        start
                    } else {
                        c[k - 1]
                    },
                    c[k],
                ) == mw
            &&& units_in(
                bnds,
                if c.len() == 0 {
                    start
                } else {
                    c.last()
                },
                line.len() as int,
            ) <= mw
        }),
    decreases bnds.len() - i,
{
    let c = fold_cuts(line, bnds, i, start, width, lw, mw, false);
    if i == bnds.len() {
        assert(bnds.take(i) =~= bnds);
        lemma_units_in_eq_from(bnds, start, line.len() as int);
    } else {
        let end = bnds[i] as int;
        let nlw = if is_ws(line[end]) {
            0int
        } else {
            lw + 1
        };
        if width == mw {
            lemma_units_from_step(bnds, end, i);
            lemma_units_from_all_below(bnds.take(i), end);
            assert(units_from(bnds.take(i + 1), end) == 1);
            lemma_widths_rec(line, bnds, i + 1, end, 1, nlw, mw);
            let c2 = fold_cuts(line, bnds, i + 1, end, 1, nlw, mw, false);
            assert(c == seq![end] + c2);
            lemma_units_split(bnds, start, i);
            assert(units_in(bnds, start, end) == mw);
            assert(forall|k: int|
                #![trigger c[k]]
                0 <= k < c.len() ==> units_in(
                    bnds,
                    if k == 0 {
                        start
                    } else {
                        c[k - 1]
                    },
                    c[k],
                ) == mw) by {
                assert(forall|k: int| 1 <= k < c.len() ==> c[k] == #[trigger] c2[k - 1]);
                assert(c[0] == end);
            }
            if c2.len() == 0 {
                assert(c.last() == end);
            } else {
                assert(c.last() == c2.last());
            }
        } else {
            lemma_units_from_step(bnds, start, i);
            lemma_widths_rec(line, bnds, i + 1, start, width + 1, nlw, mw);
        }
    }
}

/// Width bound without whitespace splitting: every emitted segment except
/// the last measures exactly the width limit in units, and the last measures
/// at most the limit. (With whitespace splitting on, a segment closed at a
/// whitespace byte may be shorter than the limit.)
pub proof fn lemma_width_exact(line: Seq<u8>, bnds: Seq<usize>, max_width: int)
    requires
        boundaries_ok(bnds, line.len() as int),
        max_width >= 1,
    ensures
        ({
            let cuts = all_cuts(line, bnds, max_width, false);
            &&& forall|j: int|
                0 <= j < cuts.len() - 2 ==> #[trigger] units_in(bnds, cuts[j], cuts[j + 1])
                    == max_width
            &&& units_in(bnds, cuts[cuts.len() - 2], cuts[cuts.len() - 1]) <= max_width
        }),
{
    assert(bnds.take(0) =~= Seq::<usize>::empty());
    lemma_widths_rec(line, bnds, 0, 0, 0, 0, max_width);
    let c = fold_cuts(line, bnds, 0, 0, 0, 0, max_width, false);
    let cuts = all_cuts(line, bnds, max_width, false);
    assert(cuts.len() == c.len() + 2);
    assert(cuts[0] == 0);
    assert(cuts[cuts.len() - 1] == line.len());
    assert(forall|k: int| 0 <= k < c.len() ==> cuts[k + 1] == #[trigger] c[k]);
    assert(forall|j: int|
        0 <= j < cuts.len() - 2 ==> #[trigger] units_in(bnds, cuts[j], cuts[j + 1]) == max_width)
        by {
        assert(forall|j: int|
            #![trigger cuts[j]]
            0 <= j < c.len() ==> units_in(
                bnds,
                if j == 0 {
                    0int
                } else {
                    c[j - 1]
                },
                c[j],
            ) == max_width);
    }
    if c.len() == 0 {
        assert(cuts[cuts.len() - 2] == 0);
    } else {
        assert(cuts[cuts.len() - 2] == c.last());
    }
}

proof fn lemma_ws_pref_rec(
    line: Seq<u8>,
    bnds: Seq<usize>,
    i: int,
    start: int,
    width: int,
    lw: int,
    mw: int,
)
    requires
        boundaries_ok(bnds, line.len() as int),
        0 <= i,
        0 <= start,
        i < bnds.len() ==> start <= bnds[i],
    ensures
        ({
            let c = fold_cuts(line, bnds, i, start, width, lw, mw, true);
            forall|k: int|
                #![trigger c[k]]
                0 <= k < c.len() ==> ws_break_or_ws_free(
                    line,
                    if k == 0 {
                        start
                    } else {
                        c[k - 1]
                    },
                    c[k],
                )
        }),
    decreases bnds.len() - i,
{
    let c = fold_cuts(line, bnds, i, start, width, lw, mw, true);
    if 0 <= i < bnds.len() {
        let end = bnds[i] as int;
        let nlw = if is_ws(line[end]) {
            0int
        } else {
            lw + 1
        };
        if width == mw {
            let p = last_ws(line, start, end);
            lemma_last_ws_props(line, start, end);
            let cut = if p >= 0 {
                p + 1
            } else {
                end
            };
            let w2 = if p >= 0 {
                lw
            } else {
                0int
            };
            lemma_ws_pref_rec(line, bnds, i + 1, cut, w2 + 1, nlw, mw);
            let c2 = fold_cuts(line, bnds, i + 1, cut, w2 + 1, nlw, mw, true);
            assert(c == seq![cut] + c2);
            assert(ws_break_or_ws_free(line, start, cut));
            assert(forall|k: int| 1 <= k < c.len() ==> c[k] == #[trigger] c2[k - 1]);
            assert(forall|k: int|
                #![trigger c2[k]]
                0 <= k < c2.len() ==> ws_break_or_ws_free(
                    line,
                    if k == 0 {
                        cut
                    } else {
                        c2[k - 1]
                    },
                    c2[k],
                ));
            assert(forall|k: int|
                #![trigger c[k]]
                0 <= k < c.len() ==> ws_break_or_ws_free(
                    line,
                    if k == 0 {
                        start
                    } else {
                        c[k - 1]
                    },
                    c[k],
                ));
        } else {
            lemma_ws_pref_rec(line, bnds, i + 1, start, width + 1, nlw, mw);
            assert(c == fold_cuts(line, bnds, i + 1, start, width + 1, nlw, mw, true));
        }
    }
}

/// Whitespace preference: with whitespace splitting on, every interior break
/// either falls immediately after a whitespace byte, or closes a segment
/// that holds no whitespace byte at all (in which case the hard fallback
/// placed it).
pub proof fn lemma_whitespace_preference(line: Seq<u8>, bnds: Seq<usize>, max_width: int)
    requires
        boundaries_ok(bnds, line.len() as int),
        max_width >= 1,
    ensures
        ({
            let cuts = all_cuts(line, bnds, max_width, true);
            forall|j: int|
                1 <= j < cuts.len() - 1 ==> #[trigger] ws_break_or_ws_free(
                    line,
                    cuts[j - 1],
                    cuts[j],
                )
        }),
{
    lemma_ws_pref_rec(line, bnds, 0, 0, 0, 0, max_width);
    let c = fold_cuts(line, bnds, 0, 0, 0, 0, max_width, true);
    let cuts = all_cuts(line, bnds, max_width, true);
    assert(cuts[0] == 0);
    assert(forall|k: int| 0 <= k < c.len() ==> cuts[k + 1] == #[trigger] c[k]);
    assert(forall|j: int|
        1 <= j < cuts.len() - 1 ==> #[trigger] ws_break_or_ws_free(line, cuts[j - 1], cuts[j]))
        by {
        assert(forall|k: int|
            #![trigger c[k]]
            0 <= k < c.len() ==> ws_break_or_ws_free(
                line,
                if k == 0 {
                    0int
                } else {
                    c[k - 1]
                },
                c[k],
            ));
    }
}

proof fn lemma_no_ws_rec(
    line: Seq<u8>,
    bnds: Seq<usize>,
    i: int,
    start: int,
    width: int,
    lw1: int,
    lw2: int,
    mw: int,
)
    requires
        forall|q: int| 0 <= q < line.len() ==> !is_ws(line[q]),
        boundaries_ok(bnds, line.len() as int),
        0 <= i,
        0 <= start,
    ensures
        fold_cuts(line, bnds, i, start, width, lw1, mw, true) == fold_cuts(
            line,
            bnds,
            i,
            start,
            width,
            lw2,
            mw,
            false,
        ),
    decreases bnds.len() - i,
{
    if 0 <= i < bnds.len() {
        let end = bnds[i] as int;
        lemma_last_ws_props(line, start, end);
        let p = last_ws(line, start, end);
        assert(p == -1) by {
            if p >= 0 {
                assert(start <= p < end);
                assert(is_ws(line[p]));
            }
        }
        let nlw1 = if is_ws(line[end]) {
            0int
        } else {
            lw1 + 1
        };
        let nlw2 = if is_ws(line[end]) {
            0int
        } else {
            lw2 + 1
        };
        if width == mw {
            lemma_no_ws_rec(line, bnds, i + 1, end, 1, nlw1, nlw2, mw);
        } else {
            lemma_no_ws_rec(line, bnds, i + 1, start, width + 1, nlw1, nlw2, mw);
        }
    }
}

/// Fallback: on a line without any whitespace byte, folding with whitespace
/// splitting on behaves exactly as folding with it off — every break falls
/// exactly at the width limit.
pub proof fn lemma_fallback(line: Seq<u8>, bnds: Seq<usize>, max_width: int, split_ws: bool)
    requires
        forall|q: int| 0 <= q < line.len() ==> !is_ws(line[q]),
        boundaries_ok(bnds, line.len() as int),
    ensures
        fold_segments(line, bnds, max_width, split_ws) == fold_segments(
            line,
            bnds,
            max_width,
            false,
        ),
{
    if split_ws {
        lemma_no_ws_rec(line, bnds, 0, 0, 0, 0, 0, max_width);
    }
}

/// Every whitespace byte of the line starts a unit of its own. This holds
/// always of byte and scalar-value boundaries (ASCII whitespace is a
/// one-byte character), and of grapheme boundaries for all but a few unusual
/// clusters that glue a whitespace character onto a preceding prepending
/// character.
pub open spec fn ws_at_boundaries(line: Seq<u8>, bnds: Seq<usize>) -> bool {
    forall|p: int| 0 <= p < line.len() && is_ws(line[p]) ==> bnds.contains(p as usize)
}

proof fn lemma_bound_rec(
    line: Seq<u8>,
    bnds: Seq<usize>,
    i: int,
    start: int,
    width: int,
    lw: int,
    z: int,
    mw: int,
    sw: bool,
)
    requires
        boundaries_ok(bnds, line.len() as int),
        ws_at_boundaries(line, bnds),
        mw >= 1,
        0 <= i <= bnds.len(),
        0 <= start,
        i < bnds.len() ==> start <= bnds[i],
        width == units_from(bnds.take(i), start),
        width <= mw,
        lw == units_from(bnds.take(i), z),
        0 <= z,
        z == 0 || (exists|j: int| 0 <= j < i && bnds[j] + 1 == z && is_ws(line[bnds[j] as int])),
        forall|j: int| 0 <= j < i && bnds[j] >= z ==> !is_ws(line[bnds[j] as int]),
    ensures
        ({
            let c = fold_cuts(line, bnds, i, start, width, lw, mw, sw);
            &&& forall|k: int|
                #![trigger c[k]]
                0 <= k < c.len() ==> units_in(
                    bnds,
                    if k == 0 {
                        start
                    } else {
                        c[k - 1]
                    },
                    c[k],
                ) <= mw
            &&& forall|k: int|
                #![trigger c[k]]
                0 <= k < c.len() ==> (has_ws(
                    line,
                    if k == 0 {
                        start
                    } else {
                        c[k - 1]
                    },
                    c[k],
                ) || units_in(
                    bnds,
                    if k == 0 {
                        start
                    } else {
                        c[k - 1]
                    },
                    c[k],
                ) == mw)
            &&& units_in(
                bnds,
                if c.len() == 0 {
                    start
                } else {
                    c.last()
                },
                line.len() as int,
            ) <= mw
        }),
    decreases bnds.len() - i,
{
    let c = fold_cuts(line, bnds, i, start, width, lw, mw, sw);
    if i == bnds.len() {
        assert(bnds.take(i) =~= bnds);
        lemma_units_in_eq_from(bnds, start, line.len() as int);
    } else {
        let end = bnds[i] as int;
        let is_ws_unit = is_ws(line[end]);
        let nlw = if is_ws_unit {
            0int
        } else {
            lw + 1
        };
        let z2 = if is_ws_unit {
            end + 1
        } else {
            z
        };
        // z never exceeds the offset just past the last processed unit.
        assert(z <= end) by {
            if z != 0 {
                let j = choose|j: int|
                    0 <= j < i && bnds[j] + 1 == z && is_ws(line[bnds[j] as int]);
                assert(bnds[j] < bnds[i]);
            }
        }
        // The classification step preserves the trailing-word invariant.
        assert(nlw == units_from(bnds.take(i + 1), z2)) by {
            if is_ws_unit {
                assert(forall|k: int|
                    0 <= k < bnds.take(i + 1).len() ==> #[trigger] bnds.take(i + 1)[k] < end
                        + 1);
                lemma_units_from_all_below(bnds.take(i + 1), end + 1);
            } else {
                lemma_units_from_step(bnds, z, i);
            }
        }
        if width == mw {
            let p = last_ws(line, start, end);
            lemma_last_ws_props(line, start, end);
            let cut = if sw && p >= 0 {
                p + 1
            } else {
                end
            };
            let w2 = if sw && p >= 0 {
                lw
            } else {
                0int
            };
            // The closed segment never holds more units than were counted.
            lemma_units_split(bnds, start, i);
            assert(units_in(bnds, start, end) == mw);
            lemma_units_in_mono_hi(bnds, start, cut, end);
            assert(units_in(bnds, start, cut) <= mw);
            if sw && p >= 0 {
                // The rightmost whitespace byte starts a unit, so the carried
                // word width is exactly the units past it, and below the limit.
                assert(bnds.contains(p as usize));
                let j = choose|j: int| 0 <= j < bnds.len() && bnds[j] == p as usize;
                assert(0 <= j < bnds.len() && bnds[j] == p);
                assert(j < i) by {
                    if j >= i {
                        assert(bnds[i] <= bnds[j]);
                    }
                }
                assert(z == p + 1) by {
                    assert(bnds[j] >= z ==> !is_ws(line[bnds[j] as int]));
                    assert(p < z);
                    if z != 0 {
                        let j2 = choose|j2: int|
                            0 <= j2 < i && bnds[j2] + 1 == z && is_ws(line[bnds[j2] as int]);
                        if z - 1 >= start {
                            assert(start <= z - 1 < end && z - 1 > p ==> !is_ws(
                                line[z - 1],
                            ));
                        }
                    }
                }
                assert(lw == units_from(bnds.take(i), p + 1));
                assert(width >= lw + 1) by {
                    assert(bnds.take(i)[j] == p);
                    lemma_units_from_extra(bnds.take(i), start, p + 1, j);
                }
                lemma_units_from_step(bnds, p + 1, i);
                assert(units_from(bnds.take(i + 1), p + 1) == lw + 1);
            } else {
                lemma_units_from_step(bnds, end, i);
                lemma_units_from_all_below(bnds.take(i), end);
                assert(units_from(bnds.take(i + 1), end) == 1);
            }
            if sw && p >= 0 {
                assert(start <= p < cut && is_ws(line[p]));
                assert(has_ws(line, start, cut));
            }
            lemma_bound_rec(line, bnds, i + 1, cut, w2 + 1, nlw, z2, mw, sw);
            let c2 = fold_cuts(line, bnds, i + 1, cut, w2 + 1, nlw, mw, sw);
            assert(c == seq![cut] + c2);
            assert(forall|k: int| 1 <= k < c.len() ==> c[k] == #[trigger] c2[k - 1]);
            assert(forall|k: int|
                #![trigger c[k]]
                0 <= k < c.len() ==> units_in(
                    bnds,
                    if k == 0 {
                        start
                    } else {
                        c[k - 1]
                    },
                    c[k],
                ) <= mw);
            assert(forall|k: int|
                #![trigger c[k]]
                0 <= k < c.len() ==> (has_ws(
                    line,
                    if k == 0 {
                        start
                    } else {
                        c[k - 1]
                    },
                    c[k],
                ) || units_in(
                    bnds,
                    if k == 0 {
                        start
                    } else {
                        c[k - 1]
                    },
                    c[k],
                ) == mw));
            if c2.len() == 0 {
                assert(c.last() == cut);
            } else {
                assert(c.last() == c2.last());
            }
        } else {
            lemma_units_from_step(bnds, start, i);
            lemma_bound_rec(line, bnds, i + 1, start, width + 1, nlw, z2, mw, sw);
            assert(c == fold_cuts(line, bnds, i + 1, start, width + 1, nlw, mw, sw));
        }
    }
}

/// Width bound with whitespace splitting: provided every whitespace byte of
/// the line starts a unit of its own, no emitted segment — the last
/// included — measures more than the width limit in units.
pub proof fn lemma_width_bound(line: Seq<u8>, bnds: Seq<usize>, max_width: int, split_ws: bool)
    requires
        boundaries_ok(bnds, line.len() as int),
        ws_at_boundaries(line, bnds),
        max_width >= 1,
    ensures
        ({
            let cuts = all_cuts(line, bnds, max_width, split_ws);
            forall|j: int|
                0 <= j < cuts.len() - 1 ==> #[trigger] units_in(bnds, cuts[j], cuts[j + 1])
                    <= max_width
        }),
{
    assert(bnds.take(0) =~= Seq::<usize>::empty());
    lemma_bound_rec(line, bnds, 0, 0, 0, 0, 0, max_width, split_ws);
    let c = fold_cuts(line, bnds, 0, 0, 0, 0, max_width, split_ws);
    let cuts = all_cuts(line, bnds, max_width, split_ws);
    assert forall|j: int| 0 <= j < cuts.len() - 1 implies #[trigger] units_in(
        bnds,
        cuts[j],
        cuts[j + 1],
    ) <= max_width by {
        if j < c.len() {
            assert(cuts[j + 1] == c[j]);
            if j == 0 {
                assert(cuts[0] == 0);
            } else {
                assert(cuts[j] == c[j - 1]);
            }
            assert(units_in(
                bnds,
                if j == 0 {
                    0int
                } else {
                    c[j - 1]
                },
                c[j],
            ) <= max_width);
        } else {
            assert(j == c.len());
            assert(cuts[j + 1] == line.len());
            if c.len() == 0 {
                assert(cuts[j] == 0);
                assert(units_in(bnds, 0, line.len() as int) <= max_width);
            } else {
                assert(cuts[j] == c.last());
                assert(units_in(bnds, c.last(), line.len() as int) <= max_width);
            }
        }
    }
}

/// Fallback, break by break: provided every whitespace byte of the line
/// starts a unit of its own, an interior segment that holds no whitespace
/// byte measures exactly the width limit in units — its break fell exactly
/// where it would have fallen without whitespace splitting.
pub proof fn lemma_fallback_exact(line: Seq<u8>, bnds: Seq<usize>, max_width: int, split_ws: bool)
    requires
        boundaries_ok(bnds, line.len() as int),
        ws_at_boundaries(line, bnds),
        max_width >= 1,
    ensures
        ({
            let cuts = all_cuts(line, bnds, max_width, split_ws);
            forall|j: int|
                1 <= j < cuts.len() - 1 ==> (has_ws(line, cuts[j - 1], cuts[j]) || #[trigger]
                units_in(bnds, cuts[j - 1], cuts[j]) == max_width)
        }),
{
    assert(bnds.take(0) =~= Seq::<usize>::empty());
    lemma_bound_rec(line, bnds, 0, 0, 0, 0, 0, max_width, split_ws);
    let c = fold_cuts(line, bnds, 0, 0, 0, 0, max_width, split_ws);
    let cuts = all_cuts(line, bnds, max_width, split_ws);
    assert forall|j: int| 1 <= j < cuts.len() - 1 implies (has_ws(line, cuts[j - 1], cuts[j])
        || #[trigger] units_in(bnds, cuts[j - 1], cuts[j]) == max_width) by {
        let k = j - 1;
        assert(cuts[j] == c[k]);
        if k == 0 {
            assert(cuts[0] == 0);
        } else {
            assert(cuts[j - 1] == c[k - 1]);
        }
        assert(has_ws(
            line,
            if k == 0 {
                0int
            } else {
                c[k - 1]
            },
            c[k],
        ) || units_in(
            bnds,
            if k == 0 {
                0int
            } else {
                c[k - 1]
            },
            c[k],
        ) == max_width);
    }
}

proof fn lemma_no_break_rec(
    line: Seq<u8>,
    bnds: Seq<usize>,
    i: int,
    start: int,
    width: int,
    lw: int,
    mw: int,
    sw: bool,
)
    requires
        0 <= i <= bnds.len(),
        width + (bnds.len() - i) <= mw,
        0 <= width,
    ensures
        fold_cuts(line, bnds, i, start, width, lw, mw, sw) == Seq::<int>::empty(),
    decreases bnds.len() - i,
{
    if i < bnds.len() {
        let end = bnds[i] as int;
        let nlw = if is_ws(line[end]) {
            0int
        } else {
            lw + 1
        };
        lemma_no_break_rec(line, bnds, i + 1, start, width + 1, nlw, mw, sw);
    }
}

/// Pass-through: a line that measures at most the width limit — in
/// particular any segment a previous fold emitted under that limit — folds
/// to a single segment equal to the whole line, so re-folding folded output
/// splits nothing further.
pub proof fn lemma_single_segment(line: Seq<u8>, bnds: Seq<usize>, max_width: int, split_ws: bool)
    requires
        boundaries_ok(bnds, line.len() as int),
        bnds.len() <= max_width,
    ensures
        fold_segments(line, bnds, max_width, split_ws) == seq![line],
{
    lemma_no_break_rec(line, bnds, 0, 0, 0, 0, max_width, split_ws);
    let cuts = all_cuts(line, bnds, max_width, split_ws);
    assert(cuts =~= seq![0int, line.len() as int]);
    assert(line.subrange(0, line.len() as int) =~= line);
    assert(fold_segments(line, bnds, max_width, split_ws) =~= seq![line]);
}

proof fn lemma_char_starts_ok(line: Seq<u8>, n: int)
    requires
        0 <= n <= line.len(),
        n <= usize::MAX,
    ensures
        boundaries_ok(char_starts(line, n), n),
    decreases n,
{
    if n > 0 {
        lemma_char_starts_ok(line, n - 1);
        let shorter = char_starts(line, n - 1);
        assert(forall|k: int| 0 <= k < shorter.len() ==> #[trigger] shorter[k] < n - 1);
        if is_char_start(line[n - 1]) {
            let s = char_starts(line, n);
            assert(s == shorter.push((n - 1) as usize));
            assert(s.len() == shorter.len() + 1);
            assert(s[s.len() - 1] == (n - 1) as usize);
            assert(forall|k: int| 0 <= k < shorter.len() ==> s[k] == #[trigger] shorter[k]);
        }
    }
}

proof fn lemma_char_starts_contains(line: Seq<u8>, n: int, p: int)
    requires
        0 <= p < n <= line.len(),
        n <= usize::MAX,
        is_char_start(line[p]),
    ensures
        char_starts(line, n).contains(p as usize),
    decreases n,
{
    let s = char_starts(line, n);
    let shorter = char_starts(line, n - 1);
    if p == n - 1 {
        assert(s == shorter.push(p as usize));
        assert(s[s.len() - 1] == p as usize);
    } else {
        lemma_char_starts_contains(line, n - 1, p);
        let k = choose|k: int| 0 <= k < shorter.len() && shorter[k] == p as usize;
        if is_char_start(line[n - 1]) {
            assert(s == shorter.push((n - 1) as usize));
            assert(s[k] == p as usize);
        } else {
            assert(s == shorter);
        }
    }
}

/// In `Bytes` and `Chars` modes every whitespace byte starts a unit of its
/// own — ASCII whitespace is a one-byte character — and the unit boundaries
/// are valid for the line, so [`lemma_width_bound`] applies to every fold in
/// those modes.
pub proof fn lemma_mode_ws_at_boundaries(text: Seq<char>, mode: Mode)
    requires
        mode != Mode::Graphemes,
        encode_utf8(text).len() <= usize::MAX,
    ensures
        ws_at_boundaries(encode_utf8(text), mode_boundaries(text, mode)),
        boundaries_ok(mode_boundaries(text, mode), encode_utf8(text).len() as int),
{
    let bytes = encode_utf8(text);
    let n = bytes.len() as int;
    if mode == Mode::Bytes {
        assert forall|p: int| 0 <= p < bytes.len() && is_ws(bytes[p]) implies byte_starts(
            n,
        ).contains(p as usize) by {
            assert(byte_starts(n)[p] == p as usize);
        }
        assert(forall|k: int| 0 <= k < byte_starts(n).len() ==> #[trigger] byte_starts(n)[k] == k);
    } else {
        lemma_char_starts_ok(bytes, n);
        assert forall|p: int| 0 <= p < bytes.len() && is_ws(bytes[p]) implies char_starts(
            bytes,
            n,
        ).contains(p as usize) by {
            assert(is_char_start(bytes[p]));
            lemma_char_starts_contains(bytes, n, p);
        }
    }
}

} // verus!
