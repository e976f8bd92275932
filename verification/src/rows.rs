//! Row accounting for line clearing: which rows are full, and how the
//! surviving cells compact downward when full rows are removed.

use vstd::prelude::*;

use crate::pieces::{pt, Color, Point, cells_in_bounds, distinct_cells};

verus! {

/// A locked cell: a coordinate and the color it is drawn with.
#[derive(Copy, Clone, PartialEq, Eq, Structural, Debug)]
pub struct ColoredPoint(pub Point, pub Color);

/// The coordinates of a sequence of locked cells, colors forgotten.
pub open spec fn frozen_cells(f: Seq<ColoredPoint>) -> Seq<Point> {
    f.map_values(|cp: ColoredPoint| cp.0)
}

/// How many locked cells stand on row `y`.
pub open spec fn row_count(f: Seq<ColoredPoint>, y: i32) -> nat
    decreases f.len(),
{
    if f.len() == 0 {
        0
    } else {
        row_count(f.drop_last(), y) + if f.last().0.y == y {
            1nat
        } else {
            0nat
        }
    }
}

/// The heights of the full rows among the first `k` rows, in ascending
/// order. A row is full iff it carries exactly `w` locked cells.
pub open spec fn full_rows_upto(f: Seq<ColoredPoint>, w: int, k: int) -> Seq<i32>
    decreases k,
{
    if k <= 0 {
        Seq::empty()
    } else {
        full_rows_upto(f, w, k - 1) + if row_count(f, (k - 1) as i32) == w {
            seq![(k - 1) as i32]
        } else {
            Seq::empty()
        }
    }
}

/// The heights of all full rows of a board `w` cells wide and `h` tall,
/// ascending.
pub open spec fn full_rows(f: Seq<ColoredPoint>, w: int, h: int) -> Seq<i32> {
    full_rows_upto(f, w, h)
}

/// Strictly ascending heights.
pub open spec fn sorted_strict(s: Seq<i32>) -> bool {
    forall|i: int, j: int| 0 <= i < j < s.len() ==> s[i] < s[j]
}

/// How many of the given heights lie at or below row `y` (that is, are
/// greater than or equal to `y`; `y` grows downward).
pub open spec fn count_ge(lines: Seq<i32>, y: i32) -> nat
    decreases lines.len(),
{
    if lines.len() == 0 {
        0
    } else {
        count_ge(lines.drop_last(), y) + if lines.last() >= y {
            1nat
        } else {
            0nat
        }
    }
}

/// One locked cell after clearing: it keeps its column and color and drops
/// one row for every cleared row below it.
pub open spec fn shifted_cp(cp: ColoredPoint, lines: Seq<i32>) -> ColoredPoint {
    ColoredPoint(pt(cp.0.x as int, cp.0.y + count_ge(lines, cp.0.y)), cp.1)
}

/// The board after the rows at the given heights are cleared: cells on
/// those rows vanish, every other cell drops one row per cleared row below
/// it.
pub open spec fn erased(f: Seq<ColoredPoint>, lines: Seq<i32>) -> Seq<ColoredPoint>
    decreases f.len(),
{
    if f.len() == 0 {
        Seq::empty()
    } else {
        erased(f.drop_last(), lines) + if lines.contains(f.last().0.y) {
            Seq::empty()
        } else {
            seq![shifted_cp(f.last(), lines)]
        }
    }
}

/// The full rows are listed in ascending order and lie in `[0, k)`.
pub proof fn lemma_full_rows_ascending(f: Seq<ColoredPoint>, w: int, k: int)
    requires
        k <= 0x7fffffff,
    ensures
        sorted_strict(full_rows_upto(f, w, k)),
        forall|t: int|
            0 <= t < full_rows_upto(f, w, k).len() ==> 0 <= #[trigger] full_rows_upto(
                f,
                w,
                k,
            )[t] < k,
    decreases k,
{
    if k > 0 {
        lemma_full_rows_ascending(f, w, k - 1);
        let s0 = full_rows_upto(f, w, k - 1);
        let s = full_rows_upto(f, w, k);
        assert(forall|t: int| 0 <= t < s0.len() ==> #[trigger] s[t] == s0[t]);
        if row_count(f, (k - 1) as i32) == w {
            assert(s.len() == s0.len() + 1);
            assert(s[s.len() - 1] == (k - 1) as i32);
        } else {
            assert(s =~= s0);
        }
    }
}

/// Strictly ascending heights drawn from `[0, b)` number at most `b`.
pub proof fn lemma_sorted_range_len(s: Seq<i32>, b: int)
    requires
        sorted_strict(s),
        forall|t: int| 0 <= t < s.len() ==> 0 <= #[trigger] s[t] < b,
        b >= 0,
    ensures
        s.len() <= b,
    decreases s.len(),
{
    if s.len() > 0 {
        let s0 = s.drop_last();
        let last = s.last();
        assert(forall|t: int| 0 <= t < s0.len() ==> #[trigger] s0[t] == s[t]);
        lemma_sorted_range_len(s0, last as int);
    }
}

/// Heights all above `y` (strictly smaller) count for nothing.
proof fn lemma_count_ge_none(lines: Seq<i32>, y: i32)
    requires
        forall|t: int| 0 <= t < lines.len() ==> #[trigger] lines[t] < y,
    ensures
        count_ge(lines, y) == 0,
    decreases lines.len(),
{
    if lines.len() > 0 {
        let l0 = lines.drop_last();
        assert(forall|t: int| 0 <= t < l0.len() ==> #[trigger] l0[t] == lines[t]);
        lemma_count_ge_none(l0, y);
    }
}

/// A surviving cell, dropped one row per cleared row below it, still lies
/// above the floor: the cleared rows below it are distinct heights strictly
/// between its own and the floor.
pub proof fn lemma_count_ge_bound(lines: Seq<i32>, y: i32, h: int)
    requires
        sorted_strict(lines),
        forall|t: int| 0 <= t < lines.len() ==> #[trigger] lines[t] < h,
        !lines.contains(y),
        y < h,
    ensures
        y + count_ge(lines, y) < h,
    decreases lines.len(),
{
    if lines.len() > 0 {
        let l0 = lines.drop_last();
        let last = lines.last();
        assert(forall|t: int| 0 <= t < l0.len() ==> #[trigger] l0[t] == lines[t]);
        assert(forall|t: int| 0 <= t < l0.len() ==> #[trigger] l0[t] < last);
        if last < y {
            lemma_count_ge_none(l0, y);
        } else {
            assert(last != y);
            assert(!l0.contains(y)) by {
                if l0.contains(y) {
                    let t = choose|t: int| 0 <= t < l0.len() && l0[t] == y;
                    assert(lines[t] == y);
                }
            }
            lemma_count_ge_bound(l0, y, last as int);
        }
    }
}

/// Compaction keeps distinct surviving rows distinct: the lower of two
/// surviving cells stays strictly lower, because the cleared rows between
/// them are too few to close the gap.
pub proof fn lemma_count_ge_inj(lines: Seq<i32>, y1: i32, y2: i32)
    requires
        sorted_strict(lines),
        !lines.contains(y1),
        y1 < y2,
    ensures
        y1 + count_ge(lines, y1) < y2 + count_ge(lines, y2),
    decreases lines.len(),
{
    if lines.len() == 0 {
    } else {
        let l0 = lines.drop_last();
        let last = lines.last();
        assert(forall|t: int| 0 <= t < l0.len() ==> #[trigger] l0[t] == lines[t]);
        assert(forall|t: int| 0 <= t < l0.len() ==> #[trigger] l0[t] < last);
        assert(!l0.contains(y1)) by {
            if l0.contains(y1) {
                let t = choose|t: int| 0 <= t < l0.len() && l0[t] == y1;
                assert(lines[t] == y1);
            }
        }
        if last >= y2 {
            lemma_count_ge_inj(l0, y1, y2);
        } else if last >= y1 {
            assert(last != y1);
            lemma_count_ge_bound(l0, y1, last as int);
            lemma_count_ge_none(l0, y2);
        } else {
            lemma_count_ge_none(l0, y1);
            lemma_count_ge_none(l0, y2);
        }
    }
}

/// Clearing keeps the board well formed: every surviving cell stays inside
/// the board, no two land on the same coordinate, and each element of the
/// result is a compacted survivor.
pub proof fn lemma_erased_props(f: Seq<ColoredPoint>, lines: Seq<i32>, w: int, h: int)
    requires
        distinct_cells(frozen_cells(f)),
        cells_in_bounds(frozen_cells(f), w, h),
        sorted_strict(lines),
        forall|t: int| 0 <= t < lines.len() ==> 0 <= #[trigger] lines[t] < h,
        h <= 0x7fffffff,
    ensures
        cells_in_bounds(frozen_cells(erased(f, lines)), w, h),
        distinct_cells(frozen_cells(erased(f, lines))),
        forall|j: int|
            0 <= j < erased(f, lines).len() ==> exists|k: int|
                0 <= k < f.len() && !lines.contains(f[k].0.y) && #[trigger] erased(f, lines)[j]
                    == shifted_cp(f[k], lines),
    decreases f.len(),
{
    if f.len() == 0 {
    } else {
        let f0 = f.drop_last();
        let e0 = erased(f0, lines);
        let e = erased(f, lines);
        assert(forall|t: int| 0 <= t < f0.len() ==> #[trigger] f0[t] == f[t]);
        assert(forall|t: int|
            0 <= t < f0.len() ==> #[trigger] frozen_cells(f0)[t] == frozen_cells(f)[t]);
        lemma_erased_props(f0, lines, w, h);
        let last = f.last();
        if !lines.contains(last.0.y) {
            let s = shifted_cp(last, lines);
            assert(e == e0 + seq![s]);
            // The newcomer stays on the board.
            assert(frozen_cells(f)[f.len() - 1] == last.0);
            assert(0 <= last.0.y < h);
            assert(0 <= last.0.x < w);
            lemma_count_ge_bound(lines, last.0.y, h);
            assert(0 <= s.0.y < h);
            assert(s.0.x == last.0.x);
            // The newcomer collides with no earlier survivor.
            assert forall|j: int| 0 <= j < e0.len() implies (#[trigger] e0[j]).0 != s.0 by {
                let k = choose|k: int|
                    0 <= k < f0.len() && !lines.contains(f0[k].0.y) && e0[j] == shifted_cp(
                        f0[k],
                        lines,
                    );
                assert(frozen_cells(f)[k] == f[k].0);
                assert(f0[k] == f[k]);
                assert(f0[k].0 != last.0);
                assert(0 <= f0[k].0.y < h && 0 <= f0[k].0.x < w);
                lemma_count_ge_bound(lines, f0[k].0.y, h);
                if f0[k].0.x == last.0.x {
                    if f0[k].0.y < last.0.y {
                        lemma_count_ge_inj(lines, f0[k].0.y, last.0.y);
                    } else {
                        lemma_count_ge_inj(lines, last.0.y, f0[k].0.y);
                    }
                }
            }
            assert forall|i: int, j: int|
                0 <= i < j < frozen_cells(e).len() implies frozen_cells(e)[i] != frozen_cells(
                e,
            )[j] by {
                assert(frozen_cells(e)[i] == e[i].0);
                assert(frozen_cells(e)[j] == e[j].0);
                if j < e0.len() {
                    assert(frozen_cells(e0)[i] == e0[i].0);
                    assert(frozen_cells(e0)[j] == e0[j].0);
                } else {
                    assert(e[j] == s);
                }
            }
            assert forall|j: int| 0 <= j < e.len() implies exists|k: int|
                0 <= k < f.len() && !lines.contains(f[k].0.y) && #[trigger] e[j] == shifted_cp(
                    f[k],
                    lines,
                ) by {
                if j < e0.len() {
                    let k = choose|k: int|
                        0 <= k < f0.len() && !lines.contains(f0[k].0.y) && e0[j] == shifted_cp(
                            f0[k],
                            lines,
                        );
                    assert(0 <= k < f.len() && !lines.contains(f[k].0.y) && e[j] == shifted_cp(
                        f[k],
                        lines,
                    ));
                } else {
                    let k = f.len() - 1;
                    assert(0 <= k < f.len() && !lines.contains(f[k].0.y) && e[j] == shifted_cp(
                        f[k],
                        lines,
                    ));
                }
            }
            assert(cells_in_bounds(frozen_cells(e), w, h)) by {
                assert forall|t: int|
                    0 <= t < frozen_cells(e).len() implies {
                    let c = #[trigger] frozen_cells(e)[t];
                    0 <= c.x < w && 0 <= c.y < h
                } by {
                    assert(frozen_cells(e)[t] == e[t].0);
                    if t < e0.len() {
                        assert(frozen_cells(e0)[t] == e0[t].0);
                    } else {
                        assert(e[t] == s);
                    }
                }
            }
        } else {
            assert(e =~= e0);
            assert(forall|t: int|
                0 <= t < e0.len() ==> #[trigger] frozen_cells(e)[t] == frozen_cells(e0)[t]);
            assert forall|j: int| 0 <= j < e.len() implies exists|k: int|
                0 <= k < f.len() && !lines.contains(f[k].0.y) && #[trigger] e[j] == shifted_cp(
                    f[k],
                    lines,
                ) by {
                let k = choose|k: int|
                    0 <= k < f0.len() && !lines.contains(f0[k].0.y) && e0[j] == shifted_cp(
                        f0[k],
                        lines,
                    );
                assert(0 <= k < f.len() && !lines.contains(f[k].0.y) && e[j] == shifted_cp(
                    f[k],
                    lines,
                ));
            }
            assert(cells_in_bounds(frozen_cells(e), w, h));
            assert(distinct_cells(frozen_cells(e)));
        }
    }
}

} // verus!
