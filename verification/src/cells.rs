//! The mathematical model behind the area computations.
//!
//! A rectangle is read as the set of unit grid cells it covers: cell `(x, y)`
//! is the unit square with corners `(x, y)` and `(x + 1, y + 1)`, and a
//! rectangle covers the cells whose `x` lies in `[left, right)` and whose `y`
//! lies in `[top, bottom)`. Areas are cardinalities of such cell sets.

use vstd::prelude::*;
use vstd::set_lib::{
    lemma_int_range, lemma_len_subset, lemma_len_union, lemma_set_disjoint_lens,
    lemma_set_empty_equivalency_len, set_int_range,
};

verus! {

use crate::rect::{overlap_spec, Rect};

/// Rectangle `r` covers the grid cell `(x, y)`.
pub open spec fn rect_covers(r: Rect, x: int, y: int) -> bool {
    r.spec_left() <= x < r.spec_right() && r.spec_top() <= y < r.spec_bottom()
}

/// The set of grid cells covered by rectangle `r`.
pub open spec fn rect_cells(r: Rect) -> Set<(int, int)> {
    Set::new(|p: (int, int)| rect_covers(r, p.0, p.1))
}

/// Some rectangle of the sequence covers the cell `(x, y)`.
pub open spec fn seq_covers(rects: Seq<Rect>, x: int, y: int) -> bool {
    exists|i: int| 0 <= i < rects.len() && rect_covers(rects[i], x, y)
}

/// The union of the cell sets of all rectangles of the sequence.
pub open spec fn covered_cells(rects: Seq<Rect>) -> Set<(int, int)> {
    Set::new(|p: (int, int)| seq_covers(rects, p.0, p.1))
}

/// The covered cells whose column lies strictly left of `xb`.
pub open spec fn cells_before(rects: Seq<Rect>, xb: int) -> Set<(int, int)> {
    Set::new(|p: (int, int)| seq_covers(rects, p.0, p.1) && p.0 < xb)
}

/// Two rectangles at distinct indices both cover the cell `(x, y)`.
pub open spec fn multi_covers(rects: Seq<Rect>, x: int, y: int) -> bool {
    exists|i: int, j: int|
        0 <= i < rects.len() && 0 <= j < rects.len() && i != j && rect_covers(rects[i], x, y)
            && rect_covers(rects[j], x, y)
}

/// The cells covered by at least two rectangles of the sequence.
pub open spec fn multi_cells(rects: Seq<Rect>) -> Set<(int, int)> {
    Set::new(|p: (int, int)| multi_covers(rects, p.0, p.1))
}

/// Every rectangle of the sequence is well-formed.
pub open spec fn all_wf(rects: Seq<Rect>) -> bool {
    forall|i: int| 0 <= i < rects.len() ==> (#[trigger] rects[i]).wf()
}

/// The sum of the nominal areas `width * height` of the rectangles.
pub open spec fn sum_areas(rects: Seq<Rect>) -> int
    decreases rects.len(),
{
    if rects.len() == 0 {
        0
    } else {
        sum_areas(rects.drop_last()) + rects.last().size.width * rects.last().size.height
    }
}

/// The sum, over the first `n` rectangles, of the number of their cells that
/// are covered by at least one other rectangle of the sequence.
pub open spec fn obscured_sum(rects: Seq<Rect>, n: int) -> int
    decreases n,
{
    if n <= 0 {
        0
    } else {
        obscured_sum(rects, n - 1) + rect_cells(rects[n - 1]).intersect(multi_cells(rects)).len()
    }
}

/// The sum of `|cells(rects[i]) ∩ cells(rects[j])|` over `j < n`, `j != i`.
pub open spec fn pair_row_sum(rects: Seq<Rect>, i: int, n: int) -> int
    decreases n,
{
    if n <= 0 {
        0
    } else {
        pair_row_sum(rects, i, n - 1) + if n - 1 != i {
            rect_cells(rects[i]).intersect(rect_cells(rects[n - 1])).len() as int
        } else {
            0
        }
    }
}

/// The sum of `|cells(rects[i]) ∩ cells(rects[j])|` over all ordered pairs
/// `i < n`, `j < rects.len()`, `i != j`.
pub open spec fn pair_sum(rects: Seq<Rect>, n: int) -> int
    decreases n,
{
    if n <= 0 {
        0
    } else {
        pair_sum(rects, n - 1) + pair_row_sum(rects, n - 1, rects.len() as int)
    }
}

/// The cells `(x, y)` with `a <= x < b` and `y` in `ys`.
pub open spec fn prod_set(a: int, b: int, ys: Set<int>) -> Set<(int, int)> {
    Set::new(|p: (int, int)| a <= p.0 < b && ys.contains(p.1))
}

/// The cells `(x, y)` with `a <= x < b`, for one fixed `y`.
pub open spec fn row_set(a: int, b: int, y: int) -> Set<(int, int)> {
    Set::new(|p: (int, int)| a <= p.0 < b && p.1 == y)
}

/// A row of `b - a` cells has exactly `b - a` elements.
proof fn lemma_row_len(a: int, b: int, y: int)
    requires
        a <= b,
    ensures
        row_set(a, b, y).finite(),
        row_set(a, b, y).len() == b - a,
    decreases b - a,
{
    if a == b {
        assert(row_set(a, b, y) =~= Set::empty());
    } else {
        lemma_row_len(a, b - 1, y);
        assert(row_set(a, b, y) =~= row_set(a, b - 1, y).insert((b - 1, y)));
    }
}

/// A product of a width-`b - a` column range with a finite set of rows has
/// `(b - a) * |ys|` cells.
pub proof fn lemma_prod_len(a: int, b: int, ys: Set<int>)
    requires
        a <= b,
        ys.finite(),
    ensures
        prod_set(a, b, ys).finite(),
        prod_set(a, b, ys).len() == (b - a) * ys.len(),
    decreases ys.len(),
{
    lemma_set_empty_equivalency_len(ys);
    if ys.len() == 0 {
        assert(prod_set(a, b, ys) =~= Set::empty());
        assert((b - a) * 0 == 0) by (nonlinear_arith);
    } else {
        let y = ys.choose();
        assert(ys.contains(y));
        let rest = ys.remove(y);
        lemma_prod_len(a, b, rest);
        lemma_row_len(a, b, y);
        assert(prod_set(a, b, ys) =~= prod_set(a, b, rest) + row_set(a, b, y));
        assert(prod_set(a, b, rest).disjoint(row_set(a, b, y)));
        lemma_set_disjoint_lens(prod_set(a, b, rest), row_set(a, b, y));
        assert((b - a) * (ys.len() - 1) + (b - a) == (b - a) * ys.len()) by (nonlinear_arith);
    }
}

/// The cell set of a well-formed rectangle is finite and has exactly
/// `width * height` cells.
pub proof fn lemma_rect_cells(r: Rect)
    requires
        r.size.wf(),
    ensures
        rect_cells(r).finite(),
        rect_cells(r).len() == r.size.width * r.size.height,
{
    let ys = set_int_range(r.spec_top(), r.spec_bottom());
    lemma_int_range(r.spec_top(), r.spec_bottom());
    lemma_prod_len(r.spec_left(), r.spec_right(), ys);
    assert(rect_cells(r) =~= prod_set(r.spec_left(), r.spec_right(), ys));
}

/// The union of the cell sets of well-formed rectangles is finite and no
/// larger than the sum of their nominal areas.
pub proof fn lemma_covered_le_sum(rects: Seq<Rect>)
    requires
        all_wf(rects),
    ensures
        covered_cells(rects).finite(),
        covered_cells(rects).len() <= sum_areas(rects),
        sum_areas(rects) >= 0,
    decreases rects.len(),
{
    broadcast use vstd::set::group_set_axioms;

    if rects.len() == 0 {
        assert(covered_cells(rects) =~= Set::empty());
    } else {
        let pre = rects.drop_last();
        let lr = rects.last();
        assert(all_wf(pre)) by {
            assert(forall|i: int| 0 <= i < pre.len() ==> pre[i] == rects[i]);
        }
        lemma_covered_le_sum(pre);
        assert(rects[rects.len() - 1].wf());
        lemma_rect_cells(lr);
        assert(covered_cells(rects) =~= covered_cells(pre).union(rect_cells(lr))) by {
            assert forall|p: (int, int)| covered_cells(rects).contains(p) implies covered_cells(
                pre,
            ).union(rect_cells(lr)).contains(p) by {
                let i = choose|i: int| 0 <= i < rects.len() && rect_covers(rects[i], p.0, p.1);
                if i < rects.len() - 1 {
                    assert(pre[i] == rects[i]);
                    assert(seq_covers(pre, p.0, p.1));
                }
            }
            assert forall|p: (int, int)|
                covered_cells(pre).union(rect_cells(lr)).contains(p) implies covered_cells(
                rects,
            ).contains(p) by {
                if covered_cells(pre).contains(p) {
                    let i = choose|i: int| 0 <= i < pre.len() && rect_covers(pre[i], p.0, p.1);
                    assert(rects[i] == pre[i]);
                    assert(rect_covers(rects[i], p.0, p.1));
                } else {
                    assert(rect_covers(rects[rects.len() - 1], p.0, p.1));
                }
            }
        }
        lemma_len_union(covered_cells(pre), rect_cells(lr));
    }
}

/// The cells left of any bound form a finite subset of the covered cells,
/// still bounded by the sum of the areas.
pub proof fn lemma_cells_before_le(rects: Seq<Rect>, xb: int)
    requires
        all_wf(rects),
    ensures
        cells_before(rects, xb).finite(),
        cells_before(rects, xb).len() <= sum_areas(rects),
        cells_before(rects, xb).subset_of(covered_cells(rects)),
{
    lemma_covered_le_sum(rects);
    assert(cells_before(rects, xb).subset_of(covered_cells(rects)));
    lemma_len_subset(cells_before(rects, xb), covered_cells(rects));
}

/// The doubly-covered cells form a finite subset of the covered cells.
pub proof fn lemma_multi_finite(rects: Seq<Rect>)
    requires
        all_wf(rects),
    ensures
        multi_cells(rects).finite(),
        multi_cells(rects).subset_of(covered_cells(rects)),
{
    lemma_covered_le_sum(rects);
    assert forall|p: (int, int)| multi_cells(rects).contains(p) implies covered_cells(
        rects,
    ).contains(p) by {
        let (i, j) = choose|i: int, j: int|
            0 <= i < rects.len() && 0 <= j < rects.len() && i != j && rect_covers(
                rects[i],
                p.0,
                p.1,
            ) && rect_covers(rects[j], p.0, p.1);
        assert(rect_covers(rects[i], p.0, p.1));
    }
    lemma_len_subset(multi_cells(rects), covered_cells(rects));
}

/// The overlap of two well-formed rectangles is exactly the intersection of
/// their cell sets: `Some` gives the rectangle of the common cells, `None`
/// means there are none.
pub proof fn lemma_overlap_cells(a: Rect, b: Rect)
    requires
        a.wf(),
        b.wf(),
    ensures
        (overlap_spec(a, b) matches Some(o) ==> o.wf() && rect_cells(o) == rect_cells(a).intersect(
            rect_cells(b),
        )),
        overlap_spec(a, b) is None ==> rect_cells(a).intersect(rect_cells(b)) == Set::<
            (int, int),
        >::empty(),
{
    if overlap_spec(a, b) is Some {
        let o = overlap_spec(a, b)->Some_0;
        assert(rect_cells(o) =~= rect_cells(a).intersect(rect_cells(b)));
    } else {
        assert(rect_cells(a).intersect(rect_cells(b)) =~= Set::<(int, int)>::empty());
    }
}

} // verus!
