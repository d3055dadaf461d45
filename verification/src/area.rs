//! The area engine: exact union area of a rectangle set by coordinate
//! compression, and the doubly-covered ("obscured") area built on top of it.

use vstd::prelude::*;
use vstd::set_lib::{
    lemma_int_range, lemma_len_subset, lemma_set_disjoint_lens, lemma_set_empty_equivalency_len,
    set_int_range,
};

verus! {

use crate::cells::{
    all_wf, cells_before, covered_cells, lemma_cells_before_le, lemma_covered_le_sum,
    lemma_multi_finite, lemma_overlap_cells, lemma_prod_len, lemma_rect_cells, multi_cells,
    multi_covers, obscured_sum, pair_row_sum, pair_sum, prod_set, rect_cells, rect_covers,
    seq_covers, sum_areas,
};
use crate::rect::{overlap_spec, Rect};

broadcast use vstd::seq_lib::lemma_seq_contains_after_push;

/// The vertical extent of a rectangle within one strip: the half-open
/// interval `[top, bottom)`.
#[derive(Clone, Copy, PartialEq, Eq, Structural)]
struct Span {
    top: usize,
    bottom: usize,
}

/// The vertical extent of rectangle `r`.
spec fn span_of(r: Rect) -> Span {
    Span { top: r.pos.y, bottom: (r.pos.y + r.size.height) as usize }
}

/// Rectangle `r` spans the whole strip `[xl, xr)`.
spec fn spans_strip(r: Rect, xl: int, xr: int) -> bool {
    r.spec_left() <= xl && xr <= r.spec_right()
}

/// The union of the intervals `[top, bottom)` of the spans.
spec fn ycover(ivs: Seq<Span>) -> Set<int> {
    Set::new(
        |y: int|
            exists|k: int| 0 <= k < ivs.len() && (#[trigger] ivs[k]).top <= y < ivs[k].bottom,
    )
}

spec fn sorted_by_top(ivs: Seq<Span>) -> bool {
    forall|i: int, j: int| 0 <= i < j < ivs.len() ==> ivs[i].top <= ivs[j].top
}

spec fn spans_wf(ivs: Seq<Span>) -> bool {
    forall|s: Span| ivs.contains(s) ==> s.top < s.bottom
}

/// `cs` is sorted with no duplicates.
spec fn strictly_sorted(cs: Seq<usize>) -> bool {
    forall|i: int, j: int| 0 <= i < j < cs.len() ==> cs[i] < cs[j]
}

/// Value `v` occurs in the cut list.
spec fn has_cut(cs: Seq<usize>, v: int) -> bool {
    exists|k: int| 0 <= k < cs.len() && cs[k] == v
}

/// Insert a cut line, keeping the list sorted and duplicate-free.
fn insert_cut(cuts: &mut Vec<usize>, v: usize)
    requires
        strictly_sorted(old(cuts)@),
    ensures
        strictly_sorted(final(cuts)@),
        forall|w: int| has_cut(final(cuts)@, w) <==> has_cut(old(cuts)@, w) || w == v,
{
    let ghost orig = cuts@;
    let mut k: usize = 0;
    while k < cuts.len() && cuts[k] < v
        invariant
            cuts@ == orig,
            strictly_sorted(orig),
            0 <= k <= orig.len(),
            forall|m: int| 0 <= m < k ==> orig[m] < v,
        decreases orig.len() - k,
    {
        k = k + 1;
    }
    if k < cuts.len() && cuts[k] == v {
        proof {
            assert(has_cut(orig, v as int));
        }
        return ;
    }
    proof {
        orig.insert_ensures(k as int, v);
    }
    cuts.insert(k, v);
    proof {
        let news = cuts@;
        assert(news == orig.insert(k as int, v));
        // sortedness: everything before slot k is below v, everything at or
        // after it is above v
        assert(forall|m: int| k <= m < orig.len() ==> v < orig[m]) by {
            if k < orig.len() {
                assert(v <= orig[k as int]);
                assert(v != orig[k as int]);
                assert(forall|m: int|
                    k < m < orig.len() ==> orig[k as int] < orig[m]);
            }
        }
        assert forall|i: int, j: int| 0 <= i < j < news.len() implies news[i] < news[j] by {
            if j < k {
                assert(news[i] == orig[i] && news[j] == orig[j]);
            } else if i < k && j == k {
                assert(news[i] == orig[i] && news[j] == v);
            } else if i < k && j > k {
                assert(news[i] == orig[i] && news[j] == orig[j - 1]);
            } else if i == k {
                assert(news[i] == v && news[j] == orig[j - 1]);
            } else {
                assert(news[i] == orig[i - 1] && news[j] == orig[j - 1]);
            }
        }
        // membership
        assert forall|w: int| has_cut(news, w) implies has_cut(orig, w) || w == v by {
            let m = choose|m: int| 0 <= m < news.len() && news[m] == w;
            if m < k {
                assert(orig[m] == w);
            } else if m > k {
                assert(orig[m - 1] == w);
            }
        }
        assert forall|w: int| has_cut(orig, w) || w == v implies has_cut(news, w) by {
            if w == v {
                assert(news[k as int] == v);
            } else {
                let m = choose|m: int| 0 <= m < orig.len() && orig[m] == w;
                if m < k {
                    assert(news[m] == w);
                } else {
                    assert(news[m + 1] == w);
                }
            }
        }
    }
}

/// Insert a span, keeping the list sorted by top edge.
fn insert_span(ivs: &mut Vec<Span>, sp: Span)
    requires
        sorted_by_top(old(ivs)@),
    ensures
        sorted_by_top(final(ivs)@),
        forall|s: Span| final(ivs)@.contains(s) <==> old(ivs)@.contains(s) || s == sp,
{
    let ghost orig = ivs@;
    let mut k: usize = 0;
    while k < ivs.len() && ivs[k].top < sp.top
        invariant
            ivs@ == orig,
            sorted_by_top(orig),
            0 <= k <= orig.len(),
            forall|m: int| 0 <= m < k ==> orig[m].top < sp.top,
        decreases orig.len() - k,
    {
        k = k + 1;
    }
    proof {
        orig.insert_ensures(k as int, sp);
    }
    ivs.insert(k, sp);
    proof {
        let news = ivs@;
        assert(news == orig.insert(k as int, sp));
        assert(forall|m: int| k <= m < orig.len() ==> sp.top <= (#[trigger] orig[m]).top) by {
            if k < orig.len() {
                assert(sp.top <= orig[k as int].top);
                assert(forall|m: int|
                    k < m < orig.len() ==> orig[k as int].top <= (#[trigger] orig[m]).top);
            }
        }
        assert forall|i: int, j: int| 0 <= i < j < news.len() implies news[i].top <= news[j].top by {
            if j < k {
                assert(news[i] == orig[i] && news[j] == orig[j]);
            } else if i < k && j == k {
                assert(news[i] == orig[i] && news[j] == sp);
            } else if i < k && j > k {
                assert(news[i] == orig[i] && news[j] == orig[j - 1]);
            } else if i == k {
                assert(news[i] == sp && news[j] == orig[j - 1]);
            } else {
                assert(news[i] == orig[i - 1] && news[j] == orig[j - 1]);
            }
        }
        assert forall|s: Span| news.contains(s) implies orig.contains(s) || s == sp by {
            let m = choose|m: int| 0 <= m < news.len() && news[m] == s;
            if m < k {
                assert(orig[m] == s);
            } else if m > k {
                assert(orig[m - 1] == s);
            }
        }
        assert forall|s: Span| orig.contains(s) || s == sp implies news.contains(s) by {
            if s == sp {
                assert(news[k as int] == sp);
            } else {
                let m = choose|m: int| 0 <= m < orig.len() && orig[m] == s;
                if m < k {
                    assert(news[m] == s);
                } else {
                    assert(news[m + 1] == s);
                }
            }
        }
    }
}

/// The exact number of integers covered by a union of half-open intervals,
/// given sorted by lower endpoint: a 1-D sweep that counts only the new
/// coverage each interval contributes.
fn interval_union_len(ivs: &Vec<Span>) -> (r: usize)
    requires
        sorted_by_top(ivs@),
        spans_wf(ivs@),
    ensures
        ycover(ivs@).finite(),
        r == ycover(ivs@).len(),
{
    let mut acc: usize = 0;
    let mut last_y: usize = 0;
    let mut k: usize = 0;
    proof {
        assert(ycover(ivs@.take(0)) =~= Set::<int>::empty());
    }
    while k < ivs.len()
        invariant
            sorted_by_top(ivs@),
            spans_wf(ivs@),
            0 <= k <= ivs@.len(),
            ycover(ivs@.take(k as int)).finite(),
            acc == ycover(ivs@.take(k as int)).len(),
            forall|m: int| 0 <= m < k ==> (#[trigger] ivs@[m]).bottom <= last_y,
            k == 0 ==> last_y == 0,
            k > 0 ==> exists|m: int| 0 <= m < k && ivs@[m].bottom == last_y,
            acc <= last_y,
        decreases ivs@.len() - k,
    {
        let t = ivs[k].top;
        let b = ivs[k].bottom;
        let lo = if last_y > t {
            last_y
        } else {
            t
        };
        proof {
            let pre = ivs@.take(k as int);
            let post = ivs@.take(k as int + 1);
            assert(ivs@[k as int].top == t && ivs@[k as int].bottom == b);
            assert(ivs@.contains(ivs@[k as int]));
            assert(t < b);
            // the prefix coverage sits entirely below last_y
            assert(ycover(pre).subset_of(set_int_range(0, last_y as int))) by {
                assert forall|y: int| ycover(pre).contains(y) implies set_int_range(
                    0,
                    last_y as int,
                ).contains(y) by {
                    let m = choose|m: int| 0 <= m < pre.len() && (#[trigger] pre[m]).top <= y < pre[m].bottom;
                    assert(pre[m] == ivs@[m]);
                    assert(ivs@[m].bottom <= last_y);
                }
            }
            // adding interval k extends the coverage by [t, b)
            assert(ycover(post) =~= ycover(pre).union(set_int_range(t as int, b as int))) by {
                assert forall|y: int| ycover(post).contains(y) implies ycover(pre).union(
                    set_int_range(t as int, b as int),
                ).contains(y) by {
                    let m = choose|m: int| 0 <= m < post.len() && (#[trigger] post[m]).top <= y < post[m].bottom;
                    assert(post[m] == ivs@[m]);
                    if m < k {
                        assert(pre[m] == ivs@[m]);
                        assert(ycover(pre).contains(y));
                    }
                }
                assert forall|y: int|
                    ycover(pre).union(set_int_range(t as int, b as int)).contains(
                        y,
                    ) implies ycover(post).contains(y) by {
                    if ycover(pre).contains(y) {
                        let m = choose|m: int|
                            0 <= m < pre.len() && (#[trigger] pre[m]).top <= y < pre[m].bottom;
                        assert(post[m] == ivs@[m] && pre[m] == ivs@[m]);
                        assert(post[m].top <= y < post[m].bottom);
                    } else {
                        assert(post[k as int] == ivs@[k as int]);
                        assert(post[k as int].top <= y < post[k as int].bottom);
                    }
                }
            }
            if b > lo {
                // the genuinely new part is [lo, b); anything in [t, lo) was
                // already covered by the interval that reached last_y
                assert(ycover(pre).union(set_int_range(t as int, b as int)) =~= ycover(pre).union(
                    set_int_range(lo as int, b as int),
                )) by {
                    assert forall|y: int|
                        set_int_range(t as int, b as int).contains(y) && !set_int_range(
                            lo as int,
                            b as int,
                        ).contains(y) implies ycover(pre).contains(y) by {
                        assert(t <= y < lo);
                        assert(lo == last_y && last_y > t);
                        assert(k > 0);
                        let m = choose|m: int| 0 <= m < k && ivs@[m].bottom == last_y;
                        assert(ivs@[m].top <= ivs@[k as int].top);
                        assert(pre[m] == ivs@[m]);
                        assert(pre[m].top <= y < pre[m].bottom);
                    }
                }
                assert(ycover(pre).disjoint(set_int_range(lo as int, b as int)));
                lemma_int_range(lo as int, b as int);
                lemma_set_disjoint_lens(ycover(pre), set_int_range(lo as int, b as int));
                assert(ycover(post).finite());
                assert(ycover(post).len() == acc + (b - lo));
                // the new total is still bounded by the new frontier b
                assert(ycover(post).subset_of(set_int_range(0, b as int))) by {
                    assert forall|y: int| ycover(post).contains(y) implies set_int_range(
                        0,
                        b as int,
                    ).contains(y) by {
                        let m = choose|m: int|
                            0 <= m < post.len() && (#[trigger] post[m]).top <= y
                                < post[m].bottom;
                        assert(post[m] == ivs@[m]);
                        if m < k {
                            assert(ivs@[m].bottom <= last_y);
                        }
                    }
                }
                lemma_int_range(0, b as int);
                lemma_len_subset(ycover(post), set_int_range(0, b as int));
            } else {
                // interval k adds nothing: [t, b) is inside the old coverage
                assert(lo == last_y && last_y >= b);
                assert(set_int_range(t as int, b as int).subset_of(ycover(pre))) by {
                    assert forall|y: int| set_int_range(t as int, b as int).contains(
                        y,
                    ) implies ycover(pre).contains(y) by {
                        assert(last_y > t);
                        assert(k > 0);
                        let m = choose|m: int| 0 <= m < k && ivs@[m].bottom == last_y;
                        assert(ivs@[m].top <= ivs@[k as int].top);
                        assert(pre[m] == ivs@[m]);
                        assert(pre[m].top <= y < pre[m].bottom);
                    }
                }
                assert(ycover(post) =~= ycover(pre));
            }
        }
        if b > lo {
            acc = acc + (b - lo);
            last_y = b;
        }
        k = k + 1;
    }
    proof {
        assert(ivs@.take(ivs@.len() as int) =~= ivs@);
    }
    acc
}

/// A cut value below the right edge of a strip is at most its left edge.
proof fn lemma_cut_below(cs: Seq<usize>, j: int, c: int)
    requires
        strictly_sorted(cs),
        0 <= j,
        j + 1 < cs.len(),
        has_cut(cs, c),
        c < cs[j + 1],
    ensures
        c <= cs[j],
{
    let k = choose|k: int| 0 <= k < cs.len() && cs[k] == c;
    if k >= j + 1 {
        assert(cs[j + 1] <= cs[k]);
    } else if k < j {
        assert(cs[k] < cs[j]);
    }
}

/// A cut value above the left edge of a strip is at least its right edge.
proof fn lemma_cut_above(cs: Seq<usize>, j: int, c: int)
    requires
        strictly_sorted(cs),
        0 <= j,
        j + 1 < cs.len(),
        has_cut(cs, c),
        c > cs[j],
    ensures
        c >= cs[j + 1],
{
    let k = choose|k: int| 0 <= k < cs.len() && cs[k] == c;
    if k <= j {
        assert(cs[k] <= cs[j]);
    } else if k > j + 1 {
        assert(cs[j + 1] < cs[k]);
    }
}

/// The heart of the coordinate-compression argument: between two consecutive
/// cut lines, a rectangle either covers a full-width slice of the strip or
/// none of it, so the covered cells of the strip are exactly the product of
/// the strip's columns with the union of the spanning rectangles' vertical
/// intervals.
proof fn lemma_strip(rects: Seq<Rect>, cs: Seq<usize>, j: int, ivs: Seq<Span>)
    requires
        all_wf(rects),
        strictly_sorted(cs),
        0 <= j,
        j + 1 < cs.len(),
        forall|i: int|
            0 <= i < rects.len() ==> has_cut(cs, (#[trigger] rects[i]).spec_left()) && has_cut(
                cs,
                rects[i].spec_right(),
            ),
        forall|s: Span|
            ivs.contains(s) <==> exists|i: int|
                0 <= i < rects.len() && spans_strip(#[trigger] rects[i], cs[j] as int, cs[j + 1] as int)
                    && s == span_of(rects[i]),
    ensures
        cells_before(rects, cs[j + 1] as int) == cells_before(rects, cs[j] as int).union(
            prod_set(cs[j] as int, cs[j + 1] as int, ycover(ivs)),
        ),
        cells_before(rects, cs[j] as int).disjoint(
            prod_set(cs[j] as int, cs[j + 1] as int, ycover(ivs)),
        ),
{
    let xl = cs[j] as int;
    let xr = cs[j + 1] as int;
    assert(xl < xr);
    let left_part = cells_before(rects, xl);
    let strip = prod_set(xl, xr, ycover(ivs));
    assert forall|p: (int, int)| cells_before(rects, xr).contains(p) implies left_part.union(
        strip,
    ).contains(p) by {
        if p.0 >= xl {
            let i = choose|i: int| 0 <= i < rects.len() && rect_covers(rects[i], p.0, p.1);
            let r = rects[i];
            assert(r.wf());
            lemma_cut_below(cs, j, r.spec_left());
            lemma_cut_above(cs, j, r.spec_right());
            assert(spans_strip(r, xl, xr));
            let s = span_of(r);
            assert(ivs.contains(s));
            let k = choose|k: int| 0 <= k < ivs.len() && ivs[k] == s;
            assert((#[trigger] ivs[k]).top <= p.1 < ivs[k].bottom);
            assert(ycover(ivs).contains(p.1));
        }
    }
    assert forall|p: (int, int)| left_part.union(strip).contains(p) implies cells_before(
        rects,
        xr,
    ).contains(p) by {
        if left_part.contains(p) {
        } else {
            assert(strip.contains(p));
            let k = choose|k: int|
                0 <= k < ivs.len() && (#[trigger] ivs[k]).top <= p.1 < ivs[k].bottom;
            assert(ivs.contains(ivs[k]));
            let s = ivs[k];
            let i = choose|i: int|
                0 <= i < rects.len() && spans_strip(#[trigger] rects[i], cs[j] as int, cs[j + 1] as int)
                    && s == span_of(rects[i]);
            let r = rects[i];
            assert(r.wf());
            assert(rect_covers(r, p.0, p.1));
            assert(seq_covers(rects, p.0, p.1));
        }
    }
    assert(cells_before(rects, xr) =~= left_part.union(strip));
}

/// No covered cell lies left of the first cut line.
proof fn lemma_before_first(rects: Seq<Rect>, cs: Seq<usize>)
    requires
        strictly_sorted(cs),
        cs.len() > 0,
        forall|i: int|
            0 <= i < rects.len() ==> has_cut(cs, (#[trigger] rects[i]).spec_left()) && has_cut(
                cs,
                rects[i].spec_right(),
            ),
    ensures
        cells_before(rects, cs[0] as int) == Set::<(int, int)>::empty(),
{
    assert forall|p: (int, int)| !cells_before(rects, cs[0] as int).contains(p) by {
        if seq_covers(rects, p.0, p.1) && p.0 < cs[0] {
            let i = choose|i: int| 0 <= i < rects.len() && rect_covers(rects[i], p.0, p.1);
            let k = choose|k: int| 0 <= k < cs.len() && cs[k] == rects[i].spec_left();
            if k > 0 {
                assert(cs[0] < cs[k]);
            }
            assert(cs[0] <= rects[i].spec_left());
        }
    }
    assert(cells_before(rects, cs[0] as int) =~= Set::<(int, int)>::empty());
}

/// Every covered cell lies left of the last cut line.
proof fn lemma_after_last(rects: Seq<Rect>, cs: Seq<usize>)
    requires
        strictly_sorted(cs),
        cs.len() > 0,
        forall|i: int|
            0 <= i < rects.len() ==> has_cut(cs, (#[trigger] rects[i]).spec_left()) && has_cut(
                cs,
                rects[i].spec_right(),
            ),
    ensures
        cells_before(rects, cs[cs.len() - 1] as int) == covered_cells(rects),
{
    assert forall|p: (int, int)| covered_cells(rects).contains(p) implies cells_before(
        rects,
        cs[cs.len() - 1] as int,
    ).contains(p) by {
        let i = choose|i: int| 0 <= i < rects.len() && rect_covers(rects[i], p.0, p.1);
        let k = choose|k: int| 0 <= k < cs.len() && cs[k] == rects[i].spec_right();
        if k < cs.len() - 1 {
            assert(cs[k] < cs[cs.len() - 1]);
        }
        assert(rects[i].spec_right() <= cs[cs.len() - 1]);
    }
    assert(cells_before(rects, cs[cs.len() - 1] as int) =~= covered_cells(rects));
}

/// The exact area of the union of a set of rectangles: the number of grid
/// cells covered by at least one of them. Computed by a coordinate-compression
/// sweep: the plane is cut into vertical strips at every rectangle edge, and
/// within each strip the covered height is a 1-D interval union.
pub fn covered_area(rects: &[Rect]) -> (r: usize)
    requires
        all_wf(rects@),
        sum_areas(rects@) <= usize::MAX,
    ensures
        covered_cells(rects@).finite(),
        r == covered_cells(rects@).len(),
        rects@.len() > 0 ==> r > 0,
{
    let mut cuts: Vec<usize> = Vec::new();
    let mut i: usize = 0;
    while i < rects.len()
        invariant
            all_wf(rects@),
            0 <= i <= rects@.len(),
            strictly_sorted(cuts@),
            forall|m: int|
                0 <= m < i ==> has_cut(cuts@, (#[trigger] rects@[m]).spec_left()) && has_cut(
                    cuts@,
                    rects@[m].spec_right(),
                ),
        decreases rects@.len() - i,
    {
        let r = rects[i];
        assert(r.wf());
        insert_cut(&mut cuts, r.left());
        insert_cut(&mut cuts, r.right());
        i = i + 1;
    }
    if cuts.len() == 0 {
        proof {
            if rects@.len() > 0 {
                assert(has_cut(cuts@, rects@[0].spec_left()));
                let k = choose|k: int| 0 <= k < cuts@.len() && cuts@[k] == rects@[0].spec_left();
                assert(false);
            }
            assert(covered_cells(rects@) =~= Set::<(int, int)>::empty());
        }
        return 0;
    }
    let mut acc: usize = 0;
    let mut j: usize = 0;
    let last = cuts.len() - 1;
    proof {
        lemma_before_first(rects@, cuts@);
    }
    while j < last
        invariant
            all_wf(rects@),
            sum_areas(rects@) <= usize::MAX,
            strictly_sorted(cuts@),
            forall|m: int|
                0 <= m < rects@.len() ==> has_cut(cuts@, (#[trigger] rects@[m]).spec_left())
                    && has_cut(cuts@, rects@[m].spec_right()),
            last == cuts@.len() - 1,
            0 <= j < cuts@.len(),
            cells_before(rects@, cuts@[j as int] as int).finite(),
            acc == cells_before(rects@, cuts@[j as int] as int).len(),
        decreases cuts@.len() - j,
    {
        let xl = cuts[j];
        let xr = cuts[j + 1];
        let mut ivs: Vec<Span> = Vec::new();
        let mut i: usize = 0;
        while i < rects.len()
            invariant
                all_wf(rects@),
                0 <= i <= rects@.len(),
                xl == cuts@[j as int],
                xr == cuts@[j as int + 1],
                0 <= j,
                j + 1 < cuts@.len(),
                sorted_by_top(ivs@),
                spans_wf(ivs@),
                forall|s: Span|
                    ivs@.contains(s) <==> exists|m: int|
                        0 <= m < i && spans_strip(#[trigger] rects@[m], xl as int, xr as int) && s
                            == span_of(rects@[m]),
            decreases rects@.len() - i,
        {
            let r = rects[i];
            assert(r.wf());
            if r.left() <= xl && xr <= r.right() {
                let sp = Span { top: r.top(), bottom: r.bottom() };
                proof {
                    assert(sp == span_of(rects@[i as int]));
                    assert(sp.top < sp.bottom);
                }
                insert_span(&mut ivs, sp);
            }
            i = i + 1;
        }
        let ylen = interval_union_len(&ivs);
        proof {
            assert(cuts@[j as int] < cuts@[j as int + 1]);
            lemma_strip(rects@, cuts@, j as int, ivs@);
            lemma_prod_len(xl as int, xr as int, ycover(ivs@));
            lemma_set_disjoint_lens(
                cells_before(rects@, xl as int),
                prod_set(xl as int, xr as int, ycover(ivs@)),
            );
            lemma_cells_before_le(rects@, cuts@[j as int + 1] as int);
            assert(cells_before(rects@, cuts@[j as int + 1] as int).len() == acc + (xr - xl)
                * ylen);
        }
        acc = acc + (xr - xl) * ylen;
        j = j + 1;
    }
    proof {
        lemma_after_last(rects@, cuts@);
        if rects@.len() > 0 {
            let r0 = rects@[0];
            assert(r0.wf());
            assert(rect_covers(r0, r0.spec_left(), r0.spec_top()));
            assert(seq_covers(rects@, r0.spec_left(), r0.spec_top()));
            assert(covered_cells(rects@).contains((r0.spec_left(), r0.spec_top())));
            lemma_set_empty_equivalency_len(covered_cells(rects@));
        }
    }
    acc
}

/// The doubly-covered cells that some rectangle with index below `n` covers.
spec fn multi_before(rects: Seq<Rect>, n: int) -> Set<(int, int)> {
    Set::new(
        |p: (int, int)|
            multi_covers(rects, p.0, p.1) && exists|i: int|
                0 <= i < n && rect_covers(#[trigger] rects[i], p.0, p.1),
    )
}

proof fn lemma_pair_row_sum_mono(rects: Seq<Rect>, i: int, n1: int, n2: int)
    requires
        n1 <= n2,
    ensures
        pair_row_sum(rects, i, n1) <= pair_row_sum(rects, i, n2),
    decreases n2 - n1,
{
    if n1 < n2 {
        lemma_pair_row_sum_mono(rects, i, n1, n2 - 1);
    }
}

proof fn lemma_pair_sum_mono(rects: Seq<Rect>, n1: int, n2: int)
    requires
        n1 <= n2,
    ensures
        pair_sum(rects, n1) <= pair_sum(rects, n2),
    decreases n2 - n1,
{
    if n1 < n2 {
        lemma_pair_sum_mono(rects, n1, n2 - 1);
        lemma_pair_row_sum_mono(rects, n2 - 1, 0, rects.len() as int);
    }
}

/// Each prefix of the per-rectangle sums covers the doubly-covered cells seen
/// so far: the sum dominates the cardinality of their union.
proof fn lemma_obscured_sum_ge(rects: Seq<Rect>, n: int)
    requires
        all_wf(rects),
        0 <= n <= rects.len(),
    ensures
        multi_before(rects, n).finite(),
        obscured_sum(rects, n) >= multi_before(rects, n).len(),
        obscured_sum(rects, n) >= 0,
    decreases n,
{
    lemma_multi_finite(rects);
    lemma_covered_le_sum(rects);
    lemma_len_subset(multi_cells(rects), covered_cells(rects));
    if n == 0 {
        assert(multi_before(rects, 0) =~= Set::<(int, int)>::empty());
    } else {
        lemma_obscured_sum_ge(rects, n - 1);
        assert(rects[n - 1].wf());
        lemma_rect_cells(rects[n - 1]);
        let inter = rect_cells(rects[n - 1]).intersect(multi_cells(rects));
        lemma_len_subset(inter, rect_cells(rects[n - 1]));
        assert(multi_before(rects, n) =~= multi_before(rects, n - 1).union(inter)) by {
            assert forall|p: (int, int)| multi_before(rects, n).contains(p) implies multi_before(
                rects,
                n - 1,
            ).union(inter).contains(p) by {
                let i = choose|i: int| 0 <= i < n && rect_covers(#[trigger] rects[i], p.0, p.1);
                if i < n - 1 {
                    assert(multi_before(rects, n - 1).contains(p));
                }
            }
        }
        vstd::set_lib::lemma_len_union(multi_before(rects, n - 1), inter);
    }
}

/// Every doubly-covered cell is covered by a rectangle of the sequence.
proof fn lemma_multi_before_full(rects: Seq<Rect>)
    ensures
        multi_before(rects, rects.len() as int) == multi_cells(rects),
{
    assert forall|p: (int, int)| multi_cells(rects).contains(p) implies multi_before(
        rects,
        rects.len() as int,
    ).contains(p) by {
        let (i, j) = choose|i: int, j: int|
            0 <= i < rects.len() && 0 <= j < rects.len() && i != j && rect_covers(
                rects[i],
                p.0,
                p.1,
            ) && rect_covers(rects[j], p.0, p.1);
        assert(rect_covers(rects[i], p.0, p.1));
    }
    assert(multi_before(rects, rects.len() as int) =~= multi_cells(rects));
}

/// The overlaps of rectangle `i` against all the others cover exactly the
/// cells of rectangle `i` that some other rectangle also covers.
proof fn lemma_row_cells(rects: Seq<Rect>, i: int, list: Seq<Rect>)
    requires
        all_wf(rects),
        0 <= i < rects.len(),
        forall|o: Rect|
            list.contains(o) <==> exists|jj: int|
                0 <= jj < rects.len() && jj != i && #[trigger] overlap_spec(rects[i], rects[jj])
                    == Some(o),
    ensures
        covered_cells(list) == rect_cells(rects[i]).intersect(multi_cells(rects)),
{
    assert forall|p: (int, int)| covered_cells(list).contains(p) implies rect_cells(
        rects[i],
    ).intersect(multi_cells(rects)).contains(p) by {
        let k = choose|k: int| 0 <= k < list.len() && rect_covers(list[k], p.0, p.1);
        assert(list.contains(list[k]));
        let jj = choose|jj: int|
            0 <= jj < rects.len() && jj != i && #[trigger] overlap_spec(rects[i], rects[jj])
                == Some(list[k]);
        lemma_overlap_cells(rects[i], rects[jj]);
        assert(rect_cells(list[k]).contains(p));
        assert(rect_covers(rects[i], p.0, p.1) && rect_covers(rects[jj], p.0, p.1));
    }
    assert forall|p: (int, int)|
        rect_cells(rects[i]).intersect(multi_cells(rects)).contains(p) implies covered_cells(
        list,
    ).contains(p) by {
        let (a, b) = choose|a: int, b: int|
            0 <= a < rects.len() && 0 <= b < rects.len() && a != b && rect_covers(
                rects[a],
                p.0,
                p.1,
            ) && rect_covers(rects[b], p.0, p.1);
        let jj = if a == i {
            b
        } else {
            a
        };
        assert(jj != i && rect_covers(rects[jj], p.0, p.1));
        lemma_overlap_cells(rects[i], rects[jj]);
        assert(rect_cells(rects[i]).intersect(rect_cells(rects[jj])).contains(p));
        let o = overlap_spec(rects[i], rects[jj])->Some_0;
        assert(list.contains(o));
        let k = choose|k: int| 0 <= k < list.len() && list[k] == o;
        assert(rect_covers(list[k], p.0, p.1));
    }
    assert(covered_cells(list) =~= rect_cells(rects[i]).intersect(multi_cells(rects)));
}

/// All the pairwise overlaps pooled together cover exactly the
/// doubly-covered cells.
proof fn lemma_pooled_cells(rects: Seq<Rect>, pooled: Seq<Rect>)
    requires
        all_wf(rects),
        forall|o: Rect|
            pooled.contains(o) <==> exists|a: int, b: int|
                0 <= a < rects.len() && 0 <= b < rects.len() && a != b && #[trigger] overlap_spec(
                    rects[a],
                    rects[b],
                ) == Some(o),
    ensures
        covered_cells(pooled) == multi_cells(rects),
{
    assert forall|p: (int, int)| covered_cells(pooled).contains(p) implies multi_cells(
        rects,
    ).contains(p) by {
        let k = choose|k: int| 0 <= k < pooled.len() && rect_covers(pooled[k], p.0, p.1);
        assert(pooled.contains(pooled[k]));
        let (a, b) = choose|a: int, b: int|
            0 <= a < rects.len() && 0 <= b < rects.len() && a != b && #[trigger] overlap_spec(
                rects[a],
                rects[b],
            ) == Some(pooled[k]);
        lemma_overlap_cells(rects[a], rects[b]);
        assert(rect_cells(pooled[k]).contains(p));
        assert(rect_covers(rects[a], p.0, p.1) && rect_covers(rects[b], p.0, p.1));
    }
    assert forall|p: (int, int)| multi_cells(rects).contains(p) implies covered_cells(
        pooled,
    ).contains(p) by {
        let (a, b) = choose|a: int, b: int|
            0 <= a < rects.len() && 0 <= b < rects.len() && a != b && rect_covers(
                rects[a],
                p.0,
                p.1,
            ) && rect_covers(rects[b], p.0, p.1);
        lemma_overlap_cells(rects[a], rects[b]);
        assert(rect_cells(rects[a]).intersect(rect_cells(rects[b])).contains(p));
        let o = overlap_spec(rects[a], rects[b])->Some_0;
        assert(pooled.contains(o));
        let k = choose|k: int| 0 <= k < pooled.len() && pooled[k] == o;
        assert(rect_covers(pooled[k], p.0, p.1));
    }
    assert(covered_cells(pooled) =~= multi_cells(rects));
}

/// The area covered by two or more rectangles at once, each such cell counted
/// with multiplicity one less than the number of rectangles covering it: for
/// every rectangle the union of its pairwise overlaps is measured, and the
/// union of all the overlaps pooled together is subtracted from the total.
pub fn obscured_area(rects: &[Rect]) -> (r: usize)
    requires
        all_wf(rects@),
        pair_sum(rects@, rects@.len() as int) <= usize::MAX,
    ensures
        multi_cells(rects@).finite(),
        r + multi_cells(rects@).len() == obscured_sum(rects@, rects@.len() as int),
        rects@.len() < 2 ==> r == 0,
{
    proof {
        lemma_multi_finite(rects@);
    }
    if rects.len() < 2 {
        proof {
            assert(multi_cells(rects@) =~= Set::<(int, int)>::empty());
            assert(multi_cells(rects@).len() == 0);
            assert(obscured_sum(rects@, 0) == 0);
            if rects@.len() == 1 {
                assert(rect_cells(rects@[0]).intersect(multi_cells(rects@)) =~= Set::<
                    (int, int),
                >::empty());
                assert(obscured_sum(rects@, 1) == obscured_sum(rects@, 0) + rect_cells(
                    rects@[0],
                ).intersect(multi_cells(rects@)).len());
            }
        }
        return 0;
    }
    let ghost rs = rects@;
    let ghost n = rects@.len() as int;
    let mut per_total: usize = 0;
    let mut pooled: Vec<Rect> = Vec::new();
    let mut i: usize = 0;
    while i < rects.len()
        invariant
            rects@ == rs,
            all_wf(rs),
            n == rs.len(),
            pair_sum(rs, n) <= usize::MAX,
            0 <= i <= n,
            per_total == obscured_sum(rs, i as int),
            obscured_sum(rs, i as int) <= pair_sum(rs, i as int),
            all_wf(pooled@),
            sum_areas(pooled@) == pair_sum(rs, i as int),
            forall|o: Rect|
                pooled@.contains(o) <==> exists|a: int, b: int|
                    0 <= a < i && 0 <= b < rs.len() && a != b && #[trigger] overlap_spec(
                        rs[a],
                        rs[b],
                    ) == Some(o),
        decreases rs.len() - i,
    {
        let mut list: Vec<Rect> = Vec::new();
        let mut j: usize = 0;
        while j < rects.len()
            invariant
                rects@ == rs,
                all_wf(rs),
                n == rs.len(),
                pair_sum(rs, n) <= usize::MAX,
                0 <= i < n,
                0 <= j <= n,
                all_wf(list@),
                sum_areas(list@) == pair_row_sum(rs, i as int, j as int),
                forall|o: Rect|
                    list@.contains(o) <==> exists|jj: int|
                        0 <= jj < j && jj != i && #[trigger] overlap_spec(rs[i as int], rs[jj])
                            == Some(o),
                all_wf(pooled@),
                sum_areas(pooled@) == pair_sum(rs, i as int) + pair_row_sum(rs, i as int, j as int),
                forall|o: Rect|
                    pooled@.contains(o) <==> exists|a: int, b: int|
                        0 <= a < rs.len() && 0 <= b < rs.len() && a != b && (a < i || (a == i && b
                            < j)) && #[trigger] overlap_spec(rs[a], rs[b]) == Some(o),
            decreases rs.len() - j,
        {
            proof {
                assert(rs[i as int].wf() && rs[j as int].wf());
                lemma_overlap_cells(rs[i as int], rs[j as int]);
            }
            let ghost old_list = list@;
            let ghost old_pooled = pooled@;
            if j != i {
                let ov = rects[i].overlap(&rects[j]);
                if let Some(o) = ov {
                    proof {
                        lemma_rect_cells(o);
                        assert(old_list.push(o).drop_last() =~= old_list);
                        assert(old_pooled.push(o).drop_last() =~= old_pooled);
                    }
                    list.push(o);
                    pooled.push(o);
                    proof {
                        assert(overlap_spec(rs[i as int], rs[j as int]) == Some(o));
                        assert forall|o2: Rect| #[trigger] list@.contains(o2) implies exists|
                            jj: int,
                        |
                            0 <= jj < j + 1 && jj != i && #[trigger] overlap_spec(
                                rs[i as int],
                                rs[jj],
                            ) == Some(o2) by {
                            if old_list.contains(o2) {
                                let jj = choose|jj: int|
                                    0 <= jj < j && jj != i && #[trigger] overlap_spec(
                                        rs[i as int],
                                        rs[jj],
                                    ) == Some(o2);
                                assert(overlap_spec(rs[i as int], rs[jj]) == Some(o2));
                            } else {
                                assert(o2 == o);
                                assert(overlap_spec(rs[i as int], rs[j as int]) == Some(o2));
                            }
                        }
                        assert forall|o2: Rect|
                            (exists|jj: int|
                                0 <= jj < j + 1 && jj != i && #[trigger] overlap_spec(
                                    rs[i as int],
                                    rs[jj],
                                ) == Some(o2)) implies #[trigger] list@.contains(o2) by {
                            let jj = choose|jj: int|
                                0 <= jj < j + 1 && jj != i && #[trigger] overlap_spec(
                                    rs[i as int],
                                    rs[jj],
                                ) == Some(o2);
                            if jj < j {
                                assert(old_list.contains(o2));
                            } else {
                                assert(o2 == o);
                            }
                        }
                        assert forall|o2: Rect| #[trigger] pooled@.contains(o2) implies exists|
                            a: int,
                            b: int,
                        |
                            0 <= a < rs.len() && 0 <= b < rs.len() && a != b && (a < i || (a == i
                                && b < j + 1)) && #[trigger] overlap_spec(rs[a], rs[b]) == Some(
                                o2,
                            ) by {
                            if old_pooled.contains(o2) {
                                let (a, b) = choose|a: int, b: int|
                                    0 <= a < rs.len() && 0 <= b < rs.len() && a != b && (a < i || (
                                    a == i && b < j)) && #[trigger] overlap_spec(rs[a], rs[b])
                                        == Some(o2);
                                assert(overlap_spec(rs[a], rs[b]) == Some(o2));
                            } else {
                                assert(o2 == o);
                                assert(overlap_spec(rs[i as int], rs[j as int]) == Some(o2));
                            }
                        }
                        assert forall|o2: Rect|
                            (exists|a: int, b: int|
                                0 <= a < rs.len() && 0 <= b < rs.len() && a != b && (a < i || (a
                                    == i && b < j + 1)) && #[trigger] overlap_spec(rs[a], rs[b])
                                    == Some(o2)) implies #[trigger] pooled@.contains(o2) by {
                            let (a, b) = choose|a: int, b: int|
                                0 <= a < rs.len() && 0 <= b < rs.len() && a != b && (a < i || (a
                                    == i && b < j + 1)) && #[trigger] overlap_spec(rs[a], rs[b])
                                    == Some(o2);
                            if a < i || (a == i && b < j) {
                                assert(old_pooled.contains(o2));
                            } else {
                                assert(a == i && b == j);
                                assert(o2 == o);
                            }
                        }
                    }
                } else {
                    proof {
                        assert(ov is None);
                        assert(overlap_spec(rs[i as int], rs[j as int]) is None);
                    }
                }
            }
            j = j + 1;
        }
        proof {
            lemma_row_cells(rs, i as int, list@);
            assert(pair_row_sum(rs, i as int, n) == pair_sum(rs, i as int + 1) - pair_sum(
                rs,
                i as int,
            ));
            lemma_pair_sum_mono(rs, 0, i as int);
            lemma_pair_sum_mono(rs, i as int + 1, n);
            lemma_covered_le_sum(list@);
        }
        let a = covered_area(list.as_slice());
        proof {
            assert(a + per_total == obscured_sum(rs, i as int + 1));
            assert(obscured_sum(rs, i as int + 1) <= pair_sum(rs, i as int + 1));
        }
        per_total = per_total + a;
        i = i + 1;
    }
    proof {
        lemma_pooled_cells(rs, pooled@);
        lemma_obscured_sum_ge(rs, n);
        lemma_multi_before_full(rs);
    }
    let pooled_area = covered_area(pooled.as_slice());
    per_total - pooled_area
}

} // verus!
