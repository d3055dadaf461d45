//! General properties of the library, stated and proved once and for all:
//! order-independence of the covered area, reflexivity and symmetry of range
//! intersection, and the characteristic values of the obscured area for
//! identical, disjoint, and chained rectangle configurations.

use vstd::prelude::*;

verus! {

use crate::cells::{multi_cells, multi_covers, obscured_sum, rect_cells, rect_covers,
    covered_cells, lemma_rect_cells};
use crate::rect::{range_intersects, RangeExclusive, Rect};

/// Reordering the rectangles does not change the set of covered cells, so
/// the covered area is invariant under permutation of its input.
pub proof fn lemma_covered_cells_permutation(a: Seq<Rect>, b: Seq<Rect>)
    requires
        a.to_multiset() == b.to_multiset(),
    ensures
        covered_cells(a) == covered_cells(b),
{
    a.to_multiset_ensures();
    b.to_multiset_ensures();
    assert forall|p: (int, int)| covered_cells(a).contains(p) implies covered_cells(b).contains(
        p,
    ) by {
        let i = choose|i: int| 0 <= i < a.len() && rect_covers(a[i], p.0, p.1);
        assert(a.contains(a[i]));
        assert(a.to_multiset().count(a[i]) > 0);
        assert(b.to_multiset().count(a[i]) > 0);
        assert(b.contains(a[i]));
        let k = choose|k: int| 0 <= k < b.len() && b[k] == a[i];
        assert(rect_covers(b[k], p.0, p.1));
    }
    assert forall|p: (int, int)| covered_cells(b).contains(p) implies covered_cells(a).contains(
        p,
    ) by {
        let i = choose|i: int| 0 <= i < b.len() && rect_covers(b[i], p.0, p.1);
        assert(b.contains(b[i]));
        assert(b.to_multiset().count(b[i]) > 0);
        assert(a.to_multiset().count(b[i]) > 0);
        assert(a.contains(b[i]));
        let k = choose|k: int| 0 <= k < a.len() && a[k] == b[i];
        assert(rect_covers(a[k], p.0, p.1));
    }
    assert(covered_cells(a) =~= covered_cells(b));
}

/// Every exclusive range intersects itself, including reversed and empty
/// ranges: intersection is reflexive.
pub proof fn lemma_intersects_reflexive(r: RangeExclusive)
    ensures
        range_intersects(r, r),
{
}

/// Range intersection is symmetric for all inputs.
pub proof fn lemma_intersects_symmetric(x: RangeExclusive, y: RangeExclusive)
    ensures
        range_intersects(x, y) == range_intersects(y, x),
{
}

/// Two identical rectangles obscure exactly their own area: every cell is
/// covered twice and counted once.
pub proof fn lemma_obscured_identical_pair(r: Rect)
    requires
        r.wf(),
    ensures
        multi_cells(seq![r, r]) == rect_cells(r),
        obscured_sum(seq![r, r], 2) - multi_cells(seq![r, r]).len() == r.size.width
            * r.size.height,
{
    let s = seq![r, r];
    assert(s.len() == 2 && s[0] == r && s[1] == r);
    assert(multi_cells(s) =~= rect_cells(r)) by {
        assert forall|p: (int, int)| rect_cells(r).contains(p) implies multi_cells(s).contains(
            p,
        ) by {
            assert(rect_covers(s[0], p.0, p.1) && rect_covers(s[1], p.0, p.1));
        }
    }
    assert(rect_cells(s[0]).intersect(multi_cells(s)) =~= rect_cells(r));
    assert(rect_cells(s[1]).intersect(multi_cells(s)) =~= rect_cells(r));
    assert(obscured_sum(s, 0) == 0);
    assert(obscured_sum(s, 1) == obscured_sum(s, 0) + rect_cells(s[0]).intersect(
        multi_cells(s),
    ).len());
    assert(obscured_sum(s, 2) == obscured_sum(s, 1) + rect_cells(s[1]).intersect(
        multi_cells(s),
    ).len());
    lemma_rect_cells(r);
}

/// Two disjoint rectangles obscure nothing.
pub proof fn lemma_obscured_disjoint_pair(r1: Rect, r2: Rect)
    requires
        r1.wf(),
        r2.wf(),
        rect_cells(r1).disjoint(rect_cells(r2)),
    ensures
        multi_cells(seq![r1, r2]) == Set::<(int, int)>::empty(),
        obscured_sum(seq![r1, r2], 2) == 0,
{
    let s = seq![r1, r2];
    assert(s.len() == 2 && s[0] == r1 && s[1] == r2);
    assert(multi_cells(s) =~= Set::<(int, int)>::empty()) by {
        assert forall|p: (int, int)| !multi_cells(s).contains(p) by {
            if multi_covers(s, p.0, p.1) {
                let (i, j) = choose|i: int, j: int|
                    0 <= i < s.len() && 0 <= j < s.len() && i != j && rect_covers(s[i], p.0, p.1)
                        && rect_covers(s[j], p.0, p.1);
                assert(rect_cells(r1).contains(p) && rect_cells(r2).contains(p));
            }
        }
    }
    assert(rect_cells(s[0]).intersect(multi_cells(s)) =~= Set::<(int, int)>::empty());
    assert(rect_cells(s[1]).intersect(multi_cells(s)) =~= Set::<(int, int)>::empty());
    assert(obscured_sum(s, 0) == 0);
    assert(obscured_sum(s, 1) == obscured_sum(s, 0) + rect_cells(s[0]).intersect(
        multi_cells(s),
    ).len());
    assert(obscured_sum(s, 2) == obscured_sum(s, 1) + rect_cells(s[1]).intersect(
        multi_cells(s),
    ).len());
}

/// Three rectangles overlapping in a chain, with the two outer ones disjoint
/// (so no cell is covered three times), obscure exactly the sum of the two
/// pairwise overlap areas.
pub proof fn lemma_obscured_chain(r1: Rect, r2: Rect, r3: Rect)
    requires
        r1.wf(),
        r2.wf(),
        r3.wf(),
        rect_cells(r1).disjoint(rect_cells(r3)),
    ensures
        obscured_sum(seq![r1, r2, r3], 3) - multi_cells(seq![r1, r2, r3]).len() == rect_cells(
            r1,
        ).intersect(rect_cells(r2)).len() + rect_cells(r2).intersect(rect_cells(r3)).len(),
{
    let s = seq![r1, r2, r3];
    assert(s.len() == 3 && s[0] == r1 && s[1] == r2 && s[2] == r3);
    let c1 = rect_cells(r1);
    let c2 = rect_cells(r2);
    let c3 = rect_cells(r3);
    let m = multi_cells(s);
    assert(m =~= c1.intersect(c2).union(c2.intersect(c3))) by {
        assert forall|p: (int, int)| m.contains(p) implies c1.intersect(c2).union(
            c2.intersect(c3),
        ).contains(p) by {
            let (i, j) = choose|i: int, j: int|
                0 <= i < s.len() && 0 <= j < s.len() && i != j && rect_covers(s[i], p.0, p.1)
                    && rect_covers(s[j], p.0, p.1);
            if rect_covers(r1, p.0, p.1) && rect_covers(r3, p.0, p.1) {
                assert(c1.contains(p) && c3.contains(p));
            }
        }
        assert forall|p: (int, int)| c1.intersect(c2).union(c2.intersect(c3)).contains(
            p,
        ) implies m.contains(p) by {
            if c1.intersect(c2).contains(p) {
                assert(rect_covers(s[0], p.0, p.1) && rect_covers(s[1], p.0, p.1));
            } else {
                assert(rect_covers(s[1], p.0, p.1) && rect_covers(s[2], p.0, p.1));
            }
        }
    }
    assert(c1.intersect(m) =~= c1.intersect(c2)) by {
        assert forall|p: (int, int)| c1.intersect(m).contains(p) implies c1.intersect(
            c2,
        ).contains(p) by {
            if c2.intersect(c3).contains(p) && !c1.intersect(c2).contains(p) {
                assert(c1.contains(p) && c3.contains(p));
            }
        }
    }
    assert(c2.intersect(m) =~= m);
    assert(c3.intersect(m) =~= c2.intersect(c3)) by {
        assert forall|p: (int, int)| c3.intersect(m).contains(p) implies c2.intersect(
            c3,
        ).contains(p) by {
            if c1.intersect(c2).contains(p) {
                assert(c1.contains(p) && c3.contains(p));
            }
        }
    }
    assert(obscured_sum(s, 0) == 0);
    assert(obscured_sum(s, 1) == obscured_sum(s, 0) + rect_cells(s[0]).intersect(m).len());
    assert(obscured_sum(s, 2) == obscured_sum(s, 1) + rect_cells(s[1]).intersect(m).len());
    assert(obscured_sum(s, 3) == obscured_sum(s, 2) + rect_cells(s[2]).intersect(m).len());
}

} // verus!
