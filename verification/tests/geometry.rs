use rect_cover::{covered_area, obscured_area, InvalidDimension, Pos, RangeExclusive, Rect, Size};

#[test]
fn covered_area_is_zero_if_no_rects() {
    assert!(covered_area(&[]) == 0)
}

#[test]
fn range_exclusive_intersects_works_for_simple_cases() {
    assert!(RangeExclusive(0, 2).intersects(RangeExclusive(1, 2)));
    assert!(RangeExclusive(0, 3).intersects(RangeExclusive(1, 2)));
    assert!(!RangeExclusive(0, 1).intersects(RangeExclusive(1, 2)));
}

#[test]
fn range_exclusive_contains_excludes_endpoints() {
    let r = RangeExclusive(1, 4);
    assert!(r.contains(2));
    assert!(r.contains(3));
    assert!(!r.contains(1));
    assert!(!r.contains(4));
    assert!(!r.contains(0));
}

#[test]
fn range_exclusive_reversed_contains_nothing() {
    let r = RangeExclusive(4, 1);
    assert!(!r.contains(0));
    assert!(!r.contains(2));
    assert!(!r.contains(5));
}

#[test]
fn range_exclusive_intersects_itself_even_reversed() {
    assert!(RangeExclusive(3, 1).intersects(RangeExclusive(3, 1)));
    assert!(RangeExclusive(0, 0).intersects(RangeExclusive(0, 0)));
    assert!(RangeExclusive(2, 7).intersects(RangeExclusive(2, 7)));
}

#[test]
fn range_exclusive_intersects_is_symmetric_in_examples() {
    let cases = [
        (RangeExclusive(0, 2), RangeExclusive(1, 2)),
        (RangeExclusive(0, 1), RangeExclusive(1, 2)),
        (RangeExclusive(5, 2), RangeExclusive(3, 8)),
        (RangeExclusive(0, 10), RangeExclusive(4, 5)),
    ];
    for (x, y) in cases {
        assert_eq!(x.intersects(y), y.intersects(x));
    }
}

#[test]
fn pos_dist_is_manhattan_distance() {
    assert_eq!(Pos::new(1, 5).dist(Pos::new(4, 1)), 7);
    assert_eq!(Pos::new(4, 1).dist(Pos::new(1, 5)), 7);
    assert_eq!(Pos::new(3, 3).dist(Pos::new(3, 3)), 0);
}

#[test]
fn size_checked_constructor_rejects_zero_dimensions() {
    assert_eq!(Size::new_checked(0, 5), Err(InvalidDimension));
    assert_eq!(Size::new_checked(5, 0), Err(InvalidDimension));
    assert_eq!(Size::new_checked(0, 0), Err(InvalidDimension));
    assert_eq!(Size::new_checked(2, 3), Ok(Size::new(2, 3)));
}

#[test]
fn rect_checked_constructor_rejects_zero_dimensions() {
    assert_eq!(Rect::new_checked(1, 1, 0, 4), Err(InvalidDimension));
    assert_eq!(Rect::new_checked(1, 1, 4, 0), Err(InvalidDimension));
    assert_eq!(Rect::new_checked(1, 2, 3, 4), Ok(Rect::new(1, 2, 3, 4)));
}

#[test]
fn size_converts_to_pos_componentwise() {
    assert_eq!(Pos::from(Size::new(2, 3)), Pos::new(2, 3));
}

#[test]
fn size_area_and_diff() {
    assert_eq!(Size::new(3, 4).area(), 12);
    assert_eq!(Size::new(1, 1).area(), 1);
    assert_eq!(Size::new(3, 4).diff(Size::new(5, 1)), 5);
    assert_eq!(Size::new(2, 2).diff(Size::new(2, 2)), 0);
}

#[test]
fn rect_accessors_are_derived_from_pos_and_size() {
    let r = Rect::new(2, 3, 4, 5);
    assert_eq!(r.x(), 2);
    assert_eq!(r.y(), 3);
    assert_eq!(r.width(), 4);
    assert_eq!(r.height(), 5);
    assert_eq!(r.left(), 2);
    assert_eq!(r.right(), 6);
    assert_eq!(r.top(), 3);
    assert_eq!(r.bottom(), 8);
    assert_eq!(r.center_x(), 4);
    assert_eq!(r.center_y(), 5);
    assert_eq!(r.center(), Pos::new(4, 5));
    assert_eq!(r.top_left(), Pos::new(2, 3));
    assert_eq!(r.top_right(), Pos::new(6, 3));
    assert_eq!(r.bottom_left(), Pos::new(2, 8));
    assert_eq!(r.bottom_right(), Pos::new(6, 8));
    assert_eq!(r.area(), 20);
    assert_eq!(r.x_range_exclusive(), RangeExclusive(2, 6));
    assert_eq!(r.y_range_exclusive(), RangeExclusive(3, 8));
}

#[test]
fn rect_expand_moves_the_right_edges() {
    let mut r = Rect::new(5, 5, 2, 2);
    r.expand_left(2);
    assert_eq!(r, Rect::new(3, 5, 4, 2));
    r.expand_right(1);
    assert_eq!(r, Rect::new(3, 5, 5, 2));
    r.expand_top(3);
    assert_eq!(r, Rect::new(3, 2, 5, 5));
    r.expand_bottom(2);
    assert_eq!(r, Rect::new(3, 2, 5, 7));
    assert_eq!(r.right(), 8);
    assert_eq!(r.bottom(), 9);
}

#[test]
fn rect_diff_adds_position_and_size_distances() {
    let r1 = Rect::new(0, 0, 2, 2);
    let r2 = Rect::new(3, 4, 5, 1);
    assert_eq!(r1.diff(r2), 11);
    assert_eq!(r2.diff(r1), 11);
    assert_eq!(r1.diff(r1), 0);
}

#[test]
fn overlap_returns_the_clipped_rectangle() {
    let a = Rect::new(0, 0, 4, 4);
    let b = Rect::new(2, 2, 4, 4);
    assert_eq!(a.overlap(&b), Some(Rect::new(2, 2, 2, 2)));
    assert_eq!(b.overlap(&a), Some(Rect::new(2, 2, 2, 2)));
}

#[test]
fn overlap_of_edge_adjacent_rectangles_is_none() {
    let a = Rect::new(0, 0, 2, 2);
    let b = Rect::new(2, 0, 2, 2);
    assert_eq!(a.overlap(&b), None);
    assert_eq!(b.overlap(&a), None);
}

#[test]
fn overlap_of_corner_touching_rectangles_is_none() {
    let a = Rect::new(0, 0, 2, 2);
    let b = Rect::new(2, 2, 2, 2);
    assert_eq!(a.overlap(&b), None);
}

#[test]
fn overlap_of_nested_rectangles_is_the_inner_one() {
    let outer = Rect::new(0, 0, 6, 6);
    let inner = Rect::new(1, 2, 2, 3);
    assert_eq!(outer.overlap(&inner), Some(inner));
    assert_eq!(inner.overlap(&outer), Some(inner));
}

#[test]
fn covered_area_of_one_rectangle_is_its_area() {
    assert_eq!(covered_area(&[Rect::new(0, 0, 3, 2)]), 6);
    assert_eq!(covered_area(&[Rect::new(7, 9, 1, 1)]), 1);
}

#[test]
fn covered_area_is_positive_for_any_nonempty_input() {
    assert!(covered_area(&[Rect::new(100, 200, 1, 1)]) > 0);
    assert!(covered_area(&[Rect::new(0, 0, 1, 1), Rect::new(0, 0, 1, 1)]) > 0);
}

#[test]
fn covered_area_of_disjoint_rectangles_adds_up() {
    let rects = [Rect::new(0, 0, 2, 2), Rect::new(5, 5, 3, 1)];
    assert_eq!(covered_area(&rects), 7);
}

#[test]
fn covered_area_counts_overlap_once() {
    let rects = [Rect::new(0, 0, 4, 4), Rect::new(2, 2, 4, 4)];
    assert_eq!(covered_area(&rects), 28);
}

#[test]
fn covered_area_ignores_input_order() {
    let a = Rect::new(0, 0, 4, 4);
    let b = Rect::new(2, 2, 4, 4);
    let c = Rect::new(10, 0, 2, 8);
    assert_eq!(covered_area(&[a, b, c]), covered_area(&[c, b, a]));
    assert_eq!(covered_area(&[b, a, c]), 44);
}

#[test]
fn covered_area_of_contained_rectangle_is_the_outer_area() {
    let rects = [Rect::new(0, 0, 6, 6), Rect::new(1, 1, 2, 2)];
    assert_eq!(covered_area(&rects), 36);
}

#[test]
fn covered_area_of_stacked_rectangles_sharing_an_edge() {
    let rects = [Rect::new(0, 0, 2, 2), Rect::new(0, 2, 2, 2)];
    assert_eq!(covered_area(&rects), 8);
    assert_eq!(obscured_area(&rects), 0);
}

#[test]
fn covered_area_handles_large_coordinates() {
    let a = Rect::new(1_000_000, 2_000_000, 1000, 1000);
    let b = Rect::new(1_000_500, 2_000_500, 1000, 1000);
    assert_eq!(covered_area(&[a, b]), 2_000_000 - 250_000);
    assert_eq!(obscured_area(&[a, b]), 250_000);
}

#[test]
fn obscured_area_needs_at_least_two_rectangles() {
    assert_eq!(obscured_area(&[]), 0);
    assert_eq!(obscured_area(&[Rect::new(0, 0, 9, 9)]), 0);
}

#[test]
fn obscured_area_of_identical_rectangles_is_their_area() {
    let r = Rect::new(1, 1, 2, 3);
    assert_eq!(obscured_area(&[r, r]), 6);
}

#[test]
fn obscured_area_of_disjoint_rectangles_is_zero() {
    let rects = [Rect::new(0, 0, 2, 2), Rect::new(5, 5, 3, 1)];
    assert_eq!(obscured_area(&rects), 0);
}

#[test]
fn obscured_area_of_a_chain_adds_the_pairwise_overlaps() {
    // r1 overlaps r2, r2 overlaps r3, r1 and r3 only touch: no cell is
    // covered three times, so the result is the sum of the two overlaps.
    let r1 = Rect::new(0, 0, 4, 2);
    let r2 = Rect::new(2, 0, 4, 2);
    let r3 = Rect::new(4, 0, 4, 2);
    assert_eq!(obscured_area(&[r1, r2, r3]), 8);
}

#[test]
fn obscured_area_counts_triple_coverage_twice() {
    // A cell covered by three rectangles is counted twice, once per extra
    // cover beyond the first.
    let r = Rect::new(0, 0, 2, 2);
    assert_eq!(obscured_area(&[r, r, r]), 8);
}

#[test]
fn obscured_area_of_partially_overlapping_pair_is_the_overlap() {
    let a = Rect::new(0, 0, 4, 4);
    let b = Rect::new(2, 2, 4, 4);
    assert_eq!(obscured_area(&[a, b]), 4);
}
