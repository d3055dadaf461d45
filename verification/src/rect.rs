//! The data model: positions, strictly-positive sizes, rectangles, and
//! exclusive ranges, with their elementary derived quantities.

use vstd::prelude::*;

verus! {

/// Error returned by checked constructors when a width or height is zero.
#[derive(Clone, Copy, Debug, PartialEq, Eq, Structural)]
pub struct InvalidDimension;

/// A point on the non-negative integer grid.
#[derive(Clone, Copy, Debug, PartialEq, Eq, Hash, Structural)]
pub struct Pos {
    pub x: usize,
    pub y: usize,
}

/// A pair of strictly-positive dimensions. The positivity invariant is the
/// spec function [`Size::wf`]; constructors establish it and every consumer
/// requires it.
#[derive(Clone, Copy, Debug, PartialEq, Eq, Hash, Structural)]
pub struct Size {
    pub width: usize,
    pub height: usize,
}

/// A position plus a size: the axis-aligned rectangle with corners
/// `(x, y)` (inclusive) and `(x + width, y + height)` (exclusive).
#[derive(Clone, Copy, Debug, PartialEq, Eq, Hash, Structural)]
pub struct Rect {
    pub pos: Pos,
    pub size: Size,
}

/// The open interval `(lo, hi)`, both endpoints excluded. No ordering between
/// the two fields is required; the operations are defined for reversed pairs
/// as well.
#[derive(Clone, Copy, Debug, PartialEq, Eq, Structural)]
pub struct RangeExclusive(pub usize, pub usize);

/// Manhattan distance between two grid points, as a mathematical integer.
pub open spec fn manhattan(x1: int, y1: int, x2: int, y2: int) -> int {
    (if x1 > x2 {
        x1 - x2
    } else {
        x2 - x1
    }) + (if y1 > y2 {
        y1 - y2
    } else {
        y2 - y1
    })
}

impl Pos {
    pub fn new(x: usize, y: usize) -> (r: Self)
        ensures
            r == (Pos { x, y }),
    {
        Self { x, y }
    }

    /// Manhattan distance between positions.
    pub fn dist(self, other: Pos) -> (r: usize)
        requires
            manhattan(self.x as int, self.y as int, other.x as int, other.y as int) <= usize::MAX,
        ensures
            r == manhattan(self.x as int, self.y as int, other.x as int, other.y as int),
    {
        (if self.x > other.x {
            self.x - other.x
        } else {
            other.x - self.x
        }) + (if self.y > other.y {
            self.y - other.y
        } else {
            other.y - self.y
        })
    }
}

impl Size {
    /// Both dimensions strictly positive.
    pub open spec fn wf(self) -> bool {
        self.width > 0 && self.height > 0
    }

    pub fn new(width: usize, height: usize) -> (r: Self)
        requires
            width > 0,
            height > 0,
        ensures
            r == (Size { width, height }),
            r.wf(),
    {
        Self { width, height }
    }

    /// Checked constructor: rejects a zero width or height instead of
    /// trusting the caller.
    pub fn new_checked(width: usize, height: usize) -> (r: Result<Self, InvalidDimension>)
        ensures
            width > 0 && height > 0 ==> r == Ok::<Size, InvalidDimension>(Size { width, height }),
            width == 0 || height == 0 ==> r == Err::<Size, InvalidDimension>(InvalidDimension),
    {
        if width == 0 || height == 0 {
            Err(InvalidDimension)
        } else {
            Ok(Self { width, height })
        }
    }

    /// The area `width * height`; strictly positive for a well-formed size.
    pub fn area(&self) -> (r: usize)
        requires
            self.wf(),
            self.width * self.height <= usize::MAX,
        ensures
            r == self.width * self.height,
            r > 0,
    {
        proof {
            assert(self.width * self.height >= 1 * 1) by (nonlinear_arith)
                requires
                    self.width >= 1,
                    self.height >= 1,
            ;
        }
        self.width * self.height
    }

    /// Manhattan distance between the two sizes read as points.
    pub fn diff(self, other: Size) -> (r: usize)
        requires
            manhattan(
                self.width as int,
                self.height as int,
                other.width as int,
                other.height as int,
            ) <= usize::MAX,
        ensures
            r == manhattan(
                self.width as int,
                self.height as int,
                other.width as int,
                other.height as int,
            ),
    {
        Pos::from(self).dist(Pos::from(other))
    }
}

impl Rect {
    /// Well-formed rectangle: positive dimensions, and both far edges
    /// representable as `usize` values.
    pub open spec fn wf(self) -> bool {
        self.size.wf() && self.pos.x + self.size.width <= usize::MAX && self.pos.y
            + self.size.height <= usize::MAX
    }

    pub open spec fn spec_left(self) -> int {
        self.pos.x as int
    }

    pub open spec fn spec_right(self) -> int {
        self.pos.x + self.size.width
    }

    pub open spec fn spec_top(self) -> int {
        self.pos.y as int
    }

    pub open spec fn spec_bottom(self) -> int {
        self.pos.y + self.size.height
    }

    pub fn new(x: usize, y: usize, width: usize, height: usize) -> (r: Self)
        requires
            width > 0,
            height > 0,
        ensures
            r == (Rect { pos: Pos { x, y }, size: Size { width, height } }),
            r.size.wf(),
    {
        Self { pos: Pos::new(x, y), size: Size::new(width, height) }
    }

    /// Checked constructor: rejects a zero width or height.
    pub fn new_checked(x: usize, y: usize, width: usize, height: usize) -> (r: Result<
        Self,
        InvalidDimension,
    >)
        ensures
            width > 0 && height > 0 ==> r == Ok::<Rect, InvalidDimension>(
                Rect { pos: Pos { x, y }, size: Size { width, height } },
            ),
            width == 0 || height == 0 ==> r == Err::<Rect, InvalidDimension>(InvalidDimension),
    {
        match Size::new_checked(width, height) {
            Ok(size) => Ok(Self { pos: Pos::new(x, y), size }),
            Err(e) => Err(e),
        }
    }

    pub fn x(&self) -> (r: usize)
        ensures
            r == self.pos.x,
    {
        self.pos.x
    }

    pub fn y(&self) -> (r: usize)
        ensures
            r == self.pos.y,
    {
        self.pos.y
    }

    pub fn width(&self) -> (r: usize)
        ensures
            r == self.size.width,
    {
        self.size.width
    }

    pub fn height(&self) -> (r: usize)
        ensures
            r == self.size.height,
    {
        self.size.height
    }

    pub fn left(&self) -> (r: usize)
        ensures
            r == self.spec_left(),
    {
        self.pos.x
    }

    pub fn right(&self) -> (r: usize)
        requires
            self.pos.x + self.size.width <= usize::MAX,
        ensures
            r == self.spec_right(),
    {
        self.pos.x + self.size.width
    }

    pub fn top(&self) -> (r: usize)
        ensures
            r == self.spec_top(),
    {
        self.pos.y
    }

    pub fn bottom(&self) -> (r: usize)
        requires
            self.pos.y + self.size.height <= usize::MAX,
        ensures
            r == self.spec_bottom(),
    {
        self.pos.y + self.size.height
    }

    pub fn center(&self) -> (r: Pos)
        requires
            self.pos.x + self.size.width <= usize::MAX,
            self.pos.y + self.size.height <= usize::MAX,
        ensures
            r == (Pos {
                x: (self.pos.x + self.size.width / 2) as usize,
                y: (self.pos.y + self.size.height / 2) as usize,
            }),
    {
        Pos::new(self.center_x(), self.center_y())
    }

    /// Horizontal midpoint, rounded down.
    pub fn center_x(&self) -> (r: usize)
        requires
            self.pos.x + self.size.width <= usize::MAX,
        ensures
            r == self.pos.x + self.size.width / 2,
    {
        self.left() + self.size.width / 2
    }

    /// Vertical midpoint, rounded down.
    pub fn center_y(&self) -> (r: usize)
        requires
            self.pos.y + self.size.height <= usize::MAX,
        ensures
            r == self.pos.y + self.size.height / 2,
    {
        self.top() + self.size.height / 2
    }

    pub fn top_left(&self) -> (r: Pos)
        ensures
            r == (Pos { x: self.pos.x, y: self.pos.y }),
    {
        Pos { y: self.top(), x: self.left() }
    }

    pub fn top_right(&self) -> (r: Pos)
        requires
            self.pos.x + self.size.width <= usize::MAX,
        ensures
            r == (Pos { x: (self.spec_right()) as usize, y: self.pos.y }),
    {
        Pos { y: self.top(), x: self.right() }
    }

    pub fn bottom_left(&self) -> (r: Pos)
        requires
            self.pos.y + self.size.height <= usize::MAX,
        ensures
            r == (Pos { x: self.pos.x, y: (self.spec_bottom()) as usize }),
    {
        Pos { y: self.bottom(), x: self.left() }
    }

    pub fn bottom_right(&self) -> (r: Pos)
        requires
            self.pos.x + self.size.width <= usize::MAX,
            self.pos.y + self.size.height <= usize::MAX,
        ensures
            r == (Pos { x: (self.spec_right()) as usize, y: (self.spec_bottom()) as usize }),
    {
        Pos { y: self.bottom(), x: self.right() }
    }

    /// Grow the rectangle leftward: the origin moves back by `value`, the
    /// width grows by `value`, and the right edge stays fixed.
    pub fn expand_left(&mut self, value: usize)
        requires
            old(self).pos.x >= value,
            old(self).size.width + value <= usize::MAX,
        ensures
            final(self).pos.x == old(self).pos.x - value,
            final(self).size.width == old(self).size.width + value,
            final(self).pos.y == old(self).pos.y,
            final(self).size.height == old(self).size.height,
            final(self).spec_right() == old(self).spec_right(),
    {
        self.pos.x -= value;
        self.size.width += value;
    }

    /// Grow the rectangle rightward by `value`; the origin stays fixed.
    pub fn expand_right(&mut self, value: usize)
        requires
            old(self).size.width + value <= usize::MAX,
        ensures
            final(self).size.width == old(self).size.width + value,
            final(self).pos == old(self).pos,
            final(self).size.height == old(self).size.height,
    {
        self.size.width += value;
    }

    /// Grow the rectangle upward: the origin moves up by `value`, the height
    /// grows by `value`, and the bottom edge stays fixed.
    pub fn expand_top(&mut self, value: usize)
        requires
            old(self).pos.y >= value,
            old(self).size.height + value <= usize::MAX,
        ensures
            final(self).pos.y == old(self).pos.y - value,
            final(self).size.height == old(self).size.height + value,
            final(self).pos.x == old(self).pos.x,
            final(self).size.width == old(self).size.width,
            final(self).spec_bottom() == old(self).spec_bottom(),
    {
        self.pos.y -= value;
        self.size.height += value;
    }

    /// Grow the rectangle downward by `value`; the origin stays fixed.
    pub fn expand_bottom(&mut self, value: usize)
        requires
            old(self).size.height + value <= usize::MAX,
        ensures
            final(self).size.height == old(self).size.height + value,
            final(self).pos == old(self).pos,
            final(self).size.width == old(self).size.width,
    {
        self.size.height += value;
    }

    /// The projection of the rectangle onto the x axis, as an open interval.
    pub fn x_range_exclusive(&self) -> (r: RangeExclusive)
        requires
            self.pos.x + self.size.width <= usize::MAX,
        ensures
            r == RangeExclusive(self.pos.x, (self.spec_right()) as usize),
    {
        RangeExclusive(self.left(), self.right())
    }

    /// The projection of the rectangle onto the y axis, as an open interval.
    pub fn y_range_exclusive(&self) -> (r: RangeExclusive)
        requires
            self.pos.y + self.size.height <= usize::MAX,
        ensures
            r == RangeExclusive(self.pos.y, (self.spec_bottom()) as usize),
    {
        RangeExclusive(self.top(), self.bottom())
    }

    /// The rectangle's area; strictly positive.
    pub fn area(&self) -> (r: usize)
        requires
            self.size.wf(),
            self.size.width * self.size.height <= usize::MAX,
        ensures
            r == self.size.width * self.size.height,
            r > 0,
    {
        self.size.area()
    }

    /// The intersection rectangle, if the two rectangles overlap strictly on
    /// both axes; rectangles that only touch along an edge or at a corner do
    /// not overlap.
    pub fn overlap(&self, other: &Rect) -> (r: Option<Rect>)
        requires
            self.wf(),
            other.wf(),
        ensures
            r == overlap_spec(*self, *other),
    {
        let left = if self.left() > other.left() {
            self.left()
        } else {
            other.left()
        };
        let right = if self.right() < other.right() {
            self.right()
        } else {
            other.right()
        };
        let top = if self.top() > other.top() {
            self.top()
        } else {
            other.top()
        };
        let bottom = if self.bottom() < other.bottom() {
            self.bottom()
        } else {
            other.bottom()
        };
        if left < right && top < bottom {
            Some(
                Rect {
                    pos: Pos { x: left, y: top },
                    size: Size { width: right - left, height: bottom - top },
                },
            )
        } else {
            None
        }
    }

    /// A similarity score: the Manhattan distance between the positions plus
    /// the Manhattan distance between the sizes.
    pub fn diff(self, other: Self) -> (r: usize)
        requires
            rect_diff_spec(self, other) <= usize::MAX,
        ensures
            r == rect_diff_spec(self, other),
    {
        self.pos.dist(other.pos) + self.size.diff(other.size)
    }
}

/// The intersection of two rectangles: `Some` exactly when their interiors
/// share a cell, with the clipped bounds; `None` when they are disjoint or
/// only touch along an edge or corner.
pub open spec fn overlap_spec(a: Rect, b: Rect) -> Option<Rect> {
    let left = if a.spec_left() > b.spec_left() {
        a.spec_left()
    } else {
        b.spec_left()
    };
    let right = if a.spec_right() < b.spec_right() {
        a.spec_right()
    } else {
        b.spec_right()
    };
    let top = if a.spec_top() > b.spec_top() {
        a.spec_top()
    } else {
        b.spec_top()
    };
    let bottom = if a.spec_bottom() < b.spec_bottom() {
        a.spec_bottom()
    } else {
        b.spec_bottom()
    };
    if left < right && top < bottom {
        Some(
            Rect {
                pos: Pos { x: left as usize, y: top as usize },
                size: Size { width: (right - left) as usize, height: (bottom - top) as usize },
            },
        )
    } else {
        None
    }
}

/// The sum of the positional and dimensional Manhattan distances of two
/// rectangles.
pub open spec fn rect_diff_spec(a: Rect, b: Rect) -> int {
    manhattan(a.pos.x as int, a.pos.y as int, b.pos.x as int, b.pos.y as int) + manhattan(
        a.size.width as int,
        a.size.height as int,
        b.size.width as int,
        b.size.height as int,
    )
}

/// Membership in the open interval: strictly between the two endpoints.
pub open spec fn range_contains(r: RangeExclusive, x: int) -> bool {
    r.0 < x && x < r.1
}

/// One range contains an endpoint of the other.
pub open spec fn range_contains_either(r: RangeExclusive, other: RangeExclusive) -> bool {
    range_contains(r, other.0 as int) || range_contains(r, other.1 as int)
}

/// Two open intervals intersect: they are equal, or either contains an
/// endpoint of the other. Defined for reversed (`lo > hi`) pairs as well.
pub open spec fn range_intersects(a: RangeExclusive, b: RangeExclusive) -> bool {
    a == b || range_contains_either(a, b) || range_contains_either(b, a)
}

impl RangeExclusive {
    pub fn contains(self, x: usize) -> (r: bool)
        ensures
            r == range_contains(self, x as int),
    {
        x > self.0 && x < self.1
    }

    fn contains_either(self, other: RangeExclusive) -> (r: bool)
        ensures
            r == range_contains_either(self, other),
    {
        self.contains(other.0) || self.contains(other.1)
    }

    pub fn intersects(self, other: RangeExclusive) -> (r: bool)
        ensures
            r == range_intersects(self, other),
    {
        self == other || self.contains_either(other) || other.contains_either(self)
    }
}

impl From<Size> for Pos {
    fn from(value: Size) -> (r: Self) {
        Pos { x: value.width, y: value.height }
    }
}

impl vstd::std_specs::convert::FromSpecImpl<Size> for Pos {
    open spec fn obeys_from_spec() -> bool {
        true
    }

    open spec fn from_spec(value: Size) -> Pos {
        Pos { x: value.width, y: value.height }
    }
}

} // verus!
