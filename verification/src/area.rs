use vstd::prelude::*;

verus! {

/// An axis-aligned rectangle on the integer grid: an anchor (the corner with the
/// smallest coordinates) and a width and height, either of which may be zero.
///
/// A rectangle covers the cells `(px, py)` with `left <= px < right` and
/// `top <= py < bottom`: it is closed on the anchor side and open on the far side.
/// A rectangle of zero width or height covers no cell.
#[derive(Clone, Copy, Debug, PartialEq, Eq, Structural)]
pub struct Area {
    pub x: i64,
    pub y: i64,
    pub w: u64,
    pub h: u64,
}

impl Area {
    pub open spec fn left(self) -> int {
        self.x as int
    }

    pub open spec fn top(self) -> int {
        self.y as int
    }

    pub open spec fn right(self) -> int {
        self.x + self.w
    }

    pub open spec fn bottom(self) -> int {
        self.y + self.h
    }

    /// Whether the rectangle covers at least one cell.
    pub open spec fn has_extent(self) -> bool {
        self.w > 0 && self.h > 0
    }

    /// Whether the cell `(px, py)` lies in this rectangle.
    pub open spec fn has_cell(self, px: int, py: int) -> bool {
        self.left() <= px < self.right() && self.top() <= py < self.bottom()
    }

    /// Whether `other` lies within the bounds of this rectangle.
    pub open spec fn spec_contains(&self, other: Area) -> bool {
        &&& self.left() <= other.left()
        &&& other.right() <= self.right()
        &&& self.top() <= other.top()
        &&& other.bottom() <= self.bottom()
    }

    /// Whether this rectangle and `other` overlap; by
    /// [`Area::lemma_intersects_is_common_cell`] that is to have a cell in common.
    pub open spec fn spec_intersects(&self, other: Area) -> bool {
        &&& self.has_extent() && other.has_extent()
        &&& self.left() < other.right()
        &&& other.left() < self.right()
        &&& self.top() < other.bottom()
        &&& other.top() < self.bottom()
    }

    /// Whether the rectangle is anchored at `anchor`.
    pub open spec fn anchor_is(self, anchor: (i64, i64)) -> bool {
        self.x == anchor.0 && self.y == anchor.1
    }

    /// The anchor and dimensions as plain tuples.
    pub open spec fn spec_inner(&self) -> ((i64, i64), (u64, u64)) {
        ((self.x, self.y), (self.w, self.h))
    }

    /// One of the four equal parts that bisecting both axes gives: `i` counts them
    /// row by row from the anchor, so `0` holds the anchor and `3` lies opposite.
    pub open spec fn spec_quadrant(&self, i: usize) -> Area {
        let hw = self.w / 2;
        let hh = self.h / 2;
        Area {
            x: if i % 2 == 0 { self.x } else { (self.x + hw) as i64 },
            y: if i < 2 { self.y } else { (self.y + hh) as i64 },
            w: hw,
            h: hh,
        }
    }

    /// The first of the four quadrants that contains `r`, if any does. Two of them
    /// can contain a rectangle only if it covers no cell.
    pub open spec fn first_quadrant(self, r: Area) -> Option<usize> {
        if self.quadrant(0).contains(r) {
            Some(0usize)
        } else if self.quadrant(1).contains(r) {
            Some(1usize)
        } else if self.quadrant(2).contains(r) {
            Some(2usize)
        } else if self.quadrant(3).contains(r) {
            Some(3usize)
        } else {
            None
        }
    }

    /// Whether bisecting gives four parts that tile the rectangle and whose anchors
    /// are coordinates: both sides are even and the far edges are coordinates.
    pub open spec fn divisible(self) -> bool {
        &&& self.w % 2 == 0
        &&& self.h % 2 == 0
        &&& self.right() <= i64::MAX
        &&& self.bottom() <= i64::MAX
    }

    pub fn new(anchor: (i64, i64), dimensions: (u64, u64)) -> (a: Area)
        ensures
            a.spec_inner() == (anchor, dimensions),
    {
        Area { x: anchor.0, y: anchor.1, w: dimensions.0, h: dimensions.1 }
    }

    #[verifier::when_used_as_spec(spec_inner)]
    pub fn inner(&self) -> (r: ((i64, i64), (u64, u64)))
        ensures
            r == self.spec_inner(),
    {
        ((self.x, self.y), (self.w, self.h))
    }

    pub fn anchor(&self) -> (r: (i64, i64))
        ensures
            self.anchor_is(r),
    {
        (self.x, self.y)
    }

    pub fn dimensions(&self) -> (r: (u64, u64))
        ensures
            r == (self.w, self.h),
    {
        (self.w, self.h)
    }

    pub fn width(&self) -> (r: u64)
        ensures
            r == self.w,
    {
        self.w
    }

    pub fn height(&self) -> (r: u64)
        ensures
            r == self.h,
    {
        self.h
    }

    pub fn left_edge(&self) -> (r: i64)
        ensures
            r == self.left(),
    {
        self.x
    }

    pub fn top_edge(&self) -> (r: i64)
        ensures
            r == self.top(),
    {
        self.y
    }

    /// The far edge along x. It may lie beyond the largest coordinate, hence the
    /// wider type.
    pub fn right_edge(&self) -> (r: i128)
        ensures
            r == self.right(),
    {
        self.x as i128 + self.w as i128
    }

    /// The far edge along y.
    pub fn bottom_edge(&self) -> (r: i128)
        ensures
            r == self.bottom(),
    {
        self.y as i128 + self.h as i128
    }

    #[verifier::when_used_as_spec(spec_contains)]
    pub fn contains(&self, other: Area) -> (b: bool)
        ensures
            b == self.spec_contains(other),
    {
        self.x <= other.x && other.right_edge() <= self.right_edge() && self.y <= other.y
            && other.bottom_edge() <= self.bottom_edge()
    }

    /// Whether the cell at `pt` lies in this rectangle.
    pub fn contains_pt(&self, pt: (i64, i64)) -> (b: bool)
        ensures
            b == self.has_cell(pt.0 as int, pt.1 as int),
    {
        self.x <= pt.0 && (pt.0 as i128) < self.right_edge() && self.y <= pt.1 && (pt.1 as i128)
            < self.bottom_edge()
    }

    #[verifier::when_used_as_spec(spec_intersects)]
    pub fn intersects(&self, other: Area) -> (b: bool)
        ensures
            b == self.spec_intersects(other),
    {
        self.w > 0 && self.h > 0 && other.w > 0 && other.h > 0 && (self.x as i128)
            < other.right_edge() && (other.x as i128) < self.right_edge() && (self.y as i128)
            < other.bottom_edge() && (other.y as i128) < self.bottom_edge()
    }

    #[verifier::when_used_as_spec(spec_quadrant)]
    pub fn quadrant(&self, i: usize) -> (q: Area)
        requires
            i < 4,
            self.divisible(),
        ensures
            q == self.spec_quadrant(i),
    {
        let hw: u64 = self.w / 2;
        let hh: u64 = self.h / 2;
        let x: i64 = if i % 2 == 0 {
            self.x
        } else {
            (self.x as i128 + hw as i128) as i64
        };
        let y: i64 = if i < 2 {
            self.y
        } else {
            (self.y as i128 + hh as i128) as i64
        };
        Area { x, y, w: hw, h: hh }
    }

    /// Two rectangles intersect exactly when some cell lies in both.
    pub proof fn lemma_intersects_is_common_cell(a: Area, b: Area)
        ensures
            a.intersects(b) <==> exists|px: int, py: int|
                #![trigger a.has_cell(px, py), b.has_cell(px, py)]
                a.has_cell(px, py) && b.has_cell(px, py),
    {
        if a.intersects(b) {
            let px = if a.left() < b.left() { b.left() } else { a.left() };
            let py = if a.top() < b.top() { b.top() } else { a.top() };
            assert(a.has_cell(px, py) && b.has_cell(px, py));
        }
    }

    /// The four quadrants lie within the rectangle, and every cell of the rectangle
    /// lies in exactly one of them.
    pub proof fn lemma_quadrants_tile(a: Area, px: int, py: int)
        requires
            a.divisible(),
        ensures
            forall|i: usize| i < 4 ==> a.contains(#[trigger] a.quadrant(i)),
            a.has_cell(px, py) <==> exists|i: usize| i < 4 && (#[trigger] a.quadrant(i)).has_cell(px, py),
            forall|i: usize, j: usize|
                i < 4 && j < 4 && (#[trigger] a.quadrant(i)).has_cell(px, py) && (#[trigger] a.quadrant(
                    j,
                )).has_cell(px, py) ==> i == j,
    {
        if a.has_cell(px, py) {
            let hw = a.w / 2;
            let hh = a.h / 2;
            let i: usize = if px < a.x + hw {
                if py < a.y + hh { 0 } else { 2 }
            } else {
                if py < a.y + hh { 1 } else { 3 }
            };
            assert(a.quadrant(i).has_cell(px, py));
        }
    }

    /// Distinct quadrants do not intersect: nothing that covers a cell lies within
    /// two of them, and what lies within one intersects nothing that lies within
    /// another.
    pub proof fn lemma_quadrants_apart(a: Area)
        requires
            a.divisible(),
        ensures
            forall|i: usize, j: usize|
                i < 4 && j < 4 && i != j ==> !(#[trigger] a.quadrant(i)).intersects(
                    #[trigger] a.quadrant(j),
                ),
            forall|i: usize, j: usize, r: Area|
                #![trigger a.quadrant(i).contains(r), a.quadrant(j).contains(r)]
                i < 4 && j < 4 && i != j && r.has_extent() && a.quadrant(i).contains(r)
                    ==> !a.quadrant(j).contains(r),
            forall|i: usize, j: usize, r: Area, s: Area|
                #![trigger a.quadrant(i).contains(r), a.quadrant(j).contains(s)]
                i < 4 && j < 4 && i != j && a.quadrant(i).contains(r) && a.quadrant(j).contains(s)
                    ==> !r.intersects(s),
    {
    }
}

} // verus!
