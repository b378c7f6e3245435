use vstd::prelude::*;

verus! {

/// An axis-aligned pixel rectangle `x1..=x2` by `y1..=y2`.
pub struct Rect {
    pub x1: u32,
    pub y1: u32,
    pub x2: u32,
    pub y2: u32,
}

/// The overlap of two rectangles, as coordinates (no emptiness check).
pub open spec fn overlap(a: Rect, b: Rect) -> Rect {
    Rect {
        x1: if a.x1 >= b.x1 { a.x1 } else { b.x1 },
        y1: if a.y1 >= b.y1 { a.y1 } else { b.y1 },
        x2: if a.x2 <= b.x2 { a.x2 } else { b.x2 },
        y2: if a.y2 <= b.y2 { a.y2 } else { b.y2 },
    }
}

/// A rectangle whose starts do not pass its ends.
pub open spec fn is_ordered(r: Rect) -> bool {
    r.x1 <= r.x2 && r.y1 <= r.y2
}

/// A point lies in the rectangle (both bounds inclusive).
pub open spec fn covers(r: Rect, x: int, y: int) -> bool {
    r.x1 <= x <= r.x2 && r.y1 <= y <= r.y2
}

impl Rect {
    /// Builds a rectangle from its corners; the caller keeps starts before ends.
    pub fn new(x1: u32, y1: u32, x2: u32, y2: u32) -> (r: Self)
        ensures
            r == (Rect { x1, y1, x2, y2 }),
    {
        Self { x1, y1, x2, y2 }
    }

    /// The common part of two rectangles, or `None` where they do not overlap.
    pub fn intersect(&self, other: &Self) -> (r: Option<Self>)
        ensures
            r is Some <==> is_ordered(overlap(*self, *other)),
            r matches Some(v) ==> v == overlap(*self, *other),
    {
        let x1 = if self.x1 >= other.x1 { self.x1 } else { other.x1 };
        let y1 = if self.y1 >= other.y1 { self.y1 } else { other.y1 };
        let x2 = if self.x2 <= other.x2 { self.x2 } else { other.x2 };
        let y2 = if self.y2 <= other.y2 { self.y2 } else { other.y2 };
        if x1 > x2 || y1 > y2 {
            return None;
        }
        Some(Self { x1, x2, y1, y2 })
    }
}

/// Intersection does not depend on the order of its arguments.
pub proof fn lemma_intersect_commutes(a: Rect, b: Rect)
    ensures
        overlap(a, b) == overlap(b, a),
{
}

/// A point lies in the intersection exactly when it lies in both rectangles.
pub proof fn lemma_intersect_covers(a: Rect, b: Rect, x: int, y: int)
    ensures
        covers(overlap(a, b), x, y) <==> (covers(a, x, y) && covers(b, x, y)),
{
}

/// An ordered rectangle intersected with itself gives itself back.
pub proof fn lemma_intersect_self(a: Rect)
    requires
        is_ordered(a),
    ensures
        overlap(a, a) == a,
        is_ordered(overlap(a, a)),
{
}

/// Where the intersection is empty, no point lies in both rectangles.
pub proof fn lemma_intersect_none_disjoint(a: Rect, b: Rect, x: int, y: int)
    requires
        !is_ordered(overlap(a, b)),
    ensures
        !(covers(a, x, y) && covers(b, x, y)),
{
}

} // verus!
