use vstd::prelude::*;

verus! {

/// A point or a vector in world space, in whole pixels.
#[derive(Clone, Copy, PartialEq, Eq, Structural, Debug)]
pub struct Point {
    pub x: i64,
    pub y: i64,
}

impl Point {
    pub fn new(x: i64, y: i64) -> (r: Point)
        ensures
            r.x == x,
            r.y == y,
    {
        Point { x, y }
    }
}

/// An axis-aligned box given by its center and its half extents.
#[derive(Clone, Copy, PartialEq, Eq, Structural, Debug)]
pub struct Rect {
    pub center: Point,
    pub half: Point,
}

/// The face of the obstacle that a moving box struck, or `Inside` when no
/// single face can be named on either axis.
#[derive(Clone, Copy, PartialEq, Eq, Structural, Debug)]
pub enum Side {
    Left,
    Right,
    Top,
    Bottom,
    Inside,
}

impl Rect {
    pub fn new(center: Point, half: Point) -> (r: Rect)
        ensures
            r.center == center,
            r.half == half,
    {
        Rect { center, half }
    }

    pub open spec fn min_x(self) -> int {
        self.center.x - self.half.x
    }

    pub open spec fn max_x(self) -> int {
        self.center.x + self.half.x
    }

    pub open spec fn min_y(self) -> int {
        self.center.y - self.half.y
    }

    pub open spec fn max_y(self) -> int {
        self.center.y + self.half.y
    }
}

/// The two boxes share some area (touching edges do not count).
pub open spec fn intersects(a: Rect, b: Rect) -> bool {
    a.min_x() < b.max_x() && a.max_x() > b.min_x() && a.min_y() < b.max_y() && a.max_y()
        > b.min_y()
}

/// On one axis: 1 when `a` straddles the low face of `b` only, 2 when it
/// straddles the high face only, 0 otherwise.
pub open spec fn face_kind(a_lo: int, a_hi: int, b_lo: int, b_hi: int) -> u8 {
    if a_lo < b_lo && a_hi > b_lo && a_hi < b_hi {
        1
    } else if a_lo > b_lo && a_lo < b_hi && a_hi > b_hi {
        2
    } else {
        0
    }
}

/// On one axis: how far `a` reaches past the face that `face_kind` names.
pub open spec fn face_depth(a_lo: int, a_hi: int, b_lo: int, b_hi: int) -> int {
    if face_kind(a_lo, a_hi, b_lo, b_hi) == 1 {
        a_hi - b_lo
    } else {
        b_hi - a_lo
    }
}

pub open spec fn x_side(a: Rect, b: Rect) -> Side {
    let k = face_kind(a.min_x(), a.max_x(), b.min_x(), b.max_x());
    if k == 1 {
        Side::Left
    } else if k == 2 {
        Side::Right
    } else {
        Side::Inside
    }
}

pub open spec fn y_side(a: Rect, b: Rect) -> Side {
    let k = face_kind(a.min_y(), a.max_y(), b.min_y(), b.max_y());
    if k == 1 {
        Side::Bottom
    } else if k == 2 {
        Side::Top
    } else {
        Side::Inside
    }
}

/// Which face of `b` the box `a` struck, if the two intersect. A face is
/// named on each axis where `a` crosses exactly one face of `b`; where both
/// axes name one, the axis of the shallower penetration wins, and a tie goes
/// to the x axis.
pub open spec fn overlap_spec(a: Rect, b: Rect) -> Option<Side> {
    if !intersects(a, b) {
        None
    } else {
        let xk = face_kind(a.min_x(), a.max_x(), b.min_x(), b.max_x());
        let yk = face_kind(a.min_y(), a.max_y(), b.min_y(), b.max_y());
        let xd = face_depth(a.min_x(), a.max_x(), b.min_x(), b.max_x());
        let yd = face_depth(a.min_y(), a.max_y(), b.min_y(), b.max_y());
        if yk != 0 && (xk == 0 || yd < xd) {
            Some(y_side(a, b))
        } else {
            Some(x_side(a, b))
        }
    }
}

fn face(a_lo: i128, a_hi: i128, b_lo: i128, b_hi: i128) -> (r: (u8, i128))
    requires
        -0x4000_0000_0000_0000_0000 <= a_lo <= 0x4000_0000_0000_0000_0000,
        -0x4000_0000_0000_0000_0000 <= a_hi <= 0x4000_0000_0000_0000_0000,
        -0x4000_0000_0000_0000_0000 <= b_lo <= 0x4000_0000_0000_0000_0000,
        -0x4000_0000_0000_0000_0000 <= b_hi <= 0x4000_0000_0000_0000_0000,
    ensures
        r.0 == face_kind(a_lo as int, a_hi as int, b_lo as int, b_hi as int),
        r.0 != 0 ==> r.1 == face_depth(a_lo as int, a_hi as int, b_lo as int, b_hi as int),
{
    if a_lo < b_lo && a_hi > b_lo && a_hi < b_hi {
        (1, a_hi - b_lo)
    } else if a_lo > b_lo && a_lo < b_hi && a_hi > b_hi {
        (2, b_hi - a_lo)
    } else {
        (0, 0)
    }
}

/// Tests the box `a` against the obstacle `b` and reports the face of `b`
/// that was struck.
pub fn overlap(a: &Rect, b: &Rect) -> (r: Option<Side>)
    ensures
        r == overlap_spec(*a, *b),
        r.is_some() == intersects(*a, *b),
{
    let a_min_x = a.center.x as i128 - a.half.x as i128;
    let a_max_x = a.center.x as i128 + a.half.x as i128;
    let a_min_y = a.center.y as i128 - a.half.y as i128;
    let a_max_y = a.center.y as i128 + a.half.y as i128;
    let b_min_x = b.center.x as i128 - b.half.x as i128;
    let b_max_x = b.center.x as i128 + b.half.x as i128;
    let b_min_y = b.center.y as i128 - b.half.y as i128;
    let b_max_y = b.center.y as i128 + b.half.y as i128;
    if !(a_min_x < b_max_x && a_max_x > b_min_x && a_min_y < b_max_y && a_max_y > b_min_y) {
        return None;
    }
    let (xk, xd) = face(a_min_x, a_max_x, b_min_x, b_max_x);
    let (yk, yd) = face(a_min_y, a_max_y, b_min_y, b_max_y);
    if yk != 0 && (xk == 0 || yd < xd) {
        if yk == 1 {
            Some(Side::Bottom)
        } else {
            Some(Side::Top)
        }
    } else if xk == 1 {
        Some(Side::Left)
    } else if xk == 2 {
        Some(Side::Right)
    } else {
        Some(Side::Inside)
    }
}

} // verus!
