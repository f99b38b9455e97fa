use vstd::prelude::*;

verus! {

/// A 2-D coordinate or offset. Neighbor enumeration works in this signed
/// domain; grid code converts back after bounds-checking.
#[derive(Debug, Clone, Copy, PartialEq, Eq, Hash, Structural)]
pub struct Point {
    pub x: i64,
    pub y: i64,
}

/// Magnitude of a signed value.
pub open spec fn abs_val(v: int) -> int {
    if v < 0 {
        -v
    } else {
        v
    }
}

/// Larger of two values.
pub open spec fn max_val(a: int, b: int) -> int {
    if a < b {
        b
    } else {
        a
    }
}

/// The cell directly above (one step north).
pub open spec fn north_of(p: Point) -> Point {
    Point { x: p.x, y: (p.y - 1) as i64 }
}

/// The cell directly to the right (one step east).
pub open spec fn east_of(p: Point) -> Point {
    Point { x: (p.x + 1) as i64, y: p.y }
}

/// The cell directly below (one step south).
pub open spec fn south_of(p: Point) -> Point {
    Point { x: p.x, y: (p.y + 1) as i64 }
}

/// The cell directly to the left (one step west).
pub open spec fn west_of(p: Point) -> Point {
    Point { x: (p.x - 1) as i64, y: p.y }
}

/// Two cells are cardinal neighbors when they differ by exactly one step
/// along exactly one axis.
pub open spec fn cardinal_adjacent(a: Point, b: Point) -> bool {
    abs_val(a.x - b.x) + abs_val(a.y - b.y) == 1
}

impl Point {
    /// Componentwise sum.
    pub fn add(self, other: Self) -> (r: Self)
        requires
            i64::MIN <= self.x + other.x <= i64::MAX,
            i64::MIN <= self.y + other.y <= i64::MAX,
        ensures
            r.x == self.x + other.x,
            r.y == self.y + other.y,
    {
        Point { x: self.x + other.x, y: self.y + other.y }
    }

    /// Componentwise difference.
    pub fn sub(self, other: Self) -> (r: Self)
        requires
            i64::MIN <= self.x - other.x <= i64::MAX,
            i64::MIN <= self.y - other.y <= i64::MAX,
        ensures
            r.x == self.x - other.x,
            r.y == self.y - other.y,
    {
        Point { x: self.x - other.x, y: self.y - other.y }
    }

    /// Manhattan distance: the sum of the componentwise magnitudes.
    pub fn taxicab_distance(&self, other: Self) -> (r: i64)
        requires
            abs_val(self.x - other.x) + abs_val(self.y - other.y) <= i64::MAX,
        ensures
            r == abs_val(self.x - other.x) + abs_val(self.y - other.y),
    {
        let dx = if self.x < other.x {
            other.x - self.x
        } else {
            self.x - other.x
        };
        let dy = if self.y < other.y {
            other.y - self.y
        } else {
            self.y - other.y
        };
        dx + dy
    }

    /// Chebyshev distance: the larger of the componentwise magnitudes.
    pub fn chebyshev_distance(&self, other: Self) -> (r: i64)
        requires
            abs_val(self.x - other.x) <= i64::MAX,
            abs_val(self.y - other.y) <= i64::MAX,
        ensures
            r == max_val(abs_val(self.x - other.x), abs_val(self.y - other.y)),
    {
        let dx = if self.x < other.x {
            other.x - self.x
        } else {
            self.x - other.x
        };
        let dy = if self.y < other.y {
            other.y - self.y
        } else {
            self.y - other.y
        };
        if dx < dy {
            dy
        } else {
            dx
        }
    }

    /// The four cardinal neighbors, in the fixed order north, east, south,
    /// west. Downstream tie-breaking depends on this order being stable.
    pub fn cardinal_points(&self) -> (r: Vec<Point>)
        requires
            i64::MIN < self.x < i64::MAX,
            i64::MIN < self.y < i64::MAX,
        ensures
            r@ == seq![
                north_of(*self),
                east_of(*self),
                south_of(*self),
                west_of(*self),
            ],
    {
        let mut res: Vec<Point> = Vec::new();
        res.push(Point { x: self.x, y: self.y - 1 });
        res.push(Point { x: self.x + 1, y: self.y });
        res.push(Point { x: self.x, y: self.y + 1 });
        res.push(Point { x: self.x - 1, y: self.y });
        res
    }

    /// The four ordinal (diagonal) neighbors, clockwise from northeast.
    pub fn ordinal_points(&self) -> (r: Vec<Point>)
        requires
            i64::MIN < self.x < i64::MAX,
            i64::MIN < self.y < i64::MAX,
        ensures
            r@ == seq![
                Point { x: (self.x + 1) as i64, y: (self.y - 1) as i64 },
                Point { x: (self.x + 1) as i64, y: (self.y + 1) as i64 },
                Point { x: (self.x - 1) as i64, y: (self.y + 1) as i64 },
                Point { x: (self.x - 1) as i64, y: (self.y - 1) as i64 },
            ],
    {
        let mut res: Vec<Point> = Vec::new();
        res.push(Point { x: self.x + 1, y: self.y - 1 });
        res.push(Point { x: self.x + 1, y: self.y + 1 });
        res.push(Point { x: self.x - 1, y: self.y + 1 });
        res.push(Point { x: self.x - 1, y: self.y - 1 });
        res
    }

    /// All eight neighbors clockwise from north: the cardinal and ordinal
    /// neighbors interleaved.
    pub fn compass_points(&self) -> (r: Vec<Point>)
        requires
            i64::MIN < self.x < i64::MAX,
            i64::MIN < self.y < i64::MAX,
        ensures
            r@ == seq![
                north_of(*self),
                Point { x: (self.x + 1) as i64, y: (self.y - 1) as i64 },
                east_of(*self),
                Point { x: (self.x + 1) as i64, y: (self.y + 1) as i64 },
                south_of(*self),
                Point { x: (self.x - 1) as i64, y: (self.y + 1) as i64 },
                west_of(*self),
                Point { x: (self.x - 1) as i64, y: (self.y - 1) as i64 },
            ],
    {
        let cardinals = self.cardinal_points();
        let ordinals = self.ordinal_points();
        let mut res: Vec<Point> = Vec::new();
        let mut i: usize = 0;
        while i < 4
            invariant
                cardinals@.len() == 4,
                ordinals@.len() == 4,
                i <= 4,
                res@.len() == 2 * i,
                forall|j: int|
                    0 <= j < i ==> res@[2 * j] == cardinals@[j] && res@[2 * j + 1] == ordinals@[j],
            decreases 4 - i,
        {
            res.push(cardinals[i]);
            res.push(ordinals[i]);
            i += 1;
        }
        res
    }
}

} // verus!
