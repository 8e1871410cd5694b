use vstd::prelude::*;

verus! {

/// Absolute value over the mathematical integers.
pub open spec fn abs(x: int) -> int {
    if x < 0 {
        -x
    } else {
        x
    }
}

/// Sign of an integer: -1, 0 or 1.
pub open spec fn sign(x: int) -> int {
    if x > 0 {
        1
    } else if x < 0 {
        -1
    } else {
        0
    }
}

/// Division rounding toward zero, as Rust's `/` on integers does.
pub open spec fn trunc_div(a: int, b: int) -> int {
    if a >= 0 && b > 0 {
        a / b
    } else if a < 0 && b > 0 {
        -((-a) / b)
    } else if a >= 0 && b < 0 {
        -(a / (-b))
    } else {
        (-a) / (-b)
    }
}

/// Rust's `/` on `i32`, stated as [`trunc_div`].
fn div_i32(a: i32, b: i32) -> (q: i32)
    requires
        b != 0,
        !(b == -1 && a == i32::MIN),
    ensures
        q == trunc_div(a as int, b as int),
{
    if b > 0 {
        let q = a / b;
        assert(a >= 0 ==> q == (a as int) / (b as int));
        assert(a < 0 ==> q == -((-(a as int)) / (b as int)));
        q
    } else if b == i32::MIN {
        if a == i32::MIN {
            1
        } else {
            0
        }
    } else {
        let nb: i32 = -b;
        let p = a / nb;
        assert(a >= 0 ==> p == (a as int) / (nb as int));
        assert(a < 0 ==> p == -((-(a as int)) / (nb as int)));
        assert(p != i32::MIN) by {
            if a < 0 {
                assert(nb >= 2 || a > i32::MIN);
                assert((-(a as int)) / (nb as int) <= (-(a as int))) by (nonlinear_arith)
                    requires
                        nb >= 1,
                        a < 0,
                ;
                if nb >= 2 {
                    assert((-(a as int)) / (nb as int) <= (-(a as int)) / 2) by (nonlinear_arith)
                        requires
                            nb >= 2,
                            a < 0,
                    ;
                }
            }
        }
        -p
    }
}

/// Whether a value fits an `i32`.
pub open spec fn fits_i32(x: int) -> bool {
    i32::MIN <= x <= i32::MAX
}

/// Manhattan distance of two points given by their coordinates.
pub open spec fn manhattan_dist(ax: int, ay: int, bx: int, by: int) -> int {
    abs(ax - bx) + abs(ay - by)
}

/// Chebyshev distance of two points given by their coordinates.
pub open spec fn chebyshev_dist(ax: int, ay: int, bx: int, by: int) -> int {
    if abs(ax - bx) >= abs(ay - by) {
        abs(ax - bx)
    } else {
        abs(ay - by)
    }
}

/// `|x|` for a machine integer, for callers that know it cannot overflow.
pub fn abs_i32(x: i32) -> (r: i32)
    requires
        x != i32::MIN,
    ensures
        r == abs(x as int),
{
    if x < 0 {
        -x
    } else {
        x
    }
}

/// Integer 2D vector / grid position.
#[derive(Clone, Copy, Debug, PartialEq, Eq, Structural, Hash)]
pub struct Vec2 {
    pub x: i32,
    pub y: i32,
}

impl Vec2 {
    pub open spec fn manhattan_spec(self, rhs: Vec2) -> int {
        manhattan_dist(self.x as int, self.y as int, rhs.x as int, rhs.y as int)
    }

    pub open spec fn chebyshev_spec(self, rhs: Vec2) -> int {
        chebyshev_dist(self.x as int, self.y as int, rhs.x as int, rhs.y as int)
    }

    /// Both points are far enough from the `i32` limits that their distance can be computed.
    pub open spec fn distance_fits(self, rhs: Vec2) -> bool {
        &&& fits_i32(self.x - rhs.x)
        &&& fits_i32(self.y - rhs.y)
        &&& self.x - rhs.x != i32::MIN
        &&& self.y - rhs.y != i32::MIN
        &&& fits_i32(abs(self.x - rhs.x) + abs(self.y - rhs.y))
    }

    pub fn zero() -> (r: Vec2)
        ensures
            r.x == 0 && r.y == 0,
    {
        Vec2 { x: 0, y: 0 }
    }

    pub fn one() -> (r: Vec2)
        ensures
            r.x == 1 && r.y == 1,
    {
        Vec2 { x: 1, y: 1 }
    }

    pub fn unit_x() -> (r: Vec2)
        ensures
            r.x == 1 && r.y == 0,
    {
        Vec2 { x: 1, y: 0 }
    }

    pub fn unit_y() -> (r: Vec2)
        ensures
            r.x == 0 && r.y == 1,
    {
        Vec2 { x: 0, y: 1 }
    }

    pub fn new(x: i32, y: i32) -> (r: Vec2)
        ensures
            r.x == x && r.y == y,
    {
        Vec2 { x, y }
    }

    /// Not really normalized, but reduces both coordinates to `-1..=1` keeping their sign.
    pub fn as_direction(self) -> (r: Vec2)
        requires
            self.x != i32::MIN,
            self.y != i32::MIN,
        ensures
            r.x == sign(self.x as int),
            r.y == sign(self.y as int),
    {
        let x: i32 = if self.x > 0 {
            1
        } else if self.x < 0 {
            -1
        } else {
            0
        };
        let y: i32 = if self.y > 0 {
            1
        } else if self.y < 0 {
            -1
        } else {
            0
        };
        Vec2 { x, y }
    }

    pub fn len_sq(self) -> (r: i32)
        requires
            fits_i32(self.x * self.x + self.y * self.y),
        ensures
            r == self.x * self.x + self.y * self.y,
    {
        assert(0 <= self.x * self.x) by (nonlinear_arith);
        assert(0 <= self.y * self.y) by (nonlinear_arith);
        self.x * self.x + self.y * self.y
    }

    /// The coordinate differences of the points, and their sizes, fit an `i32`.
    pub open spec fn chebyshev_fits(self, rhs: Vec2) -> bool {
        &&& fits_i32(self.x - rhs.x)
        &&& fits_i32(self.y - rhs.y)
        &&& self.x - rhs.x != i32::MIN
        &&& self.y - rhs.y != i32::MIN
    }

    /// Chebyshev distance from self to the other
    pub fn chebyshev(self, rhs: Vec2) -> (r: i32)
        requires
            self.chebyshev_fits(rhs),
        ensures
            r == self.chebyshev_spec(rhs),
    {
        let dx = abs_i32(self.x - rhs.x);
        let dy = abs_i32(self.y - rhs.y);
        if dx >= dy {
            dx
        } else {
            dy
        }
    }

    pub fn manhatten(self, rhs: Vec2) -> (r: i32)
        requires
            self.distance_fits(rhs),
        ensures
            r == self.manhattan_spec(rhs),
    {
        abs_i32(self.x - rhs.x) + abs_i32(self.y - rhs.y)
    }

    pub fn splat(val: i32) -> (r: Vec2)
        ensures
            r.x == val && r.y == val,
    {
        Vec2 { x: val, y: val }
    }

    pub fn dot(self, rhs: Vec2) -> (r: i32)
        requires
            fits_i32(self.x * rhs.x),
            fits_i32(self.y * rhs.y),
            fits_i32(self.x * rhs.x + self.y * rhs.y),
        ensures
            r == self.x * rhs.x + self.y * rhs.y,
    {
        self.x * rhs.x + self.y * rhs.y
    }

    /// The eight surrounding positions, row by row.
    pub fn neighbours(&self) -> (r: [Vec2; 8])
        requires
            i32::MIN < self.x < i32::MAX,
            i32::MIN < self.y < i32::MAX,
        ensures
            r[0].x == self.x - 1 && r[0].y == self.y - 1,
            r[1].x == self.x && r[1].y == self.y - 1,
            r[2].x == self.x + 1 && r[2].y == self.y - 1,
            r[3].x == self.x - 1 && r[3].y == self.y,
            r[4].x == self.x + 1 && r[4].y == self.y,
            r[5].x == self.x - 1 && r[5].y == self.y + 1,
            r[6].x == self.x && r[6].y == self.y + 1,
            r[7].x == self.x + 1 && r[7].y == self.y + 1,
    {
        let x = self.x;
        let y = self.y;
        [
            Vec2::new(x - 1, y - 1),
            Vec2::new(x, y - 1),
            Vec2::new(x + 1, y - 1),
            Vec2::new(x - 1, y),
            Vec2::new(x + 1, y),
            Vec2::new(x - 1, y + 1),
            Vec2::new(x, y + 1),
            Vec2::new(x + 1, y + 1),
        ]
    }

    pub fn add(self, rhs: Vec2) -> (r: Vec2)
        requires
            fits_i32(self.x + rhs.x),
            fits_i32(self.y + rhs.y),
        ensures
            r.x == self.x + rhs.x,
            r.y == self.y + rhs.y,
    {
        let mut res = self;
        res.add_assign(rhs);
        res
    }

    pub fn add_assign(&mut self, rhs: Vec2)
        requires
            fits_i32(old(self).x + rhs.x),
            fits_i32(old(self).y + rhs.y),
        ensures
            final(self).x == old(self).x + rhs.x,
            final(self).y == old(self).y + rhs.y,
    {
        self.x = self.x + rhs.x;
        self.y = self.y + rhs.y;
    }

    pub fn sub(self, rhs: Vec2) -> (r: Vec2)
        requires
            fits_i32(self.x - rhs.x),
            fits_i32(self.y - rhs.y),
        ensures
            r.x == self.x - rhs.x,
            r.y == self.y - rhs.y,
    {
        let mut res = self;
        res.sub_assign(rhs);
        res
    }

    pub fn sub_assign(&mut self, rhs: Vec2)
        requires
            fits_i32(old(self).x - rhs.x),
            fits_i32(old(self).y - rhs.y),
        ensures
            final(self).x == old(self).x - rhs.x,
            final(self).y == old(self).y - rhs.y,
    {
        self.x = self.x - rhs.x;
        self.y = self.y - rhs.y;
    }

    pub fn mul(self, rhs: i32) -> (r: Vec2)
        requires
            fits_i32(self.x * rhs),
            fits_i32(self.y * rhs),
        ensures
            r.x == self.x * rhs,
            r.y == self.y * rhs,
    {
        Vec2 { x: self.x * rhs, y: self.y * rhs }
    }

    /// Component-wise division, rounding toward zero as Rust's `/` does.
    pub fn div(self, rhs: i32) -> (r: Vec2)
        requires
            rhs != 0,
            !(rhs == -1 && (self.x == i32::MIN || self.y == i32::MIN)),
        ensures
            r.x == trunc_div(self.x as int, rhs as int),
            r.y == trunc_div(self.y as int, rhs as int),
    {
        Vec2 { x: div_i32(self.x, rhs), y: div_i32(self.y, rhs) }
    }

    pub fn neg(self) -> (r: Vec2)
        requires
            self.x != i32::MIN,
            self.y != i32::MIN,
        ensures
            r.x == -self.x,
            r.y == -self.y,
    {
        Vec2 { x: -self.x, y: -self.y }
    }

    /// Coordinate by number: `0` is `x`, anything else is `y`.
    pub fn index(&self, index: usize) -> (r: i32)
        ensures
            index == 0 ==> r == self.x,
            index != 0 ==> r == self.y,
    {
        if index == 0 {
            self.x
        } else {
            self.y
        }
    }
}


/// `a` comes before `b` row by row: in an earlier row, or further left in the same one.
pub open spec fn row_major_before(a: Vec2, b: Vec2) -> bool {
    a.y < b.y || (a.y == b.y && a.x < b.x)
}

/// Every cell of the rectangle spanned by `from` and `to` (both included), row by row.
pub fn walk_square(from: Vec2, to: Vec2) -> (r: Vec<Vec2>)
    requires
        from.x <= to.x,
        from.y <= to.y,
    ensures
        forall|i: int|
            0 <= i < r@.len() ==> from.x <= (#[trigger] r@[i]).x <= to.x && from.y <= r@[i].y <= to.y,
        forall|x: int, y: int|
            from.x <= x <= to.x && from.y <= y <= to.y ==> #[trigger] r@.contains(Vec2 { x: x as i32, y: y as i32 }),
        forall|i: int, j: int| 0 <= i < j < r@.len() ==> row_major_before(#[trigger] r@[i], #[trigger] r@[j]),
{
    let mut r: Vec<Vec2> = Vec::new();
    // the counters run one past `to`, which may be `i32::MAX`, so they are wider
    let mut y: i64 = from.y as i64;
    while y <= to.y as i64
        invariant
            from.x <= to.x,
            from.y <= y <= to.y + 1,
            forall|i: int|
                0 <= i < r@.len() ==> from.x <= (#[trigger] r@[i]).x <= to.x && from.y <= r@[i].y < y,
            forall|xx: int, yy: int|
                from.x <= xx <= to.x && from.y <= yy < y ==> #[trigger] r@.contains(Vec2 { x: xx as i32, y: yy as i32 }),
            forall|i: int, j: int| 0 <= i < j < r@.len() ==> row_major_before(#[trigger] r@[i], #[trigger] r@[j]),
        decreases to.y + 1 - y,
    {
        let mut x: i64 = from.x as i64;
        while x <= to.x as i64
            invariant
                from.x <= x <= to.x + 1,
                from.y <= y <= to.y,
                forall|i: int|
                    0 <= i < r@.len() ==> from.x <= (#[trigger] r@[i]).x <= to.x && from.y <= r@[i].y <= y
                        && (r@[i].y < y || (r@[i].y == y && r@[i].x < x)),
                forall|xx: int, yy: int|
                    from.x <= xx <= to.x && (from.y <= yy < y || (yy == y && xx < x)) ==> #[trigger] r@.contains(
                        Vec2 { x: xx as i32, y: yy as i32 },
                    ),
                forall|i: int, j: int| 0 <= i < j < r@.len() ==> row_major_before(#[trigger] r@[i], #[trigger] r@[j]),
            decreases to.x + 1 - x,
        {
            let ghost before = r@;
            let cell = Vec2::new(x as i32, y as i32);
            r.push(cell);
            proof {
                assert(r@[before.len() as int] == cell);
                assert forall|xx: int, yy: int|
                    from.x <= xx <= to.x && (from.y <= yy < y || (yy == y && xx < x + 1)) implies #[trigger] r@.contains(
                        Vec2 { x: xx as i32, y: yy as i32 },
                    ) by {
                    if yy == y && xx == x {
                        assert(r@[before.len() as int] == Vec2 { x: xx as i32, y: yy as i32 });
                    } else {
                        assert(before.contains(Vec2 { x: xx as i32, y: yy as i32 }));
                        let i = choose|i: int| 0 <= i < before.len() && before[i] == Vec2 { x: xx as i32, y: yy as i32 };
                        assert(r@[i] == before[i]);
                    }
                }
            }
            x = x + 1;
        }
        y = y + 1;
    }
    r
}

} // verus!
