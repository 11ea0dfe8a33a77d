//! Fixed-point plane geometry.
//!
//! Every length, coordinate and time span of the simulator is an integer count
//! of `1 / UNIT`: of world pixels for lengths, of seconds for times. Sums,
//! halves and comparisons are therefore exact.
use vstd::prelude::*;

verus! {

/// How many units make one world pixel (or one second).
pub const UNIT: i64 = 0x1_0000_0000;

/// Edges of rectangles and coordinates of points stay within this many units of
/// the origin, so that no sum or difference of two of them leaves an `i64`.
pub const COORD_LIMIT: i64 = 0x1000_0000_0000_0000;

/// A point or a displacement.
#[derive(Clone, Copy, Debug, PartialEq, Eq, Structural)]
pub struct Vec2 {
    pub x: i64,
    pub y: i64,
}

/// An axis-aligned rectangle, given by its top-left corner and its extents.
#[derive(Clone, Copy, Debug, PartialEq, Eq, Structural)]
pub struct Rect {
    pub x: i64,
    pub y: i64,
    pub w: i64,
    pub h: i64,
}

/// Half of `v`, rounded toward zero.
pub open spec fn half_of(v: int) -> int {
    if v >= 0 {
        v / 2
    } else {
        -((-v) / 2)
    }
}

/// `v` brought into the interval from `lo` to `hi`.
pub open spec fn clamped(v: int, lo: int, hi: int) -> int {
    if v < lo {
        lo
    } else if v > hi {
        hi
    } else {
        v
    }
}

/// Two spans, each from one end to the other, share more than an end. A span without
/// an extent has nothing else to share: there a common end is enough.
pub open spec fn spans_meet(a: int, a_end: int, b: int, b_end: int) -> bool {
    if a < a_end && b < b_end {
        a < b_end && b < a_end
    } else {
        a <= b_end && b <= a_end
    }
}

/// The square of `v`.
pub open spec fn square(v: int) -> int {
    v * v
}

/// `r` is the square root of `n`, rounded down.
pub open spec fn is_floor_sqrt(r: int, n: int) -> bool {
    0 <= r && square(r) <= n < square(r + 1)
}

/// The square root of `n`, rounded down.
pub open spec fn floor_sqrt(n: int) -> int {
    choose|r: int| is_floor_sqrt(r, n)
}

impl Vec2 {
    pub open spec fn in_range(self) -> bool {
        &&& -COORD_LIMIT <= self.x <= COORD_LIMIT
        &&& -COORD_LIMIT <= self.y <= COORD_LIMIT
    }

    /// The square of the distance between two points.
    pub open spec fn distance_squared_to(self, other: Vec2) -> int {
        square(self.x - other.x) + square(self.y - other.y)
    }

    /// The distance between two points, rounded down to whole units.
    pub open spec fn distance_to(self, other: Vec2) -> int {
        floor_sqrt(self.distance_squared_to(other))
    }

    /// `self` lies in the closed disc of the given radius around `center`.
    pub open spec fn within(self, center: Vec2, radius: int) -> bool {
        radius >= 0 && self.distance_squared_to(center) <= square(radius)
    }
}

impl Rect {
    pub open spec fn right(self) -> int {
        self.x + self.w
    }

    pub open spec fn bottom(self) -> int {
        self.y + self.h
    }

    /// All four edges are coordinates that the arithmetic can hold.
    pub open spec fn in_range(self) -> bool {
        &&& -COORD_LIMIT <= self.x <= COORD_LIMIT
        &&& -COORD_LIMIT <= self.y <= COORD_LIMIT
        &&& -COORD_LIMIT <= self.right() <= COORD_LIMIT
        &&& -COORD_LIMIT <= self.bottom() <= COORD_LIMIT
    }

    /// Neither extent is negative.
    pub open spec fn upright(self) -> bool {
        self.w >= 0 && self.h >= 0
    }

    /// The two rectangles share at least one point, edges included.
    pub open spec fn touches(self, other: Rect) -> bool {
        &&& self.x <= other.right()
        &&& self.right() >= other.x
        &&& self.y <= other.bottom()
        &&& self.bottom() >= other.y
    }

    /// The two rectangles share more than edges: their interiors overlap. In a
    /// direction in which one of them has no extent, edges count.
    pub open spec fn meets(self, other: Rect) -> bool {
        &&& spans_meet(self.x as int, self.right(), other.x as int, other.right())
        &&& spans_meet(self.y as int, self.bottom(), other.y as int, other.bottom())
    }

    /// `inner` lies inside `self`, edges included.
    pub open spec fn encloses(self, inner: Rect) -> bool {
        &&& self.x <= inner.x
        &&& inner.right() <= self.right()
        &&& self.y <= inner.y
        &&& inner.bottom() <= self.bottom()
    }

    /// The point lies inside, edges included.
    pub open spec fn holds(self, p: Vec2) -> bool {
        &&& self.x <= p.x <= self.right()
        &&& self.y <= p.y <= self.bottom()
    }

    /// The middle of the rectangle.
    pub open spec fn middle(self) -> Vec2 {
        Vec2 {
            x: (self.x + half_of(self.w as int)) as i64,
            y: (self.y + half_of(self.h as int)) as i64,
        }
    }

    /// The quadrant with the given number: 0 is top-left, 1 top-right,
    /// 2 bottom-left and 3 bottom-right.
    pub open spec fn quadrant(self, i: int) -> Rect {
        let hw = half_of(self.w as int);
        let hh = half_of(self.h as int);
        Rect {
            x: (if i == 1 || i == 3 { self.x + hw } else { self.x as int }) as i64,
            y: (if i == 2 || i == 3 { self.y + hh } else { self.y as int }) as i64,
            w: hw as i64,
            h: hh as i64,
        }
    }

    pub fn new(x: i64, y: i64, w: i64, h: i64) -> (r: Rect)
        ensures
            r == (Rect { x, y, w, h }),
    {
        Rect { x, y, w, h }
    }

    /// Checks whether the rectangle overlaps another one. Rectangles that only
    /// share an edge or a corner overlap.
    pub fn overlaps(&self, other: &Rect) -> (res: bool)
        requires
            self.in_range(),
            other.in_range(),
        ensures
            res == self.touches(*other),
    {
        self.x <= other.x + other.w && self.x + self.w >= other.x && self.y <= other.y + other.h
            && self.y + self.h >= other.y
    }

    /// Checks whether the rectangle and another one share more than edges. In a
    /// direction in which one of them has no extent, edges count.
    pub fn intersects(&self, other: &Rect) -> (res: bool)
        requires
            self.in_range(),
            other.in_range(),
        ensures
            res == self.meets(*other),
    {
        spans_share(self.x, self.x + self.w, other.x, other.x + other.w) && spans_share(
            self.y,
            self.y + self.h,
            other.y,
            other.y + other.h,
        )
    }

    /// Checks whether the point lies in the rectangle or on its edge.
    pub fn contains(&self, p: Vec2) -> (res: bool)
        requires
            self.in_range(),
        ensures
            res == self.holds(p),
    {
        p.x >= self.x && p.x <= self.x + self.w && p.y >= self.y && p.y <= self.y + self.h
    }

    /// The point halfway between the edges.
    pub fn center(&self) -> (p: Vec2)
        requires
            self.in_range(),
        ensures
            p == self.middle(),
            p.in_range(),
    {
        Vec2 { x: self.x + half(self.w), y: self.y + half(self.h) }
    }

    /// One of the four quadrants.
    pub fn quarter(&self, i: usize) -> (q: Rect)
        requires
            self.in_range(),
        ensures
            q == self.quadrant(i as int),
            q.in_range(),
    {
        let hw: i64 = half(self.w);
        let hh: i64 = half(self.h);
        Rect {
            x: if i == 1 || i == 3 {
                self.x + hw
            } else {
                self.x
            },
            y: if i == 2 || i == 3 {
                self.y + hh
            } else {
                self.y
            },
            w: hw,
            h: hh,
        }
    }

    /// The two rectangles agree in position and extents up to less than `epsilon`.
    pub open spec fn near(self, other: Rect, epsilon: int) -> bool {
        &&& -epsilon < self.x - other.x < epsilon
        &&& -epsilon < self.y - other.y < epsilon
        &&& -epsilon < self.w - other.w < epsilon
        &&& -epsilon < self.h - other.h < epsilon
    }

    /// Checks whether two rectangles agree up to less than `epsilon`.
    pub fn is_near(&self, other: &Rect, epsilon: i64) -> (res: bool)
        requires
            self.in_range(),
            other.in_range(),
            epsilon >= 0,
        ensures
            res == self.near(*other, epsilon as int),
    {
        let dx: i64 = self.x - other.x;
        let dy: i64 = self.y - other.y;
        let dw: i64 = self.w - other.w;
        let dh: i64 = self.h - other.h;
        -epsilon < dx && dx < epsilon && -epsilon < dy && dy < epsilon && -epsilon < dw && dw
            < epsilon && -epsilon < dh && dh < epsilon
    }
}

/// Checks whether two spans share more than an end, or an end where one of them has no
/// extent.
fn spans_share(a: i64, a_end: i64, b: i64, b_end: i64) -> (res: bool)
    ensures
        res == spans_meet(a as int, a_end as int, b as int, b_end as int),
{
    if a < a_end && b < b_end {
        a < b_end && b < a_end
    } else {
        a <= b_end && b <= a_end
    }
}

/// Half of `v`, rounded toward zero.
pub fn half(v: i64) -> (r: i64)
    requires
        v > i64::MIN,
    ensures
        r == half_of(v as int),
        v >= 0 ==> 0 <= r <= v,
        v <= 0 ==> v <= r <= 0,
{
    if v >= 0 {
        v / 2
    } else {
        -((-v) / 2)
    }
}

impl Vec2 {
    pub fn new(x: i64, y: i64) -> (p: Vec2)
        ensures
            p == (Vec2 { x, y }),
    {
        Vec2 { x, y }
    }

    /// The square of the distance to another point.
    pub fn distance_squared(&self, other: Vec2) -> (d: i128)
        requires
            self.in_range(),
            other.in_range(),
        ensures
            d == self.distance_squared_to(other),
            0 <= d <= 0x800_0000_0000_0000_0000_0000_0000_0000,
    {
        let dx: i128 = self.x as i128 - other.x as i128;
        let dy: i128 = self.y as i128 - other.y as i128;
        proof {
            lemma_square_bound(dx as int, 0x2000_0000_0000_0000);
            lemma_square_bound(dy as int, 0x2000_0000_0000_0000);
        }
        dx * dx + dy * dy
    }

    /// The distance to another point, rounded down to whole units.
    pub fn distance(&self, other: Vec2) -> (d: i64)
        requires
            self.in_range(),
            other.in_range(),
        ensures
            d == self.distance_to(other),
            0 <= d <= 0x3000_0000_0000_0000,
    {
        let n: i128 = self.distance_squared(other);
        let r: u64 = integer_sqrt(n as u128);
        proof {
            assert(0x3000_0000_0000_0000int * 0x3000_0000_0000_0000int
                > 0x800_0000_0000_0000_0000_0000_0000_0000int);
            if r > 0x3000_0000_0000_0000 {
                lemma_square_monotone(0x3000_0000_0000_0000, r as int);
            }
            lemma_floor_sqrt_is(r as int, n as int);
        }
        r as i64
    }

    /// Checks whether the point lies in the closed disc around `center`.
    pub fn is_within(&self, center: Vec2, radius: i64) -> (res: bool)
        requires
            self.in_range(),
            center.in_range(),
            radius <= COORD_LIMIT,
        ensures
            res == self.within(center, radius as int),
    {
        if radius < 0 {
            return false;
        }
        proof {
            lemma_square_bound(radius as int, COORD_LIMIT as int);
        }
        let r: i128 = radius as i128;
        self.distance_squared(center) <= r * r
    }
}

/// The square root of `n`, rounded down.
pub fn integer_sqrt(n: u128) -> (r: u64)
    ensures
        is_floor_sqrt(r as int, n as int),
        r * r <= n < (r + 1) * (r + 1),
{
    let mut lo: u128 = 0;
    let mut hi: u128 = 0x1_0000_0000_0000_0000;
    while hi - lo > 1
        invariant
            0 <= lo < hi <= 0x1_0000_0000_0000_0000,
            square(lo as int) <= n < square(hi as int),
        decreases hi - lo,
    {
        let mid: u128 = lo + (hi - lo) / 2;
        proof {
            lemma_square_bound(mid as int, 0xffff_ffff_ffff_ffff);
        }
        if mid * mid <= n {
            lo = mid;
        } else {
            hi = mid;
        }
    }
    lo as u64
}

/// A square grows with the magnitude of its root.
pub proof fn lemma_square_monotone(a: int, b: int)
    requires
        0 <= a <= b,
    ensures
        square(a) <= square(b),
        a < b ==> square(a) < square(b),
{
    assert(a * a <= b * b && (a < b ==> a * a < b * b)) by (nonlinear_arith)
        requires
            0 <= a <= b,
    ;
}

/// Bounds a square by the square of a bound on the magnitude.
pub proof fn lemma_square_bound(v: int, bound: int)
    requires
        -bound <= v <= bound,
    ensures
        0 <= square(v) <= square(bound),
        v * v == square(v),
{
    assert(0 <= v * v <= bound * bound) by (nonlinear_arith)
        requires
            -bound <= v <= bound,
    ;
}

/// There is only one rounded-down square root.
pub proof fn lemma_floor_sqrt_is(r: int, n: int)
    requires
        is_floor_sqrt(r, n),
    ensures
        floor_sqrt(n) == r,
{
    let c = floor_sqrt(n);
    assert(is_floor_sqrt(c, n));
    if c < r {
        lemma_square_monotone(c + 1, r);
    }
    if r < c {
        lemma_square_monotone(r + 1, c);
    }
}

/// Every natural number has a rounded-down square root.
pub proof fn lemma_floor_sqrt(n: int)
    requires
        n >= 0,
    ensures
        is_floor_sqrt(floor_sqrt(n), n),
    decreases n,
{
    if n == 0 {
        assert(is_floor_sqrt(0, 0));
    } else {
        lemma_floor_sqrt(n - 1);
        let r = floor_sqrt(n - 1);
        lemma_square_monotone(r + 1, r + 2);
        assert(is_floor_sqrt(r, n) || is_floor_sqrt(r + 1, n));
    }
}

/// Two upright rectangles overlap exactly where some point lies in both, edges included.
pub proof fn law_overlap_is_a_common_point(a: Rect, b: Rect)
    requires
        a.in_range() && a.w >= 0 && a.h >= 0,
        b.in_range() && b.w >= 0 && b.h >= 0,
    ensures
        a.touches(b) <==> exists|x: int, y: int| #[trigger]
            in_both(x, a.x as int, a.x + a.w, b.x as int, b.x + b.w) && #[trigger] in_both(
                y,
                a.y as int,
                a.y + a.h,
                b.y as int,
                b.y + b.h,
            ),
{
    let x = if a.x >= b.x {
        a.x as int
    } else {
        b.x as int
    };
    let y = if a.y >= b.y {
        a.y as int
    } else {
        b.y as int
    };
    if a.touches(b) {
        assert(in_both(x, a.x as int, a.x + a.w, b.x as int, b.x + b.w));
        assert(in_both(y, a.y as int, a.y + a.h, b.y as int, b.y + b.h));
    }
}

/// The coordinate lies in both spans, ends included.
pub open spec fn in_both(v: int, a: int, a_end: int, b: int, b_end: int) -> bool {
    a <= v <= a_end && b <= v <= b_end
}

/// Rectangles that have an area share more than edges exactly where the left and the top
/// edge of each lie before the right and the bottom edge of the other. A rectangle that
/// is only a point shares more than edges with all that hold the point.
pub proof fn law_meeting_is_more_than_bordering(a: Rect, b: Rect)
    requires
        a.w > 0 && a.h > 0,
    ensures
        b.w > 0 && b.h > 0 ==> (a.meets(b) <==> b.x - a.w < a.x < b.x + b.w && b.y - a.h < a.y < b.y
            + b.h),
        b.w == 0 && b.h == 0 ==> (a.meets(b) <==> a.x <= b.x <= a.x + a.w && a.y <= b.y <= a.y
            + a.h),
        b.w == 0 && b.h > 0 ==> (a.meets(b) <==> a.x <= b.x <= a.x + a.w && b.y - a.h < a.y < b.y
            + b.h),
        b.w > 0 && b.h == 0 ==> (a.meets(b) <==> b.x - a.w < a.x < b.x + b.w && a.y <= b.y <= a.y
            + a.h),
        a.meets(b) == b.meets(a),
{
}

/// The quadrants of an upright rectangle are half as wide and half as high, up to the
/// rounding, and lie in two columns and two rows that start at its corner.
pub proof fn law_quadrants_are_halves(r: Rect, i: int)
    requires
        r.in_range() && r.w >= 0 && r.h >= 0,
        0 <= i < 4,
    ensures
        ({
            let q = r.quadrant(i);
            &&& 2 * q.w <= r.w <= 2 * q.w + 1
            &&& 2 * q.h <= r.h <= 2 * q.h + 1
            &&& i % 2 == 0 ==> q.x == r.x
            &&& i % 2 == 1 ==> q.x == r.x + q.w
            &&& i < 2 ==> q.y == r.y
            &&& i >= 2 ==> q.y == r.y + q.h
        }),
{
}

/// The middle of an upright rectangle is as far from its left and top edge as from its
/// right and bottom edge, up to the rounding.
pub proof fn law_middle_is_halfway(r: Rect)
    requires
        r.in_range() && r.w >= 0 && r.h >= 0,
    ensures
        2 * (r.middle().x - r.x) <= r.w <= 2 * (r.middle().x - r.x) + 1,
        2 * (r.middle().y - r.y) <= r.h <= 2 * (r.middle().y - r.y) + 1,
{
}

/// The distance of two points is the whole number whose square does not exceed the sum
/// of the squares of the differences of their coordinates, while that of the next does.
pub proof fn law_distance_is_a_root(a: Vec2, b: Vec2)
    ensures
        ({
            let d = a.distance_to(b);
            let n = (a.x - b.x) * (a.x - b.x) + (a.y - b.y) * (a.y - b.y);
            0 <= d && d * d <= n < (d + 1) * (d + 1)
        }),
        a.distance_squared_to(b) == (a.x - b.x) * (a.x - b.x) + (a.y - b.y) * (a.y - b.y),
        a.distance_to(b) == b.distance_to(a),
{
    let dx = a.x - b.x;
    let dy = a.y - b.y;
    lemma_square_bound(dx, if dx >= 0 {
        dx
    } else {
        -dx
    });
    lemma_square_bound(dy, if dy >= 0 {
        dy
    } else {
        -dy
    });
    lemma_floor_sqrt(a.distance_squared_to(b));
    assert((-dx) * (-dx) == dx * dx) by (nonlinear_arith);
    assert((-dy) * (-dy) == dy * dy) by (nonlinear_arith);
    assert(square(b.x - a.x) == square(dx) && square(b.y - a.y) == square(dy));
}

/// Any number that passes for the distance of two points is their distance.
pub proof fn law_only_one_distance(a: Vec2, b: Vec2, d: int)
    requires
        0 <= d,
        d * d <= (a.x - b.x) * (a.x - b.x) + (a.y - b.y) * (a.y - b.y) < (d + 1) * (d + 1),
    ensures
        a.distance_to(b) == d,
{
    lemma_floor_sqrt_is(d, a.distance_squared_to(b));
}

/// A point is within a radius of another exactly where the squares of the differences of
/// their coordinates together do not exceed the square of the radius.
pub proof fn law_within_is_a_closed_disc(p: Vec2, center: Vec2, radius: int)
    requires
        radius >= 0,
    ensures
        p.within(center, radius) <==> (p.x - center.x) * (p.x - center.x) + (p.y - center.y) * (p.y
            - center.y) <= radius * radius,
{
}

/// Two rectangles are near exactly where none of the four numbers of one is as far as
/// `epsilon` from that of the other.
pub proof fn law_near_in_all_four(a: Rect, b: Rect, epsilon: int)
    ensures
        a.near(b, epsilon) <==> a.x - epsilon < b.x < a.x + epsilon && a.y - epsilon < b.y < a.y
            + epsilon && a.w - epsilon < b.w < a.w + epsilon && a.h - epsilon < b.h < a.h + epsilon,
        a.near(b, epsilon) == b.near(a, epsilon),
{
}

/// A point lies in a rectangle exactly where it is neither left of it nor right of it,
/// and neither above it nor below it.
pub proof fn law_holds_up_to_the_edges(r: Rect, p: Vec2)
    ensures
        !r.holds(p) <==> p.x < r.x || p.y < r.y || p.x - r.w > r.x || p.y - r.h > r.y,
{
}

/// Bringing a number into an interval gives the number of the interval that is nearest to
/// it.
pub proof fn law_clamped_is_nearest(v: int, lo: int, hi: int, other: int)
    requires
        lo <= other <= hi,
    ensures
        lo <= clamped(v, lo, hi) <= hi,
        v <= clamped(v, lo, hi) ==> clamped(v, lo, hi) - v <= other - v || other < v,
        v >= clamped(v, lo, hi) ==> v - clamped(v, lo, hi) <= v - other || other > v,
        lo <= v <= hi ==> clamped(v, lo, hi) == v,
{
}

/// Two rectangles meet where they touch, unless both have an extent in the direction in
/// which no more than an edge of them touches.
pub proof fn law_meeting_is_touching_but_for_edges(a: Rect, b: Rect)
    ensures
        a.meets(b) <==> {
            &&& a.x - b.x <= b.w && b.x - a.x <= a.w
            &&& a.y - b.y <= b.h && b.y - a.y <= a.h
            &&& a.w > 0 && b.w > 0 ==> a.x - b.x != b.w && b.x - a.x != a.w
            &&& a.h > 0 && b.h > 0 ==> a.y - b.y != b.h && b.y - a.y != a.h
        },
        a.touches(b) <==> {
            &&& a.x - b.x <= b.w && b.x - a.x <= a.w
            &&& a.y - b.y <= b.h && b.y - a.y <= a.h
        },
{
}

/// A half, taken twice, falls short of the whole by at most one, and has its sign.
pub proof fn law_halves_are_cut_towards_zero(v: int)
    ensures
        v >= 0 ==> 2 * half_of(v) <= v <= 2 * half_of(v) + 1,
        v <= 0 ==> 2 * half_of(v) - 1 <= v <= 2 * half_of(v),
{
}

/// The quarters of any bounds start at their corner or at their middle, and are half as wide
/// and half as high.
pub proof fn law_quarters_start_at_corner_or_middle(r: Rect, i: int)
    requires
        r.in_range(),
        0 <= i < 4,
    ensures
        ({
            let q = r.quadrant(i);
            &&& -1 <= r.w - 2 * q.w <= 1 && -1 <= r.h - 2 * q.h <= 1
            &&& r.w >= 0 ==> 0 <= 2 * q.w <= r.w
            &&& r.w <= 0 ==> r.w <= 2 * q.w <= 0
            &&& r.h >= 0 ==> 0 <= 2 * q.h <= r.h
            &&& r.h <= 0 ==> r.h <= 2 * q.h <= 0
            &&& i == 0 || i == 2 ==> q.x == r.x
            &&& i == 1 || i == 3 ==> q.x == r.middle().x && q.x == r.x + q.w
            &&& i == 0 || i == 1 ==> q.y == r.y
            &&& i == 2 || i == 3 ==> q.y == r.middle().y && q.y == r.y + q.h
        }),
{
}

/// Nothing is within a negative distance, and coordinates are in range up to 2^60 units.
pub proof fn law_limits_are_two_to_the_sixty(p: Vec2, r: Rect, center: Vec2, radius: int)
    ensures
        radius < 0 ==> !p.within(center, radius),
        p.in_range() <==> {
            &&& -0x1000_0000_0000_0000 <= p.x <= 0x1000_0000_0000_0000
            &&& -0x1000_0000_0000_0000 <= p.y <= 0x1000_0000_0000_0000
        },
        r.in_range() <==> {
            &&& -0x1000_0000_0000_0000 <= r.x <= 0x1000_0000_0000_0000
            &&& -0x1000_0000_0000_0000 <= r.y <= 0x1000_0000_0000_0000
            &&& -0x1000_0000_0000_0000 <= r.x + r.w <= 0x1000_0000_0000_0000
            &&& -0x1000_0000_0000_0000 <= r.y + r.h <= 0x1000_0000_0000_0000
        },
{
}

} // verus!
