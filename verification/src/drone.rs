//! How a drone moves.
use crate::environment::{
    blocks, law_spawn_area_is_free, spawn_area, walls, Environment, BLOCK_ATTEMPTS,
};
use crate::geometry::{
    clamped, law_distance_is_a_root, lemma_floor_sqrt, lemma_square_bound, lemma_square_monotone,
    square, Rect, Vec2, COORD_LIMIT, UNIT,
};
use vstd::prelude::*;

verus! {

/// The acceleration of a drone, 500 pixels per second and second.
pub const MOVE_SPEED: i64 = 500;

/// How fast a drone turns, 3 radians per second.
pub const TURN_SPEED: i64 = 3;

/// The part of the velocity that is left after a time step, 0.9 as a
/// single-precision number.
pub const FRICTION: i64 = 3_865_470_464;

/// How far a drone sees, 300 pixels.
pub const SCAN_RADIUS: i64 = 0x12c_0000_0000;

/// The radius of a drone, 10 pixels.
pub const DRONE_RADIUS: i64 = 0xa_0000_0000;

/// A waypoint counts as reached from this distance, 15 pixels.
pub const WAYPOINT_RADIUS: i64 = 0xf_0000_0000;

/// The keys that a pilot holds down.
#[derive(Clone, Copy, Debug, PartialEq, Eq, Structural)]
pub struct Keys {
    pub left: bool,
    pub right: bool,
    pub forward: bool,
    pub backward: bool,
}

#[derive(Clone, Copy, Debug, PartialEq, Eq, Structural)]
pub struct Drone {
    pub position: Vec2,
    pub velocity: Vec2,
    /// In radians.
    pub heading: i64,
    pub scan_radius: i64,
    pub radius: i64,
}

/// The quotient rounded toward zero.
pub open spec fn quotient(a: int, b: int) -> int {
    if a >= 0 {
        a / b
    } else {
        -((-a) / b)
    }
}

/// The product of two numbers of units, in units.
pub open spec fn product(a: int, b: int) -> int {
    quotient(a * b, UNIT as int)
}

/// The number is one that an `i64` can hold.
pub open spec fn fits(v: int) -> bool {
    i64::MIN <= v <= i64::MAX
}

/// The heading after a time step.
pub open spec fn turned(heading: int, is_controlled: bool, keys: Keys, dt: int) -> int {
    if !is_controlled || keys.left == keys.right {
        heading
    } else if keys.left {
        heading + TURN_SPEED * dt
    } else {
        heading - TURN_SPEED * dt
    }
}

/// The sense in which a drone accelerates along its heading.
pub open spec fn thrust(is_controlled: bool, keys: Keys) -> int {
    if !is_controlled || keys.forward == keys.backward {
        0
    } else if keys.forward {
        1
    } else {
        -1
    }
}

/// One component of the velocity after a time step.
pub open spec fn slowed(velocity: int, acceleration: int, dt: int) -> int {
    product(velocity + product(acceleration, dt), FRICTION as int)
}

/// The point of a rectangle that is closest to a point.
pub open spec fn closest_point(p: Vec2, rect: Rect) -> Vec2 {
    Vec2 {
        x: clamped(p.x as int, rect.x as int, rect.right()) as i64,
        y: clamped(p.y as int, rect.y as int, rect.bottom()) as i64,
    }
}

/// The circle reaches into the rectangle.
pub open spec fn circle_hits(center: Vec2, radius: int, rect: Rect) -> bool {
    center.distance_squared_to(closest_point(center, rect)) < square(radius)
}

/// The circle reaches into some obstacle.
pub open spec fn collides(env: Environment, center: Vec2, radius: int) -> bool {
    exists|i: int|
        0 <= i < env.obstacles@.len() && circle_hits(
            center,
            radius,
            (#[trigger] env.obstacles@[i]).rect,
        )
}

impl Drone {
    /// The velocity that a time step would give, component by component.
    pub open spec fn next_velocity(
        self,
        is_controlled: bool,
        keys: Keys,
        heading_vec: Vec2,
        dt: i64,
    ) -> (int, int) {
        let a = thrust(is_controlled, keys) * MOVE_SPEED;
        (
            slowed(self.velocity.x as int, a * heading_vec.x, dt as int),
            slowed(self.velocity.y as int, a * heading_vec.y, dt as int),
        )
    }

    /// Where a velocity leads in a time step, component by component.
    pub open spec fn carried(self, velocity: (int, int), dt: i64) -> (int, int) {
        (
            self.position.x + product(velocity.0, dt as int),
            self.position.y + product(velocity.1, dt as int),
        )
    }

    /// All numbers of the time step are ones that the arithmetic can hold.
    pub open spec fn can_move(
        self,
        is_controlled: bool,
        keys: Keys,
        heading_vec: Vec2,
        dt: i64,
    ) -> bool {
        let v = self.next_velocity(is_controlled, keys, heading_vec, dt);
        let p = self.carried(v, dt);
        &&& -COORD_LIMIT <= self.radius <= COORD_LIMIT
        &&& fits(turned(self.heading as int, is_controlled, keys, dt as int))
        &&& fits(v.0) && fits(v.1)
        &&& -COORD_LIMIT <= p.0 <= COORD_LIMIT
        &&& -COORD_LIMIT <= p.1 <= COORD_LIMIT
    }

    /// The drone after a time step: it turns, accelerates and slows down, and moves
    /// unless it would hit an obstacle, which stops it.
    pub open spec fn moved(
        self,
        is_controlled: bool,
        keys: Keys,
        heading_vec: Vec2,
        env: Environment,
        dt: i64,
    ) -> Drone {
        let v = self.next_velocity(is_controlled, keys, heading_vec, dt);
        let p = self.carried(v, dt);
        let next_pos = Vec2 { x: p.0 as i64, y: p.1 as i64 };
        let heading = turned(self.heading as int, is_controlled, keys, dt as int) as i64;
        if collides(env, next_pos, self.radius as int) {
            Drone { heading, velocity: Vec2 { x: 0, y: 0 }, ..self }
        } else {
            Drone {
                heading,
                velocity: Vec2 { x: v.0 as i64, y: v.1 as i64 },
                position: next_pos,
                ..self
            }
        }
    }

    pub fn new(x: i64, y: i64) -> (d: Self)
        ensures
            d == (Drone {
                position: Vec2 { x, y },
                velocity: Vec2 { x: 0, y: 0 },
                heading: 0,
                scan_radius: SCAN_RADIUS,
                radius: DRONE_RADIUS,
            }),
    {
        Drone {
            position: Vec2::new(x, y),
            velocity: Vec2::new(0, 0),
            heading: 0,
            scan_radius: SCAN_RADIUS,
            radius: DRONE_RADIUS,
        }
    }

    /// The heading after a time step, which decides on the heading vector that
    /// `update` takes.
    pub fn next_heading(&self, is_controlled: bool, keys: Keys, dt: i64) -> (h: i64)
        requires
            fits(turned(self.heading as int, is_controlled, keys, dt as int)),
        ensures
            h == turned(self.heading as int, is_controlled, keys, dt as int),
    {
        if !is_controlled || keys.left == keys.right {
            self.heading
        } else {
            let angle: i128 = TURN_SPEED as i128 * dt as i128;
            if keys.left {
                (self.heading as i128 + angle) as i64
            } else {
                (self.heading as i128 - angle) as i64
            }
        }
    }

    /// Moves the drone by a time step. `heading_vec` is the unit vector in the
    /// direction of `next_heading`.
    pub fn update(
        &mut self,
        is_controlled: bool,
        keys: Keys,
        heading_vec: Vec2,
        env: &Environment,
        dt: i64,
    )
        requires
            env.wf(),
            -UNIT <= heading_vec.x <= UNIT,
            -UNIT <= heading_vec.y <= UNIT,
            old(self).can_move(is_controlled, keys, heading_vec, dt),
        ensures
            *final(self) == old(self).moved(is_controlled, keys, heading_vec, *env, dt),
    {
        self.heading = self.next_heading(is_controlled, keys, dt);
        let sense: i64 = if !is_controlled || keys.forward == keys.backward {
            0
        } else if keys.forward {
            MOVE_SPEED
        } else {
            -MOVE_SPEED
        };
        let vx: i64 = slow_down(self.velocity.x, sense, heading_vec.x, dt);
        let vy: i64 = slow_down(self.velocity.y, sense, heading_vec.y, dt);
        let next_pos: Vec2 = Vec2::new(
            carry(self.position.x, vx, dt),
            carry(self.position.y, vy, dt),
        );
        let mut i: usize = 0;
        let mut collision = false;
        while i < env.obstacles.len() && !collision
            invariant
                env.wf(),
                next_pos.in_range(),
                -COORD_LIMIT <= self.radius <= COORD_LIMIT,
                0 <= i <= env.obstacles@.len(),
                !collision ==> forall|k: int|
                    0 <= k < i ==> !circle_hits(
                        next_pos,
                        self.radius as int,
                        (#[trigger] env.obstacles@[k]).rect,
                    ),
                collision ==> collides(*env, next_pos, self.radius as int),
            decreases env.obstacles@.len() - i,
        {
            if Self::circle_rect_intersect(next_pos, self.radius, env.obstacles[i].rect) {
                collision = true;
            }
            i = i + 1;
        }
        if collision {
            self.velocity = Vec2::new(0, 0);
        } else {
            self.velocity = Vec2::new(vx, vy);
            self.position = next_pos;
        }
    }

    /// Checks whether a circle reaches into a rectangle.
    pub fn circle_rect_intersect(circle_center: Vec2, circle_radius: i64, rect: Rect) -> (res: bool)
        requires
            circle_center.in_range(),
            rect.in_range(),
            rect.upright(),
            -COORD_LIMIT <= circle_radius <= COORD_LIMIT,
        ensures
            res == circle_hits(circle_center, circle_radius as int, rect),
    {
        let closest: Vec2 = Vec2::new(
            clamp(circle_center.x, rect.x, rect.x + rect.w),
            clamp(circle_center.y, rect.y, rect.y + rect.h),
        );
        proof {
            lemma_square_bound(circle_radius as int, COORD_LIMIT as int);
        }
        let r: i128 = circle_radius as i128;
        circle_center.distance_squared(closest) < r * r
    }

    /// Checks whether the drone has come close enough to a waypoint.
    pub fn has_reached(&self, waypoint: Vec2) -> (res: bool)
        requires
            self.position.in_range(),
            waypoint.in_range(),
        ensures
            res == self.position.within(waypoint, WAYPOINT_RADIUS as int),
    {
        self.position.is_within(waypoint, WAYPOINT_RADIUS)
    }
}

/// The unit vector from one point to another, rounded toward zero; no direction where
/// they are the same.
pub open spec fn direction(from: Vec2, to: Vec2) -> Vec2 {
    let d = from.distance_to(to);
    if d == 0 {
        Vec2 { x: 0, y: 0 }
    } else {
        Vec2 {
            x: quotient((to.x - from.x) * UNIT, d) as i64,
            y: quotient((to.y - from.y) * UNIT, d) as i64,
        }
    }
}

/// One component of a unit vector.
fn component(dx: i64, d: i64) -> (c: i64)
    requires
        d > 0,
        -d <= dx <= d,
    ensures
        c == quotient(dx * UNIT, d as int),
        -UNIT <= c <= UNIT,
{
    let n: i128 = dx as i128 * 0x1_0000_0000;
    let m: i128 = if n >= 0 {
        n
    } else {
        -n
    };
    assert(0 <= m as int / d as int <= 0x1_0000_0000) by (nonlinear_arith)
        requires
            d > 0,
            0 <= m <= 0x1_0000_0000 * d,
    ;
    let q: i64 = (m / d as i128) as i64;
    if n >= 0 {
        q
    } else {
        -q
    }
}

impl Drone {
    /// Finds the direction to a waypoint, for `update`.
    pub fn direction_to(&self, waypoint: Vec2) -> (v: Vec2)
        requires
            self.position.in_range(),
            waypoint.in_range(),
        ensures
            v == direction(self.position, waypoint),
            -UNIT <= v.x <= UNIT,
            -UNIT <= v.y <= UNIT,
    {
        let d: i64 = self.position.distance(waypoint);
        if d == 0 {
            return Vec2::new(0, 0);
        }
        let dx: i64 = waypoint.x - self.position.x;
        let dy: i64 = waypoint.y - self.position.y;
        proof {
            lemma_leg_is_shorter(self.position, waypoint, d as int);
        }
        Vec2::new(component(dx, d), component(dy, d))
    }

    /// Drops the next waypoint of a path once the drone has reached it.
    pub fn follow(&self, path: &mut Vec<Vec2>)
        requires
            self.position.in_range(),
            old(path)@.len() > 0 ==> old(path)@[0].in_range(),
        ensures
            final(path)@ == if old(path)@.len() > 0 && self.position.within(
                old(path)@[0],
                WAYPOINT_RADIUS as int,
            ) {
                old(path)@.drop_first()
            } else {
                old(path)@
            },
    {
        if path.len() > 0 {
            let next: Vec2 = path[0];
            if self.has_reached(next) {
                path.remove(0);
                assert(path@ =~= old(path)@.drop_first());
            }
        }
    }
}

proof fn lemma_leg_is_shorter(a: Vec2, b: Vec2, d: int)
    requires
        a.in_range(),
        b.in_range(),
        d == a.distance_to(b),
        d >= 0,
    ensures
        -d <= b.x - a.x <= d,
        -d <= b.y - a.y <= d,
{
    let n = a.distance_squared_to(b);
    let dx = a.x - b.x;
    let dy = a.y - b.y;
    lemma_square_bound(dx, 0x2000_0000_0000_0000);
    lemma_square_bound(dy, 0x2000_0000_0000_0000);
    lemma_floor_sqrt(n);
    assert(-d <= dx <= d) by {
        lemma_root_bound(dx, d, n);
    }
    assert(-d <= dy <= d) by {
        lemma_root_bound(dy, d, n);
    }
}

proof fn lemma_root_bound(v: int, d: int, n: int)
    requires
        d >= 0,
        square(v) <= n < square(d + 1),
    ensures
        -d <= v <= d,
{
    if v > d {
        lemma_square_monotone(d + 1, v);
    }
    if v < -d {
        lemma_square_monotone(d + 1, -v);
        assert((-v) * (-v) == v * v) by (nonlinear_arith);
    }
}

/// Brings a number into an interval.
fn clamp(v: i64, lo: i64, hi: i64) -> (r: i64)
    requires
        lo <= hi,
    ensures
        r == clamped(v as int, lo as int, hi as int),
{
    if v < lo {
        lo
    } else if v > hi {
        hi
    } else {
        v
    }
}

/// Divides, rounding toward zero.
fn divide_by_unit(a: i128) -> (q: i128)
    requires
        a > i128::MIN,
    ensures
        q == quotient(a as int, UNIT as int),
{
    if a >= 0 {
        a / 0x1_0000_0000
    } else {
        -((-a) / 0x1_0000_0000)
    }
}

/// One component of the velocity after a time step.
fn slow_down(velocity: i64, sense: i64, heading: i64, dt: i64) -> (v: i64)
    requires
        -MOVE_SPEED <= sense <= MOVE_SPEED,
        -UNIT <= heading <= UNIT,
        fits(slowed(velocity as int, sense * heading, dt as int)),
    ensures
        v == slowed(velocity as int, sense * heading, dt as int),
{
    assert(-2_147_483_648_000 <= sense * heading <= 2_147_483_648_000) by (nonlinear_arith)
        requires
            -500 <= sense <= 500,
            -0x1_0000_0000 <= heading <= 0x1_0000_0000,
    ;
    let acceleration: i64 = sense * heading;
    let ghost change = acceleration * dt;
    assert(-0x1_0000_0000_0000_0000_0000_0000_0000 <= change
        <= 0x1_0000_0000_0000_0000_0000_0000_0000) by (nonlinear_arith)
        requires
            change == acceleration * dt,
            -2_147_483_648_000 <= acceleration <= 2_147_483_648_000,
            i64::MIN <= dt <= i64::MAX,
    ;
    let faster: i128 = velocity as i128 + divide_by_unit(acceleration as i128 * dt as i128);
    divide_by_unit(faster * 3_865_470_464) as i64
}

/// One component of the position after a time step.
fn carry(position: i64, velocity: i64, dt: i64) -> (p: i64)
    requires
        fits(position + product(velocity as int, dt as int)),
    ensures
        p == position + product(velocity as int, dt as int),
{
    let ghost way = velocity * dt;
    assert(-0x4000_0000_0000_0000_0000_0000_0000_0000 <= way
        <= 0x4000_0000_0000_0000_0000_0000_0000_0000) by (nonlinear_arith)
        requires
            way == velocity * dt,
            i64::MIN <= dt <= i64::MAX,
            i64::MIN <= velocity <= i64::MAX,
    ;
    (position as i128 + divide_by_unit(velocity as i128 * dt as i128)) as i64
}

/// A circle reaches into a rectangle exactly where some point of the rectangle is
/// nearer to its center than the radius.
pub proof fn law_hit_is_a_common_point(center: Vec2, radius: int, rect: Rect)
    requires
        rect.in_range(),
        rect.upright(),
    ensures
        circle_hits(center, radius, rect) <==> exists|q: Vec2| #[trigger]
            rect.holds(q) && center.distance_squared_to(q) < square(radius),
{
    let c = closest_point(center, rect);
    assert(rect.holds(c));
    assert forall|q: Vec2| #[trigger] rect.holds(q) implies center.distance_squared_to(c)
        <= center.distance_squared_to(q) by {
        lemma_closer(center.x as int, rect.x as int, rect.right(), q.x as int);
        lemma_closer(center.y as int, rect.y as int, rect.bottom(), q.y as int);
    }
}

proof fn lemma_closer(v: int, lo: int, hi: int, q: int)
    requires
        lo <= q <= hi,
    ensures
        square(v - clamped(v, lo, hi)) <= square(v - q),
{
    let d = v - clamped(v, lo, hi);
    if v < lo {
        lemma_square_monotone(-d, q - v);
        assert((-d) * (-d) == d * d) by (nonlinear_arith);
        assert((q - v) * (q - v) == (v - q) * (v - q)) by (nonlinear_arith);
    } else if v > hi {
        lemma_square_monotone(d, v - q);
    } else {
        assert(square(0) == 0);
        assert((v - q) * (v - q) >= 0) by (nonlinear_arith);
    }
}

/// A drone never moves into an obstacle: after a time step it is where it was, or
/// where it hits none. So a drone that hits none never will.
pub proof fn law_drone_stays_clear(
    drone: Drone,
    is_controlled: bool,
    keys: Keys,
    heading_vec: Vec2,
    env: Environment,
    dt: i64,
)
    ensures
        drone.moved(is_controlled, keys, heading_vec, env, dt).position == drone.position
            || !collides(
            env,
            drone.moved(is_controlled, keys, heading_vec, env, dt).position,
            drone.radius as int,
        ),
        !collides(env, drone.position, drone.radius as int) ==> !collides(
            env,
            drone.moved(is_controlled, keys, heading_vec, env, dt).position,
            drone.moved(is_controlled, keys, heading_vec, env, dt).radius as int,
        ),
{
}

/// No component of the velocity exceeds `MOVE_SPEED` pixels per second.
pub open spec fn speed_in_range(v: Vec2) -> bool {
    &&& -MOVE_SPEED * UNIT <= v.x <= MOVE_SPEED * UNIT
    &&& -MOVE_SPEED * UNIT <= v.y <= MOVE_SPEED * UNIT
}

/// Time steps of at most a ninth of a second keep the velocity in its range.
pub proof fn law_speed_is_bounded(
    drone: Drone,
    is_controlled: bool,
    keys: Keys,
    heading_vec: Vec2,
    env: Environment,
    dt: i64,
)
    requires
        speed_in_range(drone.velocity),
        -UNIT <= heading_vec.x <= UNIT,
        -UNIT <= heading_vec.y <= UNIT,
        0 <= 9 * dt <= UNIT,
    ensures
        speed_in_range(drone.moved(is_controlled, keys, heading_vec, env, dt).velocity),
{
    let t = thrust(is_controlled, keys) * MOVE_SPEED;
    lemma_slowed_bound(drone.velocity.x as int, t, heading_vec.x as int, dt as int);
    lemma_slowed_bound(drone.velocity.y as int, t, heading_vec.y as int, dt as int);
}

proof fn lemma_slowed_bound(v: int, t: int, h: int, dt: int)
    requires
        -2_147_483_648_000 <= v <= 2_147_483_648_000,
        -500 <= t <= 500,
        -0x1_0000_0000 <= h <= 0x1_0000_0000,
        0 <= 9 * dt <= 0x1_0000_0000,
    ensures
        -2_147_483_648_000 <= slowed(v, t * h, dt) <= 2_147_483_648_000,
{
    let a = t * h;
    assert(-2_147_483_648_000 <= a <= 2_147_483_648_000) by (nonlinear_arith)
        requires
            a == t * h,
            -500 <= t <= 500,
            -0x1_0000_0000 <= h <= 0x1_0000_0000,
    ;
    assert(-2_147_483_648_000 * 477_218_588 <= a * dt <= 2_147_483_648_000 * 477_218_588)
        by (nonlinear_arith)
        requires
            -2_147_483_648_000 <= a <= 2_147_483_648_000,
            0 <= dt <= 477_218_588,
    ;
    let gain = product(a, dt);
    assert(-238_609_294_000 <= gain <= 238_609_294_000);
    let p = (v + gain) * 3_865_470_464;
    assert(product(v + gain, FRICTION as int) == quotient(p, 0x1_0000_0000));
}

/// A drone whose circle lies in the spawn area hits no obstacle, whatever the seed.
pub proof fn law_spawned_drone_is_clear(seed: u32, env: Environment, drone: Drone)
    requires
        env.wf(),
        env.obstacles@ == walls() + blocks(seed, BLOCK_ATTEMPTS as nat),
        drone.radius >= 0,
        spawn_area().x + drone.radius <= drone.position.x <= spawn_area().right() - drone.radius,
        spawn_area().y + drone.radius <= drone.position.y <= spawn_area().bottom() - drone.radius,
    ensures
        !collides(env, drone.position, drone.radius as int),
{
    law_spawn_area_is_free(seed, env);
    let area = spawn_area();
    let p = drone.position;
    let r = drone.radius as int;
    assert forall|i: int| 0 <= i < env.obstacles@.len() implies !circle_hits(
        p,
        r,
        (#[trigger] env.obstacles@[i]).rect,
    ) by {
        let rect = env.obstacles@[i].rect;
        let c = closest_point(p, rect);
        assert(rect.in_range() && rect.upright());
        assert(!rect.touches(area));
        let dx = p.x - c.x;
        let dy = p.y - c.y;
        lemma_square_bound(dx, if dx >= 0 {
            dx
        } else {
            -dx
        });
        lemma_square_bound(dy, if dy >= 0 {
            dy
        } else {
            -dy
        });
        if dx >= r {
            lemma_square_monotone(r, dx);
        } else if dx <= -r {
            lemma_square_monotone(r, -dx);
            assert((-dx) * (-dx) == dx * dx) by (nonlinear_arith);
        } else if dy >= r {
            lemma_square_monotone(r, dy);
        } else {
            assert(dy <= -r);
            lemma_square_monotone(r, -dy);
            assert((-dy) * (-dy) == dy * dy) by (nonlinear_arith);
        }
    }
}

/// The square of the length of a vector.
pub open spec fn length_squared(x: int, y: int) -> int {
    square(x) + square(y)
}

/// `MOVE_SPEED` is the maximum velocity of a drone: time steps of at most a tenth of a
/// second, with a heading vector no longer than one, keep the velocity no faster,
/// whatever keys are held down and whatever is in the way.
pub proof fn law_move_speed_is_the_maximum(
    drone: Drone,
    is_controlled: bool,
    keys: Keys,
    heading_vec: Vec2,
    env: Environment,
    dt: i64,
)
    requires
        length_squared(drone.velocity.x as int, drone.velocity.y as int) <= square(
            MOVE_SPEED * UNIT,
        ),
        length_squared(heading_vec.x as int, heading_vec.y as int) <= square(UNIT as int),
        0 <= 10 * dt <= UNIT,
    ensures
        ({
            let v = drone.moved(is_controlled, keys, heading_vec, env, dt).velocity;
            length_squared(v.x as int, v.y as int) <= square(MOVE_SPEED * UNIT)
        }),
{
    let t = thrust(is_controlled, keys) * MOVE_SPEED;
    let hx = heading_vec.x as int;
    let hy = heading_vec.y as int;
    let vx = drone.velocity.x as int;
    let vy = drone.velocity.y as int;
    let gx = product(t * hx, dt as int);
    let gy = product(t * hy, dt as int);
    let ax = t * hx * dt;
    let ay = t * hy * dt;
    let top = 2_147_483_648_000int;
    let gain = 214_748_364_800int;
    let unit = 0x1_0000_0000int;
    // What a time step adds is no longer than a tenth of the maximum.
    assert(square(ax) + square(ay) <= square(gain * unit)) by {
        lemma_square_product(t * hx, dt as int);
        lemma_square_product(t * hy, dt as int);
        lemma_square_product(t, hx);
        lemma_square_product(t, hy);
        lemma_common_factors(square(t), square(hx), square(hy), square(dt as int));
        assert(square(t) <= 250_000) by {
            assert(square(500) == 250_000 && square(-500) == 250_000 && square(0) == 0);
        }
        assert(0 <= square(t)) by (nonlinear_arith);
        assert(100 * square(dt as int) <= square(unit)) by (nonlinear_arith)
            requires
                0 <= 10 * dt <= unit,
        ;
        assert(0 <= square(dt as int)) by (nonlinear_arith);
        assert(0 <= square(hx) + square(hy)) by (nonlinear_arith);
        let a = square(t);
        let b = square(dt as int);
        let c = square(hx) + square(hy);
        let u2 = square(unit);
        assert(100 * (a * b * c) <= 250_000 * u2 * u2) by (nonlinear_arith)
            requires
                0 <= a <= 250_000,
                0 <= b,
                100 * b <= u2,
                0 <= c <= u2,
        ;
        assert(square(gain * unit) == 2500 * u2 * u2) by (nonlinear_arith)
            requires
                gain == 50 * unit,
                u2 == unit * unit,
        ;
    }
    lemma_shrunk(ax, ay, unit, gain);
    assert(length_squared(gx, gy) <= square(gain));
    lemma_sum_is_shorter(vx, vy, gx, gy, top, gain);
    let wx = vx + gx;
    let wy = vy + gy;
    let f = FRICTION as int;
    let px = wx * f;
    let py = wy * f;
    assert(square(px) + square(py) <= square(top * unit)) by {
        lemma_square_product(wx, f);
        lemma_square_product(wy, f);
        lemma_common_factors(1, square(wx), square(wy), square(f));
        assert(square(f) * length_squared(wx, wy) <= square(f) * square(top + gain))
            by (nonlinear_arith)
            requires
                length_squared(wx, wy) <= square(top + gain),
        ;
        assert(square(f) * square(top + gain) == square(f * (top + gain))) by (nonlinear_arith);
        assert(f * (top + gain) <= top * unit);
        lemma_square_monotone(f * (top + gain), top * unit);
    }
    lemma_shrunk(px, py, unit, top);
    let nx = quotient(px, unit);
    let ny = quotient(py, unit);
    assert(0 <= square(nx) && 0 <= square(ny)) by (nonlinear_arith);
    lemma_square_monotone(top, top + 1);
    lemma_root_bound(nx, top, square(top));
    lemma_root_bound(ny, top, square(top));
    assert(square(0) == 0);
}

proof fn lemma_square_product(a: int, b: int)
    ensures
        square(a * b) == square(a) * square(b),
{
    assert((a * b) * (a * b) == (a * a) * (b * b)) by (nonlinear_arith);
}

proof fn lemma_common_factors(a: int, x: int, y: int, b: int)
    ensures
        a * x * b + a * y * b == a * b * (x + y),
{
    assert(a * x * b + a * y * b == a * b * (x + y)) by (nonlinear_arith);
}

/// Dividing both components of a vector by `unit`, rounded toward zero, divides the
/// bound on its length.
proof fn lemma_shrunk(ax: int, ay: int, unit: int, bound: int)
    requires
        unit > 0,
        bound >= 0,
        square(ax) + square(ay) <= square(bound * unit),
    ensures
        length_squared(quotient(ax, unit), quotient(ay, unit)) <= square(bound),
{
    let qx = quotient(ax, unit);
    let qy = quotient(ay, unit);
    lemma_quotient_square(ax, unit);
    lemma_quotient_square(ay, unit);
    assert(square(qx * unit) + square(qy * unit) == (square(qx) + square(qy)) * square(unit))
        by (nonlinear_arith);
    assert(square(bound * unit) == square(bound) * square(unit)) by (nonlinear_arith);
    assert(square(qx) + square(qy) <= square(bound)) by (nonlinear_arith)
        requires
            (square(qx) + square(qy)) * square(unit) <= square(bound) * square(unit),
            unit > 0,
            square(unit) > 0,
    ;
}

proof fn lemma_quotient_square(a: int, unit: int)
    requires
        unit > 0,
    ensures
        square(quotient(a, unit) * unit) <= square(a),
        square(unit) > 0,
{
    let m = if a >= 0 {
        a
    } else {
        -a
    };
    let q = m / unit;
    assert(0 <= q * unit <= m) by (nonlinear_arith)
        requires
            unit > 0,
            m >= 0,
            q == m / unit,
    ;
    lemma_square_monotone(q * unit, m);
    assert((-q * unit) * (-q * unit) == (q * unit) * (q * unit)) by (nonlinear_arith);
    assert((-a) * (-a) == a * a) by (nonlinear_arith);
    assert(unit * unit > 0) by (nonlinear_arith)
        requires
            unit > 0,
    ;
}

/// The sum of two vectors is no longer than both together.
proof fn lemma_sum_is_shorter(vx: int, vy: int, gx: int, gy: int, m: int, g: int)
    requires
        m >= 0,
        g >= 0,
        length_squared(vx, vy) <= square(m),
        length_squared(gx, gy) <= square(g),
    ensures
        length_squared(vx + gx, vy + gy) <= square(m + g),
{
    let dot = vx * gx + vy * gy;
    let a = length_squared(vx, vy);
    let b = length_squared(gx, gy);
    assert(square(dot) <= a * b) by {
        let p = vx * gx;
        let q = vy * gy;
        let r = vx * gy;
        let s = vy * gx;
        lemma_square_product(vx, gx);
        lemma_square_product(vy, gy);
        lemma_square_product(vx, gy);
        lemma_square_product(vy, gx);
        assert(p * q == r * s) by (nonlinear_arith)
            requires
                p == vx * gx,
                q == vy * gy,
                r == vx * gy,
                s == vy * gx,
        ;
        let (x2, y2, u2, w2) = (square(vx), square(vy), square(gx), square(gy));
        assert((x2 + y2) * (u2 + w2) == x2 * u2 + x2 * w2 + y2 * u2 + y2 * w2)
            by (nonlinear_arith);
        assert(square(p + q) == square(p) + 2 * (p * q) + square(q)) by (nonlinear_arith);
        assert(0 <= square(r) - 2 * (r * s) + square(s)) by (nonlinear_arith);
    }
    assert(0 <= a && 0 <= b) by (nonlinear_arith)
        requires
            a == vx * vx + vy * vy,
            b == gx * gx + gy * gy,
    ;
    assert(a * b <= square(m * g)) by (nonlinear_arith)
        requires
            0 <= a <= m * m,
            0 <= b <= g * g,
    ;
    assert(0 <= m * g) by (nonlinear_arith)
        requires
            m >= 0,
            g >= 0,
    ;
    if dot > m * g {
        lemma_square_monotone(m * g, dot);
    }
    assert(length_squared(vx + gx, vy + gy) == a + 2 * dot + b) by (nonlinear_arith)
        requires
            dot == vx * gx + vy * gy,
            a == vx * vx + vy * vy,
            b == gx * gx + gy * gy,
    ;
    assert(square(m + g) == square(m) + 2 * (m * g) + square(g)) by (nonlinear_arith);
}

/// `q` is `n / 2^32`, rounded toward zero.
pub open spec fn is_cut(q: int, n: int) -> bool {
    &&& n >= 0 ==> q * 0x1_0000_0000 <= n < (q + 1) * 0x1_0000_0000
    &&& n <= 0 ==> (q - 1) * 0x1_0000_0000 < n <= q * 0x1_0000_0000
}

/// The product of two numbers of units is that many units, up to less than one that is cut
/// off.
pub proof fn law_products_are_cut(a: int, b: int)
    ensures
        a * b >= 0 ==> 0 <= a * b - product(a, b) * 0x1_0000_0000 < 0x1_0000_0000,
        a * b <= 0 ==> -0x1_0000_0000 < a * b - product(a, b) * 0x1_0000_0000 <= 0,
{
}

proof fn lemma_cut_is(q: int, n: int)
    requires
        is_cut(q, n),
    ensures
        q == quotient(n, UNIT as int),
{
}

/// What a time step does to a drone. The heading turns by 3 radians per second to the side
/// whose key alone is held down. The velocity grows by `gain`, which is 500 pixels per
/// second and second along the heading vector, or against it, where the forward or the
/// backward key alone is held down, and nothing otherwise, whatever the other keys do; nine
/// tenths of it are left. The drone moves by `way`, which is what the new velocity makes of
/// the time, unless a point of some obstacle is then nearer than its radius: such a drone
/// stays where it is and stands still.
pub proof fn law_time_step(
    drone: Drone,
    is_controlled: bool,
    keys: Keys,
    heading_vec: Vec2,
    env: Environment,
    dt: i64,
    a: int,
    gain: (int, int),
    velocity: (int, int),
    way: (int, int),
)
    requires
        env.wf(),
        drone.can_move(is_controlled, keys, heading_vec, dt),
        a == (if is_controlled && keys.forward && !keys.backward {
            500int
        } else if is_controlled && keys.backward && !keys.forward {
            -500
        } else {
            0
        }),
        is_cut(gain.0, a * heading_vec.x * dt) && is_cut(gain.1, a * heading_vec.y * dt),
        is_cut(velocity.0, (drone.velocity.x + gain.0) * 3_865_470_464) && is_cut(
            velocity.1,
            (drone.velocity.y + gain.1) * 3_865_470_464,
        ),
        is_cut(way.0, velocity.0 * dt) && is_cut(way.1, velocity.1 * dt),
    ensures
        ({
            let next = drone.moved(is_controlled, keys, heading_vec, env, dt);
            let place = Vec2 {
                x: (drone.position.x + way.0) as i64,
                y: (drone.position.y + way.1) as i64,
            };
            let in_the_way = exists|i: int, q: Vec2|
                0 <= i < env.obstacles@.len() && (#[trigger] env.obstacles@[i]).rect.holds(q)
                    && #[trigger] place.distance_squared_to(q) < drone.radius * drone.radius;
            &&& next.radius == drone.radius && next.scan_radius == drone.scan_radius
            &&& next.heading - drone.heading == (if is_controlled && keys.left && !keys.right {
                3 * dt
            } else if is_controlled && keys.right && !keys.left {
                -3 * dt
            } else {
                0
            })
            &&& in_the_way ==> next.position == drone.position && next.velocity.x == 0
                && next.velocity.y == 0
            &&& !in_the_way ==> {
                &&& next.position.x == drone.position.x + way.0
                &&& next.position.y == drone.position.y + way.1
                &&& next.velocity.x == velocity.0 && next.velocity.y == velocity.1
            }
        }),
{
    assert(a == thrust(is_controlled, keys) * MOVE_SPEED);
    lemma_cut_is(gain.0, a * heading_vec.x * dt);
    lemma_cut_is(gain.1, a * heading_vec.y * dt);
    lemma_cut_is(velocity.0, (drone.velocity.x + gain.0) * 3_865_470_464);
    lemma_cut_is(velocity.1, (drone.velocity.y + gain.1) * 3_865_470_464);
    lemma_cut_is(way.0, velocity.0 * dt);
    lemma_cut_is(way.1, velocity.1 * dt);
    let v = drone.next_velocity(is_controlled, keys, heading_vec, dt);
    assert(v == velocity);
    let place = Vec2 {
        x: (drone.position.x + way.0) as i64,
        y: (drone.position.y + way.1) as i64,
    };
    let r = drone.radius as int;
    if collides(env, place, r) {
        let i = choose|i: int|
            0 <= i < env.obstacles@.len() && circle_hits(
                place,
                r,
                (#[trigger] env.obstacles@[i]).rect,
            );
        let rect = env.obstacles@[i].rect;
        assert(rect.in_range() && rect.upright());
        law_hit_is_a_common_point(place, r, rect);
        let q = choose|q: Vec2| #[trigger]
            rect.holds(q) && place.distance_squared_to(q) < square(r);
        assert(env.obstacles@[i].rect.holds(q) && place.distance_squared_to(q) < r * r);
    }
    assert forall|i: int, q: Vec2|
        0 <= i < env.obstacles@.len() && (#[trigger] env.obstacles@[i]).rect.holds(q)
            && #[trigger] place.distance_squared_to(q) < r * r implies collides(env, place, r) by {
        let rect = env.obstacles@[i].rect;
        assert(rect.in_range() && rect.upright());
        law_hit_is_a_common_point(place, r, rect);
        assert(circle_hits(place, r, env.obstacles@[i].rect));
    }
}

/// Turning does not brake: where a drone gets and how fast it is then does not depend on
/// the left and the right key, and the heading does not depend on the other two.
pub proof fn law_turning_and_thrust_are_apart(
    drone: Drone,
    is_controlled: bool,
    keys: Keys,
    others: Keys,
    heading_vec: Vec2,
    env: Environment,
    dt: i64,
)
    ensures
        keys.forward == others.forward && keys.backward == others.backward ==> {
            let a = drone.moved(is_controlled, keys, heading_vec, env, dt);
            let b = drone.moved(is_controlled, others, heading_vec, env, dt);
            a.velocity == b.velocity && a.position == b.position
        },
        keys.left == others.left && keys.right == others.right ==> {
            let a = drone.moved(is_controlled, keys, heading_vec, env, dt);
            let b = drone.moved(is_controlled, others, heading_vec, env, dt);
            a.heading == b.heading
        },
{
}

/// A controlled drone at rest whose pilot holds down the forward key and not the backward
/// key, with nothing in its way, gets 0.9 times 500 pixels per second and second along the
/// heading vector, up to less than two units. The number 3865470464 stands for 0.9.
pub proof fn law_thrust_from_rest(
    drone: Drone,
    keys: Keys,
    heading_vec: Vec2,
    env: Environment,
    dt: i64,
)
    requires
        drone.velocity == (Vec2 { x: 0, y: 0 }),
        keys.forward && !keys.backward,
        drone.can_move(true, keys, heading_vec, dt),
        env.obstacles@.len() == 0,
    ensures
        ({
            let v = drone.moved(true, keys, heading_vec, env, dt).velocity;
            let square_unit = 0x1_0000_0000_0000_0000int;
            let x = (500 * heading_vec.x * dt) * 3_865_470_464;
            let y = (500 * heading_vec.y * dt) * 3_865_470_464;
            &&& -2 * square_unit < v.x * square_unit - x < 2 * square_unit
            &&& -2 * square_unit < v.y * square_unit - y < 2 * square_unit
        }),
{
    lemma_from_rest(heading_vec.x as int, dt as int);
    lemma_from_rest(heading_vec.y as int, dt as int);
    let v = drone.next_velocity(true, keys, heading_vec, dt);
    assert(thrust(true, keys) * MOVE_SPEED == 500);
}

proof fn lemma_from_rest(h: int, dt: int)
    ensures
        ({
            let v = slowed(0, 500 * h, dt);
            let square_unit = 0x1_0000_0000_0000_0000int;
            -2 * square_unit < v * square_unit - (500 * h * dt) * 3_865_470_464 < 2 * square_unit
        }),
{
    let g = product(500 * h, dt);
    law_products_are_cut(500 * h, dt);
    law_products_are_cut(g, 3_865_470_464);
}

/// The direction to another point is the difference of the coordinates, divided by the
/// distance and rounded toward zero: it leads there, and is at most one long in each
/// coordinate. There is none between points less than a unit apart.
pub proof fn law_direction_leads_there(from: Vec2, to: Vec2)
    requires
        from.in_range(),
        to.in_range(),
    ensures
        ({
            let d = from.distance_to(to);
            let v = direction(from, to);
            let x = (to.x - from.x) * 0x1_0000_0000;
            let y = (to.y - from.y) * 0x1_0000_0000;
            &&& d == 0 ==> v.x == 0 && v.y == 0
            &&& d > 0 && x >= 0 ==> v.x * d <= x < (v.x + 1) * d
            &&& d > 0 && x <= 0 ==> (v.x - 1) * d < x <= v.x * d
            &&& d > 0 && y >= 0 ==> v.y * d <= y < (v.y + 1) * d
            &&& d > 0 && y <= 0 ==> (v.y - 1) * d < y <= v.y * d
            &&& -0x1_0000_0000 <= v.x <= 0x1_0000_0000
            &&& -0x1_0000_0000 <= v.y <= 0x1_0000_0000
        }),
{
    let d = from.distance_to(to);
    law_distance_is_a_root(from, to);
    if d > 0 {
        lemma_leg_is_shorter(from, to, d);
        lemma_component(to.x - from.x, d);
        lemma_component(to.y - from.y, d);
    }
}

proof fn lemma_component(dx: int, d: int)
    requires
        d > 0,
        -d <= dx <= d,
    ensures
        ({
            let q = quotient(dx * 0x1_0000_0000, d);
            let n = dx * 0x1_0000_0000;
            &&& n >= 0 ==> q * d <= n < (q + 1) * d
            &&& n <= 0 ==> (q - 1) * d < n <= q * d
            &&& -0x1_0000_0000 <= q <= 0x1_0000_0000
        }),
{
    let n = dx * 0x1_0000_0000;
    let m = if n >= 0 {
        n
    } else {
        -n
    };
    let k = m / d;
    assert(k * d <= m < (k + 1) * d && 0 <= k <= 0x1_0000_0000) by (nonlinear_arith)
        requires
            d > 0,
            0 <= m <= 0x1_0000_0000 * d,
            k == m / d,
    ;
    assert((-k) * d == -(k * d) && (-k - 1) * d == -((k + 1) * d)) by (nonlinear_arith);
}

/// A waypoint is reached exactly within 15 pixels.
pub proof fn law_waypoints_are_reached_within_15_pixels(p: Vec2, waypoint: Vec2)
    ensures
        p.within(waypoint, WAYPOINT_RADIUS as int) <==> (p.x - waypoint.x) * (p.x - waypoint.x) + (
        p.y - waypoint.y) * (p.y - waypoint.y) <= 0xf_0000_0000 * 0xf_0000_0000,
{
}

/// A drone that is no faster than 500 pixels per second in either coordinate, and whose
/// place, radius and heading are half of what the arithmetic can hold at most, can take
/// every time step of at most a ninth of a second, whatever keys are held down.
pub proof fn law_ordinary_steps_can_be_taken(
    drone: Drone,
    is_controlled: bool,
    keys: Keys,
    heading_vec: Vec2,
    dt: i64,
)
    requires
        -0x1f4_0000_0000 <= drone.velocity.x <= 0x1f4_0000_0000,
        -0x1f4_0000_0000 <= drone.velocity.y <= 0x1f4_0000_0000,
        -0x1_0000_0000 <= heading_vec.x <= 0x1_0000_0000,
        -0x1_0000_0000 <= heading_vec.y <= 0x1_0000_0000,
        -0x800_0000_0000_0000 <= drone.position.x <= 0x800_0000_0000_0000,
        -0x800_0000_0000_0000 <= drone.position.y <= 0x800_0000_0000_0000,
        -0x800_0000_0000_0000 <= drone.radius <= 0x800_0000_0000_0000,
        -0x800_0000_0000_0000 <= drone.heading <= 0x800_0000_0000_0000,
        0 <= 9 * dt <= 0x1_0000_0000,
    ensures
        drone.can_move(is_controlled, keys, heading_vec, dt),
{
    let t = thrust(is_controlled, keys) * MOVE_SPEED;
    lemma_slowed_bound(drone.velocity.x as int, t, heading_vec.x as int, dt as int);
    lemma_slowed_bound(drone.velocity.y as int, t, heading_vec.y as int, dt as int);
    let v = drone.next_velocity(is_controlled, keys, heading_vec, dt);
    lemma_way_bound(v.0, dt as int);
    lemma_way_bound(v.1, dt as int);
}

proof fn lemma_way_bound(v: int, dt: int)
    requires
        -2_147_483_648_000 <= v <= 2_147_483_648_000,
        0 <= dt <= 477_218_588,
    ensures
        -238_609_294_000 <= product(v, dt) <= 238_609_294_000,
{
    assert(-2_147_483_648_000 * 477_218_588 <= v * dt <= 2_147_483_648_000 * 477_218_588)
        by (nonlinear_arith)
        requires
            -2_147_483_648_000 <= v <= 2_147_483_648_000,
            0 <= dt <= 477_218_588,
    ;
}

/// A drone scans 300 pixels around itself and is 10 pixels away from its edge.
pub proof fn law_drones_are_of_one_size()
    ensures
        SCAN_RADIUS == 300 * 0x1_0000_0000int,
        DRONE_RADIUS == 10 * 0x1_0000_0000int,
{
}

} // verus!
