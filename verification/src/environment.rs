//! The static obstacle map: four boundary walls and seeded random blocks.
use crate::geometry::{Rect, Vec2, UNIT};
use vstd::prelude::*;

verus! {

/// The width of the map, 10000 pixels.
pub const MAP_WIDTH: i64 = 42_949_672_960_000;

/// The height of the map, 10000 pixels.
pub const MAP_HEIGHT: i64 = 42_949_672_960_000;

/// How many random blocks are tried.
pub const BLOCK_ATTEMPTS: u32 = 1000;

#[derive(Clone, Copy, Debug, PartialEq, Eq, Structural)]
pub struct Obstacle {
    pub rect: Rect,
}

pub struct Environment {
    pub obstacles: Vec<Obstacle>,
}

/// One step of the linear congruential generator behind the random blocks.
pub open spec fn lcg(n: u32) -> u32 {
    ((n * 1664525 + 1013904223) % 0x1_0000_0000) as u32
}

/// The part `n / 2^32` of a length.
pub open spec fn fraction_of(n: u32, length: int) -> int {
    n * length / 0x1_0000_0000
}

/// The area around the middle of the map that is kept free of blocks.
pub open spec fn spawn_area() -> Rect {
    Rect {
        x: (MAP_WIDTH / 2 - 200 * UNIT) as i64,
        y: (MAP_HEIGHT / 2 - 200 * UNIT) as i64,
        w: (400 * UNIT) as i64,
        h: (400 * UNIT) as i64,
    }
}

/// The block drawn from the four numbers that follow `n`: width, height, left
/// and top edge.
pub open spec fn block(n: u32) -> Rect {
    let n1 = lcg(n);
    let n2 = lcg(n1);
    let n3 = lcg(n2);
    let n4 = lcg(n3);
    let w = 50 * UNIT + fraction_of(n1, 200 * UNIT);
    let h = 50 * UNIT + fraction_of(n2, 200 * UNIT);
    Rect {
        x: fraction_of(n3, MAP_WIDTH - w) as i64,
        y: fraction_of(n4, MAP_HEIGHT - h) as i64,
        w: w as i64,
        h: h as i64,
    }
}

/// The blocks that `attempts` draws starting behind `n` leave on the map: those
/// that do not overlap the spawn area.
pub open spec fn blocks(n: u32, attempts: nat) -> Seq<Obstacle>
    decreases attempts,
{
    if attempts == 0 {
        Seq::empty()
    } else {
        let rest = blocks(lcg(lcg(lcg(lcg(n)))), (attempts - 1) as nat);
        if block(n).touches(spawn_area()) {
            rest
        } else {
            seq![Obstacle { rect: block(n) }] + rest
        }
    }
}

/// The four walls, 100 pixels thick, just outside the map.
pub open spec fn walls() -> Seq<Obstacle> {
    let t = (100 * UNIT) as i64;
    let m = (-100 * UNIT) as i64;
    let lw = (MAP_WIDTH + 200 * UNIT) as i64;
    let lh = (MAP_HEIGHT + 200 * UNIT) as i64;
    seq![
        Obstacle { rect: Rect { x: m, y: m, w: lw, h: t } },
        Obstacle { rect: Rect { x: m, y: MAP_HEIGHT, w: lw, h: t } },
        Obstacle { rect: Rect { x: m, y: m, w: t, h: lh } },
        Obstacle { rect: Rect { x: MAP_WIDTH, y: m, w: t, h: lh } },
    ]
}

/// The extents of a block lie between 50 and 250 pixels, and it lies on the map.
pub open spec fn lies_on_map(r: Rect) -> bool {
    &&& 50 * UNIT <= r.w <= 250 * UNIT
    &&& 50 * UNIT <= r.h <= 250 * UNIT
    &&& 0 <= r.x && r.right() <= MAP_WIDTH
    &&& 0 <= r.y && r.bottom() <= MAP_HEIGHT
}

impl Environment {
    /// Every obstacle is a rectangle that the arithmetic can hold.
    pub open spec fn in_range(self) -> bool {
        forall|i: int|
            0 <= i < self.obstacles@.len() ==> (#[trigger] self.obstacles@[i]).rect.in_range()
    }

    /// Every obstacle is an upright rectangle that the arithmetic can hold.
    pub open spec fn wf(self) -> bool {
        &&& self.in_range()
        &&& forall|i: int|
            0 <= i < self.obstacles@.len() ==> (#[trigger] self.obstacles@[i]).rect.upright()
    }

    /// Some obstacle overlaps the rectangle.
    pub open spec fn blocks_rect(self, r: Rect) -> bool {
        exists|i: int|
            0 <= i < self.obstacles@.len() && (#[trigger] self.obstacles@[i]).rect.touches(r)
    }

    /// Builds the map that belongs to a seed.
    pub fn new(seed: u32) -> (env: Self)
        ensures
            env.obstacles@ == walls() + blocks(seed, BLOCK_ATTEMPTS as nat),
            env.wf(),
    {
        let mut obstacles: Vec<Obstacle> = Vec::with_capacity(1004);
        let t: i64 = 100 * UNIT;
        obstacles.push(Obstacle { rect: Rect::new(-t, -t, MAP_WIDTH + 2 * t, t) });
        obstacles.push(Obstacle { rect: Rect::new(-t, MAP_HEIGHT, MAP_WIDTH + 2 * t, t) });
        obstacles.push(Obstacle { rect: Rect::new(-t, -t, t, MAP_HEIGHT + 2 * t) });
        obstacles.push(Obstacle { rect: Rect::new(MAP_WIDTH, -t, t, MAP_HEIGHT + 2 * t) });
        assert(obstacles@ =~= walls());

        let center: Vec2 = Vec2::new(MAP_WIDTH / 2, MAP_HEIGHT / 2);
        let center_rect: Rect = Rect::new(
            center.x - 200 * UNIT,
            center.y - 200 * UNIT,
            400 * UNIT,
            400 * UNIT,
        );
        let mut n: u32 = seed;
        let mut tried: u32 = 0;
        while tried < BLOCK_ATTEMPTS
            invariant
                tried <= BLOCK_ATTEMPTS,
                center_rect == spawn_area(),
                obstacles@ + blocks(n, (BLOCK_ATTEMPTS - tried) as nat) == walls() + blocks(
                    seed,
                    BLOCK_ATTEMPTS as nat,
                ),
                forall|i: int|
                    0 <= i < obstacles@.len() ==> (#[trigger] obstacles@[i]).rect.in_range()
                        && obstacles@[i].rect.upright(),
            decreases BLOCK_ATTEMPTS - tried,
        {
            let n1: u32 = next_random(n);
            let n2: u32 = next_random(n1);
            let n3: u32 = next_random(n2);
            let n4: u32 = next_random(n3);
            let width: i64 = 50 * UNIT + scale(n1, 200 * UNIT);
            let height: i64 = 50 * UNIT + scale(n2, 200 * UNIT);
            let x: i64 = scale(n3, MAP_WIDTH - width);
            let y: i64 = scale(n4, MAP_HEIGHT - height);
            let rect: Rect = Rect::new(x, y, width, height);
            assert(rect == block(n));
            let ghost rest = blocks(n4, (BLOCK_ATTEMPTS - tried - 1) as nat);
            let ghost before = obstacles@;
            if !rect.overlaps(&center_rect) {
                obstacles.push(Obstacle { rect });
                assert(before + (seq![Obstacle { rect }] + rest) =~= obstacles@ + rest);
            }
            n = n4;
            tried = tried + 1;
        }
        assert(obstacles@ + blocks(n, 0) =~= obstacles@);
        Self { obstacles }
    }

    /// Checks whether some obstacle overlaps the rectangle.
    pub fn overlaps_obstacle(&self, r: &Rect) -> (res: bool)
        requires
            self.in_range(),
            r.in_range(),
        ensures
            res == self.blocks_rect(*r),
    {
        let mut i: usize = 0;
        while i < self.obstacles.len()
            invariant
                self.in_range(),
                r.in_range(),
                i <= self.obstacles@.len(),
                forall|j: int| 0 <= j < i ==> !(#[trigger] self.obstacles@[j]).rect.touches(*r),
            decreases self.obstacles@.len() - i,
        {
            if self.obstacles[i].rect.overlaps(r) {
                return true;
            }
            i = i + 1;
        }
        false
    }
}

/// The number that follows `n` in the pseudo-random sequence.
pub fn next_random(n: u32) -> (r: u32)
    ensures
        r == lcg(n),
{
    ((n as u64 * 1664525 + 1013904223) % 0x1_0000_0000) as u32
}

/// The part `n / 2^32` of a length, rounded down.
pub fn scale(n: u32, length: i64) -> (r: i64)
    requires
        0 <= length,
    ensures
        r == fraction_of(n, length as int),
        0 <= r <= length,
{
    proof {
        lemma_fraction(n, length as int);
    }
    (n as u128 * length as u128 / 0x1_0000_0000) as i64
}

proof fn lemma_fraction(n: u32, length: int)
    requires
        0 <= length <= i64::MAX,
    ensures
        0 <= n * length <= 0xffff_ffff * length,
        0 <= fraction_of(n, length) <= length,
{
    assert(0 <= n * length <= 0xffff_ffff * length) by (nonlinear_arith)
        requires
            0 <= length,
            0 <= n <= 0xffff_ffff,
    ;
}

/// Every random block lies on the map, and none overlaps the spawn area.
pub proof fn law_blocks_keep_spawn_free(n: u32, attempts: nat)
    ensures
        forall|i: int|
            0 <= i < blocks(n, attempts).len() ==> lies_on_map(
                (#[trigger] blocks(n, attempts)[i]).rect,
            ) && !blocks(n, attempts)[i].rect.touches(spawn_area()),
        blocks(n, attempts).len() <= attempts,
    decreases attempts,
{
    if attempts > 0 {
        law_blocks_keep_spawn_free(lcg(lcg(lcg(lcg(n)))), (attempts - 1) as nat);
        let n1 = lcg(n);
        let n2 = lcg(n1);
        let n3 = lcg(n2);
        let n4 = lcg(n3);
        let w = 50 * UNIT + fraction_of(n1, 200 * UNIT);
        let h = 50 * UNIT + fraction_of(n2, 200 * UNIT);
        lemma_fraction(n1, 200 * UNIT);
        lemma_fraction(n2, 200 * UNIT);
        lemma_fraction(n3, MAP_WIDTH - w);
        lemma_fraction(n4, MAP_HEIGHT - h);
        assert(lies_on_map(block(n)));
    }
}

/// Whatever the seed, no obstacle of the map overlaps the spawn area.
pub proof fn law_spawn_area_is_free(seed: u32, env: Environment)
    requires
        env.obstacles@ == walls() + blocks(seed, BLOCK_ATTEMPTS as nat),
    ensures
        !env.blocks_rect(spawn_area()),
{
    law_blocks_keep_spawn_free(seed, BLOCK_ATTEMPTS as nat);
    assert forall|i: int| 0 <= i < env.obstacles@.len() implies !(
    #[trigger] env.obstacles@[i]).rect.touches(spawn_area()) by {
        if i >= 4 {
            assert(env.obstacles@[i] == blocks(seed, BLOCK_ATTEMPTS as nat)[i - 4]);
        }
    }
}

/// Behind every number follows the one that differs from 1664525 times it, plus
/// 1013904223, by a multiple of 2^32.
pub proof fn law_next_number(n: u32, next: u32)
    ensures
        next == lcg(n) <==> (n * 1664525 + 1013904223 - next) % 0x1_0000_0000 == 0,
{
}

/// A block spends the four numbers that are drawn for it in proportion: the first on
/// its width and the second on its height, both between 50 and 250 pixels, the third and
/// the fourth on where it lies in the room that its extents leave on the map. All are
/// rounded down to whole units.
pub proof fn law_block_follows_the_numbers(n: u32, n1: u32, n2: u32, n3: u32, n4: u32)
    requires
        (n * 1664525 + 1013904223 - n1) % 0x1_0000_0000 == 0,
        (n1 * 1664525 + 1013904223 - n2) % 0x1_0000_0000 == 0,
        (n2 * 1664525 + 1013904223 - n3) % 0x1_0000_0000 == 0,
        (n3 * 1664525 + 1013904223 - n4) % 0x1_0000_0000 == 0,
    ensures
        ({
            let b = block(n);
            let w = b.w - 0x32_0000_0000;
            let h = b.h - 0x32_0000_0000;
            &&& w * 0x1_0000_0000 <= n1 * 0xc8_0000_0000 < (w + 1) * 0x1_0000_0000
            &&& h * 0x1_0000_0000 <= n2 * 0xc8_0000_0000 < (h + 1) * 0x1_0000_0000
            &&& b.x * 0x1_0000_0000 <= n3 * (0x2710_0000_0000 - b.w) < (b.x + 1) * 0x1_0000_0000
            &&& b.y * 0x1_0000_0000 <= n4 * (0x2710_0000_0000 - b.h) < (b.y + 1) * 0x1_0000_0000
        }),
{
    law_next_number(n, n1);
    law_next_number(n1, n2);
    law_next_number(n2, n3);
    law_next_number(n3, n4);
    let w = 50 * UNIT + fraction_of(n1, 200 * UNIT);
    let h = 50 * UNIT + fraction_of(n2, 200 * UNIT);
    lemma_fraction(n1, 200 * UNIT);
    lemma_fraction(n2, 200 * UNIT);
    lemma_fraction(n3, MAP_WIDTH - w);
    lemma_fraction(n4, MAP_HEIGHT - h);
}

/// A larger number never gives a smaller extent, and with the same extents never a place
/// farther to the left or farther up.
pub proof fn law_larger_numbers_larger_blocks(m: u32, n: u32)
    ensures
        lcg(m) <= lcg(n) ==> block(m).w <= block(n).w,
        lcg(lcg(m)) <= lcg(lcg(n)) ==> block(m).h <= block(n).h,
        block(m).w == block(n).w && lcg(lcg(lcg(m))) <= lcg(lcg(lcg(n))) ==> block(m).x <= block(
            n,
        ).x,
        block(m).h == block(n).h && lcg(lcg(lcg(lcg(m)))) <= lcg(lcg(lcg(lcg(n)))) ==> block(m).y
            <= block(n).y,
{
    lemma_blocks_compare(m, n, lcg(m), lcg(lcg(m)), lcg(n), lcg(lcg(n)));
}

proof fn lemma_blocks_compare(m: u32, n: u32, m1: u32, m2: u32, n1: u32, n2: u32)
    requires
        m1 == lcg(m),
        m2 == lcg(m1),
        n1 == lcg(n),
        n2 == lcg(n1),
    ensures
        m1 <= n1 ==> block(m).w <= block(n).w,
        m2 <= n2 ==> block(m).h <= block(n).h,
        block(m).w == block(n).w && lcg(m2) <= lcg(n2) ==> block(m).x <= block(n).x,
        block(m).h == block(n).h && lcg(lcg(m2)) <= lcg(lcg(n2)) ==> block(m).y <= block(n).y,
{
    let (m3, n3) = (lcg(m2), lcg(n2));
    let (m4, n4) = (lcg(m3), lcg(n3));
    lemma_drawn(m, m1, m2, m3, m4);
    lemma_drawn(n, n1, n2, n3, n4);
    lemma_rects_compare(block(m), m1, m2, m3, m4, block(n), n1, n2, n3, n4);
}

proof fn lemma_drawn(n: u32, n1: u32, n2: u32, n3: u32, n4: u32)
    requires
        n1 == lcg(n),
        n2 == lcg(n1),
        n3 == lcg(n2),
        n4 == lcg(n3),
    ensures
        spends(block(n), n1, n2, n3, n4),
{
    law_next_number(n, n1);
    law_next_number(n1, n2);
    law_next_number(n2, n3);
    law_next_number(n3, n4);
    law_block_follows_the_numbers(n, n1, n2, n3, n4);
}

/// The rectangle spends four numbers in proportion.
spec fn spends(b: Rect, n1: u32, n2: u32, n3: u32, n4: u32) -> bool {
    let w = b.w - 0x32_0000_0000;
    let h = b.h - 0x32_0000_0000;
    &&& w * 0x1_0000_0000 <= n1 * 0xc8_0000_0000 < (w + 1) * 0x1_0000_0000
    &&& h * 0x1_0000_0000 <= n2 * 0xc8_0000_0000 < (h + 1) * 0x1_0000_0000
    &&& b.x * 0x1_0000_0000 <= n3 * (0x2710_0000_0000 - b.w) < (b.x + 1) * 0x1_0000_0000
    &&& b.y * 0x1_0000_0000 <= n4 * (0x2710_0000_0000 - b.h) < (b.y + 1) * 0x1_0000_0000
}

proof fn lemma_rects_compare(
    a: Rect,
    m1: u32,
    m2: u32,
    m3: u32,
    m4: u32,
    b: Rect,
    n1: u32,
    n2: u32,
    n3: u32,
    n4: u32,
)
    requires
        spends(a, m1, m2, m3, m4),
        spends(b, n1, n2, n3, n4),
    ensures
        m1 <= n1 ==> a.w <= b.w,
        m2 <= n2 ==> a.h <= b.h,
        a.w == b.w && m3 <= n3 ==> a.x <= b.x,
        a.h == b.h && m4 <= n4 ==> a.y <= b.y,
{
    lemma_in_proportion(m3 as int, n3 as int, 0x2710_0000_0000 - a.w, a.x as int, b.x as int);
    lemma_in_proportion(m4 as int, n4 as int, 0x2710_0000_0000 - a.h, a.y as int, b.y as int);
}

proof fn lemma_in_proportion(m: int, n: int, length: int, a: int, b: int)
    requires
        0 <= length,
    ensures
        m <= n && a * 0x1_0000_0000 <= m * length && n * length < (b + 1) * 0x1_0000_0000 ==> a
            <= b,
{
    if m <= n {
        assert(m * length <= n * length) by (nonlinear_arith)
            requires
                m <= n,
                0 <= length,
        ;
    }
}

/// One attempt more adds the block of that attempt at the end, unless it overlaps the
/// middle 400 by 400 pixels of the map, and keeps all others. `numbers` are those that
/// follow each other from the seed on; each attempt draws four.
pub proof fn law_every_attempt_counts(seed: u32, numbers: Seq<u32>, attempts: nat)
    requires
        numbers.len() > 4 * attempts,
        numbers[0] == seed,
        forall|j: int|
            0 <= j < numbers.len() - 1 ==> (#[trigger] numbers[j] * 1664525 + 1013904223
                - numbers[j + 1]) % 0x1_0000_0000 == 0,
    ensures
        blocks(seed, 0).len() == 0,
        ({
            let b = block(numbers[4 * attempts as int]);
            let in_the_middle = b.x <= 0x1450_0000_0000 && b.x + b.w >= 0x12c0_0000_0000 && b.y
                <= 0x1450_0000_0000 && b.y + b.h >= 0x12c0_0000_0000;
            blocks(seed, attempts + 1) == if in_the_middle {
                blocks(seed, attempts)
            } else {
                blocks(seed, attempts).push(Obstacle { rect: b })
            }
        }),
    decreases attempts,
{
    if attempts == 0 {
        assert(blocks(lcg(lcg(lcg(lcg(seed)))), 0) == Seq::<Obstacle>::empty());
        assert(blocks(seed, 1) =~= if block(seed).touches(spawn_area()) {
            Seq::empty()
        } else {
            seq![Obstacle { rect: block(seed) }]
        });
        assert(blocks(seed, 0).push(Obstacle { rect: block(seed) }) =~= seq![
            Obstacle { rect: block(seed) },
        ]);
    } else {
        let rest = numbers.skip(4);
        let fourth = numbers[4];
        law_next_number(numbers[0], numbers[0int + 1]);
        law_next_number(numbers[1], numbers[1int + 1]);
        law_next_number(numbers[2], numbers[2int + 1]);
        law_next_number(numbers[3], numbers[3int + 1]);
        assert(fourth == lcg(lcg(lcg(lcg(seed)))));
        assert forall|j: int| 0 <= j < rest.len() - 1 implies (#[trigger] rest[j] * 1664525
            + 1013904223 - rest[j + 1]) % 0x1_0000_0000 == 0 by {
            assert((numbers[j + 4] * 1664525 + 1013904223 - numbers[j + 4 + 1]) % 0x1_0000_0000
                == 0);
        }
        let before = (attempts - 1) as nat;
        law_every_attempt_counts(fourth, rest, before);
        assert(rest[4 * before as int] == numbers[4 * attempts as int]);
        let b = Obstacle { rect: block(numbers[4 * attempts as int]) };
        let first = seq![Obstacle { rect: block(seed) }];
        assert((first + blocks(fourth, before)).push(b) =~= first + blocks(fourth, before).push(b));
    }
}

/// The map of a seed has four walls of 100 pixels around its 10000 by 10000 pixels, and
/// behind them the blocks of 1000 attempts.
pub proof fn law_map_has_walls_and_blocks(seed: u32, env: Environment)
    requires
        env.obstacles@ == walls() + blocks(seed, BLOCK_ATTEMPTS as nat),
    ensures
        env.obstacles@.len() >= 4,
        env.obstacles@.skip(4) == blocks(seed, 1000),
        forall|i: int|
            0 <= i < 4 ==> {
                let r = (#[trigger] env.obstacles@[i]).rect;
                let far = 0x2710_0000_0000int;
                let thick = 0x64_0000_0000int;
                &&& r.x == (if i == 3 {
                    far
                } else {
                    -thick
                })
                &&& r.y == (if i == 1 {
                    far
                } else {
                    -thick
                })
                &&& r.w == (if i < 2 {
                    far + 2 * thick
                } else {
                    thick
                })
                &&& r.h == (if i < 2 {
                    thick
                } else {
                    far + 2 * thick
                })
            },
{
    assert(env.obstacles@.skip(4) =~= blocks(seed, 1000));
}

/// A rectangle is blocked exactly where some obstacle has an edge or more in common with
/// it.
pub proof fn law_blocked_by_what_overlaps(env: Environment, r: Rect)
    ensures
        env.blocks_rect(r) <==> exists|i: int|
            0 <= i < env.obstacles@.len() && {
                let o = (#[trigger] env.obstacles@[i]).rect;
                o.x - r.w <= r.x <= o.x + o.w && o.y - r.h <= r.y <= o.y + o.h
            },
{
    if env.blocks_rect(r) {
        let i = choose|i: int|
            0 <= i < env.obstacles@.len() && (#[trigger] env.obstacles@[i]).rect.touches(r);
        assert(env.obstacles@[i].rect.touches(r));
    }
}

} // verus!
