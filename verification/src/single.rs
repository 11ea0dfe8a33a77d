//! Coordinates on the wire.
//!
//! There a coordinate is a single-precision number of pixels, here it is a whole
//! number of units. A single-precision number is kept as its bits: a sign, eight
//! bits of exponent and 23 bits of fraction, from the highest to the lowest.
use crate::geometry::clamped;
use vstd::arithmetic::power2::{lemma2_to64, lemma_pow2_unfold, pow2};
use vstd::prelude::*;

verus! {

/// Coordinates and extents that are written stay within this many units, twice the
/// limit of coordinates, and what is read counts as so many where it is farther away.
pub const WIRE_LIMIT: i64 = 0x2000_0000_0000_0000;

/// Sizes above this many units are not told apart.
const FAR: i128 = 0x100_0000_0000_0000_0000_0000_0000_0000;

/// `v` doubled `times` times.
pub open spec fn doubled(v: int, times: nat) -> int
    decreases times,
{
    if times == 0 {
        v
    } else {
        doubled(2 * v, (times - 1) as nat)
    }
}

/// `v` halved `times` times, each time rounded down.
pub open spec fn halved(v: int, times: nat) -> int
    decreases times,
{
    if times == 0 {
        v
    } else {
        halved(v / 2, (times - 1) as nat)
    }
}

/// The exponent that bits without a sign stand for; the lowest stands for the
/// numbers next to zero, which have the exponent of the second lowest.
pub open spec fn exponent(b: int) -> int {
    if b / 0x80_0000 == 0 {
        1
    } else {
        b / 0x80_0000
    }
}

/// The digits of the number, as a whole number.
pub open spec fn significand(b: int) -> int {
    if b / 0x80_0000 == 0 {
        b
    } else {
        b % 0x80_0000 + 0x80_0000
    }
}

/// How many units the number with the given bits, without a sign, has, rounded
/// down.
pub open spec fn magnitude(b: int) -> int {
    if exponent(b) >= 118 {
        doubled(significand(b), (exponent(b) - 118) as nat)
    } else {
        halved(significand(b), (118 - exponent(b)) as nat)
    }
}

/// How many units the number has, rounded toward zero. Infinities and what is not a
/// number have none.
pub open spec fn units_of(bits: u32) -> Option<int> {
    let b = bits % 0x8000_0000;
    if b >= 0x7f80_0000 {
        None
    } else if bits >= 0x8000_0000 {
        Some(-magnitude(b as int))
    } else {
        Some(magnitude(b as int))
    }
}

proof fn lemma_doubled_monotone(a: int, b: int, times: nat)
    requires
        a <= b,
    ensures
        doubled(a, times) <= doubled(b, times),
        0 <= a ==> a <= doubled(a, times),
        a < b ==> doubled(a, times) < doubled(b, times),
    decreases times,
{
    if times > 0 {
        lemma_doubled_monotone(2 * a, 2 * b, (times - 1) as nat);
    }
}

proof fn lemma_halved_monotone(a: int, b: int, times: nat)
    requires
        0 <= a <= b,
    ensures
        0 <= halved(a, times) <= halved(b, times),
        halved(a, times) <= a,
    decreases times,
{
    if times > 0 {
        lemma_halved_monotone(a / 2, b / 2, (times - 1) as nat);
    }
}

pub proof fn lemma_doubled_once_more(v: int, times: nat)
    ensures
        doubled(v, times + 1) == 2 * doubled(v, times),
    decreases times,
{
    if times == 0 {
        assert(doubled(v, 1) == doubled(2 * v, 0));
    } else {
        lemma_doubled_once_more(2 * v, (times - 1) as nat);
    }
}

proof fn lemma_halved_doubled(v: int, times: nat)
    ensures
        halved(doubled(v, times), times) == v,
    decreases times,
{
    if times > 0 {
        lemma_doubled_once_more(v, (times - 1) as nat);
        lemma_halved_doubled(v, (times - 1) as nat);
        assert(doubled(v, times) / 2 == doubled(v, (times - 1) as nat));
    }
}

/// Of two numbers without a sign, the one with the higher bits is not smaller.
pub proof fn law_bits_order_numbers(a: int, b: int)
    requires
        0 <= a <= b < 0x7f80_0000,
    ensures
        0 <= magnitude(a) <= magnitude(b),
    decreases b - a,
{
    if a < b {
        law_bits_order_numbers(a, b - 1);
        lemma_next(b - 1);
    } else {
        if exponent(a) >= 118 {
            lemma_doubled_monotone(significand(a), significand(a), (exponent(a) - 118) as nat);
        } else {
            lemma_halved_monotone(significand(a), significand(a), (118 - exponent(a)) as nat);
        }
    }
}

proof fn lemma_next(a: int)
    requires
        0 <= a < 0x7f80_0000,
    ensures
        magnitude(a) <= magnitude(a + 1),
{
    let b = a + 1;
    let e = exponent(a);
    let s = significand(a);
    if exponent(b) == e {
        assert(significand(b) == s + 1);
        if e >= 118 {
            lemma_doubled_monotone(s, s + 1, (e - 118) as nat);
        } else {
            lemma_halved_monotone(s, s + 1, (118 - e) as nat);
        }
    } else {
        assert(exponent(b) == e + 1);
        assert(significand(b) == 0x80_0000);
        assert(s == 0xff_ffff);
        if e >= 118 {
            lemma_doubled_monotone(s, 0x100_0000, (e - 118) as nat);
            assert(doubled(0x80_0000, (e + 1 - 118) as nat) == doubled(
                0x100_0000,
                (e - 118) as nat,
            ));
        } else {
            lemma_halved_monotone(s, 0x100_0000, (118 - e) as nat);
            assert(halved(0x100_0000, (118 - e) as nat) == halved(
                0x80_0000,
                (118 - e - 1) as nat,
            ));
            if e == 117 {
                assert(doubled(0x80_0000, 0) == halved(0x80_0000, 0));
            }
        }
    }
}

/// The units that are read, rounded toward zero. What is not a number has none; an
/// infinite number counts as the one that would follow the largest.
pub open spec fn reading(bits: u32) -> Option<int> {
    let b = (bits % 0x8000_0000) as int;
    if b > 0x7f80_0000 {
        None
    } else if bits >= 0x8000_0000 {
        Some(-magnitude(b))
    } else {
        Some(magnitude(b))
    }
}

/// The number is finite.
pub open spec fn is_finite(bits: u32) -> bool {
    bits % 0x8000_0000 < 0x7f80_0000
}

/// Within what is read as it is.
pub open spec fn kept_near(v: int) -> int {
    clamped(v, -WIRE_LIMIT as int, WIRE_LIMIT as int)
}

/// Reads the size of a number, up to `FAR`.
fn measure(b: u32) -> (v: i128)
    requires
        b <= 0x7f80_0000,
    ensures
        v == if magnitude(b as int) > FAR {
            FAR as int
        } else {
            magnitude(b as int)
        },
        0 <= v <= FAR,
{
    let high: u32 = b / 0x80_0000;
    let (mut left, mut v): (u32, i128) = if high == 0 {
        (1, b as i128)
    } else {
        (high, (b % 0x80_0000) as i128 + 0x80_0000)
    };
    if left >= 118 {
        left = left - 118;
        while left > 0
            invariant
                0 <= v <= 2 * FAR,
                magnitude(b as int) == doubled(v as int, left as nat),
            decreases left,
        {
            if v > FAR {
                proof {
                    lemma_doubled_monotone(v as int, v as int, left as nat);
                }
                return FAR;
            }
            v = 2 * v;
            left = left - 1;
        }
        if v > FAR {
            return FAR;
        }
    } else {
        left = 118 - left;
        while left > 0
            invariant
                0 <= v <= 0x100_0000,
                magnitude(b as int) == halved(v as int, left as nat),
            decreases left,
        {
            v = v / 2;
            left = left - 1;
        }
    }
    v
}

/// Gives a size the sign of a number.
fn with_sign(bits: u32, size: i128) -> (v: i128)
    requires
        0 <= size <= 2 * FAR,
    ensures
        v == if bits >= 0x8000_0000 {
            -size
        } else {
            size as int
        },
{
    if bits >= 0x8000_0000 {
        -size
    } else {
        size
    }
}

/// Brings a sum within what is read as it is.
fn keep_near(v: i128) -> (c: i64)
    ensures
        c == kept_near(v as int),
{
    if v < -(WIRE_LIMIT as i128) {
        -WIRE_LIMIT
    } else if v > WIRE_LIMIT as i128 {
        WIRE_LIMIT
    } else {
        v as i64
    }
}

/// Reads a coordinate, up to `WIRE_LIMIT`. `None` where it is not a number.
pub fn read_single(bits: u32) -> (res: Option<i64>)
    ensures
        match res {
            Some(v) => reading(bits) is Some && v == kept_near(reading(bits)->0),
            None => reading(bits) is None,
        },
{
    let b: u32 = bits % 0x8000_0000;
    if b > 0x7f80_0000 {
        return None;
    }
    Some(keep_near(with_sign(bits, measure(b))))
}

proof fn lemma_doubled_further(v: int, a: nat, b: nat)
    ensures
        doubled(v, a + b) == doubled(doubled(v, a), b),
    decreases a,
{
    if a > 0 {
        lemma_doubled_further(2 * v, (a - 1) as nat, b);
    }
}

/// A number up to 2^31 pixels has at most 2^63 units.
proof fn lemma_small_size(b: int)
    requires
        0 <= b <= 0x4f00_0000,
    ensures
        0 <= magnitude(b) <= 0x8000_0000_0000_0000,
{
    law_bits_order_numbers(b, 0x4f00_0000);
    lemma_forty_doublings(0x80_0000);
    assert(exponent(0x4f00_0000) == 158);
    assert(significand(0x4f00_0000) == 0x80_0000);
}

proof fn lemma_forty_doublings(v: int)
    ensures
        doubled(v, 40) == 0x100_0000_0000 * v,
{
    reveal_with_fuel(doubled, 41);
}

proof fn lemma_most_doublings()
    ensures
        doubled(0x100_0000, 97) == 2 * FAR,
{
    lemma_doubled_further(0x100_0000, 40, 57);
    lemma_forty_doublings(0x100_0000);
    lemma_doubled_further(0x1_0000_0000_0000_0000, 40, 17);
    lemma_forty_doublings(0x1_0000_0000_0000_0000);
    reveal_with_fuel(doubled, 18);
}

/// The digits of a number from 2^31 pixels on, doubled as far as multiples of 2^40 units
/// take.
proof fn lemma_large_size(b: int)
    requires
        0x4f00_0000 <= b <= 0x7f80_0000,
    ensures
        ({
            let part = doubled(significand(b), (b / 0x80_0000 - 158) as nat);
            magnitude(b) == 0x100_0000_0000 * part && part <= 2 * FAR
        }),
{
    let s = significand(b);
    let times = (b / 0x80_0000 - 158) as nat;
    let part = doubled(s, times);
    lemma_doubled_further(s, times, 40);
    assert(magnitude(b) == doubled(part, 40));
    lemma_forty_doublings(part);
    lemma_doubled_monotone(s, 0x100_0000, times);
    lemma_doubled_monotone(0x100_0000, 0x100_0000, times);
    if times < 97 {
        lemma_doubled_grows(0x100_0000, times, 97);
    }
    lemma_most_doublings();
}

/// Reads the size of a number from 2^31 pixels on, in multiples of 2^40 units, which
/// it is made of.
fn measure_large(b: u32) -> (v: i128)
    requires
        0x4f00_0000 <= b <= 0x7f80_0000,
    ensures
        magnitude(b as int) == 0x100_0000_0000 * v,
        0 <= v <= 2 * FAR,
{
    let mut left: u32 = b / 0x80_0000 - 158;
    let mut v: i128 = (b % 0x80_0000) as i128 + 0x80_0000;
    let ghost whole = doubled(v as int, left as nat);
    proof {
        lemma_large_size(b as int);
    }
    while left > 0
        invariant
            0 <= v,
            whole == doubled(v as int, left as nat),
            whole <= 2 * FAR,
        decreases left,
    {
        proof {
            lemma_doubled_monotone(2 * v, 2 * v, (left - 1) as nat);
        }
        v = 2 * v;
        left = left - 1;
    }
    v
}

/// Reads a coordinate that is given by another one and the distance from it, up to
/// `WIRE_LIMIT`. Both are added as they are, however large.
pub fn read_sum(start: u32, extent: u32) -> (v: i64)
    requires
        reading(start) is Some,
        reading(extent) is Some,
    ensures
        v == kept_near(reading(start)->0 + reading(extent)->0),
{
    let a: u32 = start % 0x8000_0000;
    let b: u32 = extent % 0x8000_0000;
    if a >= 0x4f00_0000 && b >= 0x4f00_0000 {
        let sum: i128 = with_sign(start, measure_large(a)) + with_sign(extent, measure_large(b));
        assert(reading(start)->0 + reading(extent)->0 == 0x100_0000_0000 * sum);
        if sum > 0x20_0000 {
            WIRE_LIMIT
        } else if sum < -0x20_0000 {
            -WIRE_LIMIT
        } else {
            (sum * 0x100_0000_0000) as i64
        }
    } else {
        proof {
            if a < 0x4f00_0000 {
                lemma_small_size(a as int);
            } else {
                lemma_small_size(b as int);
            }
        }
        keep_near(with_sign(start, measure(a)) + with_sign(extent, measure(b)))
    }
}

proof fn lemma_doublings(a: nat, b: nat)
    requires
        a <= b,
    ensures
        doubled(1, a) <= doubled(1, b),
    decreases b - a,
{
    if a < b {
        lemma_doublings(a, (b - 1) as nat);
        lemma_doubled_once_more(1, (b - 1) as nat);
        lemma_doubled_monotone(1, 1, (b - 1) as nat);
    }
}

proof fn lemma_few_doublings(times: nat)
    ensures
        doubled(1, times) < 0x100_0000 ==> times < 24,
        doubled(1, times) <= WIRE_LIMIT ==> times <= 61,
{
    reveal_with_fuel(doubled, 63);
    if times >= 24 {
        lemma_doublings(24, times);
    }
    if times >= 62 {
        lemma_doublings(62, times);
    }
}

/// The size of a coordinate.
pub open spec fn size_of(v: int) -> int {
    if v < 0 {
        -v
    } else {
        v
    }
}

/// The number with the given bits, without a sign, has exactly so many units.
pub open spec fn is_exactly(b: int, size: int) -> bool {
    if exponent(b) >= 118 {
        doubled(significand(b), (exponent(b) - 118) as nat) == size
    } else {
        significand(b) == doubled(size, (118 - exponent(b)) as nat)
    }
}

/// The bits are those of the coordinate, rounded toward zero where it has more digits
/// than a single-precision number.
pub open spec fn stands_for(bits: u32, v: int) -> bool {
    let b = (bits % 0x8000_0000) as int;
    &&& b < 0x7f80_0000
    &&& bits >= 0x8000_0000 <==> v < 0
    &&& size_of(v) < 0x100_0000 ==> is_exactly(b, size_of(v))
    &&& size_of(v) >= 0x100_0000 ==> magnitude(b) <= size_of(v) < magnitude(b + 1)
}

proof fn lemma_doubled_zero(times: nat)
    ensures
        doubled(0, times) == 0,
    decreases times,
{
    if times > 0 {
        lemma_doubled_zero((times - 1) as nat);
    }
}

/// A number with exactly so many units has so many units.
proof fn lemma_exact_magnitude(b: int, size: int)
    requires
        is_exactly(b, size),
    ensures
        magnitude(b) == size,
{
    if exponent(b) < 118 {
        lemma_halved_doubled(size, (118 - exponent(b)) as nat);
    }
}

/// The bits of a size that has few digits.
fn write_short(size: i64) -> (b: u32)
    requires
        0 < size < 0x100_0000,
    ensures
        b < 0x7f80_0000,
        is_exactly(b as int, size as int),
{
    let mut s: i64 = size;
    let mut k: u32 = 0;
    while s < 0x80_0000
        invariant
            0 < size <= s < 0x100_0000,
            s == doubled(size as int, k as nat),
            0 <= k <= 24,
        decreases 0x100_0000 - s,
    {
        proof {
            lemma_doubled_once_more(size as int, k as nat);
            lemma_doubled_monotone(1, size as int, (k + 1) as nat);
            lemma_few_doublings((k + 1) as nat);
        }
        s = 2 * s;
        k = k + 1;
    }
    let b: u32 = (118 - k) * 0x80_0000 + (s - 0x80_0000) as u32;
    proof {
        assert(b / 0x80_0000 == 118 - k);
        assert(significand(b as int) == s);
        if k == 0 {
            assert(doubled(s as int, 0) == s);
        }
    }
    b
}

/// The bits of a size that has many digits.
fn write_long(size: i64) -> (b: u32)
    requires
        0x100_0000 <= size <= WIRE_LIMIT,
    ensures
        b + 1 < 0x7f80_0000,
        magnitude(b as int) <= size < magnitude(b + 1),
{
    let mut s: i64 = size;
    let mut k: u32 = 0;
    while s >= 0x100_0000
        invariant
            0x80_0000 <= s <= size <= WIRE_LIMIT,
            0 <= k <= 61,
            doubled(s as int, k as nat) <= size < doubled(s + 1, k as nat),
        decreases s,
    {
        proof {
            let half = s as int / 2;
            lemma_doubled_monotone(2 * half, s as int, k as nat);
            lemma_doubled_monotone(s + 1, 2 * half + 2, k as nat);
            lemma_doubled_monotone(1, half, (k + 1) as nat);
            lemma_few_doublings((k + 1) as nat);
        }
        s = s / 2;
        k = k + 1;
    }
    let b: u32 = (118 + k) * 0x80_0000 + (s - 0x80_0000) as u32;
    proof {
        assert(b / 0x80_0000 == 118 + k);
        assert(significand(b as int) == s);
        if s == 0xff_ffff {
            assert((b + 1) / 0x80_0000 == 119 + k);
            assert(significand(b + 1) == 0x80_0000);
            assert(doubled(0x80_0000, (k + 1) as nat) == doubled(0x100_0000, k as nat));
        } else {
            assert((b + 1) / 0x80_0000 == 118 + k);
            assert(significand(b + 1) == s + 1);
        }
    }
    b
}

/// Writes a coordinate, rounded toward zero where it has more digits than a
/// single-precision number.
pub fn write_single(v: i64) -> (bits: u32)
    requires
        -WIRE_LIMIT <= v <= WIRE_LIMIT,
    ensures
        stands_for(bits, v as int),
{
    let size: i64 = if v < 0 {
        -v
    } else {
        v
    };
    let b: u32 = if size == 0 {
        proof {
            lemma_doubled_zero(117);
        }
        0
    } else if size < 0x100_0000 {
        write_short(size)
    } else {
        write_long(size)
    };
    if v < 0 {
        b + 0x8000_0000
    } else {
        b
    }
}

/// A coordinate that some single-precision number has exactly comes back from the
/// bits that are written for it.
pub proof fn law_single_reads_back(v: int, exact: u32, written: u32)
    requires
        units_of(exact) == Some(v),
        stands_for(written, v),
    ensures
        units_of(written) == Some(v),
{
    let a = (exact % 0x8000_0000) as int;
    let b = (written % 0x8000_0000) as int;
    if size_of(v) < 0x100_0000 {
        lemma_exact_magnitude(b, size_of(v));
    }
    if b + 1 <= a {
        law_bits_order_numbers(b + 1, a);
    } else {
        law_bits_order_numbers(a, b);
    }
    law_bits_order_numbers(a, a);
    law_bits_order_numbers(b, b);
}

proof fn lemma_doubled_grows(v: int, a: nat, b: nat)
    requires
        v >= 0,
        a < b,
    ensures
        doubled(v, b) >= 2 * doubled(v, a),
    decreases b - a,
{
    lemma_doubled_once_more(v, (b - 1) as nat);
    lemma_doubled_monotone(v, v, (b - 1) as nat);
    lemma_doubled_monotone(v, v, a);
    if a < b - 1 {
        lemma_doubled_grows(v, a, (b - 1) as nat);
    }
}

/// Where the digits of a number with exactly so many units lie.
proof fn lemma_exact_place(b: int, size: int)
    requires
        0 < size < 0x100_0000,
        0 <= b < 0x7f80_0000,
        is_exactly(b, size),
    ensures
        b / 0x80_0000 >= 1,
        b / 0x80_0000 <= 118,
        significand(b) == doubled(size, (118 - b / 0x80_0000) as nat),
{
    let e = exponent(b);
    if b / 0x80_0000 == 0 {
        lemma_doubled_monotone(1, size, 117);
        lemma_few_doublings(117);
    } else if e > 118 {
        lemma_doubled_grows(significand(b), 0, (e - 118) as nat);
    }
}

/// Only one sequence of bits stands for a coordinate.
pub proof fn law_bits_are_unique(v: int, first: u32, second: u32)
    requires
        stands_for(first, v),
        stands_for(second, v),
    ensures
        first == second,
{
    let a = (first % 0x8000_0000) as int;
    let b = (second % 0x8000_0000) as int;
    let size = size_of(v);
    if size == 0 {
        lemma_zero_bits(a);
        lemma_zero_bits(b);
    } else if size < 0x100_0000 {
        lemma_exact_place(a, size);
        lemma_exact_place(b, size);
        let j = (118 - a / 0x80_0000) as nat;
        let k = (118 - b / 0x80_0000) as nat;
        if j < k {
            lemma_doubled_grows(size, j, k);
        } else if k < j {
            lemma_doubled_grows(size, k, j);
        }
    } else if a < b {
        law_bits_order_numbers(a + 1, b);
    } else if b < a {
        law_bits_order_numbers(b + 1, a);
    }
}

proof fn lemma_zero_bits(b: int)
    requires
        0 <= b < 0x7f80_0000,
        is_exactly(b, 0),
    ensures
        b == 0,
{
    if exponent(b) >= 118 {
        lemma_doubled_monotone(significand(b), significand(b), (exponent(b) - 118) as nat);
    } else {
        lemma_doubled_zero((118 - exponent(b)) as nat);
    }
}

/// Some single-precision number is exactly this coordinate.
pub open spec fn is_single(v: int) -> bool {
    exists|bits: u32| #[trigger] units_of(bits) == Some(v)
}

/// A whole number with few digits, doubled some times, is a single-precision number
/// if it is not too small and not too large.
pub proof fn lemma_is_single(m: int, times: nat)
    requires
        0 < m < 0x100_0000,
        times <= 100,
        doubled(m, times) >= 0x80_0000,
    ensures
        is_single(doubled(m, times)),
    decreases times,
{
    if m >= 0x80_0000 {
        let b = (118 + times) * 0x80_0000 + (m - 0x80_0000);
        let bits = b as u32;
        assert(b / 0x80_0000 == 118 + times);
        assert(significand(b) == m);
        assert(bits % 0x8000_0000 == b);
        assert(units_of(bits) == Some(doubled(m, times)));
    } else {
        lemma_is_single(2 * m, (times - 1) as nat);
    }
}

/// Zero is a single-precision number.
pub proof fn lemma_zero_is_single()
    ensures
        is_single(0),
{
    lemma_halved_monotone(0, 0, 117);
    assert(units_of(0) == Some(0int));
}

proof fn lemma_doubled_is_product(v: int, times: nat)
    ensures
        doubled(v, times) == v * pow2(times),
    decreases times,
{
    if times == 0 {
        lemma2_to64();
    } else {
        lemma_doubled_is_product(2 * v, (times - 1) as nat);
        lemma_pow2_unfold(times);
        let p = pow2((times - 1) as nat) as int;
        assert((2 * v) * p == v * (2 * p)) by (nonlinear_arith);
    }
}

proof fn lemma_halved_is_quotient(v: int, times: nat)
    requires
        v >= 0,
    ensures
        halved(v, times) * pow2(times) <= v < (halved(v, times) + 1) * pow2(times),
    decreases times,
{
    if times == 0 {
        lemma2_to64();
    } else {
        lemma_halved_is_quotient(v / 2, (times - 1) as nat);
        lemma_pow2_unfold(times);
        let p = pow2((times - 1) as nat) as int;
        let h = halved(v, times);
        assert(h * (2 * p) == 2 * (h * p)) by (nonlinear_arith);
        assert((h + 1) * (2 * p) == 2 * ((h + 1) * p)) by (nonlinear_arith);
    }
}

/// The bits of a single-precision number are read as IEEE 754 has it: a sign, an exponent
/// `e` and a fraction. A number of pixels has 2^32 times as many units; what is less than a
/// unit is cut off. An exponent of 255 with a fraction is not a number.
pub proof fn law_bits_are_read_by_their_exponent(bits: u32, e: int, fraction: int)
    requires
        bits % 0x8000_0000 == e * 0x80_0000 + fraction,
        0 <= e,
        0 <= fraction < 0x80_0000,
    ensures
        reading(bits) is None <==> e == 255 && fraction > 0,
        reading(bits) matches Some(v) ==> {
            let size = if bits >= 0x8000_0000 {
                -v
            } else {
                v
            };
            &&& e >= 118 ==> size == (0x80_0000 + fraction) * pow2((e - 118) as nat)
            &&& 0 < e < 118 ==> size * pow2((118 - e) as nat) <= 0x80_0000 + fraction < (size + 1)
                * pow2((118 - e) as nat)
            &&& e == 0 ==> size * pow2(117) <= fraction < (size + 1) * pow2(117)
        },
{
    let b = (bits % 0x8000_0000) as int;
    assert(b / 0x80_0000 == e && b % 0x80_0000 == fraction);
    if e >= 118 {
        lemma_doubled_is_product(significand(b), (e - 118) as nat);
    } else {
        lemma_halved_is_quotient(significand(b), (118 - exponent(b)) as nat);
    }
}

/// The bits that stand for a number of units have its sign and the highest exponent and
/// digits that do not exceed it: one more in the last digit would. A number of fewer than
/// 2^24 units is met exactly.
pub proof fn law_bits_stand_for_the_nearest_below(bits: u32, v: int, e: int, fraction: int)
    requires
        stands_for(bits, v),
        bits % 0x8000_0000 == e * 0x80_0000 + fraction,
        0 <= e,
        0 <= fraction < 0x80_0000,
    ensures
        bits >= 0x8000_0000 <==> v < 0,
        v == 0 ==> bits == 0,
        ({
            let size = if v < 0 {
                -v
            } else {
                v
            };
            let digits = 0x80_0000 + fraction;
            &&& size >= 0x100_0000 ==> e >= 118 && digits * pow2((e - 118) as nat) <= size < (digits
                + 1) * pow2((e - 118) as nat)
            &&& 0 < size < 0x100_0000 ==> 0 < e <= 118 && digits == size * pow2((118 - e) as nat)
        }),
{
    let b = (bits % 0x8000_0000) as int;
    assert(b / 0x80_0000 == e && b % 0x80_0000 == fraction);
    let size = size_of(v);
    if size == 0 {
        lemma_zero_bits(b);
    } else if size < 0x100_0000 {
        lemma_exact_place(b, size);
        lemma_doubled_is_product(size, (118 - e) as nat);
    } else {
        if e < 118 {
            law_bits_order_numbers(b + 1, 0x3b00_0000);
            assert(exponent(0x3b00_0000) == 118 && significand(0x3b00_0000) == 0x80_0000);
            assert(magnitude(0x3b00_0000) == 0x80_0000);
        }
        lemma_doubled_is_product(significand(b), (e - 118) as nat);
        let s = significand(b);
        if fraction == 0x7f_ffff {
            assert((b + 1) / 0x80_0000 == e + 1 && significand(b + 1) == 0x80_0000);
            assert(doubled(0x80_0000, (e + 1 - 118) as nat) == doubled(
                0x100_0000,
                (e - 118) as nat,
            ));
        } else {
            assert((b + 1) / 0x80_0000 == e && significand(b + 1) == s + 1);
        }
        lemma_doubled_is_product(s + 1, (e - 118) as nat);
    }
}

/// What is read is kept as it is up to 2^61 units, and as that where it is larger.
pub proof fn law_near_numbers_are_kept(v: int)
    ensures
        -0x2000_0000_0000_0000 <= v <= 0x2000_0000_0000_0000 ==> kept_near(v) == v,
        v > 0x2000_0000_0000_0000 ==> kept_near(v) == 0x2000_0000_0000_0000,
        v < -0x2000_0000_0000_0000 ==> kept_near(v) == -0x2000_0000_0000_0000,
{
}

} // verus!
