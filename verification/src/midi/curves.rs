//! The shapes of the curves: how high each stands at a given part of the way.
//!
//! Progress is counted in parts of [`PROGRESS_ONE`], periods, sharpness and
//! phase in thousandths, heights in bend units. Every height is the exact
//! value of its formula on these numbers, rounded down.
use vstd::prelude::*;
use crate::midi::fixed::{floor_div_mod, lemma_floor_bound, lemma_mul_bound};

verus! {

/// The whole length of a glide, in the unit that progress is counted in.
pub const PROGRESS_ONE: u64 = 4294967296;

/// One whole, in the thousandths that periods, sharpness and phase are counted in.
pub const SCALE: u32 = 1000;

/// One period of a wave, in the unit of progress times periods.
pub const PERIOD_UNIT: u64 = 4294967296000;

/// One full turn of a wave, in the unit that angles are counted in.
pub const ANGLE_ONE: u32 = 65536;

/// The height one of the sine, in the unit that its values are counted in.
pub const SINE_ONE: i32 = 65536;

/// One full turn, in the unit of periods times progress and phase.
pub const TURN_UNIT: u64 = 4294967296000000;

/// How far a glide from `start_time` to `stop_time` has come at `time`, as
/// a part of [`PROGRESS_ONE`], rounded down.
pub open spec fn progress(time: u64, start_time: u64, stop_time: u64) -> int {
    ((time - start_time) * PROGRESS_ONE) / (stop_time - start_time)
}

/// The straight line from `start` to `target`: `start + t * (target - start)`
/// at the part `t` of the way, rounded down.
pub open spec fn linear_value(t: int, start: int, target: int) -> int {
    start + (t * (target - start)) / (PROGRESS_ONE as int)
}

/// The staircase from `start` towards `target`: after each whole period that
/// has passed, one step of the height that `periods` steps need to reach the
/// target, `start + floor(t * periods) * (target - start) / periods` in all.
pub open spec fn step_value(t: int, start: int, target: int, periods: int) -> int {
    let steps = (t * periods) / (PROGRESS_ONE * SCALE);
    start + (steps * (target - start) * SCALE) / periods
}

/// The straight line with a sawtooth on it. The tooth rises by twice the
/// amplitude over each period and falls back in the middle of it: at `x`
/// periods it stands at `2 * amplitude * (x - floor(x + 1/2))`.
pub open spec fn saw_value(t: int, start: int, target: int, amplitude: int, periods: int) -> int {
    let swing = (2 * t * periods + PERIOD_UNIT) % (2 * PERIOD_UNIT) - PERIOD_UNIT;
    start + (t * (target - start) * SCALE + amplitude * swing) / (PERIOD_UNIT as int)
}

/// The straight line with a triangle wave on it, which swings between the
/// amplitude above and below the line once in each period: where
/// `w = periods * t - periods / 2 - 1/4` has gone the part `f` beyond its
/// last whole number, the wave stands at `amplitude * (4 * |f - 1/2| - 1)`.
pub open spec fn triangle_value(t: int, start: int, target: int, amplitude: int, periods: int) -> int {
    let whole = 4 * PERIOD_UNIT;
    let place = (4 * t * periods - 2 * periods * PROGRESS_ONE - PERIOD_UNIT) % whole;
    let fold = if 2 * place >= whole {
        2 * place - whole
    } else {
        whole - 2 * place
    };
    start + (4 * t * (target - start) * SCALE + amplitude * (2 * fold - whole)) / whole
}

/// The wave over its first half turn, where `h` counts the angle in
/// [`ANGLE_ONE`] parts of a turn: the quotient `16 u (1 - u) / (5 - 4 u (1 - u))`
/// for the part `u` of the half turn that has passed, scaled to [`SINE_ONE`]
/// and rounded down. The quotient stands in for the sine of the angle, from
/// which it differs by less than two thousandths: it is nothing at both
/// ends, one in the middle, and symmetric about it.
pub open spec fn half_wave(h: int) -> int {
    let q = h * (32768 - h);
    (262144 * q) / (1342177280 - q)
}

/// The wave at an angle below one turn, which stands in for the sine: the
/// half wave, upwards over the first half turn and downwards over the second.
pub open spec fn sine(angle: int) -> int {
    if angle < 32768 {
        half_wave(angle)
    } else {
        -half_wave(angle - 32768)
    }
}

/// The wave has the shape of the sine: it stays between one below and one
/// above, is nothing at no turn and at a half turn, one at a quarter turn and
/// one below at three quarters, is symmetric about the quarter turn, and
/// mirrors its first half turn in its second.
pub proof fn lemma_wave_shape(angle: int)
    requires
        0 <= angle < ANGLE_ONE,
    ensures
        -SINE_ONE <= sine(angle) <= SINE_ONE,
        sine(0) == 0,
        sine(16384) == SINE_ONE,
        sine(32768) == 0,
        sine(49152) == -SINE_ONE,
        angle <= 32768 ==> half_wave(32768 - angle) == half_wave(angle),
        angle < 32768 ==> sine(angle + 32768) == -sine(angle),
{
    let h = if angle < 32768 {
        angle
    } else {
        angle - 32768
    };
    let q = h * (32768 - h);
    assert(0 <= q <= 268435456) by (nonlinear_arith)
        requires
            q == h * (32768 - h),
            0 <= h < 32768,
    ;
    lemma_floor_bound(262144 * q, 1342177280 - q, 65536);
    vstd::arithmetic::div_mod::lemma_div_is_ordered(0, 262144 * q, 1342177280 - q);
    assert(16384 * (32768 - 16384) == 268435456);
    assert(0 * (32768 - 0) == 0);
    if angle <= 32768 {
        assert((32768 - angle) * (32768 - (32768 - angle)) == angle * (32768 - angle))
            by (nonlinear_arith);
    }
}

/// The angle of a wave of `periods` periods at progress `t`, shifted by
/// `phase`: the part of a turn that `periods * (t + phase)` has gone beyond
/// its last whole turn, in [`ANGLE_ONE`] parts and rounded down.
pub open spec fn wave_angle(t: int, periods: int, phase: int) -> int {
    (((periods * (t * SCALE + phase * PROGRESS_ONE)) % (TURN_UNIT as int)) * ANGLE_ONE) / (
    TURN_UNIT as int)
}

/// The straight line with a wave on it that stands in for the sine:
/// `amplitude * (sine(periods * (t + phase)) - sine(periods * phase))`, with
/// the angles counted in turns. The wave is lowered by the height that it has
/// at the start, so that the curve sets out from `start` whatever the phase.
pub open spec fn sin_value(
    t: int,
    start: int,
    target: int,
    amplitude: int,
    periods: int,
    phase: int,
) -> int {
    let swing = sine(wave_angle(t, periods, phase)) - sine(wave_angle(0, periods, phase));
    start + (t * (target - start) * SINE_ONE + amplitude * swing * PROGRESS_ONE) / (PROGRESS_ONE
        * SINE_ONE)
}

/// The `n`-th power of the part `x` of [`PROGRESS_ONE`], as a part of
/// [`PROGRESS_ONE`] again, rounded down after each multiplication.
pub open spec fn power(x: int, n: nat) -> int
    decreases n,
{
    if n == 0 {
        PROGRESS_ONE as int
    } else {
        (power(x, (n - 1) as nat) * x) / (PROGRESS_ONE as int)
    }
}

/// The largest whole sharpness whose S-curve the fractions of the sampler
/// can tell from a corner.
pub const POWERS_MAX: u32 = 32;

/// The part of the way that the S-curve of the whole sharpness `n` has
/// covered at progress `t`, as a numerator and a denominator:
/// `t^n / (t^n + (1 - t)^n)`, which is `1 / (1 + (t / (1 - t))^(-n))`.
///
/// At both ends of the sharpness the curve is what these curves tend to.
/// The curve of sharpness nothing stands at the start at the start, at the
/// target at the end, and in the middle of the way everywhere between. The
/// curve of a sharpness beyond [`POWERS_MAX`] is a corner: it stands at the
/// start up to the middle of the glide, in the middle of the way there, and
/// at the target from then on.
pub open spec fn share(t: int, n: nat) -> (int, int) {
    if n == 0 {
        if t <= 0 {
            (0, 1)
        } else if t >= PROGRESS_ONE {
            (1, 1)
        } else {
            (1, 2)
        }
    } else if n > POWERS_MAX {
        if 2 * t < PROGRESS_ONE {
            (0, 1)
        } else if 2 * t == PROGRESS_ONE {
            (1, 2)
        } else {
            (1, 1)
        }
    } else {
        (power(t, n), power(t, n) + power(PROGRESS_ONE - t, n))
    }
}

/// The S-curve from `start` to `target`.
///
/// For a whole sharpness the curve covers the [`share`] of the way that
/// belongs to it. A sharpness between two whole numbers mixes the curves of
/// the two, each weighted by how close the sharpness is to it. `beta` counts
/// the sharpness in thousandths.
pub open spec fn s_curve_value(t: int, start: int, target: int, beta: int) -> int {
    let n = (beta / (SCALE as int)) as nat;
    let part = beta % (SCALE as int);
    let (low, low_all) = share(t, n);
    let (high, high_all) = share(t, n + 1);
    start + ((target - start) * ((SCALE - part) * low * high_all + part * high * low_all)) / (
    SCALE * low_all * high_all)
}

/// A power of a part is a part.
pub proof fn lemma_power_bounds(x: int, n: nat)
    requires
        0 <= x <= PROGRESS_ONE,
    ensures
        0 <= power(x, n) <= PROGRESS_ONE,
    decreases n,
{
    if n > 0 {
        lemma_power_bounds(x, (n - 1) as nat);
        let p = power(x, (n - 1) as nat);
        let one = PROGRESS_ONE as int;
        assert(0 <= p * x <= one * one) by (nonlinear_arith)
            requires
                0 <= p <= one,
                0 <= x <= one,
        ;
        lemma_floor_bound(p * x, one, one);
        vstd::arithmetic::div_mod::lemma_div_is_ordered(0, p * x, one);
    }
}

/// Every power of nothing is nothing.
pub proof fn lemma_power_of_zero(n: nat)
    requires
        n >= 1,
    ensures
        power(0, n) == 0,
{
    let p = power(0, (n - 1) as nat);
    assert(p * 0 == 0) by (nonlinear_arith);
}

/// Every power of the whole is the whole.
pub proof fn lemma_power_of_one(n: nat)
    ensures
        power(PROGRESS_ONE as int, n) == PROGRESS_ONE,
    decreases n,
{
    if n > 0 {
        lemma_power_of_one((n - 1) as nat);
        assert((PROGRESS_ONE * PROGRESS_ONE) / (PROGRESS_ONE as int) == PROGRESS_ONE);
    }
}

/// The least that the `n`-th power of a half or more can be.
pub open spec fn least_power(n: nat) -> int
    decreases n,
{
    if n == 0 {
        PROGRESS_ONE as int
    } else {
        least_power((n - 1) as nat) / 2
    }
}

/// The least power shrinks as the exponent grows, and never below nothing.
pub proof fn lemma_least_power_decreases(n: nat, m: nat)
    requires
        n <= m,
    ensures
        least_power(n) >= least_power(m) >= 0,
    decreases m,
{
    if m > 0 {
        lemma_least_power_decreases(0, (m - 1) as nat);
        if n < m {
            lemma_least_power_decreases(n, (m - 1) as nat);
        }
    }
}

/// Up to the thirty-second, the power of a half or more is not nothing.
pub proof fn lemma_power_of_half(x: int, n: nat)
    requires
        PROGRESS_ONE / 2 <= x <= PROGRESS_ONE,
        n <= 32,
    ensures
        power(x, n) >= least_power(n) >= 1,
    decreases n,
{
    lemma_least_power_at_last();
    lemma_least_power_decreases(n, 32);
    if n > 0 {
        lemma_power_of_half(x, (n - 1) as nat);
        let p = power(x, (n - 1) as nat);
        let l = least_power((n - 1) as nat);
        let product = p * x;
        let least = l * 2147483648;
        assert(product >= least) by (nonlinear_arith)
            requires
                product == p * x,
                least == l * 2147483648,
                p >= l,
                l >= 0,
                x >= 2147483648,
        ;
        vstd::arithmetic::div_mod::lemma_div_is_ordered(least, product, 4294967296);
        assert(least / 4294967296 == l / 2);
        assert(power(x, n) == product / 4294967296);
        assert(least_power(n) == l / 2);
    }
}

/// The least thirty-second power is one unit of progress.
proof fn lemma_least_power_at_last()
    ensures
        least_power(32) == 1,
{
    assert(least_power(0) == 4294967296);
    assert(least_power(4) == 268435456) by {
        reveal_with_fuel(least_power, 5);
    }
    assert(least_power(8) == 16777216) by {
        reveal_with_fuel(least_power, 5);
    }
    assert(least_power(12) == 1048576) by {
        reveal_with_fuel(least_power, 5);
    }
    assert(least_power(16) == 65536) by {
        reveal_with_fuel(least_power, 5);
    }
    assert(least_power(20) == 4096) by {
        reveal_with_fuel(least_power, 5);
    }
    assert(least_power(24) == 256) by {
        reveal_with_fuel(least_power, 5);
    }
    assert(least_power(28) == 16) by {
        reveal_with_fuel(least_power, 5);
    }
    assert(least_power(32) == 1) by {
        reveal_with_fuel(least_power, 5);
    }
}

/// A part of a rise lies between nothing and the rise.
pub proof fn lemma_part_of_rise(rise: int, num: int, den: int)
    requires
        den > 0,
        0 <= num <= den,
    ensures
        rise >= 0 ==> 0 <= (rise * num) / den <= rise,
        rise <= 0 ==> rise <= (rise * num) / den <= 0,
{
    if rise >= 0 {
        assert(0 <= rise * num <= rise * den) by (nonlinear_arith)
            requires
                rise >= 0,
                0 <= num <= den,
        ;
        lemma_floor_bound(rise * num, den, rise);
        vstd::arithmetic::div_mod::lemma_div_is_ordered(0, rise * num, den);
    } else {
        assert(rise * den <= rise * num <= 0) by (nonlinear_arith)
            requires
                rise < 0,
                0 <= num <= den,
        ;
        assert(-((-rise) * den) == rise * den) by (nonlinear_arith);
        lemma_floor_bound(rise * num, den, -rise);
        vstd::arithmetic::div_mod::lemma_div_is_ordered(rise * num, 0, den);
    }
}

/// The straight line stays between its start and its target.
pub proof fn lemma_linear_between(t: int, start: int, target: int)
    requires
        0 <= t <= PROGRESS_ONE,
    ensures
        start <= target ==> start <= linear_value(t, start, target) <= target,
        target <= start ==> target <= linear_value(t, start, target) <= start,
{
    lemma_part_of_rise(target - start, t, PROGRESS_ONE as int);
    assert(t * (target - start) == (target - start) * t) by (nonlinear_arith);
}

/// A share is a part of the whole: its numerator is no more than its
/// denominator, which is not nothing.
pub proof fn lemma_share_bounds(t: int, n: nat)
    requires
        0 <= t <= PROGRESS_ONE,
    ensures
        0 <= share(t, n).0 <= share(t, n).1,
        1 <= share(t, n).1 <= 2 * PROGRESS_ONE,
{
    if 0 < n <= POWERS_MAX {
        let rest = PROGRESS_ONE - t;
        lemma_power_bounds(t, n);
        lemma_power_bounds(rest, n);
        if t >= PROGRESS_ONE / 2 {
            lemma_power_of_half(t, n);
        } else {
            lemma_power_of_half(rest, n);
        }
    }
}

/// At the start no share of the way is covered, at the end the whole of it.
pub proof fn lemma_share_at_ends(n: nat)
    ensures
        share(0, n).0 == 0,
        share(0, n).1 >= 1,
        share(PROGRESS_ONE as int, n).0 == share(PROGRESS_ONE as int, n).1,
        share(PROGRESS_ONE as int, n).1 >= 1,
{
    if 0 < n <= POWERS_MAX {
        lemma_power_of_zero(n);
        lemma_power_of_one(n);
        lemma_share_bounds(0, n);
        lemma_share_bounds(PROGRESS_ONE as int, n);
    }
}

/// The mix of two shares is a share: what the S-curve adds to its start is
/// a part of the rise.
pub proof fn lemma_mix_bounds(low: int, low_all: int, high: int, high_all: int, part: int)
    requires
        0 <= low <= low_all,
        0 <= high <= high_all,
        1 <= low_all,
        1 <= high_all,
        0 <= part < 1000,
    ensures
        0 <= (SCALE - part) * low * high_all + part * high * low_all <= SCALE * low_all
            * high_all,
        SCALE * low_all * high_all >= 1,
        (SCALE - part) * low * high_all + part * high * low_all == (1000 - part) * (low
            * high_all) + part * (high * low_all),
        SCALE * low_all * high_all == 1000 * (low_all * high_all),
{
    let first = low * high_all;
    let second = high * low_all;
    let both = low_all * high_all;
    assert(0 <= first <= both) by (nonlinear_arith)
        requires
            first == low * high_all,
            both == low_all * high_all,
            0 <= low <= low_all,
            0 <= high_all,
    ;
    assert(0 <= second <= both) by (nonlinear_arith)
        requires
            second == high * low_all,
            both == low_all * high_all,
            0 <= high <= high_all,
            0 <= low_all,
    ;
    assert(both >= 1) by (nonlinear_arith)
        requires
            both == low_all * high_all,
            low_all >= 1,
            high_all >= 1,
    ;
    let mix = (1000 - part) * first + part * second;
    assert(0 <= mix <= 1000 * both) by (nonlinear_arith)
        requires
            mix == (1000 - part) * first + part * second,
            0 <= part < 1000,
            0 <= first <= both,
            0 <= second <= both,
    ;
    assert((SCALE - part) * low * high_all + part * high * low_all == mix) by (nonlinear_arith)
        requires
            mix == (1000 - part) * first + part * second,
            first == low * high_all,
            second == high * low_all,
            SCALE == 1000,
    ;
    assert(SCALE * low_all * high_all == 1000 * both) by (nonlinear_arith)
        requires
            both == low_all * high_all,
            SCALE == 1000,
    ;
}

/// The S-curve stays between its start and its target.
pub proof fn lemma_s_curve_between(t: int, start: int, target: int, beta: int)
    requires
        0 <= t <= PROGRESS_ONE,
        0 <= beta,
    ensures
        start <= target ==> start <= s_curve_value(t, start, target, beta) <= target,
        target <= start ==> target <= s_curve_value(t, start, target, beta) <= start,
{
    let n = (beta / (SCALE as int)) as nat;
    let part = beta % (SCALE as int);
    lemma_share_bounds(t, n);
    lemma_share_bounds(t, n + 1);
    let (low, low_all) = share(t, n);
    let (high, high_all) = share(t, n + 1);
    lemma_mix_bounds(low, low_all, high, high_all, part);
    lemma_part_of_rise(
        target - start,
        (SCALE - part) * low * high_all + part * high * low_all,
        SCALE * low_all * high_all,
    );
}

/// How far the glide has come, as a part of [`PROGRESS_ONE`].
pub fn get_progress(time: u64, start_time: u64, stop_time: u64) -> (t: u64)
    requires
        start_time <= time <= stop_time,
        start_time < stop_time,
    ensures
        t == progress(time, start_time, stop_time),
        t <= PROGRESS_ONE,
        time == start_time ==> t == 0,
        time == stop_time ==> t == PROGRESS_ONE,
{
    let elapsed: u128 = (time - start_time) as u128;
    let duration: u128 = (stop_time - start_time) as u128;
    proof {
        let one = PROGRESS_ONE as int;
        lemma_mul_bound(elapsed as int, one, 0x1_0000_0000_0000_0000, 0x1_0000_0000);
        assert(0 <= elapsed * one <= duration * one) by (nonlinear_arith)
            requires
                0 <= elapsed <= duration,
                one > 0,
        ;
        lemma_floor_bound(elapsed * one, duration as int, one);
        assert(one * duration == duration * one) by (nonlinear_arith);
        vstd::arithmetic::div_mod::lemma_div_multiples_vanish(one, duration as int);
        assert(duration * one == duration as int * one);
        assert(0 * one == 0);
        vstd::arithmetic::div_mod::lemma_div_is_ordered(0, elapsed * one, duration as int);
    }
    (elapsed * (PROGRESS_ONE as u128) / duration) as u64
}

/// The straight line at progress `t`.
pub(crate) fn linear_at(t: u64, start_bend: u16, target_bend: u16) -> (r: i64)
    requires
        t <= PROGRESS_ONE,
    ensures
        r == linear_value(t as int, start_bend as int, target_bend as int),
        -65535 <= r - start_bend <= 65535,
{
    let rise: i128 = target_bend as i128 - start_bend as i128;
    proof {
        lemma_mul_bound(t as int, rise as int, PROGRESS_ONE as int, 65535);
        lemma_mul_bound(65535, PROGRESS_ONE as int, 65535, PROGRESS_ONE as int);
        lemma_floor_bound(t * rise, PROGRESS_ONE as int, 65535);
    }
    let (q, _) = floor_div_mod(t as i128 * rise, PROGRESS_ONE as i128);
    (start_bend as i128 + q) as i64
}

/// The staircase at progress `t`.
pub(crate) fn step_at(t: u64, start_bend: u16, target_bend: u16, periods: u32) -> (r: i64)
    requires
        t <= PROGRESS_ONE,
        1 <= periods,
    ensures
        r == step_value(t as int, start_bend as int, target_bend as int, periods as int),
        -65535 <= r - start_bend <= 65535,
{
    let rise: i128 = target_bend as i128 - start_bend as i128;
    let unit: i128 = PROGRESS_ONE as i128 * SCALE as i128;
    proof {
        lemma_mul_bound(t as int, periods as int, PROGRESS_ONE as int, 4294967296);
    }
    let (steps, _) = floor_div_mod(t as i128 * periods as i128, unit);
    proof {
        let tp = t as int * periods as int;
        assert(0 <= tp <= PROGRESS_ONE * periods) by (nonlinear_arith)
            requires
                tp == t * periods,
                0 <= t <= PROGRESS_ONE,
                0 <= periods,
        ;
        vstd::arithmetic::div_mod::lemma_div_is_ordered(0, tp, unit as int);
        assert(steps * SCALE <= periods) by (nonlinear_arith)
            requires
                steps == tp / (unit as int),
                unit == PROGRESS_ONE * SCALE,
                0 <= tp <= PROGRESS_ONE * periods,
        ;
        assert(0 <= steps);
        lemma_mul_bound(steps as int, rise as int, 4294968, 65535);
        assert(-(65535 * periods) <= steps * rise * SCALE <= 65535 * periods) by (nonlinear_arith)
            requires
                0 <= steps * SCALE <= periods,
                -65535 <= rise <= 65535,
        ;
        lemma_floor_bound(steps * rise * SCALE, periods as int, 65535);
    }
    let (q, _) = floor_div_mod(steps * rise * (SCALE as i128), periods as i128);
    (start_bend as i128 + q) as i64
}

/// The sawtooth on the line at progress `t`.
pub(crate) fn saw_at(t: u64, start_bend: u16, target_bend: u16, amplitude: i32, periods: u32) -> (r: i64)
    requires
        t <= PROGRESS_ONE,
        1 <= periods,
    ensures
        r == saw_value(
            t as int,
            start_bend as int,
            target_bend as int,
            amplitude as int,
            periods as int,
        ),
        -2147549183 <= r - start_bend <= 2147549183,
{
    let rise: i128 = target_bend as i128 - start_bend as i128;
    let unit: i128 = PERIOD_UNIT as i128;
    proof {
        lemma_mul_bound(t as int, periods as int, PROGRESS_ONE as int, 4294967296);
        lemma_mul_bound(t as int, rise as int, PROGRESS_ONE as int, 65535);
        assert(2 * t * periods == 2 * (t * periods)) by (nonlinear_arith);
        assert(t * rise * SCALE == (t * rise) * 1000) by (nonlinear_arith);
    }
    let (_, place) = floor_div_mod(2 * (t as i128 * periods as i128) + unit, 2 * unit);
    let swing: i128 = place - unit;
    proof {
        lemma_mul_bound(amplitude as int, swing as int, 2147483648, PERIOD_UNIT as int);
        lemma_floor_bound(t * rise * SCALE + amplitude * swing, unit as int, 2147549183);
    }
    let (q, _) = floor_div_mod(
        (t as i128 * rise) * (SCALE as i128) + amplitude as i128 * swing,
        unit,
    );
    (start_bend as i128 + q) as i64
}

/// The triangle wave on the line at progress `t`.
pub(crate) fn triangle_at(t: u64, start_bend: u16, target_bend: u16, amplitude: i32, periods: u32) -> (r: i64)
    requires
        t <= PROGRESS_ONE,
        1 <= periods,
    ensures
        r == triangle_value(
            t as int,
            start_bend as int,
            target_bend as int,
            amplitude as int,
            periods as int,
        ),
        -2147549183 <= r - start_bend <= 2147549183,
{
    let rise: i128 = target_bend as i128 - start_bend as i128;
    let whole: i128 = 4 * (PERIOD_UNIT as i128);
    proof {
        lemma_mul_bound(t as int, periods as int, PROGRESS_ONE as int, 4294967296);
        lemma_mul_bound(t as int, rise as int, PROGRESS_ONE as int, 65535);
        assert(4 * t * periods == 4 * (t * periods)) by (nonlinear_arith);
        assert(4 * t * rise * SCALE == (t * rise) * 4000) by (nonlinear_arith);
        assert(2 * periods * PROGRESS_ONE == 8589934592 * periods) by (nonlinear_arith);
    }
    let (_, place) = floor_div_mod(
        4 * (t as i128 * periods as i128) - 8589934592 * (periods as i128) - (PERIOD_UNIT as i128),
        whole,
    );
    let fold: i128 = if 2 * place >= whole {
        2 * place - whole
    } else {
        whole - 2 * place
    };
    proof {
        lemma_mul_bound(
            amplitude as int,
            (2 * fold - whole) as int,
            2147483648,
            4 * PERIOD_UNIT,
        );
        lemma_floor_bound(
            4 * t * rise * SCALE + amplitude * (2 * fold - whole),
            whole as int,
            2147549183,
        );
    }
    let (q, _) = floor_div_mod(
        (t as i128 * rise) * 4000 + amplitude as i128 * (2 * fold - whole),
        whole,
    );
    (start_bend as i128 + q) as i64
}

/// The sine of an angle below one turn.
pub(crate) fn sine_of(angle: u32) -> (r: i64)
    requires
        angle < ANGLE_ONE,
    ensures
        r == sine(angle as int),
        -SINE_ONE <= r <= SINE_ONE,
{
    let h: i128 = if angle < 32768 {
        angle as i128
    } else {
        angle as i128 - 32768
    };
    proof {
        assert(0 <= h * (32768 - h) <= 268435456) by (nonlinear_arith)
            requires
                0 <= h < 32768,
        ;
    }
    let q: i128 = h * (32768 - h);
    proof {
        assert(0 <= 262144 * q <= 65536 * (1342177280 - q));
        lemma_floor_bound(262144 * q, 1342177280 - q, 65536);
        vstd::arithmetic::div_mod::lemma_div_is_ordered(0, 262144 * q, 1342177280 - q);
    }
    let (half, _) = floor_div_mod(262144 * q, 1342177280 - q);
    if angle < 32768 {
        half as i64
    } else {
        (-half) as i64
    }
}

/// The angle of the wave at progress `t`.
pub(crate) fn angle_at(t: u64, periods: u32, phase: i32) -> (r: u32)
    requires
        t <= PROGRESS_ONE,
        1 <= periods,
    ensures
        r == wave_angle(t as int, periods as int, phase as int),
        r < ANGLE_ONE,
{
    let turn: i128 = TURN_UNIT as i128;
    let shifted: i128 = (t as i128) * 1000 + (phase as i128) * 4294967296;
    proof {
        assert(phase * PROGRESS_ONE == phase * 4294967296) by (nonlinear_arith);
        lemma_mul_bound(periods as int, shifted as int, 4294967296, 9223376331822071808);
    }
    let (_, place) = floor_div_mod((periods as i128) * shifted, turn);
    proof {
        assert(0 <= place * 65536 <= (turn - 1) * 65536);
        vstd::arithmetic::div_mod::lemma_div_is_ordered(0, place * 65536, turn as int);
        vstd::arithmetic::div_mod::lemma_div_is_ordered(
            place * 65536,
            (turn - 1) * 65536,
            turn as int,
        );
        assert(((TURN_UNIT - 1) * 65536) / (TURN_UNIT as int) == 65535);
    }
    let (angle, _) = floor_div_mod(place * 65536, turn);
    angle as u32
}

/// The sine wave on the line at progress `t`.
pub(crate) fn sin_at(
    t: u64,
    start_bend: u16,
    target_bend: u16,
    amplitude: i32,
    periods: u32,
    phase: i32,
) -> (r: i64)
    requires
        t <= PROGRESS_ONE,
        1 <= periods,
    ensures
        r == sin_value(
            t as int,
            start_bend as int,
            target_bend as int,
            amplitude as int,
            periods as int,
            phase as int,
        ),
        -4295032831 <= r - start_bend <= 4295032831,
{
    let rise: i128 = target_bend as i128 - start_bend as i128;
    let now: i64 = sine_of(angle_at(t, periods, phase));
    let origin: i64 = sine_of(angle_at(0, periods, phase));
    let swing: i128 = now as i128 - origin as i128;
    let whole: i128 = 281474976710656;
    proof {
        lemma_mul_bound(t as int, rise as int, PROGRESS_ONE as int, 65535);
        lemma_mul_bound(amplitude as int, swing as int, 2147483648, 131072);
        assert(t * rise * SINE_ONE == (t * rise) * 65536) by (nonlinear_arith);
        assert(amplitude * swing * PROGRESS_ONE == (amplitude * swing) * 4294967296)
            by (nonlinear_arith);
        assert(PROGRESS_ONE * SINE_ONE == 281474976710656);
        lemma_floor_bound(
            t * rise * SINE_ONE + amplitude * swing * PROGRESS_ONE,
            whole as int,
            4295032831,
        );
    }
    let (q, _) = floor_div_mod(
        (t as i128 * rise) * 65536 + (amplitude as i128 * swing) * 4294967296,
        whole,
    );
    (start_bend as i128 + q) as i64
}

/// The `n`-th power of a part.
pub(crate) fn power_of(x: u64, n: u32) -> (r: u64)
    requires
        x <= PROGRESS_ONE,
    ensures
        r == power(x as int, n as nat),
        r <= PROGRESS_ONE,
{
    let mut r: u64 = PROGRESS_ONE;
    let mut k: u32 = 0;
    while k < n
        invariant
            k <= n,
            x <= PROGRESS_ONE,
            r == power(x as int, k as nat),
            r <= PROGRESS_ONE,
        decreases n - k,
    {
        proof {
            lemma_power_bounds(x as int, (k + 1) as nat);
            lemma_mul_bound(r as int, x as int, PROGRESS_ONE as int, PROGRESS_ONE as int);
        }
        r = ((r as u128 * x as u128) / (PROGRESS_ONE as u128)) as u64;
        k += 1;
    }
    r
}

/// The share of the way that the S-curve of the whole sharpness `n` has covered.
fn share_of(t: u64, n: u32) -> (r: (i128, i128))
    requires
        t <= PROGRESS_ONE,
    ensures
        (r.0 as int, r.1 as int) == share(t as int, n as nat),
        0 <= r.0 <= r.1,
        1 <= r.1 <= 2 * PROGRESS_ONE,
{
    proof {
        lemma_share_bounds(t as int, n as nat);
    }
    if n == 0 {
        if t == 0 {
            (0, 1)
        } else if t == PROGRESS_ONE {
            (1, 1)
        } else {
            (1, 2)
        }
    } else if n > POWERS_MAX {
        if t < PROGRESS_ONE / 2 {
            (0, 1)
        } else if t == PROGRESS_ONE / 2 {
            (1, 2)
        } else {
            (1, 1)
        }
    } else {
        let covered = power_of(t, n) as i128;
        (covered, covered + power_of(PROGRESS_ONE - t, n) as i128)
    }
}

/// The S-curve at progress `t`.
pub(crate) fn s_curve_at(t: u64, start_bend: u16, target_bend: u16, s_curve_beta: u32) -> (r: i64)
    requires
        t <= PROGRESS_ONE,
    ensures
        r == s_curve_value(
            t as int,
            start_bend as int,
            target_bend as int,
            s_curve_beta as int,
        ),
        -65535 <= r - start_bend <= 65535,
{
    let rise: i128 = target_bend as i128 - start_bend as i128;
    let n: u32 = s_curve_beta / SCALE;
    let part: i128 = (s_curve_beta % SCALE) as i128;
    let (low, low_all) = share_of(t, n);
    let (high, high_all) = share_of(t, n + 1);
    proof {
        lemma_mul_bound(low as int, high_all as int, 8589934592, 8589934592);
        lemma_mul_bound(high as int, low_all as int, 8589934592, 8589934592);
        lemma_mul_bound(low_all as int, high_all as int, 8589934592, 8589934592);
    }
    let first: i128 = low * high_all;
    let second: i128 = high * low_all;
    let both: i128 = low_all * high_all;
    proof {
        lemma_mul_bound(1000 - part, first as int, 1000, 73786976294838206464);
        lemma_mul_bound(part as int, second as int, 1000, 73786976294838206464);
    }
    let mix: i128 = (1000 - part) * first + part * second;
    let whole: i128 = 1000 * both;
    proof {
        lemma_mix_bounds(low as int, low_all as int, high as int, high_all as int, part as int);
        lemma_mul_bound(rise as int, mix as int, 65535, 73786976294838206464000);
        lemma_part_of_rise(rise as int, mix as int, whole as int);
    }
    let (q, _) = floor_div_mod(rise * mix, whole);
    (start_bend as i128 + q) as i64
}

} // verus!
