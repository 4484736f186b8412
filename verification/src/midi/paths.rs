//! The curves along which a bend travels from its start to its target.
use vstd::prelude::*;
use crate::midi::curves::{
    get_progress, lemma_linear_between, lemma_mix_bounds, lemma_s_curve_between,
    lemma_share_at_ends, linear_at, linear_value, progress, s_curve_at, s_curve_value, saw_at,
    saw_value, share, sin_at, sin_value, sine, step_at, step_value, triangle_at, triangle_value,
    wave_angle, PROGRESS_ONE, SCALE, SINE_ONE,
};
use crate::midi::fixed::{clamp_to_u16, clamp_u16};
use crate::midi::random::random_between;
use crate::midi::Bend;
use crate::state::{get_parameter_index, GlissParam};

verus! {

/// The shape of a curve.
#[derive(Debug, PartialEq, Eq, Structural, Copy, Clone)]
pub enum Path {
    SCurve,
    Linear,
    Sin,
    Step,
    Triangle,
    Saw,
}

impl Path {
    /// The shape with the given place in the list of shapes; every place
    /// beyond the last stands for the last shape.
    pub open spec fn at(index: int) -> Path {
        if index == 0 {
            Path::SCurve
        } else if index == 1 {
            Path::Linear
        } else if index == 2 {
            Path::Sin
        } else if index == 3 {
            Path::Step
        } else if index == 4 {
            Path::Triangle
        } else {
            Path::Saw
        }
    }

    /// The place of the shape in the list of shapes.
    pub open spec fn place(self) -> int {
        match self {
            Path::SCurve => 0,
            Path::Linear => 1,
            Path::Sin => 2,
            Path::Step => 3,
            Path::Triangle => 4,
            Path::Saw => 5,
        }
    }

    /// The shape with the given place in the list of shapes.
    pub fn from_index(index: u32) -> (r: Path)
        ensures
            r == Path::at(index as int),
    {
        match index {
            0 => Path::SCurve,
            1 => Path::Linear,
            2 => Path::Sin,
            3 => Path::Step,
            4 => Path::Triangle,
            _ => Path::Saw,
        }
    }

    /// The place of the shape in the list of shapes.
    pub fn index(&self) -> (r: u32)
        ensures
            r == self.place(),
            Path::at(r as int) == *self,
    {
        match self {
            Path::SCurve => 0,
            Path::Linear => 1,
            Path::Sin => 2,
            Path::Step => 3,
            Path::Triangle => 4,
            Path::Saw => 5,
        }
    }
}

impl Default for Path {
    /// The S-curve.
    fn default() -> (r: Path)
        ensures
            r == Path::SCurve,
    {
        Path::SCurve
    }
}

/// One concrete curve: a shape and the parameters that it was drawn with.
#[derive(Debug, PartialEq, Eq, Structural, Copy, Clone)]
pub struct BendPath {
    pub path: Path,
    /// The height of the wave, in bend units.
    pub amplitude: i32,
    /// The number of periods over the glide, in thousandths.
    pub periods: u32,
    /// The sharpness of the S-curve, in thousandths.
    pub s_curve_beta: u32,
    /// The phase of the wave, in thousandths of a period.
    pub phase: i32,
}

impl BendPath {
    /// The parameters that the sampler accepts: every curve but one of no
    /// periods at all.
    pub open spec fn valid(self) -> bool {
        1 <= self.periods
    }

    /// Whether the sampler accepts the parameters.
    pub fn is_valid(&self) -> (r: bool)
        ensures
            r == self.valid(),
    {
        1 <= self.periods
    }

    /// The plain curve: an S-curve of sharpness two, with two periods and no wave.
    pub open spec fn plain() -> BendPath {
        BendPath { path: Path::SCurve, amplitude: 0, periods: 2000, s_curve_beta: 2000, phase: 0 }
    }

    /// The height of the curve at progress `t`, before it is held to the
    /// values that a bend can take.
    pub open spec fn path_value(self, t: int, start: int, target: int) -> int {
        match self.path {
            Path::Linear => linear_value(t, start, target),
            Path::Sin => sin_value(
                t,
                start,
                target,
                self.amplitude as int,
                self.periods as int,
                self.phase as int,
            ),
            Path::Step => step_value(t, start, target, self.periods as int),
            Path::Triangle => triangle_value(
                t,
                start,
                target,
                self.amplitude as int,
                self.periods as int,
            ),
            Path::Saw => saw_value(t, start, target, self.amplitude as int, self.periods as int),
            Path::SCurve => s_curve_value(t, start, target, self.s_curve_beta as int),
        }
    }

    /// The bend at progress `t`: the height of the curve, held to sixteen bits.
    pub open spec fn sample(self, t: int, start_bend: u16, target_bend: u16) -> Bend {
        Bend(clamp_u16(self.path_value(t, start_bend as int, target_bend as int)) as u16)
    }

    /// The bend at progress `t`.
    pub fn bend_at(&self, t: u64, start_bend: u16, target_bend: u16) -> (r: Bend)
        requires
            self.valid(),
            t <= PROGRESS_ONE,
        ensures
            r == self.sample(t as int, start_bend, target_bend),
    {
        let value: i64 = match self.path {
            Path::Linear => linear_at(t, start_bend, target_bend),
            Path::Sin => sin_at(
                t,
                start_bend,
                target_bend,
                self.amplitude,
                self.periods,
                self.phase,
            ),
            Path::Step => step_at(t, start_bend, target_bend, self.periods),
            Path::Triangle => triangle_at(
                t,
                start_bend,
                target_bend,
                self.amplitude,
                self.periods,
            ),
            Path::Saw => saw_at(t, start_bend, target_bend, self.amplitude, self.periods),
            Path::SCurve => s_curve_at(t, start_bend, target_bend, self.s_curve_beta),
        };
        Bend(clamp_to_u16(value as i128))
    }

    /// The bend of a glide from `start_bend` at `start_time` to
    /// `target_bend` at `stop_time`, sampled at `time`.
    pub fn bend(
        &self,
        time: u64,
        start_time: u64,
        stop_time: u64,
        start_bend: u16,
        target_bend: u16,
    ) -> (r: Bend)
        requires
            self.valid(),
            start_time <= time <= stop_time,
            start_time < stop_time,
        ensures
            r == self.sample(progress(time, start_time, stop_time), start_bend, target_bend),
            time == start_time && self.starts_at_start() ==> r.0 == start_bend,
            time == stop_time && self.ends_at_target() ==> r.0 == target_bend,
            self.ends_at_target() && start_bend <= target_bend ==> start_bend <= r.0
                <= target_bend,
            self.ends_at_target() && target_bend <= start_bend ==> target_bend <= r.0
                <= start_bend,
    {
        let t = get_progress(time, start_time, stop_time);
        proof {
            if self.starts_at_start() {
                lemma_starts_at_start(*self, start_bend, target_bend);
            }
            if self.ends_at_target() {
                lemma_ends_at_target(*self, start_bend, target_bend);
                lemma_stays_between(*self, t as int, start_bend, target_bend);
            }
        }
        self.bend_at(t, start_bend, target_bend)
    }

    /// The shapes that set out from the start bend whatever their parameters.
    pub open spec fn starts_at_start(self) -> bool {
        self.path == Path::Linear || self.path == Path::SCurve || self.path == Path::Sin
    }

    /// The shapes that arrive at the target bend whatever their parameters.
    pub open spec fn ends_at_target(self) -> bool {
        self.path == Path::Linear || self.path == Path::SCurve
    }

    /// The S-curve from `start_bend` to `target_bend`, at `time`.
    pub fn get_s_curve_bend(
        time: u64,
        start_time: u64,
        stop_time: u64,
        start_bend: u16,
        target_bend: u16,
        s_curve_beta: u32,
    ) -> (r: i64)
        requires
            start_time <= time <= stop_time,
            start_time < stop_time,
        ensures
            r == s_curve_value(
                progress(time, start_time, stop_time),
                start_bend as int,
                target_bend as int,
                s_curve_beta as int,
            ),
    {
        s_curve_at(get_progress(time, start_time, stop_time), start_bend, target_bend, s_curve_beta)
    }

    /// The straight line with a sine wave on it, at `time`.
    pub fn get_sin_bend(
        time: u64,
        start_time: u64,
        stop_time: u64,
        start_bend: u16,
        target_bend: u16,
        amplitude: i32,
        periods: u32,
        phase: i32,
    ) -> (r: i64)
        requires
            start_time <= time <= stop_time,
            start_time < stop_time,
            1 <= periods,
        ensures
            r == sin_value(
                progress(time, start_time, stop_time),
                start_bend as int,
                target_bend as int,
                amplitude as int,
                periods as int,
                phase as int,
            ),
    {
        sin_at(
            get_progress(time, start_time, stop_time),
            start_bend,
            target_bend,
            amplitude,
            periods,
            phase,
        )
    }

    /// The straight line with a sawtooth on it, at `time`.
    pub fn get_saw_bend(
        time: u64,
        start_time: u64,
        stop_time: u64,
        start_bend: u16,
        target_bend: u16,
        amplitude: i32,
        periods: u32,
    ) -> (r: i64)
        requires
            start_time <= time <= stop_time,
            start_time < stop_time,
            1 <= periods,
        ensures
            r == saw_value(
                progress(time, start_time, stop_time),
                start_bend as int,
                target_bend as int,
                amplitude as int,
                periods as int,
            ),
    {
        saw_at(
            get_progress(time, start_time, stop_time),
            start_bend,
            target_bend,
            amplitude,
            periods,
        )
    }

    /// The straight line with a triangle wave on it, at `time`.
    pub fn get_triangle_bend(
        time: u64,
        start_time: u64,
        stop_time: u64,
        start_bend: u16,
        target_bend: u16,
        amplitude: i32,
        periods: u32,
    ) -> (r: i64)
        requires
            start_time <= time <= stop_time,
            start_time < stop_time,
            1 <= periods,
        ensures
            r == triangle_value(
                progress(time, start_time, stop_time),
                start_bend as int,
                target_bend as int,
                amplitude as int,
                periods as int,
            ),
    {
        triangle_at(
            get_progress(time, start_time, stop_time),
            start_bend,
            target_bend,
            amplitude,
            periods,
        )
    }

    /// The straight line from `start_bend` to `target_bend` at `time`.
    pub fn get_linear_bend(
        time: u64,
        start_time: u64,
        stop_time: u64,
        start_bend: u16,
        target_bend: u16,
    ) -> (r: i64)
        requires
            start_time <= time <= stop_time,
            start_time < stop_time,
        ensures
            r == linear_value(
                progress(time, start_time, stop_time),
                start_bend as int,
                target_bend as int,
            ),
    {
        linear_at(get_progress(time, start_time, stop_time), start_bend, target_bend)
    }

    /// The staircase from `start_bend` towards `target_bend` at `time`.
    pub fn get_step_bend(
        time: u64,
        start_time: u64,
        stop_time: u64,
        start_bend: u16,
        target_bend: u16,
        periods: u32,
    ) -> (r: i64)
        requires
            start_time <= time <= stop_time,
            start_time < stop_time,
            1 <= periods,
        ensures
            r == step_value(
                progress(time, start_time, stop_time),
                start_bend as int,
                target_bend as int,
                periods as int,
            ),
    {
        step_at(get_progress(time, start_time, stop_time), start_bend, target_bend, periods)
    }
}

impl Default for BendPath {
    /// The plain curve.
    fn default() -> (r: BendPath)
        ensures
            r == BendPath::plain(),
            r.valid(),
    {
        BendPath { path: Path::SCurve, amplitude: 0, periods: 2000, s_curve_beta: 2000, phase: 0 }
    }
}

/// A straight line, an S-curve and a sine wave set out from the start bend:
/// at progress nothing the sample is the start bend, whatever the amplitude,
/// the periods, the sharpness and the phase.
pub proof fn lemma_starts_at_start(path: BendPath, start_bend: u16, target_bend: u16)
    requires
        path.starts_at_start(),
    ensures
        path.sample(0, start_bend, target_bend).0 == start_bend,
{
    let start = start_bend as int;
    let target = target_bend as int;
    match path.path {
        Path::Linear => {
            assert(0 * (target - start) == 0);
        },
        Path::Sin => {
            let swing = sine(wave_angle(0, path.periods as int, path.phase as int)) - sine(
                wave_angle(0, path.periods as int, path.phase as int),
            );
            assert(0 * (target - start) * SINE_ONE + path.amplitude * swing * PROGRESS_ONE == 0)
                by (nonlinear_arith)
                requires
                    swing == 0,
            ;
        },
        _ => {
            let n = (path.s_curve_beta as int / (SCALE as int)) as nat;
            let part = path.s_curve_beta as int % (SCALE as int);
            lemma_share_at_ends(n);
            lemma_share_at_ends(n + 1);
            let low_all = share(0, n).1;
            let high_all = share(0, n + 1).1;
            lemma_mix_bounds(0, low_all, 0, high_all, part);
            assert((target - start) * ((SCALE - part) * 0 * high_all + part * 0 * low_all) == 0)
                by (nonlinear_arith);
        },
    }
}

/// A straight line and an S-curve stay between the start bend and the
/// target bend all the way.
pub proof fn lemma_stays_between(path: BendPath, t: int, start_bend: u16, target_bend: u16)
    requires
        path.ends_at_target(),
        0 <= t <= PROGRESS_ONE,
    ensures
        start_bend <= target_bend ==> start_bend <= path.sample(t, start_bend, target_bend).0
            <= target_bend,
        target_bend <= start_bend ==> target_bend <= path.sample(t, start_bend, target_bend).0
            <= start_bend,
{
    if path.path == Path::SCurve {
        lemma_s_curve_between(t, start_bend as int, target_bend as int, path.s_curve_beta as int);
    } else {
        lemma_linear_between(t, start_bend as int, target_bend as int);
    }
}

/// A straight line and an S-curve arrive at the target bend: at full
/// progress the sample is the target bend, whatever the sharpness.
pub proof fn lemma_ends_at_target(path: BendPath, start_bend: u16, target_bend: u16)
    requires
        path.ends_at_target(),
    ensures
        path.sample(PROGRESS_ONE as int, start_bend, target_bend).0 == target_bend,
{
    let start = start_bend as int;
    let target = target_bend as int;
    let one = PROGRESS_ONE as int;
    match path.path {
        Path::Linear => {
            vstd::arithmetic::div_mod::lemma_div_multiples_vanish(target - start, one);
            assert(one * (target - start) == PROGRESS_ONE * (target - start));
        },
        _ => {
            let n = (path.s_curve_beta as int / (SCALE as int)) as nat;
            let part = path.s_curve_beta as int % (SCALE as int);
            lemma_share_at_ends(n);
            lemma_share_at_ends(n + 1);
            let low_all = share(one, n).1;
            let high_all = share(one, n + 1).1;
            lemma_mix_bounds(low_all, low_all, high_all, high_all, part);
            let whole = SCALE * low_all * high_all;
            assert((SCALE - part) * low_all * high_all + part * high_all * low_all == whole)
                by (nonlinear_arith)
                requires
                    whole == SCALE * low_all * high_all,
            ;
            vstd::arithmetic::div_mod::lemma_div_multiples_vanish(target - start, whole);
            assert(whole * (target - start) == (target - start) * whole) by (nonlinear_arith);
        },
    }
}

/// What the curves of an engine are drawn from: a shape, or none where the
/// shape is to be drawn too, and for each parameter the middle of its range
/// and how far a draw may lie from the middle either way.
#[derive(Debug, PartialEq, Eq, Structural, Copy, Clone)]
pub struct BendPathBuilder {
    pub path: Option<Path>,
    pub amplitude: i32,
    pub amplitude_randomness: u32,
    pub periods: u32,
    pub periods_randomness: u32,
    pub s_curve_sharpness: u32,
    pub s_curve_sharpness_randomness: u32,
    pub phase: i32,
    pub phase_randomness: u32,
}

/// The width `width`, cut to the room that there is below and above.
pub open spec fn cut(width: u32, below: int, above: int) -> u32 {
    if width <= below && width <= above {
        width
    } else if below <= above {
        below as u32
    } else {
        above as u32
    }
}

/// The width `width`, cut to the room that there is below and above.
fn cut_to(width: u32, below: i64, above: i64) -> (r: u32)
    requires
        0 <= below <= u32::MAX,
        0 <= above <= u32::MAX,
    ensures
        r == cut(width, below as int, above as int),
        r <= width,
        r <= below,
        r <= above,
{
    if width as i64 <= below && width as i64 <= above {
        width
    } else if below <= above {
        below as u32
    } else {
        above as u32
    }
}

/// The nearest value to `x` that a signed thirty-two bit number holds.
pub open spec fn to_signed(x: i64) -> i32 {
    if x < i32::MIN {
        i32::MIN
    } else if x > i32::MAX {
        i32::MAX
    } else {
        x as i32
    }
}

/// The nearest value to `x` that an unsigned thirty-two bit number holds.
pub open spec fn to_unsigned(x: i64) -> u32 {
    if x < 0 {
        0
    } else if x > u32::MAX {
        u32::MAX
    } else {
        x as u32
    }
}

/// The nearest value to `x` that a signed thirty-two bit number holds.
fn signed(x: i64) -> (r: i32)
    ensures
        r == to_signed(x),
{
    if x < i32::MIN as i64 {
        i32::MIN
    } else if x > i32::MAX as i64 {
        i32::MAX
    } else {
        x as i32
    }
}

/// The nearest value to `x` that an unsigned thirty-two bit number holds.
fn unsigned(x: i64) -> (r: u32)
    ensures
        r == to_unsigned(x),
{
    if x < 0 {
        0
    } else if x > u32::MAX as i64 {
        u32::MAX
    } else {
        x as u32
    }
}

impl BendPathBuilder {
    /// The builder of the plain curve, with nothing left to chance.
    pub open spec fn plain() -> BendPathBuilder {
        BendPathBuilder {
            path: Some(Path::SCurve),
            amplitude: 0,
            amplitude_randomness: 0,
            periods: 2000,
            periods_randomness: 0,
            s_curve_sharpness: 2000,
            s_curve_sharpness_randomness: 0,
            phase: 0,
            phase_randomness: 0,
        }
    }

    /// Whether every draw gives a curve, and one that the sampler accepts:
    /// no range reaches beyond what its parameter can be, and the periods
    /// stay above nothing.
    pub open spec fn valid(self) -> bool {
        &&& i32::MIN <= self.amplitude - self.amplitude_randomness
        &&& self.amplitude + self.amplitude_randomness <= i32::MAX
        &&& 1 <= self.periods - self.periods_randomness
        &&& self.periods + self.periods_randomness <= u32::MAX
        &&& 0 <= self.s_curve_sharpness - self.s_curve_sharpness_randomness
        &&& self.s_curve_sharpness + self.s_curve_sharpness_randomness <= u32::MAX
        &&& i32::MIN <= self.phase - self.phase_randomness
        &&& self.phase + self.phase_randomness <= i32::MAX
    }

    /// Whether `curve` is one of the curves that can be drawn: it has the
    /// shape, where one is set, and each parameter lies within its range.
    pub open spec fn may_build(self, curve: BendPath) -> bool {
        &&& self.path matches Some(shape) ==> curve.path == shape
        &&& self.amplitude - self.amplitude_randomness <= curve.amplitude <= self.amplitude
            + self.amplitude_randomness
        &&& self.periods - self.periods_randomness <= curve.periods <= self.periods
            + self.periods_randomness
        &&& self.s_curve_sharpness - self.s_curve_sharpness_randomness <= curve.s_curve_beta
            <= self.s_curve_sharpness + self.s_curve_sharpness_randomness
        &&& self.phase - self.phase_randomness <= curve.phase <= self.phase
            + self.phase_randomness
    }

    /// Whether every draw gives a curve, and one that the sampler accepts.
    pub fn is_valid(&self) -> (r: bool)
        ensures
            r == self.valid(),
    {
        i32::MIN as i64 <= self.amplitude as i64 - self.amplitude_randomness as i64
            && self.amplitude as i64 + self.amplitude_randomness as i64 <= i32::MAX as i64 && 1
            <= self.periods as i64 - self.periods_randomness as i64 && self.periods as i64
            + self.periods_randomness as i64 <= u32::MAX as i64 && 0
            <= self.s_curve_sharpness as i64 - self.s_curve_sharpness_randomness as i64
            && self.s_curve_sharpness as i64 + self.s_curve_sharpness_randomness as i64
            <= u32::MAX as i64 && i32::MIN as i64 <= self.phase as i64
            - self.phase_randomness as i64 && self.phase as i64 + self.phase_randomness as i64
            <= i32::MAX as i64
    }

    /// The builder held to the nearest one that is valid: the periods are
    /// raised to the least there is, and each width is cut to what lies
    /// between its middle and the nearer end of what its parameter can be.
    /// A valid builder stays as it is.
    pub open spec fn held(self) -> BendPathBuilder {
        let periods = if self.periods < 1 {
            1u32
        } else {
            self.periods
        };
        BendPathBuilder {
            path: self.path,
            amplitude: self.amplitude,
            amplitude_randomness: cut(
                self.amplitude_randomness,
                self.amplitude - i32::MIN,
                i32::MAX - self.amplitude,
            ),
            periods,
            periods_randomness: cut(self.periods_randomness, periods - 1, u32::MAX - periods),
            s_curve_sharpness: self.s_curve_sharpness,
            s_curve_sharpness_randomness: cut(
                self.s_curve_sharpness_randomness,
                self.s_curve_sharpness as int,
                u32::MAX - self.s_curve_sharpness,
            ),
            phase: self.phase,
            phase_randomness: cut(
                self.phase_randomness,
                self.phase - i32::MIN,
                i32::MAX - self.phase,
            ),
        }
    }

    /// The builder held to the nearest one that is valid.
    pub fn nearest_valid(&self) -> (r: BendPathBuilder)
        ensures
            r == self.held(),
            r.valid(),
            self.valid() ==> r == *self,
    {
        let periods: u32 = if self.periods < 1 {
            1
        } else {
            self.periods
        };
        BendPathBuilder {
            path: self.path,
            amplitude: self.amplitude,
            amplitude_randomness: cut_to(
                self.amplitude_randomness,
                self.amplitude as i64 - i32::MIN as i64,
                i32::MAX as i64 - self.amplitude as i64,
            ),
            periods,
            periods_randomness: cut_to(
                self.periods_randomness,
                periods as i64 - 1,
                u32::MAX as i64 - periods as i64,
            ),
            s_curve_sharpness: self.s_curve_sharpness,
            s_curve_sharpness_randomness: cut_to(
                self.s_curve_sharpness_randomness,
                self.s_curve_sharpness as i64,
                u32::MAX as i64 - self.s_curve_sharpness as i64,
            ),
            phase: self.phase,
            phase_randomness: cut_to(
                self.phase_randomness,
                self.phase as i64 - i32::MIN as i64,
                i32::MAX as i64 - self.phase as i64,
            ),
        }
    }

    /// The curve that the given draws stand for: the shape of the builder,
    /// or the drawn one where none is set, and the drawn parameters.
    pub fn realize(&self, shape: u32, amplitude: i64, periods: i64, sharpness: i64, phase: i64) -> (r:
        BendPath)
        requires
            self.valid(),
            self.amplitude - self.amplitude_randomness <= amplitude <= self.amplitude
                + self.amplitude_randomness,
            self.periods - self.periods_randomness <= periods <= self.periods
                + self.periods_randomness,
            self.s_curve_sharpness - self.s_curve_sharpness_randomness <= sharpness
                <= self.s_curve_sharpness + self.s_curve_sharpness_randomness,
            self.phase - self.phase_randomness <= phase <= self.phase + self.phase_randomness,
        ensures
            r.path == (match self.path {
                Some(set) => set,
                None => Path::at(shape as int),
            }),
            r.amplitude == amplitude,
            r.periods == periods,
            r.s_curve_beta == sharpness,
            r.phase == phase,
            self.may_build(r),
            r.valid(),
    {
        let path = match self.path {
            Some(set) => set,
            None => Path::from_index(shape),
        };
        BendPath {
            path,
            amplitude: amplitude as i32,
            periods: periods as u32,
            s_curve_beta: sharpness as u32,
            phase: phase as i32,
        }
    }

    /// Draws a curve: the shape at random where none is set, and each
    /// parameter at random from its range. Whatever is drawn, the curve is
    /// what [`BendPathBuilder::realize`] makes of the draws.
    pub fn build(&self) -> (r: BendPath)
        requires
            self.valid(),
        ensures
            self.may_build(r),
            r.valid(),
    {
        let shape: u32 = match self.path {
            Some(_) => 0,
            None => random_between(0, 5) as u32,
        };
        let amplitude = random_between(
            self.amplitude as i64 - self.amplitude_randomness as i64,
            self.amplitude as i64 + self.amplitude_randomness as i64,
        );
        let periods = random_between(
            self.periods as i64 - self.periods_randomness as i64,
            self.periods as i64 + self.periods_randomness as i64,
        );
        let sharpness = random_between(
            self.s_curve_sharpness as i64 - self.s_curve_sharpness_randomness as i64,
            self.s_curve_sharpness as i64 + self.s_curve_sharpness_randomness as i64,
        );
        let phase = random_between(
            self.phase as i64 - self.phase_randomness as i64,
            self.phase as i64 + self.phase_randomness as i64,
        );
        self.realize(shape, amplitude, periods, sharpness, phase)
    }

    /// The builder of the plain curve with its amplitude, periods and phase
    /// and their widths set from the values of the given parameters.
    pub open spec fn with_wave(
        values: Seq<i64>,
        amplitude: GlissParam,
        periods: GlissParam,
        phase: GlissParam,
    ) -> BendPathBuilder {
        BendPathBuilder {
            amplitude: to_signed(values[amplitude.position()]),
            amplitude_randomness: to_unsigned(values[amplitude.position() + 1]),
            periods: to_unsigned(values[periods.position()]),
            periods_randomness: to_unsigned(values[periods.position() + 1]),
            phase: to_signed(values[phase.position()]),
            phase_randomness: to_unsigned(values[phase.position() + 1]),
            ..BendPathBuilder::plain()
        }
    }

    /// The builder for the shape `path`, set from the values of the
    /// parameters: it takes the parameters of its shape and their widths,
    /// each held to what its field holds, and leaves every other field at
    /// its plain value.
    pub open spec fn for_shape(path: Path, values: Seq<i64>) -> BendPathBuilder {
        let chosen = match path {
            Path::SCurve => BendPathBuilder {
                s_curve_sharpness: to_unsigned(values[GlissParam::SCurveSharpness.position()]),
                s_curve_sharpness_randomness: to_unsigned(
                    values[GlissParam::SCurveSharpnessRandomness.position()],
                ),
                ..BendPathBuilder::plain()
            },
            Path::Step => BendPathBuilder {
                periods: to_unsigned(values[GlissParam::StepPeriods.position()]),
                periods_randomness: to_unsigned(
                    values[GlissParam::StepPeriodsRandomness.position()],
                ),
                ..BendPathBuilder::plain()
            },
            Path::Sin => BendPathBuilder::with_wave(
                values,
                GlissParam::SinAmplitude,
                GlissParam::SinPeriods,
                GlissParam::SinPhase,
            ),
            Path::Triangle => BendPathBuilder::with_wave(
                values,
                GlissParam::TriangleAmplitude,
                GlissParam::TrianglePeriods,
                GlissParam::TrianglePhase,
            ),
            Path::Saw => BendPathBuilder::with_wave(
                values,
                GlissParam::SawAmplitude,
                GlissParam::SawPeriods,
                GlissParam::SawPhase,
            ),
            Path::Linear => BendPathBuilder::plain(),
        };
        BendPathBuilder { path: Some(path), ..chosen }
    }

    /// The builder of the plain curve with the wave parameters that follow
    /// `amplitude`, `periods` and `phase`.
    fn wave_from(
        values: &[i64; 26],
        amplitude: GlissParam,
        periods: GlissParam,
        phase: GlissParam,
    ) -> (r: BendPathBuilder)
        requires
            amplitude.has_randomness(),
            periods.has_randomness(),
            phase.has_randomness(),
        ensures
            r == BendPathBuilder::with_wave(values@, amplitude, periods, phase),
    {
        let a = get_parameter_index(amplitude);
        let p = get_parameter_index(periods);
        let f = get_parameter_index(phase);
        let mut r = BendPathBuilder::default();
        r.amplitude = signed(values[a]);
        r.amplitude_randomness = unsigned(values[a + 1]);
        r.periods = unsigned(values[p]);
        r.periods_randomness = unsigned(values[p + 1]);
        r.phase = signed(values[f]);
        r.phase_randomness = unsigned(values[f + 1]);
        r
    }

    /// The builder for the shape `path`, set from the values of the
    /// parameters, which are listed by their numbers.
    pub fn from_values(path: Path, values: &[i64; 26]) -> (r: BendPathBuilder)
        ensures
            r == BendPathBuilder::for_shape(path, values@),
    {
        let mut r = match path {
            Path::SCurve => {
                let mut b = BendPathBuilder::default();
                b.s_curve_sharpness = unsigned(
                    values[get_parameter_index(GlissParam::SCurveSharpness)],
                );
                b.s_curve_sharpness_randomness = unsigned(
                    values[get_parameter_index(GlissParam::SCurveSharpnessRandomness)],
                );
                b
            },
            Path::Step => {
                let mut b = BendPathBuilder::default();
                b.periods = unsigned(values[get_parameter_index(GlissParam::StepPeriods)]);
                b.periods_randomness = unsigned(
                    values[get_parameter_index(GlissParam::StepPeriodsRandomness)],
                );
                b
            },
            Path::Sin => BendPathBuilder::wave_from(
                values,
                GlissParam::SinAmplitude,
                GlissParam::SinPeriods,
                GlissParam::SinPhase,
            ),
            Path::Triangle => BendPathBuilder::wave_from(
                values,
                GlissParam::TriangleAmplitude,
                GlissParam::TrianglePeriods,
                GlissParam::TrianglePhase,
            ),
            Path::Saw => BendPathBuilder::wave_from(
                values,
                GlissParam::SawAmplitude,
                GlissParam::SawPeriods,
                GlissParam::SawPhase,
            ),
            Path::Linear => BendPathBuilder::default(),
        };
        r.path = Some(path);
        r
    }
}

impl Default for BendPathBuilder {
    /// The builder of the plain curve.
    fn default() -> (r: BendPathBuilder)
        ensures
            r == BendPathBuilder::plain(),
            r.valid(),
    {
        BendPathBuilder {
            path: Some(Path::SCurve),
            amplitude: 0,
            amplitude_randomness: 0,
            periods: 2000,
            periods_randomness: 0,
            s_curve_sharpness: 2000,
            s_curve_sharpness_randomness: 0,
            phase: 0,
            phase_randomness: 0,
        }
    }
}

} // verus!
