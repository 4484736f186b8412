//! The parameters of the engine as a host numbers them.
use vstd::prelude::*;

verus! {

/// The number of parameters.
pub const PARAMETER_COUNT: usize = 26;

/// A parameter of the engine. The order of the variants is the order in
/// which a host numbers them.
#[derive(Debug, PartialEq, Eq, Structural, Copy, Clone)]
pub enum GlissParam {
    BendDuration,
    HoldDuration,
    BendMapping,
    BendPath,
    SCurveSharpness,
    SCurveSharpnessRandomness,
    StepPeriods,
    StepPeriodsRandomness,
    SinAmplitude,
    SinAmplitudeRandomness,
    SinPeriods,
    SinPeriodsRandomness,
    SinPhase,
    SinPhaseRandomness,
    TriangleAmplitude,
    TriangleAmplitudeRandomness,
    TrianglePeriods,
    TrianglePeriodsRandomness,
    TrianglePhase,
    TrianglePhaseRandomness,
    SawAmplitude,
    SawAmplitudeRandomness,
    SawPeriods,
    SawPeriodsRandomness,
    SawPhase,
    SawPhaseRandomness,
}

impl GlissParam {
    /// The number of the parameter.
    pub open spec fn position(self) -> int {
        match self {
            GlissParam::BendDuration => 0,
            GlissParam::HoldDuration => 1,
            GlissParam::BendMapping => 2,
            GlissParam::BendPath => 3,
            GlissParam::SCurveSharpness => 4,
            GlissParam::SCurveSharpnessRandomness => 5,
            GlissParam::StepPeriods => 6,
            GlissParam::StepPeriodsRandomness => 7,
            GlissParam::SinAmplitude => 8,
            GlissParam::SinAmplitudeRandomness => 9,
            GlissParam::SinPeriods => 10,
            GlissParam::SinPeriodsRandomness => 11,
            GlissParam::SinPhase => 12,
            GlissParam::SinPhaseRandomness => 13,
            GlissParam::TriangleAmplitude => 14,
            GlissParam::TriangleAmplitudeRandomness => 15,
            GlissParam::TrianglePeriods => 16,
            GlissParam::TrianglePeriodsRandomness => 17,
            GlissParam::TrianglePhase => 18,
            GlissParam::TrianglePhaseRandomness => 19,
            GlissParam::SawAmplitude => 20,
            GlissParam::SawAmplitudeRandomness => 21,
            GlissParam::SawPeriods => 22,
            GlissParam::SawPeriodsRandomness => 23,
            GlissParam::SawPhase => 24,
            GlissParam::SawPhaseRandomness => 25,
        }
    }

    /// Whether the parameter sets the middle of a range that curves are
    /// drawn from: the parameters of the curves that are no widths.
    pub open spec fn has_randomness(self) -> bool {
        self.position() >= 4 && self.position() % 2 == 0
    }

    /// The parameter with the given number, if there is one.
    pub fn from_index(index: usize) -> (r: Option<GlissParam>)
        ensures
            index < PARAMETER_COUNT ==> (r matches Some(p) && p.position() == index),
            index >= PARAMETER_COUNT ==> r is None,
    {
        match index {
            0 => Some(GlissParam::BendDuration),
            1 => Some(GlissParam::HoldDuration),
            2 => Some(GlissParam::BendMapping),
            3 => Some(GlissParam::BendPath),
            4 => Some(GlissParam::SCurveSharpness),
            5 => Some(GlissParam::SCurveSharpnessRandomness),
            6 => Some(GlissParam::StepPeriods),
            7 => Some(GlissParam::StepPeriodsRandomness),
            8 => Some(GlissParam::SinAmplitude),
            9 => Some(GlissParam::SinAmplitudeRandomness),
            10 => Some(GlissParam::SinPeriods),
            11 => Some(GlissParam::SinPeriodsRandomness),
            12 => Some(GlissParam::SinPhase),
            13 => Some(GlissParam::SinPhaseRandomness),
            14 => Some(GlissParam::TriangleAmplitude),
            15 => Some(GlissParam::TriangleAmplitudeRandomness),
            16 => Some(GlissParam::TrianglePeriods),
            17 => Some(GlissParam::TrianglePeriodsRandomness),
            18 => Some(GlissParam::TrianglePhase),
            19 => Some(GlissParam::TrianglePhaseRandomness),
            20 => Some(GlissParam::SawAmplitude),
            21 => Some(GlissParam::SawAmplitudeRandomness),
            22 => Some(GlissParam::SawPeriods),
            23 => Some(GlissParam::SawPeriodsRandomness),
            24 => Some(GlissParam::SawPhase),
            25 => Some(GlissParam::SawPhaseRandomness),
            _ => None,
        }
    }

    /// The parameter that sets how far a draw may lie from this one: the
    /// parameter that follows it, for those that have such a width.
    pub fn get_randomness_param(&self) -> (r: Option<GlissParam>)
        ensures
            self.has_randomness() ==> (r matches Some(width) && width.position() == self.position()
                + 1),
            !self.has_randomness() ==> r is None,
    {
        match self {
            GlissParam::SCurveSharpness => Some(GlissParam::SCurveSharpnessRandomness),
            GlissParam::StepPeriods => Some(GlissParam::StepPeriodsRandomness),
            GlissParam::SinAmplitude => Some(GlissParam::SinAmplitudeRandomness),
            GlissParam::SinPeriods => Some(GlissParam::SinPeriodsRandomness),
            GlissParam::SinPhase => Some(GlissParam::SinPhaseRandomness),
            GlissParam::TriangleAmplitude => Some(GlissParam::TriangleAmplitudeRandomness),
            GlissParam::TrianglePeriods => Some(GlissParam::TrianglePeriodsRandomness),
            GlissParam::TrianglePhase => Some(GlissParam::TrianglePhaseRandomness),
            GlissParam::SawAmplitude => Some(GlissParam::SawAmplitudeRandomness),
            GlissParam::SawPeriods => Some(GlissParam::SawPeriodsRandomness),
            GlissParam::SawPhase => Some(GlissParam::SawPhaseRandomness),
            _ => None,
        }
    }
}

/// The number of the parameter.
pub fn get_parameter_index(parameter: GlissParam) -> (r: usize)
    ensures
        r == parameter.position(),
        r < PARAMETER_COUNT,
{
    match parameter {
        GlissParam::BendDuration => 0,
        GlissParam::HoldDuration => 1,
        GlissParam::BendMapping => 2,
        GlissParam::BendPath => 3,
        GlissParam::SCurveSharpness => 4,
        GlissParam::SCurveSharpnessRandomness => 5,
        GlissParam::StepPeriods => 6,
        GlissParam::StepPeriodsRandomness => 7,
        GlissParam::SinAmplitude => 8,
        GlissParam::SinAmplitudeRandomness => 9,
        GlissParam::SinPeriods => 10,
        GlissParam::SinPeriodsRandomness => 11,
        GlissParam::SinPhase => 12,
        GlissParam::SinPhaseRandomness => 13,
        GlissParam::TriangleAmplitude => 14,
        GlissParam::TriangleAmplitudeRandomness => 15,
        GlissParam::TrianglePeriods => 16,
        GlissParam::TrianglePeriodsRandomness => 17,
        GlissParam::TrianglePhase => 18,
        GlissParam::TrianglePhaseRandomness => 19,
        GlissParam::SawAmplitude => 20,
        GlissParam::SawAmplitudeRandomness => 21,
        GlissParam::SawPeriods => 22,
        GlissParam::SawPeriodsRandomness => 23,
        GlissParam::SawPhase => 24,
        GlissParam::SawPhaseRandomness => 25,
    }
}

} // verus!
