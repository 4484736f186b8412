use gliss::midi::mapper::{ChordMap, ChordMapper, MappingPreference};
use gliss::midi::paths::{BendPathBuilder, Path};
use gliss::midi::Bend;
use gliss::state::{get_parameter_index, GlissParam, PARAMETER_COUNT};

#[test]
fn parameters_are_numbered_in_their_order() {
    assert_eq!(PARAMETER_COUNT, 26);
    assert_eq!(get_parameter_index(GlissParam::BendDuration), 0);
    assert_eq!(get_parameter_index(GlissParam::BendPath), 3);
    assert_eq!(get_parameter_index(GlissParam::SinPhase), 12);
    assert_eq!(get_parameter_index(GlissParam::SawPhaseRandomness), 25);
    for index in 0..PARAMETER_COUNT {
        let parameter = GlissParam::from_index(index).unwrap();
        assert_eq!(get_parameter_index(parameter), index);
    }
    assert_eq!(GlissParam::from_index(26), None);
    assert_eq!(GlissParam::from_index(usize::MAX), None);
}

#[test]
fn randomness_follows_its_parameter() {
    assert_eq!(
        GlissParam::SCurveSharpness.get_randomness_param(),
        Some(GlissParam::SCurveSharpnessRandomness)
    );
    assert_eq!(
        GlissParam::TrianglePhase.get_randomness_param(),
        Some(GlissParam::TrianglePhaseRandomness)
    );
    for index in 0..PARAMETER_COUNT {
        let parameter = GlissParam::from_index(index).unwrap();
        match parameter.get_randomness_param() {
            Some(width) => {
                assert!(index >= 4 && index % 2 == 0);
                assert_eq!(get_parameter_index(width), index + 1);
            }
            None => assert!(index < 4 || index % 2 == 1),
        }
    }
}

#[test]
fn defaults_are_the_closest_note_the_s_curve_and_no_bend() {
    assert_eq!(Bend::default(), Bend(8192));
    assert_eq!(Path::default(), Path::SCurve);
    assert_eq!(ChordMap::default(), ChordMap::Closest);
    assert_eq!(MappingPreference::default(), MappingPreference::Closest);
    let mapper = ChordMapper::default();
    assert_eq!(mapper.chord_map, ChordMap::Closest);
    assert_eq!(mapper.preference, MappingPreference::Closest);
}

#[test]
fn builder_takes_the_parameters_of_its_shape() {
    let mut values = [0i64; 26];
    for (i, value) in values.iter_mut().enumerate() {
        *value = 100 + i as i64;
    }
    let plain = BendPathBuilder::default();
    assert_eq!(
        BendPathBuilder::from_values(Path::Linear, &values),
        BendPathBuilder { path: Some(Path::Linear), ..plain }
    );
    assert_eq!(
        BendPathBuilder::from_values(Path::SCurve, &values),
        BendPathBuilder {
            path: Some(Path::SCurve),
            s_curve_sharpness: 104,
            s_curve_sharpness_randomness: 105,
            ..plain
        }
    );
    assert_eq!(
        BendPathBuilder::from_values(Path::Step, &values),
        BendPathBuilder { path: Some(Path::Step), periods: 106, periods_randomness: 107, ..plain }
    );
    assert_eq!(
        BendPathBuilder::from_values(Path::Sin, &values),
        BendPathBuilder {
            path: Some(Path::Sin),
            amplitude: 108,
            amplitude_randomness: 109,
            periods: 110,
            periods_randomness: 111,
            phase: 112,
            phase_randomness: 113,
            ..plain
        }
    );
    assert_eq!(
        BendPathBuilder::from_values(Path::Triangle, &values),
        BendPathBuilder {
            path: Some(Path::Triangle),
            amplitude: 114,
            amplitude_randomness: 115,
            periods: 116,
            periods_randomness: 117,
            phase: 118,
            phase_randomness: 119,
            ..plain
        }
    );
    assert_eq!(
        BendPathBuilder::from_values(Path::Saw, &values),
        BendPathBuilder {
            path: Some(Path::Saw),
            amplitude: 120,
            amplitude_randomness: 121,
            periods: 122,
            periods_randomness: 123,
            phase: 124,
            phase_randomness: 125,
            ..plain
        }
    );
}

#[test]
fn builder_holds_values_to_their_fields() {
    let mut values = [0i64; 26];
    values[get_parameter_index(GlissParam::SawAmplitude)] = i64::MIN;
    values[get_parameter_index(GlissParam::SawAmplitudeRandomness)] = -1;
    values[get_parameter_index(GlissParam::SawPeriods)] = i64::MAX;
    values[get_parameter_index(GlissParam::SawPhase)] = 1 << 40;
    let builder = BendPathBuilder::from_values(Path::Saw, &values);
    assert_eq!(builder.amplitude, i32::MIN);
    assert_eq!(builder.amplitude_randomness, 0);
    assert_eq!(builder.periods, u32::MAX);
    assert_eq!(builder.phase, i32::MAX);
    // every parameter may stand at the end of what it can be, with no width
    assert!(builder.is_valid());
    values[get_parameter_index(GlissParam::SawPeriodsRandomness)] = 1;
    let wide = BendPathBuilder::from_values(Path::Saw, &values);
    assert!(!wide.is_valid());
    assert_eq!(wide.nearest_valid(), builder);
}
