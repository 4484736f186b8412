use gliss::midi::curves::{get_progress, PROGRESS_ONE};
use gliss::midi::paths::{BendPath, BendPathBuilder, Path};
use gliss::midi::Bend;

const START: u64 = 1_000_000_000;
const STOP: u64 = 3_000_000_000;

/// The time at which the part `num / den` of the glide has passed.
fn at(num: u64, den: u64) -> u64 {
    START + (STOP - START) * num / den
}

fn path(path: Path) -> BendPath {
    BendPath { path, ..BendPath::default() }
}

#[test]
fn progress_is_the_part_of_the_glide_that_has_passed() {
    assert_eq!(get_progress(START, START, STOP), 0);
    assert_eq!(get_progress(STOP, START, STOP), PROGRESS_ONE);
    assert_eq!(get_progress(250, 0, 1000), 1_073_741_824);
    assert_eq!(get_progress(1_500_000_000, START, STOP), 1_073_741_824);
    assert_eq!(get_progress(1, 0, 3), 1_431_655_765);
    assert_eq!(get_progress(u64::MAX, 0, u64::MAX), PROGRESS_ONE);
}

#[test]
fn linear_bend_interpolates_and_rounds_down() {
    let up = [8192, 9216, 10240, 11264, 12288];
    let down = [12288, 11264, 10240, 9216, 8192];
    for (i, quarter) in (0..=4u64).enumerate() {
        let time = at(quarter, 4);
        assert_eq!(BendPath::get_linear_bend(time, START, STOP, 8192, 12288), up[i]);
        assert_eq!(BendPath::get_linear_bend(time, START, STOP, 12288, 8192), down[i]);
    }
    assert_eq!(BendPath::get_linear_bend(1, 0, 3, 8192, 12288), 9557);
    assert_eq!(BendPath::get_linear_bend(1, 0, 3, 12288, 8192), 10922);
}

#[test]
fn step_bend_climbs_a_staircase() {
    // four steps of 1024
    let four = [8192, 9216, 10240, 11264, 12288];
    // two and a half periods: steps of 1638.4, two whole ones at the end
    let uneven = [8192, 8192, 9830, 9830, 11468];
    for (i, quarter) in (0..=4u64).enumerate() {
        let time = at(quarter, 4);
        assert_eq!(BendPath::get_step_bend(time, START, STOP, 8192, 12288, 4000), four[i]);
        assert_eq!(BendPath::get_step_bend(time, START, STOP, 8192, 12288, 2500), uneven[i]);
    }
    // just before a step the bend still stands on the one before
    assert_eq!(BendPath::get_step_bend(999, 0, 1000, 8192, 12288, 4000), 11264);
}

#[test]
fn saw_bend_adds_a_sawtooth_to_the_line() {
    let two_periods = [8192, 8216, 10240, 10264, 12288];
    let flat = [8192, 8367, 8542, 7717, 7892];
    for (i, quarter) in (0..=4u64).enumerate() {
        let time = at(quarter, 4);
        assert_eq!(
            BendPath::get_saw_bend(time, START, STOP, 8192, 12288, 1000, 2000),
            two_periods[i]
        );
        assert_eq!(BendPath::get_saw_bend(time, START, STOP, 8192, 8192, -500, 3300), flat[i]);
    }
    // the tooth rises to the amplitude and falls back to its negative
    assert_eq!(BendPath::get_saw_bend(49, 0, 100, 100, 100, 65535, 1000), 64324);
    assert_eq!(BendPath::get_saw_bend(51, 0, 100, 100, 100, 65535, 1000), -64125);
}

#[test]
fn triangle_bend_adds_a_triangle_wave_to_the_line() {
    let two_periods = [8192, 9216, 10240, 11264, 12288];
    let flat = [8892, 7842, 8192, 8542, 7492];
    for (i, quarter) in (0..=4u64).enumerate() {
        let time = at(quarter, 4);
        assert_eq!(
            BendPath::get_triangle_bend(time, START, STOP, 8192, 12288, 1000, 2000),
            two_periods[i]
        );
        assert_eq!(
            BendPath::get_triangle_bend(time, START, STOP, 8192, 8192, 700, 1500),
            flat[i]
        );
    }
    assert_eq!(BendPath::get_triangle_bend(1, 0, 3, 8192, 12288, 1000, 2000), 8890);
}

#[test]
fn sin_bend_adds_a_sine_wave_to_the_line() {
    let two_periods = [8192, 9216, 10240, 11264, 12288];
    let quarter_phase = [8192, 6827, 5462, 6827, 8192];
    let three_periods = [8192, 14426, 14878, 9548, 10000];
    for (i, quarter) in (0..=4u64).enumerate() {
        let time = at(quarter, 4);
        assert_eq!(
            BendPath::get_sin_bend(time, START, STOP, 8192, 12288, 1000, 2000, 0),
            two_periods[i]
        );
        assert_eq!(
            BendPath::get_sin_bend(time, START, STOP, 8192, 8192, 1365, 1000, 250),
            quarter_phase[i]
        );
        assert_eq!(
            BendPath::get_sin_bend(time, START, STOP, 8192, 10000, 4096, 3000, -125),
            three_periods[i]
        );
    }
    assert_eq!(BendPath::get_sin_bend(1, 0, 3, 8192, 12288, 1000, 2000, 0), 8692);
}

#[test]
fn s_curve_bend_is_slow_at_the_ends_and_fast_in_the_middle() {
    let sharpness_two = [8192, 8601, 10240, 11878, 12288];
    let sharpness_one = [8192, 9216, 10240, 11264, 12288];
    let falling = [12288, 12189, 10240, 8290, 8192];
    let sharpest = [0, 0, 8191, 16382, 16383];
    for (i, quarter) in (0..=4u64).enumerate() {
        let time = at(quarter, 4);
        assert_eq!(
            BendPath::get_s_curve_bend(time, START, STOP, 8192, 12288, 2000),
            sharpness_two[i]
        );
        assert_eq!(
            BendPath::get_s_curve_bend(time, START, STOP, 8192, 12288, 1000),
            sharpness_one[i]
        );
        assert_eq!(BendPath::get_s_curve_bend(time, START, STOP, 12288, 8192, 3500), falling[i]);
        assert_eq!(BendPath::get_s_curve_bend(time, START, STOP, 0, 16383, 16000), sharpest[i]);
    }
    assert_eq!(BendPath::get_s_curve_bend(1, 0, 3, 8192, 12288, 2000), 9011);
}

#[test]
fn s_curve_beyond_the_sharpest_powers_is_a_corner() {
    for beta in [33_000u32, 40_500, 1_000_000, u32::MAX] {
        for step in 0..=1000u64 {
            let rising = BendPath::get_s_curve_bend(step, 0, 1000, 8192, 12288, beta);
            let falling = BendPath::get_s_curve_bend(step, 0, 1000, 12288, 8192, beta);
            if step < 500 {
                assert_eq!((rising, falling), (8192, 12288));
            } else if step == 500 {
                assert_eq!((rising, falling), (10240, 10240));
            } else {
                assert_eq!((rising, falling), (12288, 8192));
            }
        }
    }
}

#[test]
fn s_curve_below_sharpness_one_leans_towards_the_middle() {
    let cases: [(u32, [i64; 5], [i64; 5]); 8] = [
        (0, [8192, 10240, 10240, 10240, 12288], [12288, 10240, 10240, 10240, 8192]),
        (1, [8192, 10238, 10240, 10241, 12288], [12288, 10241, 10240, 10238, 8192]),
        (500, [8192, 9728, 10240, 10752, 12288], [12288, 10752, 10240, 9728, 8192]),
        (999, [8192, 9217, 10240, 11262, 12288], [12288, 11262, 10240, 9217, 8192]),
        (31999, [8192, 8192, 10240, 12288, 12288], [12288, 12288, 10240, 8192, 8192]),
        (32000, [8192, 8192, 10240, 12288, 12288], [12288, 12288, 10240, 8192, 8192]),
        (33000, [8192, 8192, 10240, 12288, 12288], [12288, 12288, 10240, 8192, 8192]),
        (u32::MAX, [8192, 8192, 10240, 12288, 12288], [12288, 12288, 10240, 8192, 8192]),
    ];
    for (beta, rising, falling) in cases {
        for (i, quarter) in (0..=4u64).enumerate() {
            let time = at(quarter, 4);
            assert_eq!(BendPath::get_s_curve_bend(time, START, STOP, 8192, 12288, beta), rising[i]);
            assert_eq!(BendPath::get_s_curve_bend(time, START, STOP, 12288, 8192, beta), falling[i]);
        }
    }
}

#[test]
fn the_waves_take_every_amplitude_number_of_periods_and_phase() {
    assert_eq!(
        BendPath::get_sin_bend(1, 0, 3, 8192, 12288, i32::MAX, u32::MAX, i32::MIN),
        2_444_272_980
    );
    assert_eq!(BendPath::get_sin_bend(1, 0, 3, 8192, 12288, i32::MIN, 1, i32::MAX), 4_531_541);
    assert_eq!(BendPath::get_saw_bend(1, 0, 3, 8192, 12288, i32::MAX, u32::MAX), -1_010_739_413);
    assert_eq!(
        BendPath::get_triangle_bend(1, 0, 3, 8192, 12288, i32::MIN, u32::MAX),
        -1_006_444_446
    );
    assert_eq!(BendPath::get_step_bend(1, 0, 3, 8192, 12288, u32::MAX), 9557);
    assert_eq!(BendPath::get_step_bend(3, 0, 3, 8192, 12288, 1), 8192);
}

#[test]
fn bend_follows_the_shape_of_the_path() {
    let wave = BendPath { path: Path::Sin, amplitude: 1365, periods: 1000, s_curve_beta: 2000, phase: 250 };
    assert_eq!(wave.bend(at(1, 2), START, STOP, 8192, 8192), Bend(5462));
    let teeth = BendPath { path: Path::Saw, amplitude: 1000, periods: 2000, s_curve_beta: 2000, phase: 0 };
    assert_eq!(teeth.bend(at(1, 4), START, STOP, 8192, 12288), Bend(8216));
    let folds = BendPath { path: Path::Triangle, amplitude: 700, periods: 1500, s_curve_beta: 2000, phase: 0 };
    assert_eq!(folds.bend(at(3, 4), START, STOP, 8192, 8192), Bend(8542));
    let stairs = BendPath { path: Path::Step, amplitude: 0, periods: 2500, s_curve_beta: 2000, phase: 0 };
    assert_eq!(stairs.bend(at(1, 2), START, STOP, 8192, 12288), Bend(9830));
    assert_eq!(path(Path::Linear).bend(at(1, 4), START, STOP, 8192, 12288), Bend(9216));
    assert_eq!(path(Path::SCurve).bend(at(1, 4), START, STOP, 8192, 12288), Bend(8601));
    assert_eq!(path(Path::Linear).bend_at(PROGRESS_ONE / 4, 8192, 12288), Bend(9216));
}

#[test]
fn bend_is_held_to_sixteen_bits() {
    let high = BendPath { path: Path::Saw, amplitude: 65535, periods: 1000, s_curve_beta: 2000, phase: 0 };
    // 65000 + 65534 at the top of the tooth, 100 - 64125 at its bottom
    assert_eq!(high.bend(at(1, 2) - 1, START, STOP, 65000, 65000), Bend(65535));
    assert_eq!(high.bend(at(51, 100), START, STOP, 100, 100), Bend(0));
}

#[test]
fn linear_and_s_curve_start_at_start_bend_and_end_at_target_bend() {
    for shape in [Path::Linear, Path::SCurve] {
        for beta in [0u32, 1, 500, 999, 1000, 1001, 1500, 2000, 2750, 5000, 9999, 16000, 31999, 32000, 32500, 33000, u32::MAX] {
            let p = BendPath { path: shape, amplitude: 300, periods: 3000, s_curve_beta: beta, phase: 7 };
            for (start, target) in [(0u16, 16383u16), (16383, 0), (8192, 8192), (123, 65535), (9000, 8999)] {
                assert_eq!(p.bend(START, START, STOP, start, target), Bend(start));
                assert_eq!(p.bend(STOP, START, STOP, start, target), Bend(target));
                assert_eq!(p.bend_at(0, start, target), Bend(start));
                assert_eq!(p.bend_at(PROGRESS_ONE, start, target), Bend(target));
            }
        }
    }
}

#[test]
fn linear_and_s_curve_stay_between_start_and_target() {
    for shape in [Path::Linear, Path::SCurve] {
        for beta in [0u32, 1, 400, 999, 1000, 1499, 2000, 7300, 16000, 31999, 32000, 32999, 33000, 1_000_000, u32::MAX] {
            let p = BendPath { path: shape, amplitude: 0, periods: 2000, s_curve_beta: beta, phase: 0 };
            for (start, target) in [(0u16, 16383u16), (16383, 0), (8192, 8193), (65535, 0), (7, 7)] {
                let (low, high) = (start.min(target), start.max(target));
                let mut last = start;
                for step in 0..=1000u64 {
                    let bend = p.bend(step, 0, 1000, start, target).0;
                    assert!(low <= bend && bend <= high);
                    // and they never turn back
                    if start <= target {
                        assert!(last <= bend);
                    } else {
                        assert!(last >= bend);
                    }
                    last = bend;
                }
            }
        }
    }
}

#[test]
fn sine_starts_at_start_bend_whatever_the_phase() {
    for phase in [i32::MIN, -1_000_000, -333, -1, 0, 1, 125, 250, 500, 999, 1000, 123_456, i32::MAX] {
        for periods in [1u32, 500, 1000, 2000, 3300, 20_000, 1_000_000, u32::MAX] {
            for amplitude in [i32::MIN, -65535, -4096, 0, 1, 1365, 65535, i32::MAX] {
                let p = BendPath { path: Path::Sin, amplitude, periods, s_curve_beta: 2000, phase };
                assert_eq!(p.bend(START, START, STOP, 8192, 12288), Bend(8192));
                assert_eq!(p.bend(START, START, STOP, 16383, 0), Bend(16383));
            }
        }
    }
}

#[test]
fn integer_curves_stay_within_one_unit_of_the_real_ones() {
    let mut seed: u64 = 12345;
    let mut next = move |bound: u64| {
        seed = seed.wrapping_mul(6364136223846793005).wrapping_add(1442695040888963407);
        (seed >> 33) % bound
    };
    for _ in 0..2000 {
        let time = next(1_000_001);
        let start = next(16384) as u16;
        let target = next(16384) as u16;
        let amplitude = next(8001) as i32 - 4000;
        let periods = 1 + next(20_000) as u32;
        let sharpness = 1 + next(8) as u32;
        let t = time as f64 / 1_000_000.0;
        let (s, g, a, p) = (start as f64, target as f64, amplitude as f64, periods as f64 / 1000.0);
        let amount = s + t * (g - s);

        let linear = BendPath::get_linear_bend(time, 0, 1_000_000, start, target) as f64;
        assert!((linear - amount).abs() <= 1.0);

        let x = t * p;
        let saw = BendPath::get_saw_bend(time, 0, 1_000_000, start, target, amplitude, periods) as f64;
        assert!((saw - (amount + a * 2.0 * (x - (x + 0.5).floor()))).abs() <= 1.0);

        let period = 2.0 / p;
        let fold = ((2.0 * t - 1.0 - period / 4.0).rem_euclid(period) - period / 2.0).abs();
        let triangle =
            BendPath::get_triangle_bend(time, 0, 1_000_000, start, target, amplitude, periods) as f64;
        assert!((triangle - (amount + (4.0 * a / period) * fold - a)).abs() <= 1.0);

        if time > 0 && time < 1_000_000 {
            let beta = sharpness as f64;
            let factor = 1.0 / (1.0 + (t / (1.0 - t)).powf(-beta));
            let curve =
                BendPath::get_s_curve_bend(time, 0, 1_000_000, start, target, sharpness * 1000) as f64;
            assert!((curve - (s + (g - s) * factor)).abs() <= 1.0);
        }

        let phase = next(2001) as i32 - 1000;
        let turn = std::f64::consts::TAU;
        let wave = a * (p * turn * (t + phase as f64 / 1000.0)).sin()
            - a * (p * turn * (phase as f64 / 1000.0)).sin();
        let sine =
            BendPath::get_sin_bend(time, 0, 1_000_000, start, target, amplitude, periods, phase) as f64;
        assert!((sine - (amount + wave)).abs() <= 2.0 + a.abs() * 0.004);
    }
}

#[test]
fn the_wave_stays_within_two_thousandths_of_the_sine() {
    let amplitude = 60_000;
    for step in 0..=10_000u64 {
        let wave = BendPath::get_sin_bend(step, 0, 10_000, 0, 0, amplitude, 1000, 0);
        let sine = (std::f64::consts::TAU * step as f64 / 10_000.0).sin();
        assert!((wave as f64 - amplitude as f64 * sine).abs() <= 0.002 * amplitude as f64 + 1.0);
    }
}

#[test]
fn path_index_there_and_back() {
    let shapes = [Path::SCurve, Path::Linear, Path::Sin, Path::Step, Path::Triangle, Path::Saw];
    for (i, shape) in shapes.iter().enumerate() {
        assert_eq!(Path::from_index(i as u32), *shape);
        assert_eq!(shape.index(), i as u32);
    }
    assert_eq!(Path::from_index(6), Path::Saw);
    assert_eq!(Path::from_index(u32::MAX), Path::Saw);
}

#[test]
fn default_path_is_an_s_curve() {
    assert_eq!(
        BendPath::default(),
        BendPath { path: Path::SCurve, amplitude: 0, periods: 2000, s_curve_beta: 2000, phase: 0 }
    );
    let builder = BendPathBuilder::default();
    assert!(builder.is_valid());
    assert_eq!(builder.build(), BendPath::default());
}

#[test]
fn path_validates_its_parameters() {
    let good = BendPath { path: Path::Sin, amplitude: i32::MIN, periods: 1, s_curve_beta: 0, phase: i32::MAX };
    assert!(good.is_valid());
    assert!(BendPath::default().is_valid());
    assert!(BendPath { periods: u32::MAX, s_curve_beta: u32::MAX, ..good }.is_valid());
    assert!(!BendPath { periods: 0, ..good }.is_valid());
}

#[test]
fn builder_validates_its_ranges() {
    let good = BendPathBuilder {
        path: None,
        amplitude: 1365,
        amplitude_randomness: 500,
        periods: 2000,
        periods_randomness: 1999,
        s_curve_sharpness: 2000,
        s_curve_sharpness_randomness: 2000,
        phase: 0,
        phase_randomness: 1000,
    };
    assert!(good.is_valid());
    // a sharpness of two with a width of three would reach below nothing
    assert!(!BendPathBuilder { s_curve_sharpness_randomness: 3000, ..good }.is_valid());
    assert!(!BendPathBuilder { periods_randomness: 2000, ..good }.is_valid());
    assert!(!BendPathBuilder { periods: 0, periods_randomness: 0, ..good }.is_valid());
    assert!(!BendPathBuilder { s_curve_sharpness: u32::MAX, s_curve_sharpness_randomness: 1, ..good }.is_valid());
    assert!(BendPathBuilder { s_curve_sharpness: 40_000, s_curve_sharpness_randomness: 40_000, ..good }.is_valid());
    assert!(!BendPathBuilder { amplitude: i32::MAX, amplitude_randomness: 1, ..good }.is_valid());
    assert!(!BendPathBuilder { amplitude: i32::MIN, amplitude_randomness: 1, ..good }.is_valid());
    assert!(!BendPathBuilder { phase: i32::MAX, phase_randomness: 1, ..good }.is_valid());
    assert!(!BendPathBuilder { periods: u32::MAX, periods_randomness: 1, ..good }.is_valid());
    assert!(BendPathBuilder { amplitude: i32::MAX, amplitude_randomness: 0, ..good }.is_valid());
}

#[test]
fn nearest_valid_cuts_the_widths_and_keeps_the_middles() {
    let good = BendPathBuilder {
        path: Some(Path::Saw),
        amplitude: 1365,
        amplitude_randomness: 500,
        periods: 2000,
        periods_randomness: 1999,
        s_curve_sharpness: 2000,
        s_curve_sharpness_randomness: 2000,
        phase: 0,
        phase_randomness: 1000,
    };
    assert_eq!(good.nearest_valid(), good);
    // a sharpness of two with a width of three is drawn with a width of two
    let wide = BendPathBuilder { s_curve_sharpness_randomness: 3000, ..good };
    assert_eq!(wide.nearest_valid(), BendPathBuilder { s_curve_sharpness_randomness: 2000, ..good });
    let flat = BendPathBuilder { periods: 0, periods_randomness: 7, ..good };
    assert_eq!(flat.nearest_valid(), BendPathBuilder { periods: 1, periods_randomness: 0, ..good });
    let sharp = BendPathBuilder { s_curve_sharpness: 40_000, s_curve_sharpness_randomness: 50_000, ..good };
    assert_eq!(
        sharp.nearest_valid(),
        BendPathBuilder { s_curve_sharpness: 40_000, s_curve_sharpness_randomness: 40_000, ..good }
    );
    let near_top = BendPathBuilder { s_curve_sharpness: u32::MAX - 999, s_curve_sharpness_randomness: 2000, ..good };
    assert_eq!(near_top.nearest_valid().s_curve_sharpness_randomness, 999);
    let edges = BendPathBuilder {
        amplitude: i32::MAX - 3,
        amplitude_randomness: 10,
        phase: i32::MIN + 4,
        phase_randomness: u32::MAX,
        periods: u32::MAX - 1,
        periods_randomness: 9,
        ..good
    };
    let held = edges.nearest_valid();
    assert_eq!((held.amplitude, held.amplitude_randomness), (i32::MAX - 3, 3));
    assert_eq!((held.phase, held.phase_randomness), (i32::MIN + 4, 4));
    assert_eq!((held.periods, held.periods_randomness), (u32::MAX - 1, 1));
    for builder in [wide, flat, sharp, near_top, edges] {
        assert!(builder.nearest_valid().is_valid());
        for _ in 0..20 {
            assert!(builder.nearest_valid().build().is_valid());
        }
    }
}

#[test]
fn build_draws_within_the_ranges() {
    let builder = BendPathBuilder {
        path: None,
        amplitude: 1365,
        amplitude_randomness: 500,
        periods: 2000,
        periods_randomness: 1000,
        s_curve_sharpness: 3000,
        s_curve_sharpness_randomness: 2000,
        phase: 100,
        phase_randomness: 300,
    };
    assert!(builder.is_valid());
    let mut seen_other_amplitude = false;
    for _ in 0..200 {
        let curve = builder.build();
        assert!((865..=1865).contains(&curve.amplitude));
        assert!((1000..=3000).contains(&curve.periods));
        assert!((1000..=5000).contains(&curve.s_curve_beta));
        assert!((-200..=400).contains(&curve.phase));
        seen_other_amplitude |= curve.amplitude != 865;
    }
    assert!(seen_other_amplitude);
    let fixed = BendPathBuilder { path: Some(Path::Triangle), ..builder };
    for _ in 0..20 {
        assert_eq!(fixed.build().path, Path::Triangle);
    }
}

#[test]
fn realize_takes_the_draws_as_they_are() {
    let builder = BendPathBuilder {
        path: None,
        amplitude: 0,
        amplitude_randomness: 10,
        periods: 2000,
        periods_randomness: 10,
        s_curve_sharpness: 2000,
        s_curve_sharpness_randomness: 10,
        phase: 0,
        phase_randomness: 10,
    };
    assert_eq!(
        builder.realize(3, -10, 2010, 1990, 5),
        BendPath { path: Path::Step, amplitude: -10, periods: 2010, s_curve_beta: 1990, phase: 5 }
    );
    let fixed = BendPathBuilder { path: Some(Path::Linear), ..builder };
    assert_eq!(fixed.realize(3, 0, 2000, 2000, 0).path, Path::Linear);
}
