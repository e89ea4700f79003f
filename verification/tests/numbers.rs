//! Numbers as bit patterns, held against the floating-point numbers they stand for.
use reflex_intelligence::codec::Decoder;
use reflex_intelligence::digest::{hash_bytes, hash_labelled, Digest};
use reflex_intelligence::evidence::whole_number;
use reflex_intelligence::forecast::{
    axes_are_distinct, compare_compatible_forecasts, compare_forecast_vectors, compare_ranks,
    is_finite, is_in_unit_interval, is_same_number, Forecast, ForecastAxis, Precedence,
    ResourceForecast, ScoredForecast,
};
use reflex_intelligence::numbers::{gains, reaches};
use reflex_intelligence::types::{IntelligenceError, ResourceVector};

/// Patterns of all sorts, the awkward ones first.
fn patterns() -> Vec<u32> {
    let mut patterns = vec![
        0,
        1,
        2,
        0x007f_ffff,
        0x0080_0000,
        0x0080_0001,
        0x3380_0000,
        0x3f00_0000,
        0x3f7f_ffff,
        0x3f80_0000,
        0x3f80_0001,
        0x4170_0000,
        0x7f7f_ffff,
        0x7f80_0000,
        0x7fc0_0000,
        0x8000_0000,
        0x8000_0001,
        0xbf80_0000,
        0xff7f_ffff,
        0xff80_0000,
        0xffc0_0000,
    ];
    let mut state: u64 = 0x9e37_79b9_7f4a_7c15;
    for _ in 0..200 {
        state = state
            .wrapping_mul(6_364_136_223_846_793_005)
            .wrapping_add(1_442_695_040_888_963_407);
        patterns.push((state >> 32) as u32);
        patterns.push(((state >> 32) as u32) % 0x3f80_0001);
    }
    patterns
}

fn scored(axis: ForecastAxis, estimate: f32, error: f32, uncertainty: f32) -> ScoredForecast {
    let forecast = Forecast::with_uncertainty(
        axis,
        estimate.to_bits(),
        error.to_bits(),
        uncertainty.to_bits(),
        3,
    )
    .unwrap();
    let value = if axis.higher_is_better() {
        estimate - uncertainty - error * 0.25
    } else {
        -(estimate + uncertainty + error * 0.25)
    };
    ScoredForecast {
        forecast,
        conservative_value: value.to_bits(),
    }
}

#[test]
fn finite_patterns_are_finite_numbers() {
    for pattern in patterns() {
        assert_eq!(is_finite(pattern), f32::from_bits(pattern).is_finite());
    }
}

#[test]
fn the_unit_interval_is_the_numbers_from_zero_to_one() {
    for pattern in patterns() {
        assert_eq!(
            is_in_unit_interval(pattern),
            (0.0..=1.0).contains(&f32::from_bits(pattern)),
        );
    }
}

#[test]
fn finite_patterns_agree_as_the_numbers_do() {
    let patterns = patterns();
    for left in &patterns {
        for right in patterns.iter().take(40) {
            if is_finite(*left) && is_finite(*right) {
                assert_eq!(
                    is_same_number(*left, *right),
                    f32::from_bits(*left) == f32::from_bits(*right),
                );
            }
        }
    }
}

#[test]
fn ranks_follow_the_total_order_of_numbers() {
    for left in patterns() {
        for right in patterns().into_iter().take(60) {
            let expected = match f32::from_bits(left).total_cmp(&f32::from_bits(right)) {
                std::cmp::Ordering::Less => Precedence::Before,
                std::cmp::Ordering::Equal => Precedence::Tied,
                std::cmp::Ordering::Greater => Precedence::After,
            };
            assert_eq!(compare_ranks(left, right), expected);
        }
    }
}

#[test]
fn differences_reach_a_minimum_as_rounded_differences_do() {
    let finite: Vec<u32> = patterns()
        .into_iter()
        .filter(|pattern| is_finite(*pattern))
        .collect();
    let minimums: Vec<u32> = patterns()
        .into_iter()
        .filter(|pattern| is_in_unit_interval(*pattern))
        .collect();
    for (index, left) in finite.iter().enumerate() {
        for right in finite.iter().skip(index % 7).step_by(7) {
            for minimum in minimums.iter().skip(index % 5).step_by(5) {
                let difference = f32::from_bits(*left) - f32::from_bits(*right);
                assert_eq!(
                    reaches(*left, *right, *minimum),
                    difference >= f32::from_bits(*minimum),
                    "{left:08x} - {right:08x} >= {minimum:08x}",
                );
            }
        }
    }
}

#[test]
fn a_difference_may_reach_a_minimum_only_by_rounding() {
    // 1.0 minus the smallest number is rounded back to 1.0.
    assert!(reaches(1.0f32.to_bits(), 1, 1.0f32.to_bits()));
    assert!(!reaches(0.75f32.to_bits(), 0.5f32.to_bits(), 0.3f32.to_bits()));
    assert!(reaches(0.75f32.to_bits(), 0.5f32.to_bits(), 0.25f32.to_bits()));
    // Both zeros count as nothing.
    assert!(reaches(0, 0x8000_0000, 0));
    assert!(reaches(0x8000_0000, 0, 0x8000_0000));
    assert!(!reaches(0, 1, 0));
}

#[test]
fn a_treatment_gains_by_less_risk_and_less_cost() {
    let high = 0.9f32.to_bits();
    let low = 0.2f32.to_bits();
    let least = 0.5f32.to_bits();
    assert!(gains(ForecastAxis::Novelty, high, low, least));
    assert!(!gains(ForecastAxis::Novelty, low, high, least));
    assert!(gains(ForecastAxis::DeadEndRisk, low, high, least));
    assert!(!gains(ForecastAxis::VerificationCost, high, low, least));
}

#[test]
fn whole_numbers_are_counts_up_to_sixteen_bits() {
    assert_eq!(whole_number(0.0f32.to_bits()), Some(0));
    assert_eq!(whole_number((-0.0f32).to_bits()), Some(0));
    assert_eq!(whole_number(3.0f32.to_bits()), Some(3));
    assert_eq!(whole_number(65_535.0f32.to_bits()), Some(65_535));
    assert_eq!(whole_number(65_536.0f32.to_bits()), None);
    assert_eq!(whole_number(0.5f32.to_bits()), None);
    assert_eq!(whole_number((-1.0f32).to_bits()), None);
    for pattern in patterns() {
        let value = f32::from_bits(pattern);
        if value.is_finite() {
            let counts = value >= 0.0 && value.fract() == 0.0 && value <= 65_535.0;
            assert_eq!(whole_number(pattern), counts.then_some(value as u64));
        }
    }
}

#[test]
fn digests_are_those_of_sha_256() {
    let expected: [u8; 32] = [
        0xba, 0x78, 0x16, 0xbf, 0x8f, 0x01, 0xcf, 0xea, 0x41, 0x41, 0x40, 0xde, 0x5d, 0xae, 0x22,
        0x23, 0xb0, 0x03, 0x61, 0xa3, 0x96, 0x17, 0x7a, 0x9c, 0xb4, 0x10, 0xff, 0x61, 0xf2, 0x00,
        0x15, 0xad,
    ];
    assert_eq!(hash_bytes(b"abc").to_bytes(), expected);
    assert_eq!(hash_labelled("ab", b"c").to_bytes(), expected);
    assert_eq!(Digest::new(expected), hash_bytes(b"abc"));
}

#[test]
fn digests_are_ordered_as_their_bytes_are() {
    let mut digests: Vec<Digest> = (0u8..40).map(|seed| hash_bytes(&[seed])).collect();
    digests.push(Digest::new([0; 32]));
    for left in &digests {
        for right in &digests {
            assert_eq!(
                left.precedes(*right),
                left.to_bytes() < right.to_bytes()
            );
        }
    }
}

#[test]
fn axes_have_the_tags_that_they_are_written_with() {
    for tag in 1u8..=9 {
        assert_eq!(ForecastAxis::decode(tag).unwrap().tag(), tag);
    }
    assert!(ForecastAxis::decode(0).is_err());
    assert!(ForecastAxis::decode(10).is_err());
    let mut priorities: Vec<u8> = (1u8..=9)
        .map(|tag| ForecastAxis::decode(tag).unwrap().default_priority())
        .collect();
    priorities.sort_unstable();
    assert_eq!(priorities, (0u8..9).collect::<Vec<u8>>());
    assert!(axes_are_distinct(&[
        ForecastAxis::Novelty,
        ForecastAxis::DeadEndRisk
    ]));
    assert!(!axes_are_distinct(&[
        ForecastAxis::Novelty,
        ForecastAxis::Novelty
    ]));
}

#[test]
fn forecasts_outside_their_bounds_are_refused() {
    let axis = ForecastAxis::Novelty;
    let one = 1.0f32.to_bits();
    let half = 0.5f32.to_bits();
    let above = 1.5f32.to_bits();
    let undefined = f32::NAN.to_bits();
    assert!(Forecast::with_uncertainty(axis, half, half, half, 1).is_ok());
    for (estimate, error, uncertainty) in [
        (above, half, half),
        (undefined, half, half),
        (half, above, one),
        (half, undefined, one),
        (half, half, above),
        (half, half, undefined),
        (half, half, 0.25f32.to_bits()),
    ] {
        assert_eq!(
            Forecast::with_uncertainty(axis, estimate, error, uncertainty, 1),
            Err(IntelligenceError::InvalidModel),
        );
    }
}

#[test]
fn forecasts_read_back_as_they_were_written() {
    let forecast = Forecast::with_uncertainty(
        ForecastAxis::CompressionValue,
        0.25f32.to_bits(),
        0.125f32.to_bits(),
        0.5f32.to_bits(),
        7,
    )
    .unwrap();
    let mut bytes = Vec::new();
    forecast.encode_canonical(&mut bytes);
    assert_eq!(bytes.len(), 17);
    assert_eq!(bytes[0], 5);
    assert_eq!(bytes[1..5], 0.25f32.to_le_bytes());
    assert_eq!(bytes[13..17], 7u32.to_le_bytes());
    let mut input = Decoder::new(&bytes);
    assert_eq!(Forecast::decode_canonical(&mut input), Ok(forecast));
    assert!(input.is_finished());
}

#[test]
fn forecast_vectors_compare_the_other_way_round_when_swapped() {
    let axes = [
        ForecastAxis::ImmediateImprovement,
        ForecastAxis::Novelty,
        ForecastAxis::DeadEndRisk,
    ];
    let mut vectors = vec![Vec::new()];
    for first in [0.2f32, 0.7] {
        for second in [0.1f32, 0.9] {
            vectors.push(vec![
                scored(axes[0], first, 0.1, 0.2),
                scored(axes[1], second, 0.1, 0.2),
            ]);
            vectors.push(vec![
                scored(axes[0], first, 0.1, 0.2),
                scored(axes[2], second, 0.2, 0.3),
            ]);
        }
    }
    for left in &vectors {
        for right in &vectors {
            let opposite = match compare_forecast_vectors(right, left) {
                Precedence::Before => Precedence::After,
                Precedence::Tied => Precedence::Tied,
                Precedence::After => Precedence::Before,
            };
            assert_eq!(compare_forecast_vectors(left, right), opposite);
        }
        assert_eq!(compare_forecast_vectors(left, left), Precedence::Tied);
    }
}

#[test]
fn a_vector_that_is_nowhere_worse_comes_first() {
    let better = [
        scored(ForecastAxis::ImmediateImprovement, 0.7, 0.1, 0.2),
        scored(ForecastAxis::DeadEndRisk, 0.1, 0.1, 0.2),
    ];
    let worse = [
        scored(ForecastAxis::ImmediateImprovement, 0.7, 0.1, 0.2),
        scored(ForecastAxis::DeadEndRisk, 0.4, 0.1, 0.2),
    ];
    let mixed = [
        scored(ForecastAxis::ImmediateImprovement, 0.6, 0.1, 0.2),
        scored(ForecastAxis::DeadEndRisk, 0.0, 0.1, 0.2),
    ];
    assert_eq!(compare_forecast_vectors(&better, &worse), Precedence::Before);
    // Where each is better somewhere, the axis of the first priority decides.
    assert_eq!(compare_forecast_vectors(&better, &mixed), Precedence::Before);
    assert_eq!(compare_forecast_vectors(&mixed, &worse), Precedence::After);
}

#[test]
fn equal_values_are_told_apart_by_error_uncertainty_and_support() {
    let value = 0.25f32.to_bits();
    let with = |error: f32, uncertainty: f32, support: u32| ScoredForecast {
        forecast: Forecast::with_uncertainty(
            ForecastAxis::Novelty,
            0.5f32.to_bits(),
            error.to_bits(),
            uncertainty.to_bits(),
            support,
        )
        .unwrap(),
        conservative_value: value,
    };
    assert_eq!(
        compare_compatible_forecasts(with(0.1, 0.5, 1), with(0.2, 0.4, 9)),
        Precedence::Before,
    );
    assert_eq!(
        compare_compatible_forecasts(with(0.1, 0.5, 9), with(0.1, 0.4, 1)),
        Precedence::After,
    );
    assert_eq!(
        compare_compatible_forecasts(with(0.1, 0.5, 9), with(0.1, 0.5, 1)),
        Precedence::Before,
    );
    assert_eq!(
        compare_compatible_forecasts(with(0.1, 0.5, 9), with(0.1, 0.5, 9)),
        Precedence::Tied,
    );
}

#[test]
fn a_verification_bounds_what_it_keeps_and_not_what_it_spends() {
    let forecast = ResourceForecast::verification(7, 11);
    assert_eq!(forecast.expected(), ResourceVector::new(0, 7, 11, 0, 1));
    assert_eq!(forecast.declared_upper(), ResourceVector::new(0, 7, 11, 0, 1));
    assert_eq!(forecast.bound_tags(), [2, 1, 1, 2, 1]);
    assert!(forecast.cpu_time_is_unknown() && forecast.elapsed_time_is_unknown());
    let exact = ResourceForecast::exact(ResourceVector::new(1, 2, 3, 4, 5));
    assert_eq!(exact.bound_tags(), [1, 1, 1, 1, 1]);
    assert!(!exact.cpu_time_is_unknown() && !exact.elapsed_time_is_unknown());
}

#[test]
fn resources_are_added_and_compared_part_by_part() {
    let left = ResourceVector::new(1, 2, 3, 4, 5);
    let right = ResourceVector::new(10, 20, 30, 40, 50);
    assert_eq!(
        left.checked_add(right),
        Some(ResourceVector::new(11, 22, 33, 44, 55)),
    );
    assert_eq!(left.checked_add(ResourceVector::new(0, 0, 0, u64::MAX, 0)), None);
    assert!(left.fits_within(right));
    assert!(left.fits_within(left));
    assert!(!left.fits_within(ResourceVector::new(9, 9, 2, 9, 9)));
}
