use tiplot::interp::{interpolate_value, time_key, InterpResult, InterpolationMode};

fn words(xs: &[f32]) -> Vec<u32> {
    xs.iter().map(|x| x.to_bits()).collect()
}

/// The floating-point completion of a query answer: brackets blend linearly,
/// with a near-zero time delta answered by the left sample.
fn sample(times: &[f32], values: &[f32], t: f32, mode: InterpolationMode) -> Option<f32> {
    let tw = words(times);
    let vw = words(values);
    match interpolate_value(&tw, &vw, t.to_bits(), mode) {
        InterpResult::NoValue => None,
        InterpResult::Value(w) => Some(f32::from_bits(w)),
        InterpResult::Bracket { lo, hi } => {
            let t0 = times[lo];
            let t1 = times[hi];
            let v0 = values[lo];
            let v1 = values[hi];
            if (t1 - t0).abs() < 1e-6 {
                Some(v0)
            } else {
                Some(v0 + (t - t0) / (t1 - t0) * (v1 - v0))
            }
        }
    }
}

#[test]
fn time_key_orders_like_float_order() {
    let xs = [-10.5f32, -1.0, -0.5, 1.0, 2.5, 1000.0];
    for i in 0..xs.len() {
        for j in 0..xs.len() {
            assert_eq!(xs[i] < xs[j], time_key(xs[i].to_bits()) < time_key(xs[j].to_bits()));
        }
    }
}

#[test]
fn linear_blends_between_brackets() {
    let times = [0.0f32, 1.0, 2.0, 3.0];
    let values = [10.0f32, 20.0, 30.0, 40.0];
    let got = sample(&times, &values, 1.5, InterpolationMode::Linear).unwrap();
    assert_eq!(got, 25.0);
    let got = sample(&times, &values, 0.25, InterpolationMode::Linear).unwrap();
    assert_eq!(got, 12.5);
}

#[test]
fn linear_at_exact_sample_returns_that_sample() {
    let times = [0.0f32, 1.0, 2.0, 3.0];
    let values = [10.0f32, 20.0, 30.0, 40.0];
    let got = sample(&times, &values, 2.0, InterpolationMode::Linear).unwrap();
    assert_eq!(got, 30.0);
}

#[test]
fn linear_at_or_past_last_returns_last() {
    let times = [0.0f32, 1.0];
    let values = [5.0f32, 7.0];
    assert_eq!(sample(&times, &values, 9.0, InterpolationMode::Linear), Some(7.0));
}

#[test]
fn queries_before_first_sample() {
    let times = [1.0f32, 2.0];
    let values = [5.0f32, 7.0];
    assert_eq!(sample(&times, &values, 0.5, InterpolationMode::PreviousPoint), None);
    assert_eq!(sample(&times, &values, 0.5, InterpolationMode::Linear), None);
    // the next-point policy answers with the first sample, also at equality
    assert_eq!(sample(&times, &values, 0.5, InterpolationMode::NextPoint), Some(5.0));
    assert_eq!(sample(&times, &values, 1.0, InterpolationMode::NextPoint), Some(5.0));
    assert_eq!(sample(&times, &values, 1.0, InterpolationMode::PreviousPoint), None);
    assert_eq!(sample(&times, &values, 1.0, InterpolationMode::Linear), None);
}

#[test]
fn next_point_past_last_is_no_value() {
    let times = [1.0f32, 2.0];
    let values = [5.0f32, 7.0];
    assert_eq!(sample(&times, &values, 2.5, InterpolationMode::NextPoint), None);
    assert_eq!(sample(&times, &values, 2.0, InterpolationMode::NextPoint), Some(7.0));
    assert_eq!(sample(&times, &values, 1.5, InterpolationMode::NextPoint), Some(7.0));
}

#[test]
fn previous_point_picks_latest_before() {
    let times = [1.0f32, 2.0, 3.0];
    let values = [5.0f32, 7.0, 9.0];
    assert_eq!(sample(&times, &values, 2.5, InterpolationMode::PreviousPoint), Some(7.0));
    assert_eq!(sample(&times, &values, 3.5, InterpolationMode::PreviousPoint), Some(9.0));
    assert_eq!(sample(&times, &values, 2.0, InterpolationMode::PreviousPoint), Some(5.0));
}

#[test]
fn mismatched_lengths_degrade_to_no_value() {
    let times = words(&[1.0, 2.0, 3.0]);
    let values = words(&[5.0]);
    let r = interpolate_value(&times, &values, 2.5f32.to_bits(), InterpolationMode::PreviousPoint);
    assert_eq!(r, InterpResult::NoValue);
    let r = interpolate_value(&times, &values, 9.0f32.to_bits(), InterpolationMode::Linear);
    assert_eq!(r, InterpResult::NoValue);
}

#[test]
fn negative_times_are_ordered() {
    let times = [-2.0f32, -1.0, 0.0, 1.0];
    let values = [1.0f32, 2.0, 3.0, 4.0];
    assert_eq!(sample(&times, &values, -1.5, InterpolationMode::Linear), Some(1.5));
    assert_eq!(sample(&times, &values, -1.0, InterpolationMode::NextPoint), Some(2.0));
}

#[test]
fn default_mode_is_previous_point() {
    assert_eq!(InterpolationMode::default(), InterpolationMode::PreviousPoint);
}
