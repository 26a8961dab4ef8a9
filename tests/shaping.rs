use corrosion::corrosion::Corrosion;
use corrosion::waveshaper::{floor_threshold, shape_sample, UNITY};
use corrosion::MAX_BLOCK_SIZE;

fn fixed(v: f64) -> i32 {
    (v * UNITY as f64).round() as i32
}

#[test]
fn scenario_fixed_threshold_two() {
    let effect = Corrosion::new();
    let mut buffer = vec![vec![fixed(3.0), fixed(-1.0), fixed(0.0), fixed(-5.0)]];
    let thresholds = vec![fixed(2.0); 4];
    effect.distortion(&mut buffer, &thresholds);
    assert_eq!(buffer, vec![vec![fixed(1.0), fixed(-0.5), fixed(0.0), fixed(-1.0)]]);
}

#[test]
fn silence_stays_silent() {
    for t in [1, 2, 7, fixed(0.5), fixed(1.0), fixed(3.16), i32::MAX] {
        assert_eq!(shape_sample(0, t), 0);
    }
}

#[test]
fn output_stays_within_unity() {
    let samples = [i32::MIN, -fixed(100.0), -fixed(1.5), -1, 1, fixed(0.75), fixed(200.0), i32::MAX];
    for t in [1, fixed(0.01), fixed(1.0), fixed(3.0), i32::MAX] {
        for x in samples {
            let y = shape_sample(x, t);
            assert!(-UNITY <= y && y <= UNITY, "x = {}, t = {}, y = {}", x, t, y);
        }
    }
}

#[test]
fn linear_inside_threshold() {
    let t = fixed(2.0);
    assert_eq!(shape_sample(fixed(1.0), t), fixed(0.5));
    assert_eq!(shape_sample(fixed(-0.5), t), fixed(-0.25));
    assert_eq!(shape_sample(t, t), UNITY);
    assert_eq!(shape_sample(-t, t), -UNITY);
    // 1 * UNITY / 3 rounds toward zero on both sides of zero.
    assert_eq!(shape_sample(1, 3), 2796202);
    assert_eq!(shape_sample(-1, 3), -2796202);
}

#[test]
fn clipped_outside_threshold() {
    let t = fixed(1.5);
    assert_eq!(shape_sample(fixed(1.6), t), UNITY);
    assert_eq!(shape_sample(fixed(-40.0), t), -UNITY);
    assert_eq!(shape_sample(i32::MIN, t), -UNITY);
    assert_eq!(shape_sample(i32::MAX, t), UNITY);
}

#[test]
fn smaller_threshold_drives_harder() {
    let x = fixed(0.5);
    let soft = shape_sample(x, fixed(3.0));
    let hard = shape_sample(x, fixed(1.0));
    assert_eq!(hard, fixed(0.5));
    assert_eq!(soft, UNITY / 6);
    assert!(hard > soft);
}

#[test]
fn threshold_floor_keeps_division_defined() {
    assert_eq!(floor_threshold(0), 1);
    assert_eq!(floor_threshold(-5), 1);
    assert_eq!(floor_threshold(i32::MIN), 1);
    assert_eq!(floor_threshold(1), 1);
    assert_eq!(floor_threshold(fixed(2.0)), fixed(2.0));
}

#[test]
fn zero_threshold_in_block_is_floored() {
    let effect = Corrosion::new();
    let mut buffer = vec![vec![0, 1, -1, fixed(0.25)]];
    let thresholds = vec![0, 0, -3, 0];
    effect.distortion(&mut buffer, &thresholds);
    assert_eq!(buffer, vec![vec![0, UNITY, -UNITY, UNITY]]);
}

#[test]
fn stereo_channels_with_equal_input_stay_equal() {
    let effect = Corrosion::new();
    let input = vec![fixed(0.1), fixed(-2.5), fixed(1.2), fixed(-0.7), fixed(4.0)];
    let thresholds = vec![fixed(1.0), fixed(1.1), fixed(1.3), fixed(1.6), fixed(2.0)];
    let mut buffer = vec![input.clone(), input.clone()];
    effect.distortion(&mut buffer, &thresholds);
    assert_eq!(buffer[0], buffer[1]);
    for i in 0..input.len() {
        assert_eq!(buffer[0][i], shape_sample(input[i], thresholds[i]));
    }
}

#[test]
fn each_frame_uses_its_own_threshold() {
    let effect = Corrosion::new();
    let mut buffer = vec![vec![fixed(1.0); 3], vec![fixed(-1.0); 3]];
    let thresholds = vec![fixed(1.0), fixed(2.0), fixed(4.0)];
    effect.distortion(&mut buffer, &thresholds);
    assert_eq!(buffer[0], vec![fixed(1.0), fixed(0.5), fixed(0.25)]);
    assert_eq!(buffer[1], vec![fixed(-1.0), fixed(-0.5), fixed(-0.25)]);
}

#[test]
fn full_block_and_empty_block() {
    let effect = Corrosion::new();
    let mut buffer = vec![vec![fixed(2.0); MAX_BLOCK_SIZE]];
    let thresholds = vec![fixed(4.0); MAX_BLOCK_SIZE];
    effect.distortion(&mut buffer, &thresholds);
    assert_eq!(buffer, vec![vec![fixed(0.5); MAX_BLOCK_SIZE]]);

    let mut empty: Vec<Vec<i32>> = vec![Vec::new(), Vec::new()];
    effect.distortion(&mut empty, &Vec::new());
    assert_eq!(empty, vec![Vec::<i32>::new(), Vec::new()]);

    let mut no_channels: Vec<Vec<i32>> = Vec::new();
    effect.distortion(&mut no_channels, &vec![fixed(1.0); 4]);
    assert!(no_channels.is_empty());
}

#[test]
fn initialize_refuses_zero_sample_rate() {
    let mut effect = Corrosion::new();
    assert_eq!(effect.sample_rate(), 0);
    assert!(!effect.initialize(0));
    assert_eq!(effect.sample_rate(), 0);
    assert!(effect.initialize(48000));
    assert_eq!(effect.sample_rate(), 48000);
    assert!(!effect.initialize(0));
    assert_eq!(effect.sample_rate(), 48000);
    assert!(effect.initialize(44100));
    assert_eq!(effect.sample_rate(), 44100);
}

#[test]
fn default_is_uninitialized() {
    let effect = Corrosion::default();
    assert_eq!(effect.sample_rate(), 0);
}
