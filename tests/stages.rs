use audio_visualizer::animate::{AudioVisualizerState, ALPHA_ONE};
use audio_visualizer::bucketize::{bucketize_fft_to_ranges, floor_sqrt};
use audio_visualizer::normalize::{normalize_buckets, FULL_SCALE};
use audio_visualizer::padding::{flatten_and_pad, next_power_of_two};
use audio_visualizer::smooth::smooth;

#[test]
fn next_power_of_two_rounds_up() {
    assert_eq!(next_power_of_two(0), 1);
    assert_eq!(next_power_of_two(1), 1);
    assert_eq!(next_power_of_two(3), 4);
    assert_eq!(next_power_of_two(5), 8);
    assert_eq!(next_power_of_two(4097), 8192);
}

#[test]
fn next_power_of_two_keeps_powers_of_two() {
    for k in 0..63u32 {
        let p = 1usize << k;
        assert_eq!(next_power_of_two(p), p);
    }
    assert_eq!(next_power_of_two(4096), 4096);
}

#[test]
fn flatten_and_pad_joins_channels_and_pads() {
    let frame = vec![vec![1i32, 2, 3], vec![4, 5]];
    assert_eq!(flatten_and_pad(&frame, 0), vec![1, 2, 3, 4, 5, 0, 0, 0]);
    let exact = vec![vec![7i32, 8], vec![9, 10]];
    assert_eq!(flatten_and_pad(&exact, 0), vec![7, 8, 9, 10]);
}

#[test]
fn flatten_and_pad_of_empty_frame() {
    let frame: Vec<Vec<i32>> = vec![];
    assert_eq!(flatten_and_pad(&frame, 0), Vec::<i32>::new());
    let silent_channels: Vec<Vec<i32>> = vec![vec![], vec![]];
    assert_eq!(flatten_and_pad(&silent_channels, 0), Vec::<i32>::new());
    let single = vec![vec![3.5f32]];
    assert_eq!(flatten_and_pad(&single, 0.0), vec![3.5]);
}

#[test]
fn floor_sqrt_values() {
    assert_eq!(floor_sqrt(0), 0);
    assert_eq!(floor_sqrt(1), 1);
    assert_eq!(floor_sqrt(15), 3);
    assert_eq!(floor_sqrt(16), 4);
    assert_eq!(floor_sqrt(17), 4);
    assert_eq!(floor_sqrt(u64::MAX), 0xffff_ffff);
}

#[test]
fn bucketize_sums_power_and_takes_root() {
    let power = vec![9u32, 16, 4, 1, 100, 100, 100, 100];
    let bin_bucket = vec![i64::MIN, 0, 1, 1];
    assert_eq!(bucketize_fft_to_ranges(&power, &bin_bucket, 2), vec![4, 2]);
}

#[test]
fn bucketize_leaves_out_bins_outside_the_range() {
    let power = vec![25u32, 9, 16, 7, 0, 0, 0, 0];
    let bin_bucket = vec![-1i64, 3, 0, 2];
    assert_eq!(bucketize_fft_to_ranges(&power, &bin_bucket, 3), vec![4, 0, 2]);
}

#[test]
fn bucketize_never_negative_and_sized() {
    let power: Vec<u32> = vec![0; 16];
    let bin_bucket: Vec<i64> = (0..8).map(|i| i as i64 - 2).collect();
    let levels = bucketize_fft_to_ranges(&power, &bin_bucket, 5);
    assert_eq!(levels, vec![0, 0, 0, 0, 0]);
    let empty = bucketize_fft_to_ranges(&vec![], &vec![], 4);
    assert_eq!(empty, vec![0, 0, 0, 0]);
}

#[test]
fn smooth_one_pass_exact_values() {
    let mut buffer = vec![0u32, 6, 0];
    smooth(&mut buffer, 1, 1);
    assert_eq!(buffer, vec![2, 3, 2]);
}

#[test]
fn smooth_zero_passes_or_zero_radius_is_identity() {
    let mut buffer = vec![5u32, 1, 9, 0];
    smooth(&mut buffer, 0, 4);
    assert_eq!(buffer, vec![5, 1, 9, 0]);
    smooth(&mut buffer, 3, 0);
    assert_eq!(buffer, vec![5, 1, 9, 0]);
}

#[test]
fn smooth_wide_pass_stays_within_range() {
    let input = vec![10u32, 200, 30, 4000, 5, 60];
    let mut buffer = input.clone();
    smooth(&mut buffer, 1, 10);
    let lo = *input.iter().min().unwrap();
    let hi = *input.iter().max().unwrap();
    assert_eq!(buffer.len(), input.len());
    for &v in &buffer {
        assert!(lo <= v && v <= hi);
    }
}

#[test]
fn smooth_two_passes_of_a_constant_stay_constant() {
    let mut buffer = vec![7u32; 9];
    smooth(&mut buffer, 2, 4);
    assert_eq!(buffer, vec![7u32; 9]);
}

#[test]
fn animator_starts_at_zero() {
    let state = AudioVisualizerState::new(4);
    assert_eq!(state.levels(), &vec![0u32, 0, 0, 0]);
    assert_eq!(state.len(), 4);
}

#[test]
fn animator_half_factor_halves_the_gap() {
    let mut state = AudioVisualizerState::new(2);
    let current = vec![100u32, 0];
    assert_eq!(state.animate_buckets(&current, ALPHA_ONE / 2), vec![50, 0]);
    assert_eq!(state.animate_buckets(&current, ALPHA_ONE / 2), vec![75, 0]);
    assert_eq!(state.levels(), &vec![75u32, 0]);
    let down = vec![0u32, 0];
    assert_eq!(state.animate_buckets(&down, ALPHA_ONE / 2), vec![37, 0]);
}

#[test]
fn animator_distance_strictly_decreases() {
    let mut state = AudioVisualizerState::new(1);
    let current = vec![1000u32];
    let mut last_gap = 1000i64;
    for _ in 0..20 {
        let out = state.animate_buckets(&current, ALPHA_ONE / 4);
        let gap = (1000 - out[0] as i64).abs();
        assert!(gap < last_gap || last_gap == 0);
        last_gap = gap;
    }
    let mut small = AudioVisualizerState::new(1);
    assert_eq!(small.animate_buckets(&vec![1], ALPHA_ONE / 2), vec![1]);
}

#[test]
fn animator_full_factor_snaps_and_zero_holds() {
    let mut state = AudioVisualizerState::new(3);
    let current = vec![3u32, 4000, 17];
    assert_eq!(state.animate_buckets(&current, ALPHA_ONE), current);
    let other = vec![0u32, 0, 0];
    assert_eq!(state.animate_buckets(&other, 0), current);
}

#[test]
fn normalize_scales_by_peak_and_packs() {
    let buckets = vec![1u32, 2, 4, 0, 8];
    let out = normalize_buckets(&buckets);
    assert_eq!(out, vec![[8192, 16384, 32768, 0], [65536, 0, 0, 0]]);
}

#[test]
fn normalize_peak_maps_to_full_scale() {
    let buckets = vec![3u32, 9, 9, 1, 0, 2, 5, 7];
    let out = normalize_buckets(&buckets);
    assert_eq!(out.len(), 2);
    assert_eq!(out[0][1], FULL_SCALE);
    assert_eq!(out[0][2], FULL_SCALE);
    assert_eq!(out[0][0], 3 * FULL_SCALE / 9);
    for group in &out {
        for &v in group {
            assert!(v <= FULL_SCALE);
        }
    }
}

#[test]
fn normalize_silence_gives_zeros() {
    let out = normalize_buckets(&vec![0u32; 6]);
    assert_eq!(out, vec![[0u32; 4], [0u32; 4]]);
    assert_eq!(normalize_buckets(&vec![]), Vec::<[u32; 4]>::new());
}
