use audio_visualizer::animate::{AudioVisualizerState, ALPHA_ONE};
use audio_visualizer::bucketize::bucketize_fft_to_ranges;
use audio_visualizer::padding::flatten_and_pad;
use audio_visualizer::pipeline::{audio_event_system, PipelineSettings, SpectrumFrame};
use rustfft::num_complex::Complex;
use rustfft::FftPlanner;

const SAMPLE_RATE: f32 = 40000.0;
const POWER_SCALE: f32 = 256.0;

fn spectrum_power(frame: &Vec<Vec<f32>>) -> Vec<u32> {
    let mut buffer: Vec<Complex<f32>> = flatten_and_pad(frame, 0.0)
        .into_iter()
        .map(|s| Complex::new(s, 0.0))
        .collect();
    let len = buffer.len();
    if len > 1 {
        for (i, s) in buffer.iter_mut().enumerate() {
            let w = 0.5 * (1.0 - (2.0 * std::f32::consts::PI * i as f32 / (len - 1) as f32).cos());
            *s *= w;
        }
    }
    let mut planner = FftPlanner::<f32>::new();
    planner.plan_fft_forward(len).process(&mut buffer);
    buffer.iter().map(|c| (c.norm_sqr() * POWER_SCALE) as u32).collect()
}

fn bin_buckets(len: usize, num_buckets: usize) -> Vec<i64> {
    let min_log = 20f32.log2();
    let max_log = (SAMPLE_RATE / 2.0).log2();
    (0..len / 2)
        .map(|i| {
            let freq = i as f32 * SAMPLE_RATE / len as f32;
            ((freq.log2() - min_log) / (max_log - min_log) * num_buckets as f32).floor() as i64
        })
        .collect()
}

#[test]
fn silent_frame_gives_silent_output() {
    let frame = vec![vec![0.0f32; 4096]];
    let power = spectrum_power(&frame);
    assert_eq!(power.len(), 4096);
    assert!(power.iter().all(|&p| p == 0));
    let bin_bucket = bin_buckets(power.len(), 64);
    assert_eq!(bucketize_fft_to_ranges(&power, &bin_bucket, 64), vec![0u32; 64]);
    let mut state = AudioVisualizerState::new(64);
    let settings = PipelineSettings { smoothing: 2, smoothing_size: 4, interpolation_factor: ALPHA_ONE / 2 };
    let out = audio_event_system(&mut state, Some(SpectrumFrame { power, bin_bucket }), &settings);
    assert_eq!(out, Some(vec![[0u32; 4]; 16]));
    assert_eq!(state.levels(), &vec![0u32; 64]);
}

#[test]
fn sine_at_440_hz_fills_its_bucket() {
    let samples: Vec<f32> = (0..4096)
        .map(|i| (2.0 * std::f32::consts::PI * 440.0 * i as f32 / SAMPLE_RATE).sin())
        .collect();
    let power = spectrum_power(&vec![samples]);
    let bin_bucket = bin_buckets(power.len(), 32);
    let levels = bucketize_fft_to_ranges(&power, &bin_bucket, 32);
    let expected = ((440f32.log2() - 20f32.log2()) / (20000f32.log2() - 20f32.log2()) * 32.0).floor() as usize;
    assert_eq!(expected, 14);
    let peak = *levels.iter().max().unwrap();
    assert!(peak > 0);
    assert_eq!(levels[expected], peak);
    for (k, &v) in levels.iter().enumerate() {
        if k != expected {
            assert!(v < peak / 10, "bucket {} holds {} against {}", k, v, peak);
        }
    }
}

#[test]
fn pipeline_skips_missing_or_empty_frames() {
    let mut state = AudioVisualizerState::new(8);
    let settings = PipelineSettings { smoothing: 1, smoothing_size: 2, interpolation_factor: ALPHA_ONE };
    assert_eq!(audio_event_system(&mut state, None, &settings), None);
    let empty = SpectrumFrame { power: vec![], bin_bucket: vec![] };
    assert_eq!(audio_event_system(&mut state, Some(empty), &settings), None);
    assert_eq!(state.levels(), &vec![0u32; 8]);
}

#[test]
fn pipeline_runs_every_stage() {
    let mut state = AudioVisualizerState::new(4);
    let settings = PipelineSettings { smoothing: 0, smoothing_size: 1, interpolation_factor: ALPHA_ONE / 2 };
    let frame = SpectrumFrame { power: vec![0, 64, 0, 16, 0, 0, 0, 0], bin_bucket: vec![-5, 0, 1, 3] };
    let out = audio_event_system(&mut state, Some(frame), &settings);
    assert_eq!(state.levels(), &vec![4u32, 0, 0, 2]);
    assert_eq!(out, Some(vec![[65536u32, 0, 0, 32768]]));
    let smoothed = PipelineSettings { smoothing: 1, smoothing_size: 1, interpolation_factor: ALPHA_ONE };
    let frame = SpectrumFrame { power: vec![0, 0, 36, 0, 0, 0, 0, 0], bin_bucket: vec![9, 0, 1, 2] };
    let out = audio_event_system(&mut state, Some(frame), &smoothed);
    assert_eq!(state.levels(), &vec![2u32, 3, 1, 0]);
    assert_eq!(out, Some(vec![[43690u32, 65536, 21845, 0]]));
}
