use dr::stream::{compute_block_stats, DrReduction, StreamingDrState, FULL_SCALE, MAX_SAMPLE};

const FS: f64 = 2147483648.0;

/// Fixed-point sample of a decoded value (full scale at 1.0).
fn fixed(x: f32) -> i64 {
    (x as f64 * FS).round() as i64
}

fn db_fs(linear: f64) -> f64 {
    if linear <= 0.0 {
        -f64::INFINITY
    } else {
        20.0 * linear.log10()
    }
}

/// DR, peak dBFS and RMS dBFS of a reduction.
fn measure(r: &DrReduction) -> (u32, f64, f64) {
    let peak_db = db_fs(r.global_peak as f64 / FS);
    if r.per_channel.is_empty() {
        return (0, peak_db, -f64::INFINITY);
    }
    let denom = r.block_frames as f64 * r.top_count as f64;
    let rms_of = |q: u128| (2.0 * q as f64 / denom).sqrt() / FS;
    let mut sum = 0.0;
    for c in &r.per_channel {
        if c.has_range() {
            sum += 20.0 * ((c.peak as f64 / FS) / rms_of(c.top_sum_sq)).log10();
        }
    }
    let dr = (sum / r.per_channel.len() as f64).round() as u32;
    (dr, peak_db, db_fs(rms_of(r.loudest_top_sum())))
}

fn sine(freq: f64, amp: f64, secs: f64, rate: usize) -> Vec<i64> {
    let n = (rate as f64 * secs) as usize;
    (0..n)
        .map(|i| {
            let t = i as f64 / rate as f64;
            fixed((amp * (2.0 * std::f64::consts::PI * freq * t).sin()) as f32)
        })
        .collect()
}

fn analyse(samples: &[i64], channels: usize, rate: usize) -> DrReduction {
    let mut st = StreamingDrState::new(channels, rate);
    st.push_samples(samples);
    st.finalize(samples.len() / channels.max(1))
}

#[test]
fn test_compute_block_stats() {
    let samples = vec![fixed(0.0); 44100];
    let stats = compute_block_stats(&samples, 1);
    assert_eq!(stats.sum_sq[0], 0);
    assert_eq!(stats.peak[0], 0);

    let samples = vec![fixed(0.5); 44100];
    let stats = compute_block_stats(&samples, 1);
    let rms = (2.0 * stats.sum_sq[0] as f64 / 44100.0).sqrt() / FS;
    let expected_rms = (2.0 * 0.25_f64).sqrt();
    assert!((rms - expected_rms).abs() < 0.001, "DR-RMS of constant 0.5 should be {:.4}, got {:.4}", expected_rms, rms);
    assert!((stats.peak[0] as f64 / FS - 0.5).abs() < 0.001);

    let mut stereo = Vec::new();
    for _ in 0..44100 {
        stereo.push(fixed(0.8));
        stereo.push(fixed(0.2));
    }
    let stats = compute_block_stats(&stereo, 2);
    let left = (2.0 * stats.sum_sq[0] as f64 / 44100.0).sqrt() / FS;
    let right = (2.0 * stats.sum_sq[1] as f64 / 44100.0).sqrt() / FS;
    let expected_left = (2.0 * 0.64_f64).sqrt();
    let expected_right = (2.0 * 0.04_f64).sqrt();
    assert!((left - expected_left).abs() < 0.001, "Left channel DR-RMS should be {:.4}, got {:.4}", expected_left, left);
    assert!((right - expected_right).abs() < 0.001, "Right channel DR-RMS should be {:.4}, got {:.4}", expected_right, right);
    assert!((stats.peak[0] as f64 / FS - 0.8).abs() < 0.001);
    assert!((stats.peak[1] as f64 / FS - 0.2).abs() < 0.001);
}

#[test]
fn test_compute_dr_sine_wave() {
    let samples = sine(440.0, 1.0, 12.0, 44100);
    let (dr, peak_db, rms_db) = measure(&analyse(&samples, 1, 44100));
    assert!(dr <= 1, "Pure sine DR should be ~0 with sqrt(2) calibration, got DR{}", dr);
    assert!(peak_db > -0.1, "Peak should be near 0 dBFS, got {:.2}", peak_db);
    assert!(rms_db > -1.0, "DR-RMS of sine should be near 0 dBFS, got {:.2}", rms_db);
}

#[test]
fn mono_sine_scenario_levels() {
    let samples = sine(440.0, 0.99, 12.0, 44100);
    let r = analyse(&samples, 1, 44100);
    assert_eq!(r.block_count, 4);
    assert_eq!(r.top_count, 1);
    let (dr, peak_db, rms_db) = measure(&r);
    assert!(dr <= 1);
    assert!(peak_db > -1.0 && peak_db <= 0.0);
    assert!(rms_db > -1.0 && rms_db <= 0.0);
}

#[test]
fn short_track_has_no_blocks() {
    let samples = sine(440.0, 0.5, 2.0, 44100);
    let r = analyse(&samples, 1, 44100);
    assert_eq!(r.block_count, 0);
    assert!(r.per_channel.is_empty());
    assert_eq!(r.total_frames, 88200);
    let (dr, peak_db, rms_db) = measure(&r);
    assert_eq!(dr, 0);
    assert!(peak_db.is_finite());
    assert_eq!(rms_db, -f64::INFINITY);
}

#[test]
fn silence_measures_nothing() {
    let samples = vec![0i64; 44100 * 2 * 7];
    let r = analyse(&samples, 2, 44100);
    assert_eq!(r.block_count, 2);
    assert_eq!(r.global_peak, 0);
    assert!(r.per_channel.iter().all(|c| c.top_sum_sq == 0 && c.peak == 0 && !c.has_range()));
    let (dr, peak_db, rms_db) = measure(&r);
    assert_eq!(dr, 0);
    assert_eq!(peak_db, -f64::INFINITY);
    assert_eq!(rms_db, -f64::INFINITY);
}

#[test]
fn zero_channels_is_a_no_op() {
    let mut st = StreamingDrState::new(0, 44100);
    st.push_samples(&[1, 2, 3]);
    st.push_samples(&[]);
    let r = st.finalize(0);
    assert_eq!(r.block_count, 0);
    assert_eq!(r.global_peak, 0);
    assert!(r.per_channel.is_empty());
}

#[test]
fn empty_input_is_a_no_op() {
    let mut st = StreamingDrState::new(2, 48000);
    st.push_samples(&[]);
    let r = st.finalize(0);
    assert_eq!(r.block_count, 0);
    assert_eq!(r.sample_rate, 48000);
    assert_eq!(r.block_frames, 144000);
}

#[test]
fn chunked_and_split_frames_match_one_push() {
    let mut samples = Vec::new();
    for i in 0..(2 * 3 * 10 * 2 + 7) {
        samples.push(((i * 7919) % 2001) as i64 - 1000);
    }
    let whole = analyse(&samples[..samples.len() - 1], 2, 10);
    let mut st = StreamingDrState::new(2, 10);
    let cuts = [0usize, 3, 4, 17, 18, 61, 90, 121, samples.len() - 1];
    for w in cuts.windows(2) {
        st.push_samples(&samples[w[0]..w[1]]);
    }
    let chunked = st.finalize(samples.len() / 2);
    assert_eq!(chunked.block_count, whole.block_count);
    assert_eq!(chunked.global_peak, whole.global_peak);
    for c in 0..2 {
        assert_eq!(chunked.per_channel[c].top_sum_sq, whole.per_channel[c].top_sum_sq);
        assert_eq!(chunked.per_channel[c].peak, whole.per_channel[c].peak);
    }
}

#[test]
fn top_fifth_and_second_peak() {
    // 6 one-frame-per-second blocks of 3 frames each; block b holds the
    // constant value v[b], so its sum of squares is 3 v^2 and its peak v.
    let values = [5i64, -9, 2, 7, 9, 1];
    let mut samples = Vec::new();
    for v in values {
        for _ in 0..3 {
            samples.push(v);
        }
    }
    let r = analyse(&samples, 1, 1);
    assert_eq!(r.block_count, 6);
    assert_eq!(r.top_count, 2);
    assert_eq!(r.per_channel[0].top_sum_sq, 3 * 81 + 3 * 81);
    assert_eq!(r.per_channel[0].peak, 9);
    assert_eq!(r.global_peak, 9);
    assert_eq!(r.loudest_top_sum(), 486);
}

#[test]
fn single_block_uses_its_own_peak() {
    let samples = vec![-3i64, 4, 2];
    let r = analyse(&samples, 1, 1);
    assert_eq!(r.block_count, 1);
    assert_eq!(r.top_count, 1);
    assert_eq!(r.per_channel[0].peak, 4);
    assert_eq!(r.per_channel[0].top_sum_sq, 9 + 16 + 4);
}

#[test]
fn levels_above_full_scale_are_kept() {
    // A decoded peak of 1.06 (about +0.5 dBFS) is neither clipped nor lost.
    let samples = vec![fixed(1.06), fixed(-1.0), fixed(0.5), 0, 0, 0];
    let r = analyse(&samples, 2, 1);
    assert_eq!(r.global_peak, fixed(1.06) as u64);
    assert!(r.global_peak > FULL_SCALE);
    assert_eq!(r.per_channel[0].peak, fixed(1.06) as u64);
    assert_eq!(r.per_channel[1].peak, FULL_SCALE);
    let (_, peak_db, _) = measure(&r);
    assert!((peak_db - 0.506).abs() < 0.01, "peak should be above 0 dBFS, got {:.3}", peak_db);
}

#[test]
fn largest_accepted_sample() {
    let samples = vec![MAX_SAMPLE as i64, -(MAX_SAMPLE as i64), 0];
    let r = analyse(&samples, 1, 1);
    assert_eq!(r.global_peak, MAX_SAMPLE);
    assert_eq!(r.per_channel[0].top_sum_sq, 2 * (MAX_SAMPLE as u128) * (MAX_SAMPLE as u128));
}
