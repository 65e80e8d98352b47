//! The shape of recorded slots: mixing, rates, trimming, lengths, fades, levels and
//! tails.
use midi_sampler_to_m8::audio::{
    interleave, last_sound_seconds, length_frames, milliseconds_to_frames, shape_slot, slot_range,
    slot_status, stereo_streams, tail_peak, tail_start,
};
use midi_sampler_to_m8::level::{is_sounding, peak_abs, Binary32};
use midi_sampler_to_m8::number::Binary64;
use midi_sampler_to_m8::pcm::{decoded_sample, pcm_sample};
use midi_sampler_to_m8::signal;
use midi_sampler_to_m8::signal::{mix_down, resample_len, resample_neighbours};

fn level(x: f32) -> Binary32 {
    Binary32 { bits: x.to_bits() }
}

fn levels(xs: &[f32]) -> Vec<Binary32> {
    xs.iter().map(|&x| level(x)).collect()
}

fn floats(xs: &[Binary32]) -> Vec<f32> {
    xs.iter().map(|x| f32::from_bits(x.bits)).collect()
}

fn bits(x: f64) -> Binary64 {
    Binary64 { bits: x.to_bits() }
}

fn seconds(x: Binary64) -> f64 {
    f64::from_bits(x.bits)
}

fn resample_linear(input: &[f32], from_rate: u32, to_rate: u32) -> Vec<f32> {
    floats(&signal::resample_linear(&levels(input), from_rate, to_rate))
}

fn finalize_slot(
    native: &[f32],
    native_rate: u32,
    native_channels: u16,
    out_channels: u16,
    slot_length: f64,
    onset_threshold: f32,
    lookback_frames: usize,
) -> Vec<f32> {
    floats(&signal::finalize_slot(
        &levels(native),
        native_rate,
        native_channels,
        out_channels,
        bits(slot_length),
        level(onset_threshold),
        lookback_frames,
    ))
}

fn apply_end_fade(samples: &mut Vec<f32>, channels: u16, fade_frames: usize) {
    let mut buf = levels(samples);
    signal::apply_end_fade(&mut buf, channels, fade_frames);
    *samples = floats(&buf);
}

fn apply_start_fade(samples: &mut Vec<f32>, channels: u16, fade_frames: usize) {
    let mut buf = levels(samples);
    signal::apply_start_fade(&mut buf, channels, fade_frames);
    *samples = floats(&buf);
}

fn normalize_peak(samples: &mut Vec<f32>, target_amp: f32) {
    let mut buf = levels(samples);
    signal::normalize_peak(&mut buf, level(target_amp));
    *samples = floats(&buf);
}

/// Samples between -1 and 1, the same ones every time.
fn noise(n: usize, seed: u32) -> Vec<f32> {
    let mut x = seed;
    (0..n)
        .map(|_| {
            x = x.wrapping_mul(1_664_525).wrapping_add(1_013_904_223);
            (x as f32 / u32::MAX as f32) * 2.0 - 1.0
        })
        .collect()
}

#[test]
fn resample_same_rate_is_identity() {
    let input = vec![0.1, 0.2, 0.3, 0.4];
    assert_eq!(resample_linear(&input, 44100, 44100), input);
}

#[test]
fn resample_preserves_constant_signal() {
    let input = vec![0.5f32; 480];
    let out = resample_linear(&input, 48000, 44100);
    // ratio 0.91875 -> 480 * 0.91875 = 441 frames.
    assert_eq!(out.len(), 441);
    for s in out {
        assert!((s - 0.5).abs() < 1e-6);
    }
}

#[test]
fn resampling_positions_match_the_machine() {
    for (from, to) in [(48_000u32, 44_100u32), (96_000, 44_100), (22_050, 44_100), (44_099, 44_100), (8_000, 44_100)] {
        let ratio = to as f64 / from as f64;
        for len in [1usize, 2, 10, 480, 48_000, 123_457] {
            assert_eq!(resample_len(len, from, to), (len as f64 * ratio).round() as usize);
            let last = len - 1;
            for i in (0..resample_len(len, from, to)).step_by(7) {
                let at = (i as f64 / ratio).floor() as usize;
                assert_eq!(resample_neighbours(i, from, to, last), (at.min(last), (at + 1).min(last)));
            }
        }
    }
}

#[test]
fn finalize_mono_produces_exact_length() {
    // 480 native frames, 2 channels, 48 kHz -> 0.01s slot at 44.1k = 441 frames.
    let native: Vec<f32> = (0..960).map(|_| 0.25).collect();
    let out = finalize_slot(&native, 48000, 2, 1, 0.01, 0.0, 0);
    assert_eq!(out.len(), 441); // mono => 1 sample per frame
}

#[test]
fn finalize_stereo_produces_interleaved_exact_length() {
    let native: Vec<f32> = (0..960).map(|_| 0.25).collect();
    let out = finalize_slot(&native, 48000, 2, 2, 0.01, 0.0, 0);
    assert_eq!(out.len(), 441 * 2); // stereo interleaved
}

#[test]
fn end_fade_ramps_to_zero() {
    // Mono: fade last 4 frames of a constant buffer.
    let mut buf = vec![1.0f32; 8];
    apply_end_fade(&mut buf, 1, 4);
    assert_eq!(buf[0..4], [1.0, 1.0, 1.0, 1.0]); // untouched
    assert_eq!(buf[7], 0.0); // last frame fully faded
    assert!(buf[4] > buf[5] && buf[5] > buf[6] && buf[6] > buf[7]); // descending
}

#[test]
fn end_fade_is_noop_when_zero() {
    let mut buf = vec![0.5f32; 6];
    apply_end_fade(&mut buf, 2, 0);
    assert_eq!(buf, vec![0.5f32; 6]);
}

#[test]
fn end_fade_clamps_to_length() {
    // Stereo, 3 frames; request a longer fade than exists.
    let mut buf = vec![1.0f32; 6];
    apply_end_fade(&mut buf, 2, 100);
    assert_eq!(buf[4], 0.0); // last frame, both channels faded
    assert_eq!(buf[5], 0.0);
}

#[test]
fn finalize_pads_short_capture_with_silence() {
    // Only 10 native frames but a 0.01s slot needs 441 -> padded with zeros.
    let native: Vec<f32> = vec![1.0; 10];
    let out = finalize_slot(&native, 44100, 1, 1, 0.01, 0.0, 0);
    assert_eq!(out.len(), 441);
    assert_eq!(out[440], 0.0);
}

#[test]
fn finalize_trims_leading_silence_with_lookback() {
    // 44.1k mono: 100 silent frames, then a burst. 0.01s slot = 441 frames.
    let mut native = vec![0.0f32; 100];
    native.extend(std::iter::repeat_n(0.5f32, 50));
    // Threshold below the burst, 10-frame lookback: onset at 100 -> start 90.
    let out = finalize_slot(&native, 44100, 1, 1, 0.01, 0.1, 10);
    assert_eq!(out.len(), 441); // still exact length
    // First 10 frames are the retained lookback silence, then the burst.
    assert_eq!(out[0], 0.0);
    assert!((out[10] - 0.5).abs() < 1e-6);
}

#[test]
fn finalize_leaves_silent_slot_untouched() {
    // All silence: nothing crosses the threshold, so no trim, still padded.
    let native = vec![0.0f32; 200];
    let out = finalize_slot(&native, 44100, 1, 1, 0.01, 0.1, 10);
    assert_eq!(out.len(), 441);
    assert!(out.iter().all(|&s| s == 0.0));
}

#[test]
fn start_fade_ramps_from_zero() {
    let mut buf = vec![1.0f32; 8];
    apply_start_fade(&mut buf, 1, 4);
    assert_eq!(buf[0], 0.0); // first frame fully faded in
    assert!(buf[1] < buf[2] && buf[2] < buf[3]); // ascending
    assert_eq!(buf[4..], [1.0, 1.0, 1.0, 1.0]); // untouched after the fade
}

#[test]
fn normalize_scales_to_target_and_skips_silence() {
    let mut buf = vec![0.2f32, -0.1, 0.05];
    normalize_peak(&mut buf, 0.891);
    let peak = buf.iter().fold(0.0f32, |m, &s| m.max(s.abs()));
    assert!((peak - 0.891).abs() < 1e-6);
    // Near-silent buffer is left alone (no noise blow-up).
    let mut quiet = vec![1e-8f32, -1e-8];
    normalize_peak(&mut quiet, 0.891);
    assert_eq!(quiet, vec![1e-8f32, -1e-8]);
    // The floor itself is loud enough.
    let mut floor = vec![1e-6f32];
    normalize_peak(&mut floor, 0.5);
    assert!((floor[0] - 0.5).abs() < 1e-6);
    let mut below = vec![0.999e-6f32];
    normalize_peak(&mut below, 0.5);
    assert_eq!(below, vec![0.999e-6f32]);
}

#[test]
fn normalizing_matches_the_machine() {
    for (seed, scale, target) in [(1u32, 0.3f32, 0.891f32), (2, 1e-5, 1.0), (3, 1.0, 0.25), (4, 3e-6, 2.0)] {
        let before: Vec<f32> = noise(5_000, seed).iter().map(|x| x * scale).collect();
        let peak = before.iter().fold(0.0f32, |m, &s| m.max(s.abs()));
        let gain = target / peak;
        let expected: Vec<f32> = before.iter().map(|x| x * gain).collect();
        let mut after = before.clone();
        normalize_peak(&mut after, target);
        assert_eq!(levels(&after), levels(&expected));
        // The loudest sample is at the target, and no order is turned round.
        let loudest = after.iter().fold(0.0f32, |m, &s| m.max(s.abs()));
        assert!(((loudest - target) / target).abs() <= 1.0 / 4_194_304.0);
        for w in 0..before.len() - 1 {
            if before[w].abs() <= before[w + 1].abs() {
                assert!(after[w].abs() <= after[w + 1].abs());
            }
        }
    }
}

#[test]
fn peak_abs_finds_largest_magnitude() {
    assert_eq!(peak_abs(&levels(&[0.0, -0.7, 0.3, 0.5])), level(0.7));
    assert_eq!(peak_abs(&levels(&[])), level(0.0));
}

#[test]
fn peaks_pass_over_what_is_no_number() {
    for xs in [
        vec![f32::NAN, 0.5, -0.75],
        vec![f32::INFINITY, 1.0],
        vec![-0.0],
        vec![f32::NAN],
        vec![1e-40, -2e-40],
        vec![f32::NEG_INFINITY, f32::NAN, 3.0],
    ] {
        let expected = xs.iter().fold(0.0f32, |m, &s| m.max(s.abs()));
        assert_eq!(peak_abs(&levels(&xs)), level(expected), "{xs:?}");
    }
}

#[test]
fn is_sounding_uses_threshold() {
    assert!(is_sounding(level(0.01), level(0.003)));
    assert!(is_sounding(level(0.003), level(0.003)));
    assert!(!is_sounding(level(0.0), level(0.003)));
    assert!(!is_sounding(level(0.001), level(0.003)));
}

#[test]
fn levels_compare_like_the_machine() {
    let xs = [0.0f32, -0.0, 1.0, -1.0, 0.5, -0.5, f32::NAN, f32::INFINITY, f32::NEG_INFINITY, 1e-40, -1e-40];
    for a in xs {
        for b in xs {
            assert_eq!(level(a).reaches(level(b)), a >= b, "{a} {b}");
        }
        assert_eq!(level(a).non_negative(), !(a < 0.0 || a.is_nan()), "{a}");
        assert_eq!(level(a).abs(), level(a.abs()));
    }
}

#[test]
fn last_sound_seconds_finds_tail_end() {
    // 100 loud mono frames then 100 silent, at 1000 Hz -> tail ends at 0.1s.
    let mut buf = vec![0.5f32; 100];
    buf.extend(std::iter::repeat_n(0.0f32, 100));
    let t = seconds(last_sound_seconds(&levels(&buf), 1000, 1, level(0.003)));
    assert!((t - 0.1).abs() < 1e-9, "got {t}");

    // All silence -> 0.0.
    assert_eq!(
        seconds(last_sound_seconds(&levels(&vec![0.0f32; 200]), 1000, 1, level(0.003))),
        0.0
    );
}

#[test]
fn last_sound_seconds_handles_stereo_interleaving() {
    // 50 stereo frames (100 samples) loud, then silence; 1000 Hz -> 0.05s.
    let mut buf = vec![0.4f32; 100];
    buf.extend(std::iter::repeat_n(0.0f32, 100));
    let t = seconds(last_sound_seconds(&levels(&buf), 1000, 2, level(0.003)));
    assert!((t - 0.05).abs() < 1e-9, "got {t}");
}

#[test]
fn tails_match_the_machine() {
    let mut buf = vec![0.0f32; 999];
    buf[700] = -0.5;
    for rate in [1u32, 3, 44_100, 48_000, u32::MAX] {
        for channels in [0u16, 1, 2, 7] {
            let frame = 700 / channels.max(1) as usize;
            assert_eq!(
                last_sound_seconds(&levels(&buf), rate, channels, level(0.5)),
                bits((frame + 1) as f64 / rate as f64)
            );
        }
    }
    assert_eq!(seconds(last_sound_seconds(&levels(&buf), 0, 1, level(0.5))), f64::INFINITY);
    assert_eq!(seconds(last_sound_seconds(&levels(&buf), 0, 1, level(0.6))), 0.0);
}

#[test]
fn tail_peaks_look_at_the_end_only() {
    let buf = levels(&[0.9, 0.8, 0.1, -0.3]);
    assert_eq!(tail_peak(&buf, 2, 1), level(0.3));
    assert_eq!(tail_peak(&buf, 1, 1), level(0.3));
    assert_eq!(tail_peak(&buf, 0, 3), level(0.8));
    assert_eq!(tail_peak(&buf, 2, 100), level(0.9));
    assert_eq!(tail_peak(&buf, 2, usize::MAX), level(0.9));
    assert_eq!(tail_peak(&buf, 2, 0), level(0.0));
    assert_eq!(tail_start(10, 2, 3), 4);
}

#[test]
fn stereo_takes_two_channels_or_one_twice() {
    let quad = levels(&[1.0, 2.0, 3.0, 5.0, 6.0, 7.0]);
    let streams = stereo_streams(&quad, 3);
    assert_eq!(floats(&streams[0]), vec![1.0, 5.0]);
    assert_eq!(floats(&streams[1]), vec![2.0, 6.0]);
    let mono = stereo_streams(&levels(&[1.0, 2.0]), 1);
    assert_eq!(floats(&mono[0]), vec![1.0, 2.0]);
    assert_eq!(floats(&mono[1]), vec![1.0, 2.0]);
    // A frame that is not whole is left out.
    assert_eq!(stereo_streams(&levels(&[1.0, 2.0, 3.0]), 2)[0].len(), 1);
}

#[test]
fn channels_are_interleaved_from_the_start_frame() {
    let channels = vec![levels(&[1.0, 2.0, 3.0]), levels(&[4.0])];
    assert_eq!(floats(&interleave(&channels, 1, 3)), vec![2.0, 0.0, 3.0, 0.0, 0.0, 0.0]);
    assert_eq!(floats(&interleave(&channels, usize::MAX, 1)), vec![0.0, 0.0]);
    assert!(interleave(&channels, 0, 0).is_empty());
}

#[test]
fn the_onset_is_the_earliest_of_all_channels() {
    // The right channel starts first, and the slot with it.
    let channels = vec![levels(&[0.0, 0.0, 0.0, 0.5]), levels(&[0.0, 0.0, -0.5, 0.0])];
    let out = floats(&shape_slot(&channels, bits(4.0 / 44_100.0), level(0.25), 1));
    assert_eq!(out, vec![0.0, 0.0, 0.0, -0.5, 0.5, 0.0, 0.0, 0.0]);
    // A lookback beyond the beginning keeps everything.
    let all = floats(&shape_slot(&channels, bits(1.0 / 44_100.0), level(0.25), 9));
    assert_eq!(all, vec![0.0, 0.0]);
}

#[test]
fn frame_counts_match_the_machine() {
    for ms in [0u64, 1, 3, 5, 10, 999, 1_000, 123_456_789, u64::MAX / 3, u64::MAX] {
        assert_eq!(
            milliseconds_to_frames(ms),
            (ms as f64 * 44_100f64 / 1000.0) as usize,
            "{ms}"
        );
    }
    for x in [0.01f64, 0.25, 2.0, 9.0, 0.7, 1e300] {
        assert_eq!(length_frames(bits(x), 44_100), (x * 44_100f64).round() as usize);
    }
}

#[test]
fn fades_match_the_machine() {
    for (len, channels, fade) in [(1_000usize, 1u16, 300usize), (999, 2, 100), (40, 2, 1_000), (7, 3, 1), (9, 2, 2), (5, 0, 3), (0, 1, 4)] {
        let before = noise(len, 7);
        let ch = channels.max(1) as usize;
        let frames = len / ch;
        let n = fade.min(frames);
        let mut down = before.clone();
        let mut up = before.clone();
        for j in 0..n {
            for c in 0..ch {
                down[(frames - n + j) * ch + c] *= (n - 1 - j) as f32 / (n - 1).max(1) as f32;
                up[j * ch + c] *= j as f32 / (n - 1).max(1) as f32;
            }
        }
        let mut end = before.clone();
        apply_end_fade(&mut end, channels, fade);
        assert_eq!(levels(&end), levels(&down), "{len} {channels} {fade}");
        let mut start = before.clone();
        apply_start_fade(&mut start, channels, fade);
        assert_eq!(levels(&start), levels(&up), "{len} {channels} {fade}");
    }
}

#[test]
fn a_fade_of_one_frame_is_silence() {
    let mut buf = vec![1.0f32, 1.0, 1.0];
    apply_start_fade(&mut buf, 1, 1);
    assert_eq!(buf, vec![0.0, 1.0, 1.0]);
    apply_end_fade(&mut buf, 1, 1);
    assert_eq!(buf, vec![0.0, 1.0, 0.0]);
    // A broken last frame is not touched.
    let mut broken = vec![1.0f32; 5];
    apply_end_fade(&mut broken, 2, 1);
    assert_eq!(broken, vec![1.0, 1.0, 0.0, 0.0, 1.0]);
}

#[test]
fn mixing_down_averages_like_the_machine() {
    for channels in [0u16, 1, 2, 3, 6] {
        let native = noise(1_003, channels as u32);
        let ch = channels.max(1) as usize;
        let expected: Vec<f32> = native
            .chunks_exact(ch)
            .map(|frame| {
                let mut sum = 0.0f32;
                for s in frame {
                    sum += s;
                }
                sum / ch as f32
            })
            .collect();
        assert_eq!(mix_down(&levels(&native), channels), levels(&expected), "{channels}");
    }
    assert_eq!(floats(&mix_down(&levels(&[0.25, 0.75, -1.0, 0.5]), 2)), vec![0.5, -0.25]);
}

#[test]
fn resampling_matches_the_machine() {
    for (from, to) in [(48_000u32, 44_100u32), (96_000, 44_100), (22_050, 44_100), (8_000, 44_100), (44_099, 44_100)] {
        let input = noise(700, from);
        let ratio = to as f64 / from as f64;
        let last = input.len() - 1;
        let expected: Vec<f32> = (0..(input.len() as f64 * ratio).round() as usize)
            .map(|i| {
                let src_pos = i as f64 / ratio;
                let idx = src_pos.floor() as usize;
                let frac = (src_pos - idx as f64) as f32;
                let a = input[idx.min(last)];
                let b = input[(idx + 1).min(last)];
                a + (b - a) * frac
            })
            .collect();
        assert_eq!(levels(&resample_linear(&input, from, to)), levels(&expected), "{from} {to}");
    }
    assert!(resample_linear(&[], 0, 44_100).is_empty());
    assert!(resample_linear(&[1.0, 2.0], 44_100, 0).is_empty());
}

#[test]
fn a_slot_of_no_length_is_empty() {
    for length in [0.0f64, -0.0, -1.0, f64::NAN] {
        assert!(finalize_slot(&[1.0, 2.0], 44_100, 1, 2, length, 0.0, 0).is_empty());
        assert_eq!(length_frames(bits(length), 44_100), 0);
    }
}

#[test]
fn slots_of_a_chain_end_with_the_buffer() {
    assert_eq!(slot_range(0, 10, 2, 100), (0, 20));
    assert_eq!(slot_range(4, 10, 2, 100), (80, 100));
    assert_eq!(slot_range(4, 11, 2, 100), (88, 100));
    assert_eq!(slot_range(9, 11, 0, 100), (99, 100));
    assert_eq!(slot_range(50, usize::MAX, 2, 100), (100, 100));
    assert_eq!(slot_range(0, 0, 2, 100), (0, 0));
}

#[test]
fn slot_statuses_go_by_the_peak() {
    assert_eq!(slot_status(&levels(&[0.0, 1e-4])), "rendered");
    assert_eq!(slot_status(&levels(&[0.0, -0.00009])), "silent");
    assert_eq!(slot_status(&[]), "silent");
}

#[test]
fn clamps_out_of_range_samples() {
    let f32_to_i16 = |x: f32| pcm_sample(level(x));
    assert_eq!(f32_to_i16(2.0), i16::MAX);
    assert_eq!(f32_to_i16(-2.0), -i16::MAX);
    assert_eq!(f32_to_i16(0.0), 0);
}

#[test]
fn pcm_samples_match_the_machine() {
    let mut xs = vec![f32::NAN, -f32::NAN, f32::INFINITY, -0.0, 1e-40, 1.5259022e-5, 0.99999994, 1.0];
    let mut seed = 1u32;
    for _ in 0..200_000 {
        seed = seed.wrapping_mul(1_664_525).wrapping_add(1_013_904_223);
        xs.push(f32::from_bits(seed));
        xs.push((seed as f32 / u32::MAX as f32) * 2.0 - 1.0);
    }
    for k in -32768..=32768 {
        xs.push((k as f32 + 0.5) / 32767.0);
        xs.push(k as f32 / 32768.0);
    }
    for x in xs {
        let expected = (x.clamp(-1.0, 1.0) * i16::MAX as f32).round() as i16;
        assert_eq!(pcm_sample(level(x)), expected, "{x}");
    }
}

#[test]
fn integer_samples_are_decoded_like_the_machine() {
    for depth in [1u16, 8, 16, 24, 32] {
        let max = (1i64 << (depth - 1)) as f32;
        for v in [0i32, 1, -1, 2, 127, -128, 32_767, -32_768, 8_388_607, -8_388_608, 16_777_217, i32::MAX, i32::MIN] {
            assert_eq!(decoded_sample(v, depth), level(v as f32 / max), "{v} {depth}");
        }
    }
    // What is written as 16 bits is read back within a step.
    for x in noise(2_000, 5) {
        let back = decoded_sample(pcm_sample(level(x)) as i32, 16);
        assert!((f32::from_bits(back.bits) - x).abs() <= 1.0 / 16_384.0, "{x}");
    }
}

#[test]
fn a_constant_stays_constant_and_frames_lie_between() {
    for x in [0.5f32, -0.3, 1e-40, 0.0, f32::MAX] {
        let out = resample_linear(&vec![x; 200], 48_000, 44_100);
        assert!(out.iter().all(|&y| y.to_bits() == x.to_bits()));
    }
    // Multiples of one step: their differences need no rounding.
    let input: Vec<f32> = noise(300, 9).iter().map(|x| (x * 4_096.0).round() / 4_096.0).collect();
    let out = resample_linear(&input, 48_000, 44_100);
    for (i, &y) in out.iter().enumerate() {
        let (at, next) = resample_neighbours(i, 48_000, 44_100, input.len() - 1);
        let (a, b) = (input[at], input[next]);
        assert!(a.min(b) <= y && y <= a.max(b), "{a} {y} {b}");
    }
}

#[test]
fn a_greater_sample_never_gives_a_smaller_pcm_value() {
    let rising = [
        f32::NEG_INFINITY, -2.0, -1.0, -0.99999, -0.5, -0.0001, -0.00001, -0.0, 0.0, 1e-40, 0.00001,
        0.00002, 0.25, 0.5, 0.99998, 0.99999, 1.0, 3.0, f32::INFINITY,
    ];
    let values: Vec<i16> = rising.iter().map(|&x| pcm_sample(level(x))).collect();
    assert!(values.windows(2).all(|w| w[0] <= w[1]));
    assert_eq!(values[0], -32767);
    assert_eq!(values[values.len() - 1], 32767);
}
