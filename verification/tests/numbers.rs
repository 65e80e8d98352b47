//! The number formats against the machine's own binary64 arithmetic.
use midi_sampler_to_m8::display::{eta_label, human_bytes, human_duration, progress_bar};
use midi_sampler_to_m8::number::Binary64;
use midi_sampler_to_m8::slots::build_slot_map;

fn bits(x: f64) -> Binary64 {
    Binary64 { bits: x.to_bits() }
}

fn lengths() -> Vec<f64> {
    vec![
        0.0, 0.001, 0.0125, 0.1, 0.25, 0.3, 0.7, 1.0, 1.0005, 1.5, 2.675, 3.14159, 8.0, 9.0, 20.0,
        59.9999, 60.0, 3599.5, 3600.0, 123456.789, 1e9, 4503599627370496.0, 1e17, 5e-324, 1e-300,
    ]
}

#[test]
fn scaling_rounds_like_the_machine() {
    for x in lengths() {
        for k in [1u32, 150, 1000, 44100, 48000, 192000] {
            assert_eq!(bits(x).scale(k), (x * k as f64).round() as u64, "{x} * {k}");
        }
    }
    assert_eq!(bits(f64::INFINITY).scale(1000), u64::MAX);
}

#[test]
fn slot_times_match_the_machine() {
    for x in lengths() {
        let map = build_slot_map(0, 255, bits(x), None);
        for (i, slot) in map.iter().enumerate() {
            let start = i as f64 * x;
            assert_eq!(slot.start_seconds, bits(start));
            assert_eq!(slot.end_seconds, bits(start + x));
            assert_eq!(slot.start_seconds.fixed(3), format!("{start:.3}"));
            assert_eq!(slot.end_seconds.fixed(3), format!("{:.3}", start + x));
        }
    }
}

#[test]
fn fixed_texts_match_the_machine() {
    for x in lengths() {
        let d = bits(x).decode();
        assert_eq!(d.fixed(0), format!("{x:.0}"));
        assert_eq!(d.fixed(1), format!("{x:.1}"));
        assert_eq!(d.fixed(2), format!("{x:.2}"));
        assert_eq!(d.fixed(3), format!("{x:.3}"));
    }
    for x in [0.5, 1.5, 2.5, 0.25, 0.125, 0.0625, 0.35, 1e300] {
        let d = bits(x).decode();
        assert_eq!(d.fixed(0), format!("{x:.0}"));
        assert_eq!(d.fixed(1), format!("{x:.1}"));
        assert_eq!(d.fixed(3), format!("{x:.3}"));
    }
}

#[test]
fn bars_match_the_machine() {
    for total in [1usize, 3, 7, 128, 200, 1000, usize::MAX] {
        for done in [0usize, 1, 2, 3, 29, 57, 113, 115, 127, 128, 500, 999, usize::MAX - 1, usize::MAX] {
            for width in [0usize, 4, 10, 37] {
                let frac = (done as f64 / total as f64).clamp(0.0, 1.0);
                let filled = (frac * width as f64).round() as usize;
                let pct = (frac * 100.0).round() as u32;
                let expected =
                    format!("[{}{}] {:>3}%", "#".repeat(filled), "-".repeat(width - filled), pct);
                assert_eq!(progress_bar(done, total, width), expected, "{done}/{total} {width}");
            }
        }
    }
}

#[test]
fn times_and_sizes_match_the_machine() {
    for x in lengths() {
        for (done, total) in [(1usize, 5usize), (3, 128), (7, 9), (127, 128), (2, usize::MAX)] {
            let per = x / done as f64;
            let left = per * (total - done) as f64 / 60.0;
            assert_eq!(eta_label(bits(x), done, total), format!("~{left:.1} min left"));
        }
        let expected = if x >= 3600.0 {
            format!("{:.1} h", x / 3600.0)
        } else if x >= 60.0 {
            format!("{:.1} min", x / 60.0)
        } else {
            format!("~{x:.0}s")
        };
        assert_eq!(human_duration(bits(x)), expected);
    }
    for bytes in [0usize, 511, 512, 1536, 2560, 1 << 20, 3 << 19, 5 << 19, (1 << 30) - 1, 1 << 30, usize::MAX] {
        let b = bytes as f64;
        let expected = if b >= 1073741824.0 {
            format!("{:.1} GB", b / 1073741824.0)
        } else if b >= 1048576.0 {
            format!("{:.0} MB", b / 1048576.0)
        } else {
            format!("{:.0} KB", b / 1024.0)
        };
        assert_eq!(human_bytes(bytes), expected);
    }
}

#[test]
fn bars_keep_their_width_and_never_go_back() {
    for width in [0usize, 1, 4, 10, 37, 1_000] {
        for total in [0usize, 1, 3, 7, 128, 1_000_003, usize::MAX] {
            let mut before = (0, 0);
            for done in [0usize, 1, 2, 3, 5, 64, 100, 127, 128, 500_000, 1_000_002, usize::MAX - 1, usize::MAX] {
                let bar = progress_bar(done, total, width);
                assert_eq!(bar.chars().count(), width + 7);
                let marks = bar.matches('#').count();
                let share: usize = bar[width + 3..width + 6].trim().parse().unwrap();
                assert!(before <= (marks, share) && before.1 <= share, "{done} of {total}");
                if done >= total {
                    assert_eq!((marks, share), (width, 100));
                } else if done == 0 {
                    assert_eq!((marks, share), (0, 0));
                }
                before = (marks, share);
            }
        }
    }
}
