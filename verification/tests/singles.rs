//! Arithmetic on binary32 patterns, compared with the machine's.
use midi_sampler_to_m8::level::Binary32;

fn level(x: f32) -> Binary32 {
    Binary32 { bits: x.to_bits() }
}

/// What a result is compared by: any pattern that is not a number is as good as
/// another.
fn seen(x: Binary32) -> u32 {
    if f32::from_bits(x.bits).is_nan() {
        0x7FC0_0000
    } else {
        x.bits
    }
}

fn check(a: f32, b: f32) {
    assert_eq!(seen(level(a).plus(level(b))), seen(level(a + b)), "{a:e} + {b:e}");
    assert_eq!(seen(level(a).minus(level(b))), seen(level(a - b)), "{a:e} - {b:e}");
    assert_eq!(seen(level(a).times(level(b))), seen(level(a * b)), "{a:e} * {b:e}");
    assert_eq!(seen(level(a).over(level(b))), seen(level(a / b)), "{a:e} / {b:e}");
}

#[test]
fn special_values_match_the_machine() {
    let xs = [
        0.0f32,
        -0.0,
        1.0,
        -1.0,
        0.5,
        3.0,
        1e-45,
        -1e-45,
        1.1754942e-38,
        f32::MIN_POSITIVE,
        -f32::MIN_POSITIVE,
        f32::MAX,
        -f32::MAX,
        f32::INFINITY,
        f32::NEG_INFINITY,
        f32::NAN,
        16_777_216.0,
        16_777_215.0,
        8_388_608.0,
        f32::EPSILON,
        1.0 - f32::EPSILON / 2.0,
        1e-20,
        1e20,
    ];
    for a in xs {
        for b in xs {
            check(a, b);
        }
        assert_eq!(level(a).negative(), level(-a));
    }
}

#[test]
fn any_patterns_match_the_machine() {
    let mut x = 12_345u32;
    let mut next = || {
        x = x.wrapping_mul(1_664_525).wrapping_add(1_013_904_223);
        x ^ (x >> 15)
    };
    for _ in 0..150_000 {
        let (a, b) = (next(), next());
        check(f32::from_bits(a), f32::from_bits(b));
        // Exponents close to each other.
        check(f32::from_bits(a), f32::from_bits((a & 0xFF80_0000) ^ (b & 0x83FF_FFFF)));
        // Small ones.
        check(f32::from_bits(a & 0x81FF_FFFF), f32::from_bits(b & 0x80FF_FFFF));
    }
}

#[test]
fn ties_go_to_the_even_one() {
    let one = f32::from_bits(0x3F80_0000);
    for k in 0..64u32 {
        let a = f32::from_bits(0x4B80_0000 + k);
        check(a, one);
        check(a, -one);
        check(a, 0.5);
        check(f32::from_bits(0x3F80_0000 + k), 1.5);
        check(f32::from_bits(k), 0.5);
    }
}

#[test]
fn whole_numbers_match_the_machine() {
    for n in [0u64, 1, 2, 3, 16_777_215, 16_777_216, 16_777_217, 16_777_219, 33_554_433, 1 << 40, u64::MAX - 1, u64::MAX, u64::MAX / 3] {
        assert_eq!(Binary32::from_whole(n), level(n as f32), "{n}");
    }
}

#[test]
fn one_is_neutral_and_zero_silences() {
    for x in [0.3f32, -0.7, 1e-40, f32::MAX] {
        assert_eq!(level(x).times(level(1.0)), level(x));
        assert_eq!(level(x).times(level(0.0)).abs(), level(0.0));
        assert_eq!(level(x).over(level(x)), level(1.0));
        assert_eq!(level(x).plus(level(0.125)), level(0.125).plus(level(x)));
    }
}
