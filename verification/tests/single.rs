use wasamix::audio::mixer::convert_f32_to_mono_i16;
use wasamix::audio::single::{divide, from_bits, plus, to_sample, Single};

/// The conversion in floating point.
fn float_mono(data: &[u8], channels: u16) -> Vec<u8> {
    let numbers: Vec<f32> = data
        .chunks_exact(4)
        .map(|c| f32::from_le_bytes([c[0], c[1], c[2], c[3]]))
        .collect();
    let mut output = Vec::new();
    for frame in 0..numbers.len() / channels as usize {
        let mut sum = 0.0f32;
        for ch in 0..channels as usize {
            sum += numbers[frame * channels as usize + ch];
        }
        let mono = sum / channels as f32;
        let sample = (mono * 32768.0).clamp(-32768.0, 32767.0) as i16;
        output.extend_from_slice(&sample.to_le_bytes());
    }
    output
}

fn next_random(state: &mut u64) -> u32 {
    *state = state
        .wrapping_mul(6364136223846793005)
        .wrapping_add(1442695040888963407);
    (*state >> 33) as u32 ^ ((*state >> 11) as u32)
}

fn bytes_of(numbers: &[f32]) -> Vec<u8> {
    let mut bytes = Vec::new();
    for n in numbers {
        bytes.extend_from_slice(&n.to_le_bytes());
    }
    bytes
}

/// The number that the parts stand for, as floating point.
fn float_of(v: Single) -> f32 {
    match v {
        Single::NotANumber => f32::NAN,
        Single::Infinity { negative } => {
            if negative {
                f32::NEG_INFINITY
            } else {
                f32::INFINITY
            }
        }
        Single::Finite {
            negative,
            significand,
            exponent,
        } => {
            let magnitude = significand as f64 * 2f64.powi(exponent as i32 - 149);
            if negative {
                -magnitude as f32
            } else {
                magnitude as f32
            }
        }
    }
}

fn same(a: f32, b: f32) -> bool {
    (a.is_nan() && b.is_nan()) || a == b
}

const SPECIAL: [u32; 16] = [
    0x0000_0000,
    0x8000_0000,
    0x0000_0001,
    0x8000_0001,
    0x007f_ffff,
    0x0080_0000,
    0x0080_0001,
    0x3f80_0000,
    0xbf80_0000,
    0x3f7f_ffff,
    0x4b80_0000,
    0x4b80_0001,
    0x7f7f_ffff,
    0xff7f_ffff,
    0x7f80_0000,
    0x7fc0_0000,
];

#[test]
fn every_pattern_kind_is_taken_apart() {
    for bits in SPECIAL {
        assert!(same(float_of(from_bits(bits)), f32::from_bits(bits)));
    }
    let mut state = 1u64;
    for _ in 0..200000 {
        let bits = next_random(&mut state);
        assert!(same(float_of(from_bits(bits)), f32::from_bits(bits)));
    }
}

#[test]
fn sums_round_as_floats_do() {
    for a in SPECIAL {
        for b in SPECIAL {
            let v = float_of(plus(from_bits(a), from_bits(b)));
            assert!(same(v, f32::from_bits(a) + f32::from_bits(b)), "{:x} {:x}", a, b);
        }
    }
    let mut state = 2u64;
    for i in 0..400000u32 {
        let a = next_random(&mut state);
        let mut b = next_random(&mut state);
        if i % 2 == 0 {
            // Exponents that lie close together, so that both numbers count.
            let near = ((a >> 23) & 0xff).wrapping_add(i % 64).wrapping_sub(32) & 0xff;
            b = (b & 0x807f_ffff) | (near << 23);
        }
        let v = float_of(plus(from_bits(a), from_bits(b)));
        assert!(same(v, f32::from_bits(a) + f32::from_bits(b)), "{:x} {:x}", a, b);
    }
}

#[test]
fn quotients_round_as_floats_do() {
    let mut state = 3u64;
    for a in SPECIAL {
        for count in [1u16, 2, 3, 5, 6, 7, 8, 1000, 65535] {
            let v = float_of(divide(from_bits(a), count));
            assert!(same(v, f32::from_bits(a) / count as f32), "{:x} {}", a, count);
        }
    }
    for _ in 0..400000 {
        let a = next_random(&mut state);
        let count = (next_random(&mut state) as u16).max(1);
        let v = float_of(divide(from_bits(a), count));
        assert!(same(v, f32::from_bits(a) / count as f32), "{:x} {}", a, count);
    }
}

#[test]
fn samples_are_cut_and_clamped_as_floats_are() {
    let mut state = 4u64;
    for i in 0..400000u32 {
        let mut bits = next_random(&mut state);
        if i % 2 == 0 {
            // Audible numbers, from far below full scale to just above it.
            bits = (bits & 0x807f_ffff) | ((108 + i % 22) << 23);
        }
        let float = (f32::from_bits(bits) * 32768.0).clamp(-32768.0, 32767.0) as i16;
        assert_eq!(to_sample(from_bits(bits)), float, "{:x}", bits);
    }
    for bits in SPECIAL {
        let float = (f32::from_bits(bits) * 32768.0).clamp(-32768.0, 32767.0) as i16;
        assert_eq!(to_sample(from_bits(bits)), float, "{:x}", bits);
    }
}

#[test]
fn sample_values_convert_exactly() {
    let mut numbers = Vec::new();
    let mut expected = Vec::new();
    for v in i16::MIN..=i16::MAX {
        numbers.push(v as f32 / 32768.0);
        expected.extend_from_slice(&v.to_le_bytes());
    }
    assert_eq!(convert_f32_to_mono_i16(&bytes_of(&numbers), 1), expected);
}

#[test]
fn out_of_range_numbers_are_clamped() {
    let data = bytes_of(&[2.0, -2.0, f32::INFINITY, f32::NEG_INFINITY, f32::NAN, 1e-40]);
    let result: Vec<i16> = convert_f32_to_mono_i16(&data, 1)
        .chunks_exact(2)
        .map(|c| i16::from_le_bytes([c[0], c[1]]))
        .collect();
    assert_eq!(result, vec![32767, -32768, 32767, -32768, 0, 0]);
    // Opposite infinities cancel to nothing that is a number.
    assert_eq!(
        convert_f32_to_mono_i16(&bytes_of(&[f32::INFINITY, f32::NEG_INFINITY]), 2),
        vec![0, 0]
    );
}

#[test]
fn frames_convert_as_floats_do() {
    let mut state = 5u64;
    for channels in [1u16, 2, 3, 4, 6, 8] {
        let mut data = Vec::new();
        for i in 0..30000u32 {
            let mut bits = next_random(&mut state);
            if i % 50 != 0 {
                bits = (bits & 0x807f_ffff) | ((110 + i % 18) << 23);
            }
            data.extend_from_slice(&bits.to_le_bytes());
        }
        // Bytes that make up no whole number or frame are ignored.
        data.extend_from_slice(&[1, 2, 3]);
        assert_eq!(
            convert_f32_to_mono_i16(&data, channels),
            float_mono(&data, channels)
        );
    }
    assert!(convert_f32_to_mono_i16(&[], 2).is_empty());
}
