use trustmark_imaging::sample::{
    capped, clamped, convert_from_0_1_to_neg1_1, convert_from_neg1_1_to_0_1, integer,
    saturated_byte, saturated_word, truncated,
};

#[test]
fn renormalize_from_0_1() {
    assert_eq!(convert_from_0_1_to_neg1_1(0.), -1.);
    assert_eq!(convert_from_0_1_to_neg1_1(0.5), 0.);
    assert_eq!(convert_from_0_1_to_neg1_1(0.99), 0.98);
}

#[test]
fn renormalize_from_neg1_1() {
    assert_eq!(convert_from_neg1_1_to_0_1(-1.), 0.);
    assert_eq!(convert_from_neg1_1_to_0_1(0.5), 0.75);
    assert_eq!(convert_from_neg1_1_to_0_1(-0.1), 0.45);
}

/// Integers of every magnitude, with patterns that round in single precision.
fn integers() -> Vec<u32> {
    let mut list = vec![0, 1, 2, 255, 256, 65535, 65536, 65537, 16777215, 16777216, 16777217];
    let mut state: u64 = 0x9e37_79b9_7f4a_7c15;
    for i in 0..4000 {
        state = state.wrapping_mul(6364136223846793005).wrapping_add(1442695040888963407);
        list.push((state >> 32) as u32 >> (i % 32));
    }
    list.push(u32::MAX);
    list.push(u32::MAX - 127);
    list.push(u32::MAX - 128);
    list
}

#[test]
fn integer_is_the_nearest_sample() {
    for n in integers() {
        assert_eq!(integer::<f32>(n as usize), n as f32);
        assert_eq!(integer::<f64>(n as usize), n as f64);
    }
    assert_eq!(integer::<f64>(1 << 40), 1099511627776.0);
}

#[test]
fn integer_rounds_once() {
    let mut state: u64 = 7;
    for i in 0..20000 {
        state = state.wrapping_mul(6364136223846793005).wrapping_add(1442695040888963407);
        let n = (state ^ (state >> 33)) >> (i % 64);
        assert_eq!(integer::<f32>(n as usize), n as usize as f32);
    }
    // Halfway between two samples, and just beside it.
    for shift in 25..64 {
        for below in [0u64, 1, 2, 3, 65535, 65536, 65537] {
            let half = (1u64 << shift) | (1u64 << (shift - 24));
            for n in [half + below, half - below, half | (1u64 << (shift - 23)), u64::MAX - below] {
                assert_eq!(integer::<f32>(n as usize), n as usize as f32);
            }
        }
    }
    assert_eq!(integer::<f32>((1 << 40) + 65537), 1099511758848.0);
}

#[test]
fn truncated_rounds_towards_zero_and_saturates() {
    for n in integers() {
        for shift in [0.0f32, 0.25, 0.5, 0.999] {
            let v = n as f32 + shift;
            assert_eq!(truncated(v, 1), (v as u32) as u64);
            assert_eq!(truncated(v, 3), v as u64);
            let scaled = v * 1.0e6;
            assert_eq!(truncated(scaled, 3), scaled as u64);
            assert_eq!(saturated_byte(v), v as u8);
            assert_eq!(saturated_word(v), v as u16);
        }
    }
    for v in [f32::NAN, f32::INFINITY, f32::NEG_INFINITY, -0.5, -3.0e9, 1.0e30] {
        assert_eq!(truncated(v, 1), (v as u32) as u64);
        assert_eq!(truncated(v, 3), v as u64);
        assert_eq!(saturated_byte(v), v as u8);
        assert_eq!(saturated_word(v), v as u16);
    }
    assert_eq!(truncated(3.75f64, 0), 3);
    assert_eq!(truncated(70000.0f64, 0), 65535);
}

#[test]
fn capped_prefers_the_bound_over_not_a_number() {
    for v in [-1.0f32, 0.0, 0.5, 1.0, 1.5, f32::NAN, f32::INFINITY] {
        assert_eq!(capped(v, 1.0), f32::min(v, 1.0));
    }
}

#[test]
fn clamped_holds_between_its_bounds() {
    for v in [-1.0f32, 0.0, 0.5, 7.0, 7.5, f32::INFINITY] {
        assert_eq!(clamped(v, 0.0, 7.0), v.clamp(0.0, 7.0));
    }
    assert!(clamped(f32::NAN, 0.0, 7.0).is_nan());
}
