use pulseplex::binary32::{
    divide_small, is_not_positive, multiply, reciprocal, seconds_of, square_root,
    subtract_to_zero, to_level16, to_level8, INFINITY,
};

/// Bit patterns all over the range, the interesting ones among them.
fn patterns(count: usize) -> Vec<u32> {
    let mut found: Vec<u32> = vec![
        0, 1, 2, 0x7F_FFFF, 0x80_0000, 0x80_0001, 0x3F80_0000, 0x3F7F_FFFF, 0x3F80_0001,
        0x3F00_0000, 0x3C23_D70A, 0x3A83_126F, 0x7F7F_FFFF, 0x4B7F_FFFF, 0x4B80_0000,
    ];
    let mut state: u64 = 0x1234_5678_9ABC_DEF1;
    while found.len() < count {
        state ^= state << 13;
        state ^= state >> 7;
        state ^= state << 17;
        let bits = (state >> 20) as u32 & 0x7FFF_FFFF;
        if bits < INFINITY {
            found.push(bits);
        }
        // Numbers near one are the ones that intensities are.
        found.push(0x3C00_0000 + (bits & 0x03FF_FFFF));
    }
    found
}

#[test]
fn products_round_like_the_hardware() {
    let all = patterns(1500);
    for &a in &all {
        for &b in &all {
            let expected = f32::from_bits(a) * f32::from_bits(b);
            assert_eq!(multiply(a, b), expected.to_bits(), "{a:#x} {b:#x}");
        }
    }
}

#[test]
fn differences_round_like_the_hardware() {
    let all = patterns(1500);
    for &a in &all {
        for &b in &all {
            let expected = (f32::from_bits(a) - f32::from_bits(b)).max(0.0);
            assert_eq!(subtract_to_zero(a, b), expected.to_bits(), "{a:#x} {b:#x}");
        }
    }
}

#[test]
fn reciprocals_and_roots_round_like_the_hardware() {
    for a in patterns(400_000) {
        if a >= 0x80_0000 {
            let x = f32::from_bits(a);
            assert_eq!(reciprocal(a), (1.0 / x).to_bits(), "{a:#x}");
            assert_eq!(square_root(a), x.sqrt().to_bits(), "{a:#x}");
        }
    }
    assert_eq!(square_root(0), 0);
}

#[test]
fn small_quotients_round_like_the_hardware() {
    for n in 0..=255u8 {
        for d in 1..=255u8 {
            assert_eq!(divide_small(n, d), (n as f32 / d as f32).to_bits(), "{n} / {d}");
        }
    }
}

#[test]
fn levels_are_those_of_the_hardware() {
    let mut all = patterns(20_000);
    all.extend([INFINITY, 0x7FC0_0000, 0x8000_0000, 0xBF80_0000, 0xFF80_0000, 0xFFC0_0000]);
    for a in all {
        let x = f32::from_bits(a);
        assert_eq!(to_level8(a), (x * 255.0) as u8, "{a:#x}");
        for full in [0u16, 257, 128 * 257, 200 * 257, 65535] {
            let expected = (full as f32 * x).clamp(0.0, 65535.0).round() as u16;
            assert_eq!(to_level16(full, a), expected, "{a:#x} {full}");
        }
        assert_eq!(is_not_positive(a), x <= 0.0, "{a:#x}");
    }
}

#[test]
fn brighter_intensities_have_no_lower_levels() {
    let mut all = patterns(5_000);
    all.push(INFINITY);
    all.sort_unstable();
    for pair in all.windows(2) {
        assert!(to_level8(pair[0]) <= to_level8(pair[1]));
        assert!(to_level16(257, pair[0]) <= to_level16(257, pair[1]));
        assert!(to_level16(257, pair[0]) <= to_level16(514, pair[0]));
    }
    assert_eq!(to_level8(0x3F80_0000), 255);
    assert_eq!(to_level16(257 * 93, 0x3F80_0000), 257 * 93);
    assert_eq!(to_level16(65535, 0), 0);
}

#[test]
fn times_become_seconds_like_those_of_the_hardware() {
    let exact = |nanos: u64| {
        let expected = std::time::Duration::from_nanos(nanos).as_secs_f32();
        assert_eq!(seconds_of(nanos), expected.to_bits(), "{nanos}");
    };
    for nanos in [0, 1, 2, 25_000_000, 999_999_967, 999_999_968, 999_999_999, 1_000_000_000] {
        exact(nanos);
    }
    // Where whole seconds have no room for a fraction, a second may still go up or down.
    for seconds in [1, 3, 0x7F_FFFF, 0xFF_FFFF, 0x100_0000, 0x100_0001, 0x100_0003, 0x400_0002] {
        for rest in [0, 1, 499_999_999, 500_000_000, 500_000_001, 999_999_999] {
            exact(seconds * 1_000_000_000 + rest);
        }
    }
    exact(u64::MAX);
    let mut state: u64 = 0x1234_5678_9ABC_DEF1;
    for round in 0..200_000 {
        state ^= state << 13;
        state ^= state >> 7;
        state ^= state << 17;
        exact(state >> (round % 64));
    }
}
