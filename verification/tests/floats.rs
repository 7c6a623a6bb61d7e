use funcall::{Double, Func, Single};

fn widen(value: f32) -> u64 {
    Single::from_bits(value.to_bits()).widen().to_bits()
}

#[test]
fn widen_matches_the_hardware_on_ordinary_numbers() {
    for value in [0.0f32, -0.0, 1.0, -1.0, 0.5, 2233.0, 123.456, -123.456, 1.0e-3, 3.0e38] {
        assert_eq!(widen(value), f64::from(value).to_bits());
    }
}

#[test]
fn widen_matches_the_hardware_at_the_edges() {
    for value in [f32::MAX, f32::MIN, f32::MIN_POSITIVE, f32::EPSILON, f32::INFINITY, f32::NEG_INFINITY] {
        assert_eq!(widen(value), f64::from(value).to_bits());
    }
}

#[test]
fn widen_normalises_subnormals() {
    // The smallest subnormal, 2^-149, is the normal double with exponent field 874.
    assert_eq!(Single::from_bits(1).widen().to_bits(), 874u64 << 52);
    assert_eq!(Single::from_bits(1).widen().to_bits(), f64::from(f32::from_bits(1)).to_bits());
    // The largest subnormal.
    assert_eq!(
        Single::from_bits(0x007f_ffff).widen().to_bits(),
        f64::from(f32::from_bits(0x007f_ffff)).to_bits()
    );
    for shift in 0..23 {
        for low in [0u32, 1, 5] {
            let bits = (1u32 << shift) | (low & ((1u32 << shift) - 1));
            assert_eq!(
                Single::from_bits(bits).widen().to_bits(),
                f64::from(f32::from_bits(bits)).to_bits()
            );
            let negative = bits | 0x8000_0000;
            assert_eq!(
                Single::from_bits(negative).widen().to_bits(),
                f64::from(f32::from_bits(negative)).to_bits()
            );
        }
    }
}

#[test]
fn widen_matches_the_hardware_across_the_range() {
    // A stride that is odd walks through every exponent and many fractions.
    let mut bits: u32 = 0;
    for _ in 0..200_000 {
        let value = f32::from_bits(bits);
        if !value.is_nan() {
            assert_eq!(Single::from_bits(bits).widen().to_bits(), f64::from(value).to_bits());
        }
        bits = bits.wrapping_add(21_475);
    }
}

#[test]
fn widen_keeps_a_nan_a_nan() {
    // Quiet NaN, sign clear: payload moves up by 29 bits.
    assert_eq!(Single::from_bits(0x7fc0_0001).widen().to_bits(), 0x7ff8_0000_2000_0000);
    // Signalling NaN, sign set: it is quieted.
    assert_eq!(Single::from_bits(0xff80_0001).widen().to_bits(), 0xfff8_0000_2000_0000);
    assert!(f64::from_bits(Single::from_bits(0x7f80_0001).widen().to_bits()).is_nan());
    assert!(f64::from_bits(widen(f32::NAN)).is_nan());
}

#[test]
fn a_single_is_pushed_as_its_double() {
    let mut narrow = Func::from_raw(0x1000);
    narrow.push(Single::from_bits(2233.0f32.to_bits()));
    let mut wide = Func::from_raw(0x1000);
    wide.push(Double::from_bits(2233.0f64.to_bits()));
    assert_eq!(narrow.cdecl(), wide.cdecl());
    if usize::BITS == 64 {
        assert_eq!(narrow.cdecl().float_regs, vec![2233.0f64.to_bits()]);
        assert!(narrow.cdecl().int_regs.is_empty());
    }
}

fn narrow(value: f64) -> u32 {
    Double::from_bits(value.to_bits()).narrow().to_bits()
}

#[test]
fn narrow_matches_the_hardware_on_ordinary_numbers() {
    for value in [0.0f64, -0.0, 1.0, -1.0, 0.1, 123.456, -123.456, 1234.5678, 1.0e-40, 1.0e38, 3.5e38] {
        assert_eq!(narrow(value), (value as f32).to_bits());
    }
}

#[test]
fn narrow_rounds_ties_to_even() {
    // Halfway between 1 and the next single: stays at 1, whose pattern is even.
    let halfway_up = f64::from_bits(0x3ff0_0000_1000_0000);
    assert_eq!(narrow(halfway_up), 0x3f80_0000);
    // Halfway between the next single and the one after: goes up to the even one.
    let halfway_odd = f64::from_bits(0x3ff0_0000_3000_0000);
    assert_eq!(narrow(halfway_odd), 0x3f80_0002);
    // Just above halfway goes up; just below stays.
    assert_eq!(narrow(f64::from_bits(0x3ff0_0000_1000_0001)), 0x3f80_0001);
    assert_eq!(narrow(f64::from_bits(0x3ff0_0000_0fff_ffff)), 0x3f80_0000);
}

#[test]
fn narrow_overflows_to_infinity() {
    assert_eq!(narrow(f64::MAX), 0x7f80_0000);
    assert_eq!(narrow(f64::MIN), 0xff80_0000);
    assert_eq!(narrow(f64::INFINITY), 0x7f80_0000);
    assert_eq!(narrow(f64::NEG_INFINITY), 0xff80_0000);
    // The largest single stays; halfway to 2^128 is a tie that goes to infinity.
    assert_eq!(narrow(f64::from(f32::MAX)), 0x7f7f_ffff);
    assert_eq!(narrow(f64::from_bits(0x47ef_ffff_f000_0000)), 0x7f80_0000);
    assert_eq!(narrow(f64::from_bits(0x47ef_ffff_efff_ffff)), 0x7f7f_ffff);
}

#[test]
fn narrow_underflows_to_subnormals_and_zero() {
    assert_eq!(narrow(f64::MIN_POSITIVE), 0);
    assert_eq!(narrow(f64::from_bits(1)), 0);
    assert_eq!(narrow(-f64::MIN_POSITIVE), 0x8000_0000);
    // 2^-149 is the smallest subnormal; 2^-150 is a tie that goes to zero.
    assert_eq!(narrow(f64::from(f32::from_bits(1))), 1);
    assert_eq!(narrow(f64::from(f32::from_bits(1)) / 2.0), 0);
    assert_eq!(narrow(f64::from(f32::from_bits(1)) * 0.75), 1);
    assert_eq!(narrow(f64::from(f32::from_bits(1)) * 1.5), 2);
    // The largest subnormal rounds up into the smallest normal.
    let below_normal = f64::from(f32::MIN_POSITIVE) * (1.0 - 1.0e-9);
    assert_eq!(narrow(below_normal), (below_normal as f32).to_bits());
}

#[test]
fn narrow_matches_the_hardware_across_the_range() {
    let mut bits: u64 = 0x3600_0000_0000_0000;
    for _ in 0..400_000 {
        let value = f64::from_bits(bits);
        if !value.is_nan() {
            assert_eq!(narrow(value), (value as f32).to_bits(), "pattern {:#x}", bits);
        }
        bits = bits.wrapping_add(0x0000_2a3b_4c5d_6e7f);
    }
    let mut bits: u64 = 0;
    for _ in 0..200_000 {
        let value = f64::from_bits(bits);
        if !value.is_nan() {
            assert_eq!(narrow(value), (value as f32).to_bits(), "pattern {:#x}", bits);
        }
        bits = bits.wrapping_add(0x0001_6a09_e667_f3bd);
    }
}

#[test]
fn narrow_undoes_widen() {
    let mut bits: u32 = 0;
    for _ in 0..200_000 {
        if !f32::from_bits(bits).is_nan() {
            assert_eq!(Single::from_bits(bits).widen().narrow().to_bits(), bits);
        }
        bits = bits.wrapping_add(21_475);
    }
}

#[test]
fn narrow_keeps_a_nan_a_nan() {
    assert_eq!(narrow(f64::from_bits(0x7ff8_0000_2000_0000)), 0x7fc0_0001);
    assert_eq!(narrow(f64::from_bits(0xfff0_0000_2000_0000)), 0xffc0_0001);
    assert!(f32::from_bits(narrow(f64::NAN)).is_nan());
    assert!(f32::from_bits(narrow(f64::from_bits(0x7ff0_0000_0000_0001))).is_nan());
}

#[test]
fn a_single_comes_back_with_its_own_pattern() {
    let mut func = Func::from_raw(0x1000);
    func.push(Single::from_bits(123.456f32.to_bits()));
    let frame = func.cdecl();
    let echoed = if usize::BITS == 64 {
        frame.float_regs[0]
    } else {
        (frame.pushes[1] as u64) | ((frame.pushes[0] as u64) << 32)
    };
    assert_eq!(echoed, f64::from(123.456f32).to_bits());
    func.capture(0, 0, echoed);
    assert_eq!(func.ret_as_f32().to_bits(), 0x42F6_E979);
    assert_eq!(func.ret_as_f32().to_bits(), 123.456f32.to_bits());
}

#[test]
fn a_quiet_nan_survives_widening_and_narrowing() {
    for bits in [0x7fc0_0000u32, 0x7fc0_0001, 0xffc0_0000, 0x7fff_ffff, 0xffe1_2345] {
        assert_eq!(Single::from_bits(bits).widen().narrow().to_bits(), bits);
    }
    let mut bits: u32 = 0x7fc0_0000;
    while bits < 0x8000_0000 {
        assert_eq!(Single::from_bits(bits).widen().narrow().to_bits(), bits);
        let negative = bits | 0x8000_0000;
        assert_eq!(Single::from_bits(negative).widen().narrow().to_bits(), negative);
        bits += 0x1357;
    }
}

#[test]
fn a_signalling_nan_comes_back_quiet() {
    assert_eq!(Single::from_bits(0x7f80_0001).widen().narrow().to_bits(), 0x7fc0_0001);
    assert_eq!(Single::from_bits(0xffa0_0000).widen().narrow().to_bits(), 0xffe0_0000);
}
