use jsbuiltins::error::ErrorKind;
use jsbuiltins::half::{f16_to_f64_bits, f64_to_f16_bits};
use jsbuiltins::single::f64_to_f32_bits;
use jsbuiltins::number_bits::{clamp_u8_bits, js_to_int32_bits, to_i64_saturating_bits, to_u64_saturating_bits};
use jsbuiltins::typed_array::{JSArrayBuffer, JSTypedArray, TypedArrayKind};
use jsbuiltins::typed_array_elements::number_to_element_bits;

fn narrow(v: f64) -> u16 {
    f64_to_f16_bits(v.to_bits())
}

fn widen(h: u16) -> f64 {
    f64::from_bits(f16_to_f64_bits(h))
}

#[test]
fn narrowing_exact_values() {
    assert_eq!(narrow(1.0), 0x3C00);
    assert_eq!(narrow(-2.0), 0xC000);
    assert_eq!(narrow(0.0), 0x0000);
    assert_eq!(narrow(-0.0), 0x8000);
    assert_eq!(narrow(65504.0), 0x7BFF);
    assert_eq!(narrow(2f64.powi(-14)), 0x0400);
    assert_eq!(narrow(2f64.powi(-24)), 0x0001);
}

#[test]
fn narrowing_rounds_to_nearest_even() {
    assert_eq!(narrow(1.0 + 2f64.powi(-11)), 0x3C00);
    assert_eq!(narrow(1.0 + 3.0 * 2f64.powi(-11)), 0x3C02);
    assert_eq!(narrow(1.0 + 2f64.powi(-11) + 2f64.powi(-30)), 0x3C01);
    assert_eq!(narrow(2f64.powi(-25)), 0x0000);
    assert_eq!(narrow(1.5 * 2f64.powi(-25)), 0x0001);
    assert_eq!(narrow(3.0 * 2f64.powi(-25)), 0x0002);
    assert_eq!(narrow(2f64.powi(-40)), 0x0000);
    assert_eq!(narrow(2f64.powi(-37)), 0x0000);
}

#[test]
fn narrowing_overflow_and_specials() {
    assert_eq!(narrow(65519.0), 0x7BFF);
    assert_eq!(narrow(65520.0), 0x7C00);
    assert_eq!(narrow(1e10), 0x7C00);
    assert_eq!(narrow(f64::INFINITY), 0x7C00);
    assert_eq!(narrow(f64::NEG_INFINITY), 0xFC00);
    assert_eq!(narrow(f64::NAN) & 0x7FFF, 0x7E00);
}

#[test]
fn widening_exact_values() {
    assert_eq!(widen(0x3C00), 1.0);
    assert_eq!(widen(0xC000), -2.0);
    assert_eq!(widen(0x7BFF), 65504.0);
    assert_eq!(widen(0x0001), 2f64.powi(-24));
    assert_eq!(widen(0x03FF), 1023.0 * 2f64.powi(-24));
    assert_eq!(widen(0x7C00), f64::INFINITY);
    assert_eq!(widen(0xFC00), f64::NEG_INFINITY);
    assert!(widen(0x7E01).is_nan());
    assert_eq!(f16_to_f64_bits(0x8000), 0x8000_0000_0000_0000);
}

#[test]
fn every_half_survives_a_round_trip() {
    for h in 0..=u16::MAX {
        let back = f64_to_f16_bits(f16_to_f64_bits(h));
        if (h >> 10) & 0x1F == 0x1F && h & 0x3FF != 0 {
            assert_eq!(back, (h & 0x8000) | 0x7E00);
        } else {
            assert_eq!(back, h);
        }
    }
}

#[test]
fn to_int32_wraps_and_truncates() {
    let t = |v: f64| js_to_int32_bits(v.to_bits());
    assert_eq!(t(0.0), 0);
    assert_eq!(t(-0.0), 0);
    assert_eq!(t(1.9), 1);
    assert_eq!(t(-1.9), -1);
    assert_eq!(t(2147483648.0), -2147483648);
    assert_eq!(t(4294967296.0), 0);
    assert_eq!(t(4294967297.5), 1);
    assert_eq!(t(-4294967297.0), -1);
    assert_eq!(t(1e20), 1661992960);
    assert_eq!(t(f64::NAN), 0);
    assert_eq!(t(f64::INFINITY), 0);
    assert_eq!(t(2f64.powi(80) + 2f64.powi(40)), 0);
}

#[test]
fn clamped_bytes_round_half_to_even() {
    let c = |v: f64| clamp_u8_bits(v.to_bits());
    assert_eq!(c(-5.0), 0);
    assert_eq!(c(0.5), 0);
    assert_eq!(c(1.5), 2);
    assert_eq!(c(2.5), 2);
    assert_eq!(c(2.5000001), 3);
    assert_eq!(c(254.5), 254);
    assert_eq!(c(254.6), 255);
    assert_eq!(c(255.0), 255);
    assert_eq!(c(1e300), 255);
    assert_eq!(c(f64::INFINITY), 255);
    assert_eq!(c(f64::NEG_INFINITY), 0);
    assert_eq!(c(f64::NAN), 0);
    assert_eq!(c(1e-300), 0);
}

#[test]
fn saturating_truncation_to_64_bits() {
    let i = |v: f64| to_i64_saturating_bits(v.to_bits());
    let u = |v: f64| to_u64_saturating_bits(v.to_bits());
    assert_eq!(i(-3.7), -3);
    assert_eq!(i(9.3e18), i64::MAX);
    assert_eq!(i(-9.3e18), i64::MIN);
    assert_eq!(i(-9223372036854775808.0), i64::MIN);
    assert_eq!(i(f64::NAN), 0);
    assert_eq!(i(f64::NEG_INFINITY), i64::MIN);
    assert_eq!(u(-3.7), 0);
    assert_eq!(u(1.8e19), 18000000000000000000);
    assert_eq!(u(1.9e19), u64::MAX);
    assert_eq!(u(f64::INFINITY), u64::MAX);
    assert_eq!(u(123.99), 123);
}

#[test]
fn element_patterns_for_each_kind() {
    let b = (-1.5f64).to_bits();
    assert_eq!(number_to_element_bits(TypedArrayKind::Int8, b, 0), 0xFF);
    assert_eq!(number_to_element_bits(TypedArrayKind::Uint16, b, 0), 0xFFFF);
    assert_eq!(number_to_element_bits(TypedArrayKind::Int32, b, 0), 0xFFFF_FFFF);
    assert_eq!(number_to_element_bits(TypedArrayKind::Uint8Clamped, b, 0), 0);
    assert_eq!(number_to_element_bits(TypedArrayKind::Float16, b, 0), 0xBE00);
    assert_eq!(number_to_element_bits(TypedArrayKind::Float32, b, (-1.5f32).to_bits()), 0xBFC0_0000);
    assert_eq!(number_to_element_bits(TypedArrayKind::Float64, b, 0), b);
    assert_eq!(number_to_element_bits(TypedArrayKind::BigInt64, b, 0), u64::MAX);
    assert_eq!(number_to_element_bits(TypedArrayKind::BigUint64, b, 0), 0);
    let big = 300.0f64.to_bits();
    assert_eq!(number_to_element_bits(TypedArrayKind::Uint8, big, 0), 44);
    assert_eq!(number_to_element_bits(TypedArrayKind::Uint8Clamped, big, 0), 255);
}

#[test]
fn typed_array_set_and_get_elements() {
    let ta = JSTypedArray { kind: TypedArrayKind::Int16, byte_offset: 2, length: 2, length_tracking: false };
    let mut buf = JSArrayBuffer { data: vec![0; 6], max_byte_length: None, shared: false, detached: false };
    ta.set(&mut buf, 1, (-2.0f64).to_bits(), 0);
    assert_eq!(buf.data, vec![0, 0, 0, 0, 0xFE, 0xFF]);
    assert_eq!(ta.get(&buf, 1), Ok(Some(0xFFFE)));
    assert_eq!(ta.get(&buf, 0), Ok(Some(0)));
    ta.set(&mut buf, 2, 5.0f64.to_bits(), 0);
    assert_eq!(buf.data, vec![0, 0, 0, 0, 0xFE, 0xFF]);
    assert_eq!(ta.get(&buf, 2), Err(ErrorKind::TypeError));
    let tracking = JSTypedArray { kind: TypedArrayKind::Int16, byte_offset: 2, length: 0, length_tracking: true };
    assert_eq!(tracking.get(&buf, 2), Ok(None));
}

#[test]
fn narrowing_to_binary32_rounds_like_the_hardware() {
    let mut x: u64 = 0x9E37_79B9_7F4A_7C15;
    let mut samples: Vec<f64> = vec![
        0.0, -0.0, 1.0, 0.1, 1.0 / 3.0, f64::MAX, f64::MIN_POSITIVE, 1e-40, 1e-46, 1.4e-45, 7.0e-46,
        3.4028235e38, 3.4028236e38, 16777217.0, 16777219.0, f64::INFINITY, f64::NEG_INFINITY,
    ];
    for _ in 0..20000 {
        x ^= x << 13;
        x ^= x >> 7;
        x ^= x << 17;
        samples.push(f64::from_bits(x));
    }
    for v in samples {
        let got = f64_to_f32_bits(v.to_bits());
        if v.is_nan() {
            assert!(f32::from_bits(got).is_nan());
            assert_eq!(got >> 31, (v.to_bits() >> 63) as u32);
        } else {
            assert_eq!(got, (v as f32).to_bits(), "{:e}", v);
        }
    }
}
