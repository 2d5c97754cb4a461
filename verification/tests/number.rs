use serde_json_bytes::number::{
    float_bits_eq, float_bits_from_i64, float_bits_from_u64, float_bits_le, float_bits_lt, Number,
};

fn unsigned_samples() -> Vec<u64> {
    let mut samples = vec![0u64, 1, 2, 3, 7, 10, 255, 1000, u64::MAX, u64::MAX - 1];
    for shift in 0..64u32 {
        let p = 1u64 << shift;
        for delta in [0u64, 1, 2, 3, 5, 1023, 1024, 1025, 2047, 2048, 2049] {
            samples.push(p.wrapping_add(delta));
            samples.push(p.wrapping_sub(delta));
            samples.push(p.wrapping_add(p >> 1).wrapping_add(delta));
            samples.push(p.wrapping_add(p >> 1).wrapping_sub(delta));
        }
    }
    samples
}

fn float_samples() -> Vec<f64> {
    vec![
        0.0,
        -0.0,
        1.0,
        -1.0,
        8.95,
        8.99,
        10.0,
        12.99,
        22.99,
        -22.99,
        f64::MIN_POSITIVE,
        -f64::MIN_POSITIVE,
        5e-324,
        -5e-324,
        f64::MAX,
        f64::MIN,
        f64::INFINITY,
        f64::NEG_INFINITY,
        f64::NAN,
        1e300,
        -1e300,
        9007199254740992.0,
        9007199254740994.0,
    ]
}

#[test]
fn unsigned_integers_convert_as_the_cast_does() {
    for n in unsigned_samples() {
        assert_eq!(float_bits_from_u64(n), (n as f64).to_bits(), "{n}");
    }
}

#[test]
fn signed_integers_convert_as_the_cast_does() {
    for n in unsigned_samples() {
        let i = n as i64;
        assert_eq!(float_bits_from_i64(i), (i as f64).to_bits(), "{i}");
        let j = i.wrapping_neg();
        assert_eq!(float_bits_from_i64(j), (j as f64).to_bits(), "{j}");
    }
    assert_eq!(float_bits_from_i64(i64::MIN), (i64::MIN as f64).to_bits());
    assert_eq!(float_bits_from_i64(i64::MAX), (i64::MAX as f64).to_bits());
}

#[test]
fn ties_round_to_the_even_mantissa() {
    // 2^53 + 1 lies halfway between 2^53 and 2^53 + 2: the even mantissa wins.
    assert_eq!(float_bits_from_u64(9007199254740993), 9007199254740992f64.to_bits());
    // 2^53 + 3 lies halfway between 2^53 + 2 and 2^53 + 4.
    assert_eq!(float_bits_from_u64(9007199254740995), 9007199254740996f64.to_bits());
    assert_eq!(float_bits_from_u64(u64::MAX), 18446744073709551616f64.to_bits());
    assert_eq!(float_bits_from_u64(1), 0x3FF0_0000_0000_0000);
}

#[test]
fn floats_compare_as_their_values_do() {
    for a in float_samples() {
        for b in float_samples() {
            assert_eq!(float_bits_lt(a.to_bits(), b.to_bits()), a < b, "{a} < {b}");
            assert_eq!(float_bits_le(a.to_bits(), b.to_bits()), a <= b, "{a} <= {b}");
            assert_eq!(float_bits_eq(a.to_bits(), b.to_bits()), a == b, "{a} == {b}");
        }
    }
}

#[test]
fn numbers_are_equal_only_within_one_kind() {
    assert!(Number::PosInt(10) == Number::PosInt(10));
    assert!(Number::PosInt(10) != Number::PosInt(11));
    assert!(Number::NegInt(-3) == Number::NegInt(-3));
    assert!(Number::PosInt(10) != Number::Float(10f64.to_bits()));
    assert!(Number::Float(0f64.to_bits()) == Number::Float((-0f64).to_bits()));
    assert!(Number::Float(f64::NAN.to_bits()) != Number::Float(f64::NAN.to_bits()));
}

#[test]
fn numbers_are_ordered_by_value_across_kinds() {
    let price = Number::Float(8.95f64.to_bits());
    let ten = Number::PosInt(10);
    assert!(price.lt(&ten));
    assert!(!ten.lt(&price));
    assert!(ten.le(&Number::Float(10f64.to_bits())));
    assert!(Number::Float(10f64.to_bits()).le(&ten));
    assert!(!ten.lt(&Number::Float(10f64.to_bits())));
    assert!(Number::NegInt(-5).lt(&Number::PosInt(0)));
    assert!(Number::NegInt(-5).lt(&Number::Float((-4.5f64).to_bits())));
    // Both round to 2^53, so neither is below the other.
    assert!(!Number::PosInt(9007199254740992).lt(&Number::PosInt(9007199254740993)));
    assert!(Number::PosInt(9007199254740992).le(&Number::PosInt(9007199254740993)));
}

#[test]
fn constructors_pick_the_kind() {
    assert!(matches!(Number::from_u64(7), Number::PosInt(7)));
    assert!(matches!(Number::from_i64(7), Number::PosInt(7)));
    assert!(matches!(Number::from_i64(-7), Number::NegInt(-7)));
    assert!(matches!(Number::from_i64(0), Number::PosInt(0)));
    assert!(matches!(Number::from_float_bits(1.5f64.to_bits()), Some(Number::Float(_))));
    assert!(Number::from_float_bits(f64::NAN.to_bits()).is_none());
    assert!(Number::from_float_bits(f64::INFINITY.to_bits()).is_none());
    assert!(Number::from_float_bits(f64::NEG_INFINITY.to_bits()).is_none());
    assert!(Number::from_float_bits(f64::MAX.to_bits()).is_some());
}

#[test]
fn accessors_give_the_integer_when_there_is_one() {
    assert_eq!(Number::PosInt(7).as_u64(), Some(7));
    assert_eq!(Number::NegInt(-7).as_u64(), None);
    assert_eq!(Number::Float(7f64.to_bits()).as_u64(), None);
    assert_eq!(Number::PosInt(7).as_i64(), Some(7));
    assert_eq!(Number::PosInt(u64::MAX).as_i64(), None);
    assert_eq!(Number::NegInt(-7).as_i64(), Some(-7));
    assert_eq!(Number::Float(7f64.to_bits()).as_i64(), None);
    assert_eq!(Number::PosInt(3).as_float_bits(), 3f64.to_bits());
    assert_eq!(Number::NegInt(-3).as_float_bits(), (-3f64).to_bits());
    assert_eq!(Number::Float(2.5f64.to_bits()).as_float_bits(), 2.5f64.to_bits());
}
