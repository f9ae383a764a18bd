use exocore::floats::{compare_f32, compare_f64, f64_from_f32, f64_from_int, Comparison};
use exocore::ordering::compare_data_ord;
use exocore::text::{append_decimal, append_digits, same_text};
use exocore::value::{compare_bytes, Data};
use std::cmp::Ordering;

fn text(s: &str) -> Data {
    Data::String(s.to_string())
}

fn side(o: Option<Ordering>) -> Option<Comparison> {
    match o {
        Some(Ordering::Less) => Some(Comparison::Less),
        Some(Ordering::Equal) => Some(Comparison::Equal),
        Some(Ordering::Greater) => Some(Comparison::Greater),
        None => None,
    }
}

const F64S: [f64; 12] = [
    0.0,
    -0.0,
    1.5,
    -1.5,
    1.0e300,
    -1.0e300,
    5.0e-324,
    f64::INFINITY,
    f64::NEG_INFINITY,
    f64::NAN,
    16777217.0,
    0.1,
];

const F32S: [f32; 10] = [
    0.0,
    -0.0,
    1.5,
    -1.5,
    1.0e38,
    1.0e-45,
    f32::INFINITY,
    f32::NEG_INFINITY,
    f32::NAN,
    0.1,
];

#[test]
fn doubles_compare_as_floating_point_numbers() {
    for a in F64S {
        for b in F64S {
            assert_eq!(
                compare_f64(a.to_bits(), b.to_bits()),
                side(a.partial_cmp(&b)),
                "{a} {b}"
            );
        }
    }
}

#[test]
fn singles_compare_as_floating_point_numbers() {
    for a in F32S {
        for b in F32S {
            assert_eq!(
                compare_f32(a.to_bits(), b.to_bits()),
                side(a.partial_cmp(&b)),
                "{a} {b}"
            );
        }
    }
}

#[test]
fn integers_become_the_nearest_floats() {
    let wide = [
        0i64,
        1,
        -1,
        9007199254740993,
        -9007199254740993,
        9007199254740995,
        i64::MAX,
        i64::MIN,
        123456789012345678,
        4611686018427387905,
    ];
    for n in wide {
        assert_eq!(f64_from_int(n), (n as f64).to_bits(), "{n}");
    }
}

#[test]
fn singles_widen_exactly() {
    for x in F32S {
        if x.is_nan() {
            assert!(f64::from_bits(f64_from_f32(x.to_bits())).is_nan());
        } else {
            assert_eq!(f64_from_f32(x.to_bits()), (x as f64).to_bits(), "{x}");
        }
    }
}

#[test]
fn values_of_different_numeric_types_compare() {
    let i = Data::Int32(3);
    assert_eq!(i.compare(&Data::Int64(4)), Some(Comparison::Less));
    assert_eq!(Data::Int64(3).compare(&i), Some(Comparison::Equal));
    assert_eq!(i.compare(&Data::Float32(2.5f32.to_bits())), Some(Comparison::Greater));
    assert_eq!(Data::Float64(3.0f64.to_bits()).compare(&i), Some(Comparison::Equal));
    assert_eq!(
        Data::Int64(9007199254740993).compare(&Data::Float64(9007199254740992.0f64.to_bits())),
        Some(Comparison::Equal)
    );
    assert_eq!(
        Data::Int32(16777217).compare(&Data::Float32(16777216.0f32.to_bits())),
        Some(Comparison::Greater)
    );
    assert_eq!(
        Data::Float32(0.1f32.to_bits()).compare(&Data::Float64(0.1f64.to_bits())),
        Some(Comparison::Greater)
    );
}

#[test]
fn strings_compare_with_strings_only() {
    assert_eq!(text("abc").compare(&text("abd")), Some(Comparison::Less));
    assert_eq!(text("ab").compare(&text("abc")), Some(Comparison::Less));
    assert_eq!(text("z").compare(&text("é")), Some(Comparison::Less));
    assert_eq!(text("1").compare(&Data::Int32(1)), None);
    assert!(!text("1").equals(&Data::Int32(1)));
    assert!(text("x") == text("x"));
    assert!(text("x") != text("y"));
    assert_eq!(text("a").partial_cmp(&text("b")), Some(Ordering::Less));
}

#[test]
fn a_nan_equals_nothing() {
    let nan = Data::Float64(f64::NAN.to_bits());
    assert!(nan != Data::Float64(f64::NAN.to_bits()));
    assert_eq!(nan.compare(&Data::Int32(0)), None);
    assert!(Data::Float64((-0.0f64).to_bits()) == Data::Float64(0.0f64.to_bits()));
}

#[test]
fn sorting_takes_what_does_not_compare_as_equal() {
    let nan = Data::Float64(f64::NAN.to_bits());
    assert_eq!(compare_data_ord(&nan, &nan), Comparison::Equal);
    assert_eq!(compare_data_ord(&Data::Int64(2), &Data::Int64(1)), Comparison::Greater);
}

#[test]
fn bytes_compare_from_the_left() {
    assert_eq!(compare_bytes(&[1, 2], &[1, 2, 0]), Comparison::Less);
    assert_eq!(compare_bytes(&[2], &[1, 255]), Comparison::Greater);
    assert_eq!(compare_bytes(&[], &[]), Comparison::Equal);
}

#[test]
fn numbers_are_written_in_decimal() {
    for n in [0u64, 7, 10, 109, u64::MAX] {
        let mut s = String::from("n=");
        append_digits(&mut s, n);
        assert_eq!(s, format!("n={n}"));
    }
    for n in [0i64, -1, 42, i64::MIN, i64::MAX] {
        let mut s = String::new();
        append_decimal(&mut s, n);
        assert_eq!(s, n.to_string());
    }
}

#[test]
fn same_text_is_equality_of_strings() {
    assert!(same_text("größe", "größe"));
    assert!(!same_text("a", "b"));
    assert!(!same_text("a", "aa"));
}
