use xsv_stats::field_type::{FieldType, INITIAL_TYPE};
use xsv_stats::from_bytes;

const ALL: [FieldType; 5] = [
    FieldType::Unknown,
    FieldType::Null,
    FieldType::Unicode,
    FieldType::Float,
    FieldType::Integer,
];

fn joined(a: FieldType, b: FieldType) -> FieldType {
    let mut t = a;
    t.merge(b);
    t
}

#[test]
fn join_is_commutative_and_associative() {
    for a in ALL {
        for b in ALL {
            assert_eq!(joined(a, b), joined(b, a));
            for c in ALL {
                assert_eq!(joined(joined(a, b), c), joined(a, joined(b, c)));
            }
        }
    }
}

#[test]
fn null_is_identity_and_unknown_absorbs() {
    for x in ALL {
        assert_eq!(joined(FieldType::Null, x), x);
        assert_eq!(joined(FieldType::Unknown, x), FieldType::Unknown);
    }
}

#[test]
fn join_relaxes_numbers() {
    assert_eq!(joined(FieldType::Integer, FieldType::Float), FieldType::Float);
    assert_eq!(joined(FieldType::Float, FieldType::Unicode), FieldType::Unicode);
    assert_eq!(joined(FieldType::Integer, FieldType::Unicode), FieldType::Unicode);
}

#[test]
fn initial_type_is_integer() {
    assert_eq!(INITIAL_TYPE, FieldType::Integer);
}

#[test]
fn sample_types() {
    assert_eq!(FieldType::from_sample(b""), FieldType::Null);
    assert_eq!(FieldType::from_sample(b"1"), FieldType::Integer);
    assert_eq!(FieldType::from_sample(b"-42"), FieldType::Integer);
    assert_eq!(FieldType::from_sample(b"+3"), FieldType::Integer);
    assert_eq!(FieldType::from_sample(b"1.5"), FieldType::Float);
    assert_eq!(FieldType::from_sample(b".5"), FieldType::Float);
    assert_eq!(FieldType::from_sample(b"5."), FieldType::Float);
    assert_eq!(FieldType::from_sample(b"1e5"), FieldType::Float);
    assert_eq!(FieldType::from_sample(b"-2.5E-3"), FieldType::Float);
    assert_eq!(FieldType::from_sample(b"inf"), FieldType::Float);
    assert_eq!(FieldType::from_sample(b"-Infinity"), FieldType::Float);
    assert_eq!(FieldType::from_sample(b"NaN"), FieldType::Float);
    assert_eq!(FieldType::from_sample(b"99999999999999999999"), FieldType::Float);
    assert_eq!(FieldType::from_sample(b"x"), FieldType::Unicode);
    assert_eq!(FieldType::from_sample(b"."), FieldType::Unicode);
    assert_eq!(FieldType::from_sample(b"e5"), FieldType::Unicode);
    assert_eq!(FieldType::from_sample(b"1e"), FieldType::Unicode);
    assert_eq!(FieldType::from_sample(b" 1"), FieldType::Unicode);
    assert_eq!(FieldType::from_sample(b"infinit"), FieldType::Unicode);
    assert_eq!(FieldType::from_sample(&[0xff, 0xfe]), FieldType::Unknown);
}

#[test]
fn sample_types_agree_with_std_float_parser() {
    let cases: [&str; 14] = [
        "1.5", ".5", "5.", "1e5", "1E+5", "-.5e-2", "inf", "+INF", "nan", ".", "e5", "1e", "--1", "1.5.2",
    ];
    for c in cases {
        let expected = if c.parse::<i64>().is_ok() {
            FieldType::Integer
        } else if c.parse::<f64>().is_ok() {
            FieldType::Float
        } else {
            FieldType::Unicode
        };
        assert_eq!(FieldType::from_sample(c.as_bytes()), expected, "{}", c);
    }
}

#[test]
fn number_and_null_predicates() {
    assert!(FieldType::Integer.is_number());
    assert!(FieldType::Float.is_number());
    assert!(!FieldType::Unicode.is_number());
    assert!(FieldType::Null.is_null());
    assert!(!FieldType::Integer.is_null());
}

#[test]
fn labels() {
    assert_eq!(FieldType::Null.label(), "NULL");
    assert_eq!(FieldType::Integer.label(), "Integer");
    assert_eq!(FieldType::Unknown.label(), "Unknown");
}

#[test]
fn integer_parsing() {
    assert_eq!(from_bytes(b"42"), Some(42));
    assert_eq!(from_bytes(b"-7"), Some(-7));
    assert_eq!(from_bytes(b"x"), None);
    assert_eq!(from_bytes(b""), None);
    assert_eq!(from_bytes(&[0xff]), None);
    assert_eq!(from_bytes(b"+12"), Some(12));
    assert_eq!(from_bytes(b"-"), None);
    assert_eq!(from_bytes(b"+"), None);
    assert_eq!(from_bytes(b"007"), Some(7));
    assert_eq!(from_bytes(b"1 "), None);
    assert_eq!(from_bytes(b"9223372036854775807"), Some(i64::MAX));
    assert_eq!(from_bytes(b"-9223372036854775808"), Some(i64::MIN));
    assert_eq!(from_bytes(b"9223372036854775808"), None);
    assert_eq!(from_bytes(b"-9223372036854775809"), None);
    assert_eq!(from_bytes(b"00000000000000000000000000001"), Some(1));
    assert_eq!(from_bytes(b"99999999999999999999999"), None);
}

#[test]
fn integer_parsing_agrees_with_std() {
    let cases: [&str; 12] = [
        "0", "-0", "+0", "12a", "--1", "+-1", "", " 5", "18446744073709551616", "-00042", "1_000", "٣",
    ];
    for c in cases {
        assert_eq!(from_bytes(c.as_bytes()), c.parse::<i64>().ok(), "{}", c);
    }
}
