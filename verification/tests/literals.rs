use std::collections::hash_map::DefaultHasher;
use std::hash::{Hash, Hasher};

use sql_grammar::dialect::Dialect;
use sql_grammar::literal::{
    float_literal, literal, value_list, Double, Float, ItemPlaceholder, Literal,
};

fn hash<T: Hash>(v: &T) -> u64 {
    let mut h = DefaultHasher::new();
    v.hash(&mut h);
    h.finish()
}

#[test]
fn float_formatting_strips_trailing_zeros() {
    let f = Literal::Double(Double { bits: 1.5f64.to_bits(), precision: u8::MAX });
    assert_eq!(f.to_sql_text(), "1.5");
}

#[test]
fn float_formatting_leaves_zero_after_dot() {
    let f = Literal::Double(Double { bits: 0.0f64.to_bits(), precision: u8::MAX });
    assert_eq!(f.to_sql_text(), "0.0");
}

#[test]
fn float_lots_of_zeros() {
    let res = float_literal(b"1.500000000000000000000000000000", 0).unwrap().1;
    match res {
        Literal::Double(Double { bits, .. }) => {
            let value = f64::from_bits(bits);
            assert!((value - 1.5).abs() < 1e-12);
        }
        _ => unreachable!(),
    }
}

#[test]
fn parsed_floats_carry_the_nearest_double() {
    for text in ["1.5", "0.1", "2.75", "123.456", "0.0", "10.0001"] {
        let res = float_literal(text.as_bytes(), 0).unwrap().1;
        match res {
            Literal::Double(Double { bits, precision }) => {
                assert_eq!(bits, text.parse::<f64>().unwrap().to_bits(), "{}", text);
                let frac = text.split('.').nth(1).unwrap();
                assert_eq!(precision as usize, frac.len());
            }
            _ => unreachable!(),
        }
    }
    let neg = float_literal(b"-2.5", 0).unwrap().1;
    assert_eq!(neg, Literal::Double(Double { bits: (-2.5f64).to_bits(), precision: 1 }));
}

#[test]
fn float_rendering_matches_the_formatter() {
    for (value, precision) in
        [(1.5f64, 2u8), (0.1, 4), (2.75, 1), (123.456, 7), (0.05, 3), (-2.5, 2), (20.0, 0)]
    {
        let expected_full = format!("{:.*}", precision as usize, value);
        let trimmed = expected_full.trim_end_matches('0');
        let expected = if trimmed.ends_with('.') {
            format!("{}0", trimmed)
        } else {
            trimmed.to_owned()
        };
        let lit = Literal::Double(Double { bits: value.to_bits(), precision });
        assert_eq!(lit.to_sql_text(), expected, "{} at {}", value, precision);
    }
}

#[test]
fn real_hash_matches_eq() {
    let samples = [
        Double { bits: 1.5f64.to_bits(), precision: 2 },
        Double { bits: 1.5f64.to_bits(), precision: 2 },
        Double { bits: 1.5f64.to_bits(), precision: 3 },
        Double { bits: 2.5f64.to_bits(), precision: 2 },
        Double { bits: f64::NAN.to_bits(), precision: 0 },
        Double { bits: f64::NAN.to_bits(), precision: 0 },
        Double { bits: f64::INFINITY.to_bits(), precision: 1 },
    ];
    for a in &samples {
        for b in &samples {
            assert_eq!(*a == *b, hash(a) == hash(b), "{:?} vs {:?}", a, b);
        }
    }
    let f1 = Float { bits: 0.25f32.to_bits(), precision: 2 };
    let f2 = Float { bits: 0.25f32.to_bits(), precision: 2 };
    assert_eq!(f1 == f2, hash(&f1) == hash(&f2));
}

#[test]
fn literal_to_string_parse_round_trip() {
    let lits = vec![
        Literal::Null,
        Literal::Boolean(true),
        Literal::Boolean(false),
        Literal::Integer(0),
        Literal::Integer(42),
        Literal::Integer(-7),
        Literal::Integer(i64::MAX),
        Literal::Integer(i64::MIN + 1),
        Literal::String(String::new()),
        Literal::String("hello".to_owned()),
        Literal::String("it's a \\ test".to_owned()),
        Literal::String("naïve 文字".to_owned()),
        Literal::CurrentTime,
        Literal::CurrentDate,
        Literal::CurrentTimestamp,
        Literal::Placeholder(ItemPlaceholder::QuestionMark),
        Literal::Placeholder(ItemPlaceholder::DollarNumber(3)),
        Literal::Placeholder(ItemPlaceholder::ColonNumber(4294967295)),
        Literal::BitVector(vec![]),
        Literal::BitVector(vec![0x00]),
        Literal::BitVector(vec![0xa5, 0xff, 0x01]),
    ];
    for lit in lits {
        for d in [Dialect::MySQL, Dialect::PostgreSQL] {
            let s = lit.to_sql_text();
            let (consumed, back) = literal(d, s.as_bytes(), 0)
                .unwrap_or_else(|| panic!("{} did not parse", s));
            assert_eq!(consumed, s.len(), "{}", s);
            assert_eq!(back, lit, "{}", s);
        }
    }
}

#[test]
fn boolean_literals() {
    for d in [Dialect::MySQL, Dialect::PostgreSQL] {
        for t in ["true", "True", "TruE", "TRUE"] {
            assert_eq!(literal(d, t.as_bytes(), 0), Some((4, Literal::Boolean(true))));
        }
        for t in ["false", "False", "FalsE", "FALSE"] {
            assert_eq!(literal(d, t.as_bytes(), 0), Some((5, Literal::Boolean(false))));
        }
    }
}

#[test]
fn float_is_tried_before_integer() {
    // "1.5" must not read as the integer 1 with a leftover fraction.
    let (consumed, lit) = literal(Dialect::MySQL, b"1.5", 0).unwrap();
    assert_eq!(consumed, 3);
    assert_eq!(lit, Literal::Double(Double { bits: 1.5f64.to_bits(), precision: 1 }));
}

#[test]
fn placeholder_text_round() {
    assert_eq!(ItemPlaceholder::QuestionMark.to_sql_text(), "?");
    assert_eq!(ItemPlaceholder::DollarNumber(12).to_sql_text(), "$12");
    assert_eq!(ItemPlaceholder::ColonNumber(3).to_sql_text(), ":3");
}

#[test]
fn integer_boundaries() {
    assert_eq!(
        literal(Dialect::MySQL, b"9223372036854775807", 0),
        Some((19, Literal::Integer(i64::MAX)))
    );
    // The most negative value has no positive counterpart the digits can
    // pass through, so the parse fails rather than wrapping.
    assert!(literal(Dialect::MySQL, b"-9223372036854775808", 0).is_none());
}

#[test]
fn numeric_rendering_is_exact() {
    assert_eq!(Literal::Numeric(150, 2).to_sql_text(), "1.50");
    assert_eq!(Literal::Numeric(-150, 2).to_sql_text(), "-1.50");
    assert_eq!(Literal::Numeric(5, 3).to_sql_text(), "0.005");
    assert_eq!(Literal::Numeric(7, 0).to_sql_text(), "7");
}

#[test]
fn string_degrades_to_blob_on_bad_text() {
    let input: &[u8] = b"'\xff\xfe'";
    let (consumed, lit) = literal(Dialect::MySQL, input, 0).unwrap();
    assert_eq!(consumed, input.len());
    assert_eq!(lit, Literal::Blob(vec![0xff, 0xfe]));
}

#[test]
fn byte_array_and_bitvector_literals() {
    assert_eq!(
        literal(Dialect::PostgreSQL, b"E'\\x0aff'", 0),
        Some((9, Literal::ByteArray(vec![0x0a, 0xff])))
    );
    assert_eq!(
        literal(Dialect::PostgreSQL, b"B'10100101'", 0),
        Some((11, Literal::BitVector(vec![0xa5])))
    );
}

#[test]
fn placeholders_parse() {
    assert_eq!(
        literal(Dialect::MySQL, b"?", 0),
        Some((1, Literal::Placeholder(ItemPlaceholder::QuestionMark)))
    );
    assert_eq!(
        literal(Dialect::MySQL, b":12", 0),
        Some((3, Literal::Placeholder(ItemPlaceholder::ColonNumber(12))))
    );
    assert_eq!(
        literal(Dialect::PostgreSQL, b"$2", 0),
        Some((2, Literal::Placeholder(ItemPlaceholder::DollarNumber(2))))
    );
    // An ordinal beyond the 32-bit range fails instead of wrapping.
    assert!(literal(Dialect::MySQL, b":4294967296", 0).is_none());
}

#[test]
fn value_list_reads_insert_values() {
    let (p, vs) = value_list(Dialect::MySQL, b"1, 'two' , NULL", 0);
    assert_eq!(p, 15);
    assert_eq!(
        vs,
        vec![
            Literal::Integer(1),
            Literal::String("two".to_owned()),
            Literal::Null
        ]
    );
}

#[test]
fn blob_text_is_lossy_by_design() {
    // The blob rendering writes unpadded hex, so reading it back yields an
    // integer, which is why the round trip excludes blobs.
    let lit = Literal::Blob(vec![0x61]);
    assert_eq!(lit.to_sql_text(), "61");
    assert_eq!(
        literal(Dialect::MySQL, b"61", 0),
        Some((2, Literal::Integer(61)))
    );
}
