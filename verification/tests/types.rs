use sql_grammar::dialect::Dialect;
use sql_grammar::literal::Literal;
use sql_grammar::sqltype::{numeric_precision, precision, type_identifier, SqlType};

fn ty(d: Dialect, text: &[u8]) -> SqlType {
    type_identifier(d, text, 0).expect("type should parse").1
}

#[test]
fn sql_types() {
    let ok = ["bool", "integer(16)", "datetime(16)"];
    let res_ok: Vec<_> = ok.iter().map(|t| ty(Dialect::MySQL, t.as_bytes())).collect();
    assert_eq!(
        res_ok,
        vec![SqlType::Bool, SqlType::Int(Some(16)), SqlType::DateTime(Some(16))]
    );
}

#[test]
fn boolean_bool() {
    assert_eq!(ty(Dialect::PostgreSQL, b"boolean"), SqlType::Bool);
}

#[test]
fn double_with_lens() {
    let res = type_identifier(Dialect::MySQL, b"double(16,12)", 0);
    assert!(res.is_some());
    assert_eq!(res.unwrap().1, SqlType::Double);
}

#[test]
fn common_json_type() {
    for d in [Dialect::MySQL, Dialect::PostgreSQL] {
        let res = type_identifier(d, b"json", 0);
        assert!(res.is_some());
        assert_eq!(res.unwrap().1, SqlType::Json);
    }
    assert_eq!(ty(Dialect::PostgreSQL, b"json"), SqlType::Json);
}

#[test]
fn numeric() {
    let res = type_identifier(Dialect::PostgreSQL, b"NUMERIC", 0);
    assert!(res.is_some());
    assert_eq!(res.unwrap().1, SqlType::Numeric(None));
}

#[test]
fn numeric_with_precision() {
    let res = type_identifier(Dialect::PostgreSQL, b"NUMERIC(10)", 0);
    assert!(res.is_some());
    assert_eq!(res.unwrap().1, SqlType::Numeric(Some((10, None))));
}

#[test]
fn numeric_with_precision_and_scale() {
    let res = type_identifier(Dialect::PostgreSQL, b"NUMERIC(10, 20)", 0);
    assert!(res.is_some());
    assert_eq!(res.unwrap().1, SqlType::Numeric(Some((10, Some(20)))));
}

#[test]
fn macaddr_type() {
    assert_eq!(ty(Dialect::PostgreSQL, b"macaddr"), SqlType::MacAddr);
}

#[test]
fn inet_type() {
    assert_eq!(ty(Dialect::PostgreSQL, b"inet"), SqlType::Inet);
}

#[test]
fn uuid_type() {
    assert_eq!(ty(Dialect::PostgreSQL, b"uuid"), SqlType::Uuid);
}

#[test]
fn jsonb_type() {
    assert_eq!(ty(Dialect::PostgreSQL, b"jsonb"), SqlType::Jsonb);
}

#[test]
fn bit_type() {
    assert_eq!(ty(Dialect::PostgreSQL, b"bit"), SqlType::Bit(None));
}

#[test]
fn bit_with_size_type() {
    assert_eq!(ty(Dialect::PostgreSQL, b"bit(10)"), SqlType::Bit(Some(10)));
}

#[test]
fn bit_varying_type() {
    assert_eq!(ty(Dialect::PostgreSQL, b"bit varying"), SqlType::Varbit(None));
}

#[test]
fn bit_varying_with_size_type() {
    assert_eq!(ty(Dialect::PostgreSQL, b"bit varying(10)"), SqlType::Varbit(Some(10)));
}

#[test]
fn timestamp_type() {
    assert_eq!(ty(Dialect::PostgreSQL, b"timestamp"), SqlType::Timestamp);
}

#[test]
fn timestamp_with_prec_type() {
    assert_eq!(ty(Dialect::PostgreSQL, b"timestamp (5)"), SqlType::Timestamp);
}

#[test]
fn timestamp_without_timezone_type() {
    assert_eq!(ty(Dialect::PostgreSQL, b"timestamp without time zone"), SqlType::Timestamp);
}

#[test]
fn timestamp_with_prec_without_timezone_type() {
    assert_eq!(
        ty(Dialect::PostgreSQL, b"timestamp (5)   without time zone"),
        SqlType::Timestamp
    );
}

#[test]
fn timestamp_tz_type() {
    assert_eq!(ty(Dialect::PostgreSQL, b"timestamp with time zone"), SqlType::TimestampTz);
}

#[test]
fn timestamp_tz_with_prec_type() {
    assert_eq!(
        ty(Dialect::PostgreSQL, b"timestamp (5)    with time zone"),
        SqlType::TimestampTz
    );
}

#[test]
fn serial_type() {
    assert_eq!(ty(Dialect::PostgreSQL, b"serial"), SqlType::Serial);
}

#[test]
fn bigserial_type() {
    assert_eq!(ty(Dialect::PostgreSQL, b"bigserial"), SqlType::BigSerial);
}

#[test]
fn varchar_without_length() {
    assert_eq!(ty(Dialect::PostgreSQL, b"varchar"), SqlType::Varchar(None));
}

#[test]
fn character_varying() {
    assert_eq!(ty(Dialect::PostgreSQL, b"character varying"), SqlType::Varchar(None));
}

#[test]
fn character_varying_with_length() {
    assert_eq!(ty(Dialect::PostgreSQL, b"character varying(20)"), SqlType::Varchar(Some(20)));
}

#[test]
fn time_without_time_zone() {
    assert_eq!(ty(Dialect::PostgreSQL, b"time without time zone"), SqlType::Time);
}

#[test]
fn enum_type_with_literals() {
    let res = ty(Dialect::MySQL, b"enum('a','b')");
    assert_eq!(
        res,
        SqlType::Enum(vec![
            Literal::String("a".to_owned()),
            Literal::String("b".to_owned())
        ])
    );
}

#[test]
fn precision_value_too_wide_fails() {
    assert!(numeric_precision(b"(70000)", 0).is_none());
    assert!(numeric_precision(b"(65535)", 0).is_some());
    assert!(precision(b"(300)", 0).is_none());
    assert!(precision(b"(255)", 0).is_some());
    assert!(precision(b"(10, 300)", 0).is_none());
}

#[test]
fn type_from_str_parses_mysql() {
    let t: SqlType = "varchar(20)".parse().unwrap();
    assert_eq!(t, SqlType::Varchar(Some(20)));
    let bad: Result<SqlType, _> = "nonsense!".parse();
    assert!(bad.is_err());
}

#[test]
fn type_rendering_round() {
    let b = SqlType::Decimal(10, 2).sql_bytes();
    assert_eq!(b, b"DECIMAL(10, 2)".to_vec());
    let b2 = SqlType::UnsignedInt(Some(11)).sql_bytes();
    assert_eq!(b2, b"INT(11) UNSIGNED".to_vec());
    let b3 = SqlType::TimestampTz.sql_bytes();
    assert_eq!(b3, b"TIMESTAMP WITH TIME ZONE".to_vec());
}
