use sql_engine::datum::{Binary, Datum};
use sql_engine::types::SqlType;

fn round_trip(row: Vec<Datum>, types: Vec<SqlType>) -> Vec<Datum> {
    let packed = Binary::pack(&row, &types);
    let decoded = packed.unpack(&types).expect("a packed row must decode");
    let repacked = Binary::pack(&decoded, &types);
    assert_eq!(packed.bytes(), repacked.bytes());
    decoded
}

#[test]
fn round_trip_smallint() {
    let types = vec![SqlType::SmallInt];
    let row = vec![Datum::Int(123)];
    assert_eq!(round_trip(row, types), vec![Datum::Int(123)]);
}

#[test]
fn round_trip_all_numeric_types() {
    let types = vec![SqlType::SmallInt, SqlType::Integer, SqlType::BigInt];
    let row = vec![
        Datum::Int(-32768),
        Datum::Int(2147483647),
        Datum::Int(-9223372036854775808),
    ];
    let back = round_trip(row, types);
    assert_eq!(
        back,
        vec![
            Datum::Int(-32768),
            Datum::Int(2147483647),
            Datum::Int(-9223372036854775808),
        ]
    );
}

#[test]
fn round_trip_character_types() {
    let types = vec![SqlType::Char(10), SqlType::VarChar(20)];
    let row = vec![
        Datum::Str(String::from("abc")),
        Datum::Str(String::from("hello world")),
    ];
    let back = round_trip(row, types);
    assert_eq!(
        back,
        vec![
            Datum::Str(String::from("abc")),
            Datum::Str(String::from("hello world")),
        ]
    );
}

#[test]
fn round_trip_null_in_every_position() {
    let types = vec![SqlType::SmallInt, SqlType::VarChar(5), SqlType::BigInt];
    let row = vec![Datum::Null, Datum::Null, Datum::Null];
    assert_eq!(
        round_trip(row, types),
        vec![Datum::Null, Datum::Null, Datum::Null]
    );
}

#[test]
fn round_trip_mixed_null_and_values() {
    let types = vec![SqlType::Integer, SqlType::Char(4), SqlType::Integer];
    let row = vec![Datum::Null, Datum::Str(String::from("ab")), Datum::Int(7)];
    assert_eq!(
        round_trip(row, types),
        vec![Datum::Null, Datum::Str(String::from("ab")), Datum::Int(7)]
    );
}

#[test]
fn round_trip_unicode_text() {
    let types = vec![SqlType::VarChar(10)];
    let row = vec![Datum::Str(String::from("héllo ☃"))];
    assert_eq!(
        round_trip(row, types),
        vec![Datum::Str(String::from("héllo ☃"))]
    );
}

#[test]
fn null_sentinel_distinct_from_any_value() {
    let types = vec![SqlType::SmallInt];
    let null_bytes = Binary::pack(&vec![Datum::Null], &types);
    let zero_bytes = Binary::pack(&vec![Datum::Int(0)], &types);
    assert_ne!(null_bytes.bytes(), zero_bytes.bytes());
    assert_eq!(null_bytes.bytes().len(), 1);
}

#[test]
fn decode_needs_the_right_types() {
    let int_types = vec![SqlType::Integer];
    let text_types = vec![SqlType::VarChar(100)];
    let packed = Binary::pack(&vec![Datum::Int(5)], &int_types);
    // The buffer is not self-describing: the wrong type list must not
    // reproduce the original datum.
    match packed.unpack(&text_types) {
        None => {}
        Some(other) => assert_ne!(other, vec![Datum::Int(5)]),
    }
}

#[test]
fn datum_text_rendering() {
    assert_eq!(Datum::Int(123).to_text(), "123");
    assert_eq!(Datum::Int(-45).to_text(), "-45");
    assert_eq!(Datum::Int(0).to_text(), "0");
    assert_eq!(Datum::Null.to_text(), "NULL");
    assert_eq!(Datum::Str(String::from("xy")).to_text(), "xy");
}

#[test]
fn key_bytes_are_big_endian_and_ordered() {
    let a = sql_engine::datum::key_bytes(1);
    let b = sql_engine::datum::key_bytes(256);
    assert_eq!(a, vec![0, 0, 0, 0, 0, 0, 0, 1]);
    assert_eq!(b, vec![0, 0, 0, 0, 0, 0, 1, 0]);
    assert!(a < b);
}
