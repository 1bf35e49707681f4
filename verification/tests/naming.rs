use sql_engine::names::{FullTableName, ObjectName, SchemaName, TableNamingError};
use sql_engine::types::SqlType;

fn object(parts: &[&str]) -> ObjectName {
    ObjectName::new(parts.iter().map(|p| String::from(*p)).collect())
}

#[test]
fn one_part_schema_name_is_accepted() {
    let name = SchemaName::try_from_object(&object(&["store"])).expect("one part must pass");
    assert_eq!(name.as_str(), "store");
}

#[test]
fn two_part_schema_name_is_refused() {
    let err = SchemaName::try_from_object(&object(&["store", "extra"]))
        .expect_err("two parts must fail");
    assert_eq!(
        err.message(),
        "only unqualified schema names are supported, 'store.extra'"
    );
}

#[test]
fn two_part_table_name_is_accepted() {
    let name = FullTableName::try_from_object(&object(&["store", "orders"]))
        .expect("two parts must pass");
    assert_eq!(name.as_tuple(), ("store", "orders"));
    assert_eq!(name.full_name(), "store.orders");
}

#[test]
fn one_part_table_name_must_be_qualified() {
    let err =
        FullTableName::try_from_object(&object(&["orders"])).expect_err("one part must fail");
    assert!(matches!(err, TableNamingError::Unqualified(_)));
    assert_eq!(
        err.message(),
        "unsupported table name 'orders'. All table names must be qualified"
    );
}

#[test]
fn three_part_table_name_cannot_be_processed() {
    let err = FullTableName::try_from_object(&object(&["db", "store", "orders"]))
        .expect_err("three parts must fail");
    assert!(matches!(err, TableNamingError::NotProcessed(_)));
    assert_eq!(err.message(), "unable to process table name 'db.store.orders'");
}

#[test]
fn validate_numeric_ranges() {
    assert!(SqlType::SmallInt.validate("32767").is_ok());
    assert!(SqlType::SmallInt.validate("-32768").is_ok());
    assert!(SqlType::SmallInt.validate("+123").is_ok());
    assert!(matches!(
        SqlType::SmallInt.validate("32768"),
        Err(sql_engine::types::ConstraintError::OutOfRange)
    ));
    assert!(matches!(
        SqlType::SmallInt.validate("-32769"),
        Err(sql_engine::types::ConstraintError::OutOfRange)
    ));
    assert!(SqlType::Integer.validate("2147483647").is_ok());
    assert!(matches!(
        SqlType::Integer.validate("2147483648"),
        Err(sql_engine::types::ConstraintError::OutOfRange)
    ));
    assert!(SqlType::BigInt.validate("9223372036854775807").is_ok());
    assert!(matches!(
        SqlType::BigInt.validate("9223372036854775808"),
        Err(sql_engine::types::ConstraintError::OutOfRange)
    ));
    assert!(matches!(
        SqlType::BigInt.validate("99999999999999999999999999"),
        Err(sql_engine::types::ConstraintError::OutOfRange)
    ));
}

#[test]
fn validate_numeric_mismatches() {
    for bad in ["abc", "12a", "", "-", "+", "1.5", " 1"] {
        match SqlType::Integer.validate(bad) {
            Err(sql_engine::types::ConstraintError::TypeMismatch(t)) => assert_eq!(t, bad),
            other => panic!("{:?} for {:?}", other, bad),
        }
    }
}

#[test]
fn validate_character_lengths() {
    assert!(SqlType::Char(3).validate("abc").is_ok());
    assert!(SqlType::Char(3).validate("ab").is_ok());
    assert!(matches!(
        SqlType::Char(3).validate("abcd"),
        Err(sql_engine::types::ConstraintError::ValueTooLong(3))
    ));
    assert!(SqlType::VarChar(5).validate("abcde").is_ok());
    assert!(matches!(
        SqlType::VarChar(5).validate("abcdef"),
        Err(sql_engine::types::ConstraintError::ValueTooLong(5))
    ));
}
