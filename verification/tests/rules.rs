use replibyte::error::ConfigError;
use replibyte::row::{Column, Row};
use replibyte::rules::{apply, apply_value, find_rule, is_known, validate_rules, Rule, TableSchema};
use replibyte::transformer::Transformer;

fn rule(table: &str, column: &str, transformer: Transformer) -> Rule {
    Rule { table: table.as_bytes().to_vec(), column: column.as_bytes().to_vec(), transformer }
}

fn schema() -> Vec<TableSchema> {
    vec![
        TableSchema {
            name: b"users".to_vec(),
            columns: vec![b"id".to_vec(), b"email".to_vec(), b"phone".to_vec()],
        },
        TableSchema { name: b"orders".to_vec(), columns: vec![b"id".to_vec(), b"email".to_vec()] },
    ]
}

fn col(name: &str, value: &str) -> Column {
    Column { name: name.as_bytes().to_vec(), value: value.as_bytes().to_vec() }
}

#[test]
fn valid_rules_pass() {
    let rules = vec![
        rule("users", "email", Transformer::Email),
        rule("orders", "email", Transformer::Email),
        rule("users", "phone", Transformer::Phone),
    ];
    assert_eq!(validate_rules(&rules, &schema()), Ok(()));
    assert_eq!(validate_rules(&Vec::new(), &schema()), Ok(()));
}

#[test]
fn unknown_column_is_a_configuration_error() {
    let rules = vec![rule("users", "email", Transformer::Email), rule("users", "nope", Transformer::Keep)];
    assert_eq!(validate_rules(&rules, &schema()), Err(ConfigError::UnknownColumn { rule: 1 }));
    let rules = vec![rule("nobody", "email", Transformer::Email)];
    assert_eq!(validate_rules(&rules, &schema()), Err(ConfigError::UnknownColumn { rule: 0 }));
    let rules = vec![rule("orders", "phone", Transformer::Phone)];
    assert_eq!(validate_rules(&rules, &schema()), Err(ConfigError::UnknownColumn { rule: 0 }));
}

#[test]
fn conflicting_rules_are_a_configuration_error() {
    let rules = vec![
        rule("users", "phone", Transformer::Phone),
        rule("users", "email", Transformer::Email),
        rule("users", "email", Transformer::Keep),
    ];
    assert_eq!(
        validate_rules(&rules, &schema()),
        Err(ConfigError::ConflictingRule { first: 1, second: 2 })
    );
}

#[test]
fn invalid_transformer_is_a_configuration_error() {
    let rules = vec![
        rule("users", "email", Transformer::Email),
        rule("users", "phone", Transformer::Custom { alphabet: Vec::new(), length: 4 }),
    ];
    assert_eq!(validate_rules(&rules, &schema()), Err(ConfigError::InvalidTransformer { rule: 1 }));
}

#[test]
fn the_first_faulty_rule_decides() {
    let rules = vec![
        rule("users", "email", Transformer::Email),
        rule("users", "email", Transformer::Keep),
        rule("users", "nope", Transformer::Keep),
    ];
    assert_eq!(
        validate_rules(&rules, &schema()),
        Err(ConfigError::ConflictingRule { first: 0, second: 1 })
    );
}

#[test]
fn schema_lookup_finds_columns_of_their_table_only() {
    assert!(is_known(&schema(), b"users", b"phone"));
    assert!(!is_known(&schema(), b"orders", b"phone"));
    assert!(!is_known(&schema(), b"users", b""));
}

#[test]
fn rule_lookup_finds_the_first_rule() {
    let rules = vec![
        rule("users", "phone", Transformer::Phone),
        rule("users", "email", Transformer::Email),
        rule("users", "email", Transformer::Keep),
    ];
    assert_eq!(find_rule(&rules, b"users", b"email", 3), Some(1));
    assert_eq!(find_rule(&rules, b"users", b"email", 1), None);
    assert_eq!(find_rule(&rules, b"orders", b"email", 3), None);
}

#[test]
fn apply_replaces_ruled_columns_and_keeps_the_rest() {
    let rules = vec![rule("users", "email", Transformer::Email), rule("orders", "id", Transformer::Name)];
    let row = Row { columns: vec![col("id", "1"), col("email", "alice@corp.io"), col("city", "Paris")] };
    let out = apply(&row, b"users", &rules, 42, 0).unwrap();
    assert_eq!(
        out,
        Row {
            columns: vec![col("id", "1"), col("email", "woouyganew@example.com"), col("city", "Paris")]
        }
    );
}

#[test]
fn apply_depends_on_seed_and_ordinal() {
    let rules = vec![rule("users", "email", Transformer::Email)];
    let row = Row { columns: vec![col("email", "alice@corp.io")] };
    let first = apply(&row, b"users", &rules, 42, 0).unwrap();
    assert_eq!(apply(&row, b"users", &rules, 42, 0).unwrap(), first);
    assert_eq!(apply(&row, b"users", &rules, 42, 1).unwrap().columns[0].value, b"zqbakudyrw@example.com".to_vec());
    assert_eq!(apply(&row, b"users", &rules, 43, 0).unwrap().columns[0].value, b"achhgnoepq@example.com".to_vec());
}

#[test]
fn apply_fails_at_the_first_value_that_cannot_be_processed() {
    let rules = vec![rule("users", "email", Transformer::Email), rule("users", "phone", Transformer::Phone)];
    let row = Row {
        columns: vec![col("id", "1"), col("phone", "none"), col("email", "no address")],
    };
    assert_eq!(apply(&row, b"users", &rules, 42, 0), Err(1));
    let row = Row { columns: vec![col("id", "1"), col("phone", "12"), col("email", "no address")] };
    assert_eq!(apply(&row, b"users", &rules, 42, 0), Err(2));
}

#[test]
fn apply_value_copies_what_has_no_rule() {
    let rules = vec![rule("users", "email", Transformer::Email)];
    assert_eq!(apply_value(&col("city", "Paris"), b"users", &rules, 1, 1), Some(b"Paris".to_vec()));
    assert_eq!(apply_value(&col("email", "x"), b"orders", &rules, 1, 1), Some(b"x".to_vec()));
    assert_eq!(apply_value(&col("email", "x"), b"users", &rules, 1, 1), None);
}
