use replibyte::row::{decode_row, decode_rows, encode_row, encode_rows, Column, Row};
use replibyte::wire::pack;

fn col(name: &str, value: &[u8]) -> Column {
    Column { name: name.as_bytes().to_vec(), value: value.to_vec() }
}

#[test]
fn row_round_trip_keeps_names_values_and_order() {
    let row = Row {
        columns: vec![col("id", b"17"), col("email", b"a@b.c"), col("blob", &[0, 255, 0]), col("", b"")],
    };
    let bytes = encode_row(&row);
    assert_eq!(decode_row(&bytes), Some(row));
}

#[test]
fn row_is_packed_as_name_then_value() {
    let row = Row { columns: vec![col("a", b"xy")] };
    assert_eq!(encode_row(&row), pack(&vec![b"a".to_vec(), b"xy".to_vec()]));
}

#[test]
fn empty_row_encodes_to_nothing() {
    let row = Row { columns: Vec::new() };
    assert_eq!(encode_row(&row), Vec::<u8>::new());
    assert_eq!(decode_row(&[]), Some(row));
}

#[test]
fn row_with_a_name_without_value_is_rejected() {
    let bytes = pack(&vec![b"a".to_vec(), b"1".to_vec(), b"b".to_vec()]);
    assert_eq!(decode_row(&bytes), None);
}

#[test]
fn rows_round_trip_in_order() {
    let rows = vec![
        Row { columns: vec![col("id", b"1")] },
        Row { columns: Vec::new() },
        Row { columns: vec![col("id", b"3"), col("n", b"x")] },
    ];
    let bytes = encode_rows(&rows);
    assert_eq!(decode_rows(&bytes), Some(rows));
}

#[test]
fn rows_with_a_broken_row_are_rejected() {
    let good = encode_row(&Row { columns: vec![col("id", b"1")] });
    let bad = pack(&vec![b"id".to_vec()]);
    assert_eq!(decode_rows(&pack(&vec![good.clone(), bad])), None);
    let mut cut = pack(&vec![good]);
    cut.pop();
    assert_eq!(decode_rows(&cut), None);
}
