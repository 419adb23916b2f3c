//! Rows: ordered lists of named raw values, and their encoding.
//!
//! A row is packed as its columns' names and values in turn, a name before its
//! value. A chunk's raw content is the packed list of its encoded rows.

use crate::wire::{bytes_of, frame, lemma_unpacked_packed, packed, unpack, unpacked, views, write_frame};
use vstd::prelude::*;

verus! {

/// One column of a row: its name and the raw bytes of its value.
#[derive(Clone, Debug, PartialEq, Eq)]
pub struct Column {
    pub name: Vec<u8>,
    pub value: Vec<u8>,
}

/// One row: its columns in the order of the table.
#[derive(Clone, Debug, PartialEq, Eq)]
pub struct Row {
    pub columns: Vec<Column>,
}

/// A row as a sequence of (name, value) pairs.
pub type RowModel = Seq<(Seq<u8>, Seq<u8>)>;

impl View for Column {
    type V = (Seq<u8>, Seq<u8>);

    open spec fn view(&self) -> (Seq<u8>, Seq<u8>) {
        (self.name@, self.value@)
    }
}

impl View for Row {
    type V = RowModel;

    open spec fn view(&self) -> RowModel {
        Seq::new(self.columns.len() as nat, |i: int| self.columns[i]@)
    }
}

/// The rows held by a vector of rows.
pub open spec fn row_models(rows: Seq<Row>) -> Seq<RowModel> {
    Seq::new(rows.len(), |i: int| rows[i]@)
}

/// The column names of a row, in order.
pub open spec fn column_names(row: RowModel) -> Seq<Seq<u8>> {
    Seq::new(row.len(), |i: int| row[i].0)
}

/// Names and values fit a frame header.
pub open spec fn row_frameable(row: RowModel) -> bool {
    forall|i: int|
        0 <= i < row.len() ==> (#[trigger] row[i]).0.len() <= u64::MAX && row[i].1.len()
            <= u64::MAX
}

/// The items that a row is packed from: name, value, name, value, ...
pub open spec fn row_items(row: RowModel) -> Seq<Seq<u8>> {
    Seq::new(
        2 * row.len(),
        |i: int|
            if i % 2 == 0 {
                row[i / 2].0
            } else {
                row[i / 2].1
            },
    )
}

/// The row that a list of items stands for; `None` where a name has no value.
pub open spec fn items_row(items: Seq<Seq<u8>>) -> Option<RowModel> {
    if items.len() % 2 == 0 {
        Some(Seq::new((items.len() / 2) as nat, |i: int| (items[2 * i], items[2 * i + 1])))
    } else {
        None
    }
}

/// The bytes of one row.
pub open spec fn encoded_row(row: RowModel) -> Seq<u8> {
    packed(row_items(row))
}

/// The row that `bytes` encode, if they encode one.
pub open spec fn decoded_row(bytes: Seq<u8>) -> Option<RowModel> {
    match unpacked(bytes) {
        Some(items) => items_row(items),
        None => None,
    }
}

/// The encodings of `rows`, in order.
pub open spec fn encoded_each(rows: Seq<RowModel>) -> Seq<Seq<u8>> {
    Seq::new(rows.len(), |i: int| encoded_row(rows[i]))
}

/// The rows that a list of encodings stands for; `None` where one of them is
/// no row.
pub open spec fn decoded_each(items: Seq<Seq<u8>>) -> Option<Seq<RowModel>>
    decreases items.len(),
{
    if items.len() == 0 {
        Some(Seq::empty())
    } else {
        match (decoded_each(items.drop_last()), decoded_row(items.last())) {
            (Some(rows), Some(row)) => Some(rows.push(row)),
            _ => None,
        }
    }
}

/// Decoding an encoded row gives the row back.
pub proof fn lemma_decoded_encoded_row(row: RowModel)
    requires
        row_frameable(row),
    ensures
        decoded_row(encoded_row(row)) == Some(row),
{
    let items = row_items(row);
    lemma_unpacked_packed(items);
}

/// Decoding a list of encoded rows gives the rows back.
pub proof fn lemma_decoded_encoded_each(rows: Seq<RowModel>)
    requires
        forall|i: int| 0 <= i < rows.len() ==> row_frameable(#[trigger] rows[i]),
    ensures
        decoded_each(encoded_each(rows)) == Some(rows),
    decreases rows.len(),
{
    let items = encoded_each(rows);
    if rows.len() > 0 {
        assert(items.drop_last() =~= encoded_each(rows.drop_last()));
        lemma_decoded_encoded_each(rows.drop_last());
        lemma_decoded_encoded_row(rows.last());
    }
}

/// Encodes one row.
pub fn encode_row(row: &Row) -> (out: Vec<u8>)
    ensures
        out@ == encoded_row(row@),
{
    let mut out: Vec<u8> = Vec::new();
    let mut i: usize = 0;
    while i < row.columns.len()
        invariant
            i <= row.columns.len(),
            out@ == packed(row_items(row@).take(2 * i)),
        decreases row.columns.len() - i,
    {
        let ghost before = row_items(row@).take(2 * i);
        write_frame(&mut out, row.columns[i].name.as_slice());
        write_frame(&mut out, row.columns[i].value.as_slice());
        proof {
            let mid = row_items(row@).take(2 * i + 1);
            let after = row_items(row@).take(2 * i + 2);
            assert(mid.drop_last() =~= before);
            assert(after.drop_last() =~= mid);
            assert(packed(mid) == packed(before) + frame(mid.last()));
        }
        i += 1;
    }
    assert(row_items(row@).take(2 * i) =~= row_items(row@));
    out
}

/// Decodes one row; `None` where `bytes` do not encode a row.
pub fn decode_row(bytes: &[u8]) -> (res: Option<Row>)
    ensures
        match res {
            Some(row) => decoded_row(bytes@) == Some(row@),
            None => decoded_row(bytes@) is None,
        },
{
    let items = match unpack(bytes) {
        Some(items) => items,
        None => {
            return None;
        },
    };
    if items.len() % 2 != 0 {
        return None;
    }
    let ghost want = items_row(views(items@)).unwrap();
    let mut columns: Vec<Column> = Vec::new();
    let mut i: usize = 0;
    while 2 * i < items.len()
        invariant
            items.len() % 2 == 0,
            2 * i <= items.len(),
            columns.len() == i,
            want == items_row(views(items@)).unwrap(),
            forall|j: int| 0 <= j < i ==> (#[trigger] columns[j])@ == want[j],
        decreases items.len() - 2 * i,
    {
        let name = bytes_of(items[2 * i].as_slice());
        let value = bytes_of(items[2 * i + 1].as_slice());
        columns.push(Column { name, value });
        i += 1;
    }
    let row = Row { columns };
    Some(row)
}

/// Encodes `rows` as one packed byte string, one item for each row.
pub fn encode_rows(rows: &Vec<Row>) -> (out: Vec<u8>)
    ensures
        out@ == packed(encoded_each(row_models(rows@))),
{
    let mut out: Vec<u8> = Vec::new();
    let mut i: usize = 0;
    while i < rows.len()
        invariant
            i <= rows.len(),
            out@ == packed(encoded_each(row_models(rows@)).take(i as int)),
        decreases rows.len() - i,
    {
        let bytes = encode_row(&rows[i]);
        write_frame(&mut out, bytes.as_slice());
        i += 1;
        proof {
            let done = encoded_each(row_models(rows@)).take(i as int);
            assert(done.drop_last() =~= encoded_each(row_models(rows@)).take(i - 1));
        }
    }
    assert(encoded_each(row_models(rows@)).take(i as int) =~= encoded_each(row_models(rows@)));
    out
}

/// Decodes a packed list of rows; `None` where `bytes` are not a packed list or
/// one of its items is no row.
pub fn decode_rows(bytes: &[u8]) -> (res: Option<Vec<Row>>)
    ensures
        match res {
            Some(rows) => unpacked(bytes@) is Some && decoded_each(unpacked(bytes@).unwrap())
                == Some(row_models(rows@)),
            None => unpacked(bytes@) is None || decoded_each(unpacked(bytes@).unwrap()) is None,
        },
{
    let items = match unpack(bytes) {
        Some(items) => items,
        None => {
            return None;
        },
    };
    let mut rows: Vec<Row> = Vec::new();
    let mut i: usize = 0;
    while i < items.len()
        invariant
            i <= items.len(),
            unpacked(bytes@) == Some(views(items@)),
            decoded_each(views(items@).take(i as int)) == Some(row_models(rows@)),
        decreases items.len() - i,
    {
        let ghost prev = views(items@).take(i as int);
        let ghost next = views(items@).take(i + 1);
        proof {
            assert(next.drop_last() =~= prev);
        }
        match decode_row(items[i].as_slice()) {
            Some(row) => {
                rows.push(row);
            },
            None => {
                proof {
                    lemma_decoded_each_prefix(views(items@), i + 1);
                }
                return None;
            },
        }
        i += 1;
    }
    assert(views(items@).take(i as int) =~= views(items@));
    Some(rows)
}

/// Where a prefix of a list of encodings holds something that is no row, so
/// does the list.
pub proof fn lemma_decoded_each_prefix(items: Seq<Seq<u8>>, n: int)
    requires
        0 <= n <= items.len(),
        decoded_each(items.take(n)) is None,
    ensures
        decoded_each(items) is None,
    decreases items.len() - n,
{
    if n < items.len() {
        assert(items.take(n + 1).drop_last() =~= items.take(n));
        lemma_decoded_each_prefix(items, n + 1);
    } else {
        assert(items.take(n) =~= items);
    }
}

} // verus!
