//! The index of a dump: the one object that makes a dump visible.
//!
//! An index is packed from the dump's name, its creation time, its two flags
//! and its table entries; an entry from the table's name, its ruled columns
//! and its chunk records; a record from the chunk's key, size and row count.
//! Decoding an encoded index gives the index back.

use crate::chunk::{chunk_ref_models, ChunkRef, ChunkRefModel, TableEntry, TableEntryModel};
use crate::wire::{
    bytes_of, frameable, lemma_parsed_each_fails, lemma_parsed_each_written,
    lemma_unpacked_packed, pack, packed, parsed_each, unpack, unpacked, views,
};
use vstd::bytes::{
    lemma_auto_spec_u64_to_from_le_bytes, spec_u64_from_le_bytes, spec_u64_to_le_bytes,
    u64_from_le_bytes, u64_to_le_bytes,
};
use vstd::prelude::*;

verus! {

/// The index of one dump.
#[derive(Clone, Debug, PartialEq, Eq)]
pub struct Dump {
    /// The dump's name, its key among the dumps of a store.
    pub name: Vec<u8>,
    /// When the dump was made, in milliseconds since the epoch.
    pub created_at: u64,
    /// Whether the chunks are compressed.
    pub compressed: bool,
    /// Whether the chunks are enciphered.
    pub encrypted: bool,
    /// The tables, in the order in which they were dumped.
    pub tables: Vec<TableEntry>,
}

/// A `Dump` as contracts see it.
pub struct DumpModel {
    pub name: Seq<u8>,
    pub created_at: u64,
    pub compressed: bool,
    pub encrypted: bool,
    pub tables: Seq<TableEntryModel>,
}

/// The table entries held by a vector of them.
pub open spec fn entry_models(tables: Seq<TableEntry>) -> Seq<TableEntryModel> {
    Seq::new(tables.len(), |i: int| tables[i]@)
}

impl View for Dump {
    type V = DumpModel;

    open spec fn view(&self) -> DumpModel {
        DumpModel {
            name: self.name@,
            created_at: self.created_at,
            compressed: self.compressed,
            encrypted: self.encrypted,
            tables: entry_models(self.tables@),
        }
    }
}

/// The byte that stands for a flag.
pub open spec fn flag(b: bool) -> u8 {
    if b {
        1
    } else {
        0
    }
}

/// The bytes of one chunk record.
pub open spec fn encoded_ref(r: ChunkRefModel) -> Seq<u8> {
    packed(seq![r.key, spec_u64_to_le_bytes(r.size), spec_u64_to_le_bytes(r.rows)])
}

/// The chunk record that `bytes` encode, if they encode one.
pub open spec fn decoded_ref(bytes: Seq<u8>) -> Option<ChunkRefModel> {
    match unpacked(bytes) {
        Some(items) => if items.len() == 3 && items[1].len() == 8 && items[2].len() == 8 {
            Some(
                ChunkRefModel {
                    key: items[0],
                    size: spec_u64_from_le_bytes(items[1]),
                    rows: spec_u64_from_le_bytes(items[2]),
                },
            )
        } else {
            None
        },
        None => None,
    }
}

pub open spec fn ref_writer() -> spec_fn(ChunkRefModel) -> Seq<u8> {
    |r: ChunkRefModel| encoded_ref(r)
}

pub open spec fn ref_parser() -> spec_fn(Seq<u8>) -> Option<ChunkRefModel> {
    |bytes: Seq<u8>| decoded_ref(bytes)
}

/// The encodings of `chunks`, in order.
pub open spec fn encoded_refs(chunks: Seq<ChunkRefModel>) -> Seq<Seq<u8>> {
    Seq::new(chunks.len(), |i: int| ref_writer()(chunks[i]))
}

/// The bytes of one table entry.
pub open spec fn encoded_entry(e: TableEntryModel) -> Seq<u8> {
    packed(seq![e.table, packed(e.ruled), packed(encoded_refs(e.chunks))])
}

/// The table entry that `bytes` encode, if they encode one.
pub open spec fn decoded_entry(bytes: Seq<u8>) -> Option<TableEntryModel> {
    match unpacked(bytes) {
        Some(items) => if items.len() == 3 {
            match (unpacked(items[1]), unpacked(items[2])) {
                (Some(ruled), Some(records)) => match parsed_each(records, ref_parser()) {
                    Some(chunks) => Some(TableEntryModel { table: items[0], ruled, chunks }),
                    None => None,
                },
                _ => None,
            }
        } else {
            None
        },
        None => None,
    }
}

pub open spec fn entry_writer() -> spec_fn(TableEntryModel) -> Seq<u8> {
    |e: TableEntryModel| encoded_entry(e)
}

pub open spec fn entry_parser() -> spec_fn(Seq<u8>) -> Option<TableEntryModel> {
    |bytes: Seq<u8>| decoded_entry(bytes)
}

/// The encodings of `tables`, in order.
pub open spec fn encoded_entries(tables: Seq<TableEntryModel>) -> Seq<Seq<u8>> {
    Seq::new(tables.len(), |i: int| entry_writer()(tables[i]))
}

/// The bytes of an index.
pub open spec fn encoded_index(d: DumpModel) -> Seq<u8> {
    packed(
        seq![
            d.name,
            spec_u64_to_le_bytes(d.created_at),
            seq![flag(d.compressed), flag(d.encrypted)],
            packed(encoded_entries(d.tables)),
        ],
    )
}

/// The index that `bytes` encode, if they encode one.
pub open spec fn decoded_index(bytes: Seq<u8>) -> Option<DumpModel> {
    match unpacked(bytes) {
        Some(items) => if items.len() == 4 && items[1].len() == 8 && items[2].len() == 2
            && items[2][0] <= 1 && items[2][1] <= 1 {
            match unpacked(items[3]) {
                Some(entries) => match parsed_each(entries, entry_parser()) {
                    Some(tables) => Some(
                        DumpModel {
                            name: items[0],
                            created_at: spec_u64_from_le_bytes(items[1]),
                            compressed: items[2][0] == 1,
                            encrypted: items[2][1] == 1,
                            tables,
                        },
                    ),
                    None => None,
                },
                None => None,
            }
        } else {
            None
        },
        None => None,
    }
}

/// The parts of a table entry are short enough to be framed.
pub open spec fn entry_fits(e: TableEntryModel) -> bool {
    &&& e.table.len() <= u64::MAX
    &&& frameable(e.ruled)
    &&& packed(e.ruled).len() <= u64::MAX
    &&& forall|i: int| 0 <= i < e.chunks.len() ==> (#[trigger] e.chunks[i]).key.len() <= u64::MAX
    &&& frameable(encoded_refs(e.chunks))
    &&& packed(encoded_refs(e.chunks)).len() <= u64::MAX
}

/// The parts of an index are short enough to be framed.
pub open spec fn index_fits(d: DumpModel) -> bool {
    &&& d.name.len() <= u64::MAX
    &&& forall|i: int| 0 <= i < d.tables.len() ==> entry_fits(#[trigger] d.tables[i])
    &&& frameable(encoded_entries(d.tables))
    &&& packed(encoded_entries(d.tables)).len() <= u64::MAX
}

/// Decoding an encoded chunk record gives the record back.
pub proof fn lemma_decoded_encoded_ref(r: ChunkRefModel)
    requires
        r.key.len() <= u64::MAX,
    ensures
        decoded_ref(encoded_ref(r)) == Some(r),
{
    lemma_auto_spec_u64_to_from_le_bytes();
    let items = seq![r.key, spec_u64_to_le_bytes(r.size), spec_u64_to_le_bytes(r.rows)];
    lemma_unpacked_packed(items);
}

/// Decoding an encoded table entry gives the entry back.
pub proof fn lemma_decoded_encoded_entry(e: TableEntryModel)
    requires
        entry_fits(e),
    ensures
        decoded_entry(encoded_entry(e)) == Some(e),
{
    let records = encoded_refs(e.chunks);
    let items = seq![e.table, packed(e.ruled), packed(records)];
    lemma_unpacked_packed(items);
    lemma_unpacked_packed(e.ruled);
    lemma_unpacked_packed(records);
    assert forall|i: int| 0 <= i < e.chunks.len() implies ref_parser()(
        ref_writer()(#[trigger] e.chunks[i]),
    ) == Some(e.chunks[i]) by {
        lemma_decoded_encoded_ref(e.chunks[i]);
    }
    lemma_parsed_each_written(e.chunks, ref_writer(), ref_parser());
}

/// Decoding an encoded index gives the index back.
pub proof fn lemma_decoded_encoded_index(d: DumpModel)
    requires
        index_fits(d),
    ensures
        decoded_index(encoded_index(d)) == Some(d),
{
    lemma_auto_spec_u64_to_from_le_bytes();
    let entries = encoded_entries(d.tables);
    let flags = seq![flag(d.compressed), flag(d.encrypted)];
    let items = seq![d.name, spec_u64_to_le_bytes(d.created_at), flags, packed(entries)];
    lemma_unpacked_packed(items);
    lemma_unpacked_packed(entries);
    assert forall|i: int| 0 <= i < d.tables.len() implies entry_parser()(
        entry_writer()(#[trigger] d.tables[i]),
    ) == Some(d.tables[i]) by {
        lemma_decoded_encoded_entry(d.tables[i]);
    }
    lemma_parsed_each_written(d.tables, entry_writer(), entry_parser());
}

/// Encodes one chunk record.
pub fn encode_ref(r: &ChunkRef) -> (out: Vec<u8>)
    ensures
        out@ == encoded_ref(r@),
        decoded_ref(out@) == Some(r@),
{
    let mut items: Vec<Vec<u8>> = Vec::new();
    items.push(bytes_of(r.key.as_slice()));
    items.push(u64_to_le_bytes(r.size));
    items.push(u64_to_le_bytes(r.rows));
    proof {
        assert(views(items@) =~= seq![
            r.key@,
            spec_u64_to_le_bytes(r.size),
            spec_u64_to_le_bytes(r.rows),
        ]);
        assert(r.key.len() <= u64::MAX);
        lemma_decoded_encoded_ref(r@);
    }
    pack(&items)
}

/// Decodes one chunk record; `None` where `bytes` encode none.
pub fn decode_ref(bytes: &[u8]) -> (res: Option<ChunkRef>)
    ensures
        match res {
            Some(r) => decoded_ref(bytes@) == Some(r@),
            None => decoded_ref(bytes@) is None,
        },
{
    let items = match unpack(bytes) {
        Some(items) => items,
        None => {
            return None;
        },
    };
    if items.len() != 3 || items[1].len() != 8 || items[2].len() != 8 {
        return None;
    }
    let size = u64_from_le_bytes(items[1].as_slice());
    let rows = u64_from_le_bytes(items[2].as_slice());
    Some(ChunkRef { key: bytes_of(items[0].as_slice()), size, rows })
}

/// Encodes each chunk record of a list.
fn encode_refs(chunks: &Vec<ChunkRef>) -> (out: Vec<Vec<u8>>)
    ensures
        views(out@) == encoded_refs(chunk_ref_models(chunks@)),
{
    let mut out: Vec<Vec<u8>> = Vec::new();
    let mut i: usize = 0;
    while i < chunks.len()
        invariant
            i <= chunks.len(),
            out.len() == i,
            forall|k: int| 0 <= k < i ==> (#[trigger] out[k])@ == encoded_ref(chunks[k]@),
        decreases chunks.len() - i,
    {
        out.push(encode_ref(&chunks[i]));
        i += 1;
    }
    out
}

/// Decodes each chunk record of a list; `None` where one of the items encodes
/// none.
fn decode_refs(items: &Vec<Vec<u8>>) -> (res: Option<Vec<ChunkRef>>)
    ensures
        match res {
            Some(chunks) => parsed_each(views(items@), ref_parser()) == Some(
                chunk_ref_models(chunks@),
            ),
            None => parsed_each(views(items@), ref_parser()) is None,
        },
{
    let mut chunks: Vec<ChunkRef> = Vec::new();
    let mut i: usize = 0;
    while i < items.len()
        invariant
            i <= items.len(),
            parsed_each(views(items@).take(i as int), ref_parser()) == Some(
                chunk_ref_models(chunks@),
            ),
        decreases items.len() - i,
    {
        let ghost next = views(items@).take(i + 1);
        proof {
            assert(next.drop_last() =~= views(items@).take(i as int));
        }
        match decode_ref(items[i].as_slice()) {
            Some(r) => {
                chunks.push(r);
            },
            None => {
                proof {
                    lemma_parsed_each_fails(views(items@), ref_parser(), i + 1);
                }
                return None;
            },
        }
        i += 1;
    }
    assert(views(items@).take(i as int) =~= views(items@));
    Some(chunks)
}

/// Encodes one table entry.
pub fn encode_entry(e: &TableEntry) -> (out: Vec<u8>)
    ensures
        out@ == encoded_entry(e@),
        entry_fits(e@),
        decoded_entry(out@) == Some(e@),
{
    let ruled = pack(&e.ruled);
    let records = encode_refs(&e.chunks);
    let chunks = pack(&records);
    proof {
        assert(e.table.len() <= u64::MAX);
        assert(ruled.len() <= u64::MAX);
        assert(chunks.len() <= u64::MAX);
        assert forall|i: int| 0 <= i < e.ruled.len() implies (#[trigger] views(e.ruled@)[i]).len()
            <= u64::MAX by {
            assert(e.ruled[i].len() <= u64::MAX);
        }
        assert forall|i: int| 0 <= i < e.chunks.len() implies (#[trigger] e@.chunks[i]).key.len()
            <= u64::MAX by {
            assert(e.chunks[i].key.len() <= u64::MAX);
        }
        assert forall|i: int| 0 <= i < records.len() implies (#[trigger] encoded_refs(
            e@.chunks,
        )[i]).len() <= u64::MAX by {
            assert(records[i].len() <= u64::MAX);
        }
        lemma_decoded_encoded_entry(e@);
    }
    let mut items: Vec<Vec<u8>> = Vec::new();
    items.push(bytes_of(e.table.as_slice()));
    items.push(ruled);
    items.push(chunks);
    assert(views(items@) =~= seq![
        e.table@,
        packed(views(e.ruled@)),
        packed(encoded_refs(e@.chunks)),
    ]);
    pack(&items)
}

/// Decodes one table entry; `None` where `bytes` encode none.
pub fn decode_entry(bytes: &[u8]) -> (res: Option<TableEntry>)
    ensures
        match res {
            Some(e) => decoded_entry(bytes@) == Some(e@),
            None => decoded_entry(bytes@) is None,
        },
{
    let items = match unpack(bytes) {
        Some(items) => items,
        None => {
            return None;
        },
    };
    if items.len() != 3 {
        return None;
    }
    let ruled = match unpack(items[1].as_slice()) {
        Some(ruled) => ruled,
        None => {
            return None;
        },
    };
    let records = match unpack(items[2].as_slice()) {
        Some(records) => records,
        None => {
            return None;
        },
    };
    let chunks = match decode_refs(&records) {
        Some(chunks) => chunks,
        None => {
            return None;
        },
    };
    Some(TableEntry { table: bytes_of(items[0].as_slice()), ruled, chunks })
}

/// Encodes each table entry of a list.
fn encode_entries(tables: &Vec<TableEntry>) -> (out: Vec<Vec<u8>>)
    ensures
        views(out@) == encoded_entries(entry_models(tables@)),
        forall|i: int| 0 <= i < tables.len() ==> entry_fits(#[trigger] entry_models(tables@)[i]),
{
    let mut out: Vec<Vec<u8>> = Vec::new();
    let mut i: usize = 0;
    while i < tables.len()
        invariant
            i <= tables.len(),
            out.len() == i,
            forall|k: int| 0 <= k < i ==> (#[trigger] out[k])@ == encoded_entry(tables[k]@),
            forall|k: int| 0 <= k < i ==> entry_fits(#[trigger] entry_models(tables@)[k]),
        decreases tables.len() - i,
    {
        let bytes = encode_entry(&tables[i]);
        out.push(bytes);
        i += 1;
    }
    out
}

/// Decodes each table entry of a list; `None` where one of the items encodes
/// none.
fn decode_entries(items: &Vec<Vec<u8>>) -> (res: Option<Vec<TableEntry>>)
    ensures
        match res {
            Some(tables) => parsed_each(views(items@), entry_parser()) == Some(
                entry_models(tables@),
            ),
            None => parsed_each(views(items@), entry_parser()) is None,
        },
{
    let mut tables: Vec<TableEntry> = Vec::new();
    let mut i: usize = 0;
    while i < items.len()
        invariant
            i <= items.len(),
            parsed_each(views(items@).take(i as int), entry_parser()) == Some(
                entry_models(tables@),
            ),
        decreases items.len() - i,
    {
        let ghost next = views(items@).take(i + 1);
        proof {
            assert(next.drop_last() =~= views(items@).take(i as int));
        }
        match decode_entry(items[i].as_slice()) {
            Some(e) => {
                tables.push(e);
            },
            None => {
                proof {
                    lemma_parsed_each_fails(views(items@), entry_parser(), i + 1);
                }
                return None;
            },
        }
        i += 1;
    }
    assert(views(items@).take(i as int) =~= views(items@));
    Some(tables)
}

/// Encodes an index.
pub fn encode_index(d: &Dump) -> (out: Vec<u8>)
    ensures
        out@ == encoded_index(d@),
        index_fits(d@),
        decoded_index(out@) == Some(d@),
{
    let entries = encode_entries(&d.tables);
    let tables = pack(&entries);
    let mut flags: Vec<u8> = Vec::new();
    flags.push(if d.compressed {
        1u8
    } else {
        0u8
    });
    flags.push(if d.encrypted {
        1u8
    } else {
        0u8
    });
    assert(flags@ =~= seq![flag(d.compressed), flag(d.encrypted)]);
    proof {
        assert(d.name.len() <= u64::MAX);
        assert(tables.len() <= u64::MAX);
        assert forall|i: int| 0 <= i < entries.len() implies (#[trigger] encoded_entries(
            d@.tables,
        )[i]).len() <= u64::MAX by {
            assert(entries[i].len() <= u64::MAX);
        }
        lemma_decoded_encoded_index(d@);
    }
    let mut items: Vec<Vec<u8>> = Vec::new();
    items.push(bytes_of(d.name.as_slice()));
    items.push(u64_to_le_bytes(d.created_at));
    items.push(flags);
    items.push(tables);
    assert(views(items@) =~= seq![
        d.name@,
        spec_u64_to_le_bytes(d.created_at),
        seq![flag(d.compressed), flag(d.encrypted)],
        packed(encoded_entries(d@.tables)),
    ]);
    pack(&items)
}

/// Decodes an index; `None` where `bytes` encode none.
pub fn decode_index(bytes: &[u8]) -> (res: Option<Dump>)
    ensures
        match res {
            Some(d) => decoded_index(bytes@) == Some(d@),
            None => decoded_index(bytes@) is None,
        },
{
    let items = match unpack(bytes) {
        Some(items) => items,
        None => {
            return None;
        },
    };
    if items.len() != 4 || items[1].len() != 8 || items[2].len() != 2 {
        return None;
    }
    if items[2][0] > 1 || items[2][1] > 1 {
        return None;
    }
    let entries = match unpack(items[3].as_slice()) {
        Some(entries) => entries,
        None => {
            return None;
        },
    };
    let tables = match decode_entries(&entries) {
        Some(tables) => tables,
        None => {
            return None;
        },
    };
    Some(
        Dump {
            name: bytes_of(items[0].as_slice()),
            created_at: u64_from_le_bytes(items[1].as_slice()),
            compressed: items[2][0] == 1,
            encrypted: items[2][1] == 1,
            tables,
        },
    )
}

} // verus!
