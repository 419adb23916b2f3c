//! Dump: the rows of the source, anonymised, chunked and stored.
//!
//! A dump validates its configuration before it touches the store, writes the
//! chunks of each table in order, and writes the index last. The index is
//! what makes the dump visible: a dump that fails leaves at most chunks
//! behind, which no listing sees and which a later dump of the same name
//! writes over.
//!
//! `dump` takes the tables whole. A caller whose rows arrive one at a time
//! applies the rules with `rules::apply` and feeds `chunk::ChunkWriter`, which
//! is what `dump` does for each row.

use crate::catalog::{chunks_bytes, referenced, same_at, tables_bytes};
use crate::chunk::{
    chunk_of, chunked, chunks_of, joined, lemma_chunked_joined, ref_of, refs_of, Chunk,
    ChunkModel, ChunkRefModel, ChunkWriter, Layout, TableEntry, TableEntryModel, grouped,
    };
use crate::codec::{key_model, lemma_opened_sealed};
use crate::datastore::{Datastore, Objects};
use crate::error::{ConfigError, DumpError, RestoreError, StoreError, TransformError};
use crate::index::{
    encode_index, encoded_index, index_fits,
    lemma_decoded_encoded_index, Dump, DumpModel,
};
use crate::keys::{
    chunk_key, dump_name_ok, has_prefix, index_key, index_key_of, is_dump_name_ok, is_name_ok,
    lemma_chunk_key_injective, lemma_chunk_key_not_index, name_ok, slash,
};
use crate::progress::{capped, ProgressEvent, ProgressSink};
use crate::reader::{chunk_outcome, gathered, ChunkFault};
use crate::restore::{restored, restored_tables, TableModel};
use crate::row::{
    encode_row, encoded_each, lemma_decoded_encoded_each, row_frameable, row_models,
    Row, RowModel,
};
use crate::rules::{
    appliable, applied_row, applied_value, apply, first_fault, rules_valid, validate_rules, Rule,
    TableSchema, TableSchemaModel, schema_models,
};
use crate::wire::{bytes_eq, bytes_of, frameable, lemma_unpacked_packed, packed, views};
use vstd::prelude::*;

verus! {

/// One table of the source: its name, its columns and its rows.
#[derive(Clone, Debug, PartialEq, Eq)]
pub struct Table {
    pub name: Vec<u8>,
    pub columns: Vec<Vec<u8>>,
    pub rows: Vec<Row>,
}

/// A `Table` as contracts see it.
pub struct SourceModel {
    pub name: Seq<u8>,
    pub columns: Seq<Seq<u8>>,
    pub rows: Seq<RowModel>,
}

impl View for Table {
    type V = SourceModel;

    open spec fn view(&self) -> SourceModel {
        SourceModel {
            name: self.name@,
            columns: views(self.columns@),
            rows: row_models(self.rows@),
        }
    }
}

impl Table {
    /// A table of `rows` whose columns are those of its first row; a table
    /// without rows has no columns.
    pub fn from_rows(name: Vec<u8>, rows: Vec<Row>) -> (table: Table)
        ensures
            table.name == name,
            table.rows == rows,
            views(table.columns@) == if rows.len() > 0 {
                crate::row::column_names(rows[0]@)
            } else {
                Seq::<Seq<u8>>::empty()
            },
    {
        let mut columns: Vec<Vec<u8>> = Vec::new();
        if rows.len() > 0 {
            let first = &rows[0];
            let mut c: usize = 0;
            while c < first.columns.len()
                invariant
                    c <= first.columns.len(),
                    columns.len() == c,
                    forall|k: int| 0 <= k < c ==> (#[trigger] columns[k])@ == first.columns[k].name@,
                decreases first.columns.len() - c,
            {
                columns.push(bytes_of(first.columns[c].name.as_slice()));
                c += 1;
            }
            assert(views(columns@) =~= crate::row::column_names(rows[0]@));
        } else {
            assert(views(columns@) =~= Seq::<Seq<u8>>::empty());
        }
        Table { name, columns, rows }
    }
}

/// The bytes that the rows of the first `n` tables take when each table's
/// rows are packed.
pub open spec fn source_bytes(tables: Seq<SourceModel>, n: int) -> nat
    decreases n,
{
    if n <= 0 {
        0
    } else {
        source_bytes(tables, n - 1) + packed(encoded_each(tables[n - 1].rows)).len()
    }
}

/// The number of bytes that the rows of the source take when packed, or the
/// largest `u64` where they take more: what a dump without compression is
/// expected to store.
pub fn source_size(tables: &Vec<Table>) -> (size: u64)
    ensures
        size == capped(source_bytes(source_models(tables@), tables.len() as int)),
{
    let mut size: u64 = 0;
    let mut t: usize = 0;
    while t < tables.len()
        invariant
            t <= tables.len(),
            size == capped(source_bytes(source_models(tables@), t as int)),
        decreases tables.len() - t,
    {
        assert(source_models(tables@)[t as int] == tables[t as int]@);
        let bytes = crate::row::encode_rows(&tables[t].rows);
        size = size.saturating_add(bytes.len() as u64);
        t += 1;
    }
    size
}

/// The tables held by a vector of them.
pub open spec fn source_models(tables: Seq<Table>) -> Seq<SourceModel> {
    Seq::new(tables.len(), |i: int| tables[i]@)
}

/// The schema of the source: the names and columns of its tables.
pub open spec fn source_schema(tables: Seq<SourceModel>) -> Seq<TableSchemaModel> {
    Seq::new(
        tables.len(),
        |i: int| TableSchemaModel { name: tables[i].name, columns: tables[i].columns },
    )
}

/// The settings of one dump.
#[derive(Clone, Debug, PartialEq, Eq)]
pub struct DumpOptions {
    /// The packed length at which the buffer of a table is flushed.
    pub chunk_size: usize,
    /// Whether the chunks are compressed.
    pub compression: bool,
    /// The key that the chunks are enciphered with, if they are to be. The
    /// cipher is the keystream of `codec`, which withstands no attack.
    pub key: Option<Vec<u8>>,
    /// The seed of the dump's transformers.
    pub seed: u64,
    /// The time of the dump, in milliseconds since the epoch.
    pub created_at: u64,
    /// The number of bytes that the dump is expected to store.
    pub expected_total: u64,
}

/// `DumpOptions` as contracts see them.
pub struct OptionsModel {
    pub chunk_size: nat,
    pub compression: bool,
    pub key: Option<Seq<u8>>,
    pub seed: u64,
    pub created_at: u64,
    pub expected_total: u64,
}

impl View for DumpOptions {
    type V = OptionsModel;

    open spec fn view(&self) -> OptionsModel {
        OptionsModel {
            chunk_size: self.chunk_size as nat,
            compression: self.compression,
            key: key_model(self.key),
            seed: self.seed,
            created_at: self.created_at,
            expected_total: self.expected_total,
        }
    }
}

/// Whether every value of every row of the table can be processed. A row's
/// ordinal is its index in the table.
pub open spec fn table_appliable(rules: Seq<Rule>, table: SourceModel, seed: u64) -> bool {
    forall|i: int|
        0 <= i < table.rows.len() ==> appliable(
            rules,
            table.name,
            #[trigger] table.rows[i],
            seed,
            i as u64,
        )
}

/// The rows of the table after the rules were applied.
pub open spec fn transformed_rows(rules: Seq<Rule>, table: SourceModel, seed: u64) -> Seq<
    RowModel,
> {
    Seq::new(
        table.rows.len(),
        |i: int| applied_row(rules, table.name, table.rows[i], seed, i as u64),
    )
}

/// The columns that the first `n` rules name in `table`, in the order of the
/// rules.
pub open spec fn ruled_columns(rules: Seq<Rule>, table: Seq<u8>, n: int) -> Seq<Seq<u8>>
    decreases n,
{
    if n <= 0 {
        Seq::empty()
    } else if rules[n - 1].table@ == table {
        ruled_columns(rules, table, n - 1).push(rules[n - 1].column@)
    } else {
        ruled_columns(rules, table, n - 1)
    }
}

/// How the chunks of `table` are laid out and sealed in the dump `name`.
pub open spec fn table_layout(name: Seq<u8>, table: Seq<u8>, options: OptionsModel) -> Layout {
    Layout {
        dump: name,
        table,
        chunk_size: options.chunk_size,
        compression: options.compression,
        key: options.key,
    }
}

/// The chunks of `table` in the dump `name`.
pub open spec fn table_chunks(
    name: Seq<u8>,
    rules: Seq<Rule>,
    table: SourceModel,
    options: OptionsModel,
) -> Seq<ChunkModel> {
    chunks_of(
        table_layout(name, table.name, options),
        chunked(encoded_each(transformed_rows(rules, table, options.seed)), options.chunk_size),
    )
}

/// The entry of `table` in the index of the dump `name`.
pub open spec fn table_entry(
    name: Seq<u8>,
    rules: Seq<Rule>,
    table: SourceModel,
    options: OptionsModel,
) -> TableEntryModel {
    TableEntryModel {
        table: table.name,
        ruled: ruled_columns(rules, table.name, rules.len() as int),
        chunks: refs_of(table_chunks(name, rules, table, options)),
    }
}

/// The index of the dump `name` of `tables`.
pub open spec fn dump_index(
    name: Seq<u8>,
    tables: Seq<SourceModel>,
    rules: Seq<Rule>,
    options: OptionsModel,
) -> DumpModel {
    DumpModel {
        name,
        created_at: options.created_at,
        compressed: options.compression,
        encrypted: options.key is Some,
        tables: Seq::new(tables.len(), |i: int| table_entry(name, rules, tables[i], options)),
    }
}

/// Whether the store holds every chunk of `chunks` under its key.
pub open spec fn holds_chunks(objects: Objects, chunks: Seq<ChunkModel>) -> bool {
    forall|k: int|
        0 <= k < chunks.len() ==> objects.contains_key((#[trigger] chunks[k]).key)
            && objects[chunks[k].key] == chunks[k].payload
}

/// The rows of the first groups are a prefix of the rows of all groups.
pub proof fn lemma_joined_take(groups: Seq<Seq<Seq<u8>>>, m: int)
    requires
        0 <= m <= groups.len(),
    ensures
        joined(groups.take(m)).len() <= joined(groups).len(),
        joined(groups).take(joined(groups.take(m)).len() as int) == joined(groups.take(m)),
    decreases groups.len() - m,
{
    if m == groups.len() {
        assert(groups.take(m) =~= groups);
    } else {
        lemma_joined_take(groups, m + 1);
        assert(groups.take(m + 1).drop_last() =~= groups.take(m));
    }
}

/// The rows as the chunks of a table are entitled to hold them.
pub open spec fn storable(rows: Seq<RowModel>) -> bool {
    &&& rows.len() <= u64::MAX
    &&& forall|i: int| 0 <= i < rows.len() ==> row_frameable(#[trigger] rows[i])
    &&& frameable(encoded_each(rows))
}

/// Reading the first `m` chunks of a table gives the rows that went into
/// them.
pub proof fn lemma_gathered_chunks(objects: Objects, layout: Layout, rows: Seq<RowModel>, m: int)
    requires
        storable(rows),
        holds_chunks(objects, chunks_of(layout, chunked(encoded_each(rows), layout.chunk_size))),
        0 <= m <= chunked(encoded_each(rows), layout.chunk_size).len(),
    ensures
        joined(chunked(encoded_each(rows), layout.chunk_size).take(m)).len() <= rows.len(),
        gathered(
            objects,
            refs_of(chunks_of(layout, chunked(encoded_each(rows), layout.chunk_size))),
            layout.compression,
            layout.key,
            m,
        ) == Ok::<Seq<RowModel>, (int, ChunkFault)>(
            rows.take(joined(chunked(encoded_each(rows), layout.chunk_size).take(m)).len() as int),
        ),
    decreases m,
{
    let encoded = encoded_each(rows);
    let groups = chunked(encoded, layout.chunk_size);
    let chunks = chunks_of(layout, groups);
    let records = refs_of(chunks);
    lemma_chunked_joined(encoded, layout.chunk_size);
    lemma_joined_take(groups, m);
    if m == 0 {
        assert(rows.take(0) =~= Seq::<RowModel>::empty());
    } else {
        let k = m - 1;
        lemma_gathered_chunks(objects, layout, rows, k);
        lemma_joined_take(groups, k);
        let from = joined(groups.take(k)).len() as int;
        let to = joined(groups.take(m)).len() as int;
        assert(groups.take(m).drop_last() =~= groups.take(k));
        let group = groups[k];
        assert(group =~= encoded.subrange(from, to)) by {
            assert forall|i: int| 0 <= i < group.len() implies group[i] == encoded.subrange(
                from,
                to,
            )[i] by {
                assert(encoded.take(to)[from + i] == group[i]);
            }
        }
        let part = rows.subrange(from, to);
        assert(encoded_each(part) =~= group);
        lemma_decoded_encoded_each(part);
        lemma_unpacked_packed(group);
        lemma_opened_sealed(packed(group), layout.compression, layout.key);
        assert(chunk_outcome(objects, records[k], layout.compression, layout.key) == Ok::<
            Seq<RowModel>,
            ChunkFault,
        >(part));
        assert(rows.take(from) + part =~= rows.take(to));
    }
}

/// Reading all chunks of a table gives the rows that went into them.
pub proof fn lemma_gathered_table(objects: Objects, layout: Layout, rows: Seq<RowModel>)
    requires
        storable(rows),
        holds_chunks(objects, chunks_of(layout, chunked(encoded_each(rows), layout.chunk_size))),
    ensures
        gathered(
            objects,
            refs_of(chunks_of(layout, chunked(encoded_each(rows), layout.chunk_size))),
            layout.compression,
            layout.key,
            chunked(encoded_each(rows), layout.chunk_size).len() as int,
        ) == Ok::<Seq<RowModel>, (int, ChunkFault)>(rows),
{
    let encoded = encoded_each(rows);
    let groups = chunked(encoded, layout.chunk_size);
    lemma_gathered_chunks(objects, layout, rows, groups.len() as int);
    lemma_chunked_joined(encoded, layout.chunk_size);
    assert(groups.take(groups.len() as int) =~= groups);
    assert(rows.take(rows.len() as int) =~= rows);
}

/// Where a store holds an index and the chunks that the index
/// names, and the chunks of each table hold some rows as the chunked writer
/// lays them out, restoring the dump gives those rows back, table by table.
pub proof fn lemma_restored_dump(
    objects: Objects,
    d: DumpModel,
    rows: Seq<Seq<RowModel>>,
    chunk_size: nat,
    key: Option<Seq<u8>>,
)
    requires
        objects.contains_key(index_key(d.name)),
        objects[index_key(d.name)] == encoded_index(d),
        index_fits(d),
        d.encrypted == key is Some,
        rows.len() == d.tables.len(),
        forall|t: int| 0 <= t < rows.len() ==> storable(#[trigger] rows[t]),
        forall|t: int|
            0 <= t < rows.len() ==> (#[trigger] d.tables[t]).chunks == refs_of(
                chunks_of(
                    Layout {
                        dump: d.name,
                        table: d.tables[t].table,
                        chunk_size,
                        compression: d.compressed,
                        key,
                    },
                    chunked(encoded_each(rows[t]), chunk_size),
                ),
            ),
        forall|t: int|
            0 <= t < rows.len() ==> holds_chunks(
                objects,
                chunks_of(
                    Layout {
                        dump: d.name,
                        table: (#[trigger] d.tables[t]).table,
                        chunk_size,
                        compression: d.compressed,
                        key,
                    },
                    chunked(encoded_each(rows[t]), chunk_size),
                ),
            ),
    ensures
        restored(objects, d.name, key) == Ok::<Seq<TableModel>, RestoreError>(
            Seq::new(rows.len(), |t: int| (d.tables[t].table, rows[t])),
        ),
{
    lemma_decoded_encoded_index(d);
    lemma_restored_tables(objects, d, rows, chunk_size, key, rows.len() as int);
    assert(Seq::new(rows.len(), |t: int| (d.tables[t].table, rows[t])) =~= Seq::new(
        rows.len(),
        |t: int| (d.tables[t].table, rows[t]),
    ).take(rows.len() as int));
}

/// The step of `lemma_restored_dump`: the first `n` tables.
proof fn lemma_restored_tables(
    objects: Objects,
    d: DumpModel,
    rows: Seq<Seq<RowModel>>,
    chunk_size: nat,
    key: Option<Seq<u8>>,
    n: int,
)
    requires
        rows.len() == d.tables.len(),
        0 <= n <= rows.len(),
        forall|t: int| 0 <= t < rows.len() ==> storable(#[trigger] rows[t]),
        forall|t: int|
            0 <= t < rows.len() ==> (#[trigger] d.tables[t]).chunks == refs_of(
                chunks_of(
                    Layout {
                        dump: d.name,
                        table: d.tables[t].table,
                        chunk_size,
                        compression: d.compressed,
                        key,
                    },
                    chunked(encoded_each(rows[t]), chunk_size),
                ),
            ),
        forall|t: int|
            0 <= t < rows.len() ==> holds_chunks(
                objects,
                chunks_of(
                    Layout {
                        dump: d.name,
                        table: (#[trigger] d.tables[t]).table,
                        chunk_size,
                        compression: d.compressed,
                        key,
                    },
                    chunked(encoded_each(rows[t]), chunk_size),
                ),
            ),
    ensures
        restored_tables(objects, d.tables, d.compressed, key, n) == Ok::<
            Seq<TableModel>,
            RestoreError,
        >(Seq::new(rows.len(), |t: int| (d.tables[t].table, rows[t])).take(n)),
    decreases n,
{
    let all = Seq::new(rows.len(), |t: int| (d.tables[t].table, rows[t]));
    if n == 0 {
        assert(all.take(0) =~= Seq::<TableModel>::empty());
    } else {
        lemma_restored_tables(objects, d, rows, chunk_size, key, n - 1);
        let t = n - 1;
        let layout = Layout {
            dump: d.name,
            table: d.tables[t].table,
            chunk_size,
            compression: d.compressed,
            key,
        };
        lemma_gathered_table(objects, layout, rows[t]);
        assert(all.take(n - 1).push(all[t]) =~= all.take(n));
    }
}

/// The index of the first of the first `n` tables that has the name `name`.
pub open spec fn first_table(tables: Seq<SourceModel>, name: Seq<u8>, n: int) -> Option<int>
    decreases n,
{
    if n <= 0 {
        None
    } else {
        match first_table(tables, name, n - 1) {
            Some(j) => Some(j),
            None => if tables[n - 1].name == name {
                Some(n - 1)
            } else {
                None
            },
        }
    }
}

/// What is wrong with table `i`, given the tables before it.
pub open spec fn table_fault(tables: Seq<SourceModel>, i: int) -> Option<ConfigError> {
    if !name_ok(tables[i].name) {
        Some(ConfigError::InvalidTableName { table: i as usize })
    } else {
        match first_table(tables, tables[i].name, i) {
            Some(j) => Some(ConfigError::DuplicateTable { first: j as usize, second: i as usize }),
            None => None,
        }
    }
}

/// The fault of the first faulty table among the first `n`.
pub open spec fn tables_fault(tables: Seq<SourceModel>, n: int) -> Option<ConfigError>
    decreases n,
{
    if n <= 0 {
        None
    } else {
        match tables_fault(tables, n - 1) {
            Some(e) => Some(e),
            None => table_fault(tables, n - 1),
        }
    }
}

/// What is wrong with the configuration of a dump: its name, then its tables,
/// then its rules; `None` where nothing is.
pub open spec fn config_fault(name: Seq<u8>, tables: Seq<SourceModel>, rules: Seq<Rule>) -> Option<
    ConfigError,
> {
    if !dump_name_ok(name) {
        Some(ConfigError::InvalidDumpName)
    } else {
        match tables_fault(tables, tables.len() as int) {
            Some(e) => Some(e),
            None => first_fault(rules, source_schema(tables), rules.len() as int),
        }
    }
}

/// The first `n` tables have names that can be part of a key, each its own.
pub open spec fn tables_valid(tables: Seq<SourceModel>, n: int) -> bool {
    &&& forall|i: int| 0 <= i < n ==> name_ok((#[trigger] tables[i]).name)
    &&& forall|i: int, j: int|
        0 <= i < j < n ==> (#[trigger] tables[i]).name != (#[trigger] tables[j]).name
}

/// The configuration of a dump is sound.
pub open spec fn config_valid(name: Seq<u8>, tables: Seq<SourceModel>, rules: Seq<Rule>) -> bool {
    &&& dump_name_ok(name)
    &&& tables_valid(tables, tables.len() as int)
    &&& rules_valid(rules, source_schema(tables))
}

/// `first_table` finds the least index of a table of that name.
pub proof fn lemma_first_table(tables: Seq<SourceModel>, name: Seq<u8>, n: int)
    requires
        0 <= n <= tables.len(),
    ensures
        match first_table(tables, name, n) {
            Some(j) => 0 <= j < n && tables[j].name == name && forall|k: int|
                0 <= k < j ==> (#[trigger] tables[k]).name != name,
            None => forall|k: int| 0 <= k < n ==> (#[trigger] tables[k]).name != name,
        },
    decreases n,
{
    if n > 0 {
        lemma_first_table(tables, name, n - 1);
    }
}

/// A table found among the first `n` is still the first among more.
pub proof fn lemma_first_table_stays(tables: Seq<SourceModel>, name: Seq<u8>, n: int, m: int)
    requires
        0 <= n <= m,
        first_table(tables, name, n) is Some,
    ensures
        first_table(tables, name, m) == first_table(tables, name, n),
    decreases m - n,
{
    if n < m {
        lemma_first_table_stays(tables, name, n, m - 1);
    }
}

/// A fault found among the first `n` tables is still the first among more.
pub proof fn lemma_tables_fault_stays(tables: Seq<SourceModel>, n: int, m: int)
    requires
        0 <= n <= m,
        tables_fault(tables, n) is Some,
    ensures
        tables_fault(tables, m) == tables_fault(tables, n),
    decreases m - n,
{
    if n < m {
        lemma_tables_fault_stays(tables, n, m - 1);
    }
}

/// The tables have no fault exactly where their names are sound.
pub proof fn lemma_tables_fault(tables: Seq<SourceModel>, n: int)
    requires
        0 <= n <= tables.len(),
    ensures
        tables_fault(tables, n) is None <==> tables_valid(tables, n),
    decreases n,
{
    if n > 0 {
        lemma_tables_fault(tables, n - 1);
        lemma_first_table(tables, tables[n - 1].name, n - 1);
    }
}

/// The configuration has no fault exactly where it is sound.
pub proof fn lemma_config_fault(name: Seq<u8>, tables: Seq<SourceModel>, rules: Seq<Rule>)
    ensures
        config_fault(name, tables, rules) is None <==> config_valid(name, tables, rules),
{
    lemma_tables_fault(tables, tables.len() as int);
    crate::rules::lemma_no_fault_iff_valid(rules, source_schema(tables), rules.len() as int);
    assert(rules.take(rules.len() as int) =~= rules);
}

/// The first of the first `n` tables that has the name `name`, if one has.
fn find_table(tables: &Vec<Table>, name: &[u8], n: usize) -> (found: Option<usize>)
    requires
        n <= tables.len(),
    ensures
        match found {
            Some(j) => first_table(source_models(tables@), name@, n as int) == Some(j as int),
            None => first_table(source_models(tables@), name@, n as int) is None,
        },
{
    let ghost models = source_models(tables@);
    let mut j: usize = 0;
    while j < n
        invariant
            j <= n <= tables.len(),
            models == source_models(tables@),
            first_table(models, name@, j as int) is None,
        decreases n - j,
    {
        if bytes_eq(tables[j].name.as_slice(), name) {
            proof {
                lemma_first_table_stays(models, name@, j + 1, n as int);
            }
            return Some(j);
        }
        j += 1;
    }
    None
}

/// The schema of the source, copied out of its tables.
fn schema_of(tables: &Vec<Table>) -> (schema: Vec<TableSchema>)
    ensures
        schema_models(schema@) == source_schema(source_models(tables@)),
{
    let mut schema: Vec<TableSchema> = Vec::new();
    let mut i: usize = 0;
    while i < tables.len()
        invariant
            i <= tables.len(),
            schema.len() == i,
            forall|k: int|
                0 <= k < i ==> (#[trigger] schema[k])@ == (TableSchemaModel {
                    name: tables[k].name@,
                    columns: views(tables[k].columns@),
                }),
        decreases tables.len() - i,
    {
        let columns = crate::wire::copy_items(&tables[i].columns);
        schema.push(TableSchema { name: bytes_of(tables[i].name.as_slice()), columns });
        i += 1;
    }
    schema
}

/// Validates the configuration of a dump: the dump's name, then the tables'
/// names, then the rules. Reads no row and touches no store.
pub fn validate(name: &[u8], tables: &Vec<Table>, rules: &Vec<Rule>) -> (res: Result<
    (),
    ConfigError,
>)
    ensures
        res == match config_fault(name@, source_models(tables@), rules@) {
            Some(e) => Err::<(), ConfigError>(e),
            None => Ok(()),
        },
        res is Ok <==> config_valid(name@, source_models(tables@), rules@),
{
    let ghost models = source_models(tables@);
    proof {
        lemma_config_fault(name@, models, rules@);
    }
    if !is_dump_name_ok(name) {
        return Err(ConfigError::InvalidDumpName);
    }
    let mut i: usize = 0;
    while i < tables.len()
        invariant
            i <= tables.len(),
            models == source_models(tables@),
            dump_name_ok(name@),
            config_fault(name@, models, rules@) is None <==> config_valid(name@, models, rules@),
            tables_fault(models, i as int) is None,
        decreases tables.len() - i,
    {
        if !is_name_ok(tables[i].name.as_slice()) {
            proof {
                lemma_tables_fault_stays(models, i + 1, tables.len() as int);
            }
            return Err(ConfigError::InvalidTableName { table: i });
        }
        match find_table(tables, tables[i].name.as_slice(), i) {
            Some(j) => {
                proof {
                    lemma_tables_fault_stays(models, i + 1, tables.len() as int);
                }
                return Err(ConfigError::DuplicateTable { first: j, second: i });
            },
            None => {},
        }
        i += 1;
    }
    let schema = schema_of(tables);
    validate_rules(rules, &schema)
}

/// Whether `key` is the key of one of `chunks`.
pub open spec fn written_in(chunks: Seq<ChunkModel>, key: Seq<u8>) -> bool {
    exists|k: int| 0 <= k < chunks.len() && (#[trigger] chunks[k]).key == key
}

/// The store holds the chunks of `groups`, and differs from what it was
/// before at their keys only.
pub open spec fn table_stored(
    before: Objects,
    now: Objects,
    layout: Layout,
    groups: Seq<Seq<Seq<u8>>>,
) -> bool {
    &&& holds_chunks(now, chunks_of(layout, groups))
    &&& forall|key: Seq<u8>| #[trigger]
        same_at(before, now, key) || written_in(chunks_of(layout, groups), key)
}

/// Storing the chunk of one more group keeps the chunks before it.
pub proof fn lemma_table_stored_step(
    before: Objects,
    now: Objects,
    layout: Layout,
    groups: Seq<Seq<Seq<u8>>>,
    group: Seq<Seq<u8>>,
)
    requires
        table_stored(before, now, layout, groups),
        name_ok(layout.dump),
        name_ok(layout.table),
    ensures
        table_stored(
            before,
            now.insert(
                chunk_of(layout, groups.len(), group).key,
                chunk_of(layout, groups.len(), group).payload,
            ),
            layout,
            groups.push(group),
        ),
{
    let chunk = chunk_of(layout, groups.len(), group);
    let next = now.insert(chunk.key, chunk.payload);
    let old_chunks = chunks_of(layout, groups);
    let new_chunks = chunks_of(layout, groups.push(group));
    assert forall|k: int| 0 <= k < new_chunks.len() implies next.contains_key(
        (#[trigger] new_chunks[k]).key,
    ) && next[new_chunks[k].key] == new_chunks[k].payload by {
        if k < groups.len() {
            if old_chunks[k].key == chunk.key {
                lemma_chunk_key_injective(
                    layout.dump,
                    layout.table,
                    k as nat,
                    layout.dump,
                    layout.table,
                    groups.len(),
                );
            }
        }
    }
    assert forall|key: Seq<u8>| #[trigger]
        same_at(before, next, key) || written_in(new_chunks, key) by {
        if key == chunk.key {
            assert(new_chunks[groups.len() as int].key == key);
        } else if !same_at(before, now, key) {
            let k = choose|k: int| 0 <= k < old_chunks.len() && (#[trigger] old_chunks[k]).key == key;
            assert(new_chunks[k].key == key);
        }
    }
}

/// The progress reports of one table: after each chunk, the bytes stored so
/// far, `base` of them before the table, and the expected total.
pub open spec fn table_progress(base: nat, records: Seq<ChunkRefModel>, total: u64) -> Seq<
    ProgressEvent,
> {
    Seq::new(
        records.len(),
        |k: int|
            ProgressEvent { transferred: capped(base + chunks_bytes(records, k + 1)), total },
    )
}

/// The recorded sizes of the first chunks do not depend on the chunks after
/// them.
pub proof fn lemma_chunks_bytes_prefix(a: Seq<ChunkRefModel>, b: Seq<ChunkRefModel>, n: int)
    requires
        0 <= n <= a.len(),
        n <= b.len(),
        forall|i: int| 0 <= i < n ==> a[i] == b[i],
    ensures
        chunks_bytes(a, n) == chunks_bytes(b, n),
    decreases n,
{
    if n > 0 {
        lemma_chunks_bytes_prefix(a, b, n - 1);
    }
}

/// The records and reports of a table with one more chunk.
pub proof fn lemma_table_progress_step(
    base: nat,
    layout: Layout,
    groups: Seq<Seq<Seq<u8>>>,
    group: Seq<Seq<u8>>,
    total: u64,
)
    ensures
        refs_of(chunks_of(layout, groups.push(group))) == refs_of(chunks_of(layout, groups)).push(
            ref_of(chunk_of(layout, groups.len(), group)),
        ),
        chunks_bytes(
            refs_of(chunks_of(layout, groups.push(group))),
            groups.len() as int + 1,
        ) == chunks_bytes(refs_of(chunks_of(layout, groups)), groups.len() as int) + ref_of(
            chunk_of(layout, groups.len(), group),
        ).size,
        table_progress(base, refs_of(chunks_of(layout, groups.push(group))), total)
            == table_progress(base, refs_of(chunks_of(layout, groups)), total).push(
            ProgressEvent {
                transferred: capped(
                    base + chunks_bytes(refs_of(chunks_of(layout, groups)), groups.len() as int)
                        + ref_of(chunk_of(layout, groups.len(), group)).size as nat,
                ),
                total,
            },
        ),
{
    let before = refs_of(chunks_of(layout, groups));
    let after = refs_of(chunks_of(layout, groups.push(group)));
    let n = groups.len() as int;
    lemma_chunks_bytes_prefix(after, before, n);
    assert forall|m: int| 0 <= m <= n implies #[trigger] chunks_bytes(after, m) == chunks_bytes(
        before,
        m,
    ) by {
        lemma_chunks_bytes_prefix(after, before, m);
    }
    assert(table_progress(base, after, total) =~= table_progress(base, before, total).push(
        ProgressEvent {
            transferred: capped(base + chunks_bytes(before, n) + after[n].size as nat),
            total,
        },
    ));
}

/// Puts one chunk into the store and reports the progress. Returns the
/// number of bytes stored so far, capped.
fn store_chunk<D: Datastore, P: ProgressSink>(
    store: &mut D,
    chunk: &Chunk,
    progress: &mut P,
    written: u64,
    total: u64,
    Ghost(before): Ghost<nat>,
) -> (res: Result<u64, StoreError>)
    requires
        old(store).valid(),
        old(progress).ready(),
        written == capped(before),
    ensures
        final(store).valid(),
        final(progress).ready(),
        final(store).writes() == old(store).writes() + 1,
        final(store).dependable() == old(store).dependable(),
        old(store).dependable() ==> res is Ok,
        match res {
            Ok(now) => {
                &&& final(store).objects() == old(store).objects().insert(
                    chunk.key@,
                    chunk.payload@,
                )
                &&& now == capped(before + ref_of(chunk@).size as nat)
                &&& final(progress).reported() == old(progress).reported().push(
                    ProgressEvent { transferred: now, total },
                )
            },
            Err(_) => final(store).objects() == old(store).objects() && final(progress).reported()
                == old(progress).reported(),
        },
{
    match store.put(chunk.key.as_slice(), chunk.payload.as_slice()) {
        Ok(()) => {},
        Err(cause) => {
            return Err(cause);
        },
    }
    let now = written.saturating_add(chunk.payload.len() as u64);
    progress.report(ProgressEvent { transferred: now, total });
    Ok(now)
}

/// Whether the first sequence of reports starts the second.
pub open spec fn extends(before: Seq<ProgressEvent>, after: Seq<ProgressEvent>) -> bool {
    before.len() <= after.len() && after.take(before.len() as int) == before
}

/// Whether the store differs from what it was before at chunk keys of the
/// dump `name` only.
pub open spec fn invisible(before: Objects, after: Objects, name: Seq<u8>) -> bool {
    forall|key: Seq<u8>| #[trigger] same_at(before, after, key) || has_prefix(key, name + slash())
}

/// Whether the value of column `column` of row `row` is the first of the
/// table that cannot be processed.
pub open spec fn row_fault(
    rules: Seq<Rule>,
    table: SourceModel,
    seed: u64,
    row: int,
    column: int,
) -> bool {
    &&& 0 <= row < table.rows.len()
    &&& forall|r: int|
        0 <= r < row ==> appliable(rules, table.name, #[trigger] table.rows[r], seed, r as u64)
    &&& 0 <= column < table.rows[row].len()
    &&& applied_value(rules, table.name, table.rows[row][column], seed, row as u64) is None
    &&& forall|c: int|
        0 <= c < column ==> applied_value(
            rules,
            table.name,
            #[trigger] table.rows[row][c],
            seed,
            row as u64,
        ) is Some
}

/// Whether `e` names the first value of the dump that cannot be processed.
pub open spec fn transform_fault(
    rules: Seq<Rule>,
    tables: Seq<SourceModel>,
    seed: u64,
    e: TransformError,
) -> bool {
    &&& e.table < tables.len()
    &&& forall|a: int| 0 <= a < e.table ==> table_appliable(rules, #[trigger] tables[a], seed)
    &&& row_fault(rules, tables[e.table as int], seed, e.row as int, e.column as int)
}

/// Every chunk key of a dump starts with the dump's name and a `/`.
pub proof fn lemma_chunk_key_prefix(name: Seq<u8>, table: Seq<u8>, seq: nat)
    ensures
        has_prefix(chunk_key(name, table, seq), name + slash()),
{
    let key = chunk_key(name, table, seq);
    assert(key.take((name + slash()).len() as int) =~= name + slash());
}

/// A store that differs at the keys of some chunks of the dump only differs
/// at chunk keys of the dump only.
pub proof fn lemma_table_stored_invisible(
    before: Objects,
    now: Objects,
    layout: Layout,
    groups: Seq<Seq<Seq<u8>>>,
)
    requires
        table_stored(before, now, layout, groups),
    ensures
        invisible(before, now, layout.dump),
{
    let chunks = chunks_of(layout, groups);
    assert forall|key: Seq<u8>| #[trigger]
        same_at(before, now, key) || has_prefix(key, layout.dump + slash()) by {
        if !same_at(before, now, key) {
            let k = choose|k: int| 0 <= k < chunks.len() && (#[trigger] chunks[k]).key == key;
            lemma_chunk_key_prefix(layout.dump, layout.table, k as nat);
        }
    }
}

/// The columns that the rules name in `table`, in the order of the rules.
fn ruled_of(rules: &Vec<Rule>, table: &[u8]) -> (out: Vec<Vec<u8>>)
    ensures
        views(out@) == ruled_columns(rules@, table@, rules.len() as int),
{
    let mut out: Vec<Vec<u8>> = Vec::new();
    let mut i: usize = 0;
    while i < rules.len()
        invariant
            i <= rules.len(),
            views(out@) == ruled_columns(rules@, table@, i as int),
        decreases rules.len() - i,
    {
        if bytes_eq(rules[i].table.as_slice(), table) {
            out.push(bytes_of(rules[i].column.as_slice()));
        }
        i += 1;
    }
    out
}

/// A copy of a key.
fn copy_key(key: &Option<Vec<u8>>) -> (out: Option<Vec<u8>>)
    ensures
        key_model(out) == key_model(*key),
{
    match key {
        Some(k) => Some(bytes_of(k.as_slice())),
        None => None,
    }
}

/// Dumps one table: applies the rules to each row, encodes it, and stores
/// each chunk as the writer hands it out.
fn dump_table<D: Datastore, P: ProgressSink>(
    store: &mut D,
    name: &[u8],
    table: &Table,
    position: usize,
    rules: &Vec<Rule>,
    options: &DumpOptions,
    progress: &mut P,
    written: u64,
    Ghost(base): Ghost<nat>,
) -> (res: Result<(TableEntry, u64), DumpError>)
    requires
        old(store).valid(),
        old(progress).ready(),
        name_ok(name@),
        name_ok(table.name@),
        written == capped(base),
    ensures
        final(store).valid(),
        final(progress).ready(),
        final(store).writes() >= old(store).writes(),
        final(store).dependable() == old(store).dependable(),
        old(store).dependable() ==> !(res matches Err(DumpError::Store(_))),
        invisible(old(store).objects(), final(store).objects(), name@),
        extends(old(progress).reported(), final(progress).reported()),
        match res {
            Ok((entry, now)) => {
                &&& table_appliable(rules@, table@, options.seed)
                &&& storable(transformed_rows(rules@, table@, options.seed))
                &&& entry@ == table_entry(name@, rules@, table@, options@)
                &&& table_stored(
                    old(store).objects(),
                    final(store).objects(),
                    table_layout(name@, table.name@, options@),
                    chunked(
                        encoded_each(transformed_rows(rules@, table@, options.seed)),
                        options.chunk_size as nat,
                    ),
                )
                &&& final(store).writes() == old(store).writes() + entry@.chunks.len()
                &&& now == capped(base + chunks_bytes(entry@.chunks, entry@.chunks.len() as int))
                &&& final(progress).reported() == old(progress).reported() + table_progress(
                    base,
                    entry@.chunks,
                    options.expected_total,
                )
            },
            Err(DumpError::Transform(e)) => e.table == position && row_fault(
                rules@,
                table@,
                options.seed,
                e.row as int,
                e.column as int,
            ),
            Err(DumpError::Store(_)) => true,
            Err(DumpError::Config(_)) => false,
        },
{
    let ghost layout = table_layout(name@, table.name@, options@);
    let ghost size = options.chunk_size as nat;
    let ghost total = options.expected_total;
    let ghost wanted = transformed_rows(rules@, table@, options.seed);
    let ghost encoded = encoded_each(wanted);
    let ruled = ruled_of(rules, table.name.as_slice());
    let mut writer = ChunkWriter::new(
        name,
        table.name.as_slice(),
        ruled,
        options.chunk_size,
        options.compression,
        copy_key(&options.key),
    );
    let mut now = written;
    let mut i: usize = 0;
    proof {
        assert(encoded.take(0) =~= writer.seen@);
        assert(table_progress(base, refs_of(chunks_of(layout, Seq::empty())), total)
            =~= Seq::<ProgressEvent>::empty());
    }
    while i < table.rows.len()
        invariant
            store.valid(),
            store.dependable() == old(store).dependable(),
            progress.ready(),
            name_ok(name@),
            name_ok(table.name@),
            layout == table_layout(name@, table.name@, options@),
            size == options.chunk_size as nat,
            total == options.expected_total,
            wanted == transformed_rows(rules@, table@, options.seed),
            encoded == encoded_each(wanted),
            writer.wf(),
            writer.layout() == layout,
            views(writer.ruled@) == ruled_columns(rules@, table.name@, rules.len() as int),
            i <= table.rows.len(),
            writer.seen@ == encoded.take(i as int),
            forall|r: int|
                0 <= r < i ==> appliable(
                    rules@,
                    table.name@,
                    #[trigger] table@.rows[r],
                    options.seed,
                    r as u64,
                ),
            forall|r: int| 0 <= r < i ==> row_frameable(#[trigger] wanted[r]),
            forall|r: int| 0 <= r < i ==> (#[trigger] encoded[r]).len() <= u64::MAX,
            table_stored(
                old(store).objects(),
                store.objects(),
                layout,
                grouped(writer.seen@, size).0,
            ),
            store.writes() == old(store).writes() + grouped(writer.seen@, size).0.len(),
            now == capped(
                base + chunks_bytes(
                    refs_of(chunks_of(layout, grouped(writer.seen@, size).0)),
                    grouped(writer.seen@, size).0.len() as int,
                ),
            ),
            progress.reported() == old(progress).reported() + table_progress(
                base,
                refs_of(chunks_of(layout, grouped(writer.seen@, size).0)),
                total,
            ),
        decreases table.rows.len() - i,
    {
        let ghost done = grouped(writer.seen@, size).0;
        let ghost sent = progress.reported();
        proof {
            lemma_table_stored_invisible(old(store).objects(), store.objects(), layout, done);
            assert(extends(old(progress).reported(), sent)) by {
                assert(sent.take(old(progress).reported().len() as int) =~= old(progress).reported());
            }
        }
        let row = match apply(&table.rows[i], table.name.as_slice(), rules, options.seed, i as u64) {
            Ok(row) => row,
            Err(column) => {
                return Err(
                    DumpError::Transform(TransformError { table: position, row: i, column }),
                );
            },
        };
        let bytes = encode_row(&row);
        proof {
            assert(bytes.len() <= u64::MAX);
            assert forall|c: int| 0 <= c < row@.len() implies (#[trigger] row@[c]).0.len()
                <= u64::MAX && row@[c].1.len() <= u64::MAX by {
                assert(row.columns[c].name.len() <= u64::MAX);
                assert(row.columns[c].value.len() <= u64::MAX);
            }
            assert(encoded.take(i as int).push(bytes@) =~= encoded.take(i + 1));
        }
        match writer.push_row(bytes.as_slice()) {
            Some(chunk) => {
                let ghost before = store.objects();
                match store_chunk(store, &chunk, progress, now, options.expected_total, Ghost(
                    (base + chunks_bytes(refs_of(chunks_of(layout, done)), done.len() as int)) as nat,
                )) {
                    Ok(next) => {
                        now = next;
                    },
                    Err(cause) => {
                        return Err(DumpError::Store(cause));
                    },
                }
                proof {
                    let group = grouped(writer.seen@, size).0.last();
                    lemma_table_stored_step(old(store).objects(), before, layout, done, group);
                    lemma_table_progress_step(base, layout, done, group, total);
                    assert(sent.push(
                        ProgressEvent { transferred: now, total },
                    ) =~= old(progress).reported() + table_progress(
                        base,
                        refs_of(chunks_of(layout, done)),
                        total,
                    ).push(ProgressEvent { transferred: now, total }));
                }
            },
            None => {},
        }
        i += 1;
    }
    proof {
        assert(encoded.take(i as int) =~= encoded);
    }
    let ghost done = grouped(writer.seen@, size).0;
    let ghost left = grouped(writer.seen@, size).1;
    let ghost sent = progress.reported();
    let ghost before = store.objects();
    proof {
        lemma_table_stored_invisible(old(store).objects(), store.objects(), layout, done);
        assert(extends(old(progress).reported(), sent)) by {
            assert(sent.take(old(progress).reported().len() as int) =~= old(progress).reported());
        }
    }
    let (last, entry) = writer.finish();
    match last {
        Some(chunk) => {
            match store_chunk(store, &chunk, progress, now, options.expected_total, Ghost(
                (base + chunks_bytes(refs_of(chunks_of(layout, done)), done.len() as int)) as nat,
            )) {
                Ok(next) => {
                    now = next;
                },
                Err(cause) => {
                    return Err(DumpError::Store(cause));
                },
            }
            proof {
                lemma_table_stored_step(old(store).objects(), before, layout, done, left);
                lemma_table_progress_step(base, layout, done, left, total);
                assert(sent.push(
                    ProgressEvent { transferred: now, total },
                ) =~= old(progress).reported() + table_progress(
                    base,
                    refs_of(chunks_of(layout, done)),
                    total,
                ).push(ProgressEvent { transferred: now, total }));
                lemma_table_stored_invisible(
                    old(store).objects(),
                    store.objects(),
                    layout,
                    done.push(left),
                );
                assert(progress.reported().take(old(progress).reported().len() as int) =~= old(progress).reported());
            }
        },
        None => {},
    }
    Ok((entry, now))
}

/// The progress reports of the first `n` tables of a dump.
pub open spec fn tables_progress(tables: Seq<TableEntryModel>, total: u64, n: int) -> Seq<
    ProgressEvent,
>
    decreases n,
{
    if n <= 0 {
        Seq::empty()
    } else {
        tables_progress(tables, total, n - 1) + table_progress(
            tables_bytes(tables, n - 1),
            tables[n - 1].chunks,
            total,
        )
    }
}

/// The progress reports of a dump that succeeds: one after each chunk, with
/// the bytes stored so far and the expected total, and a last one in which
/// both numbers are the bytes that the dump stored.
pub open spec fn dump_progress(d: DumpModel, total: u64) -> Seq<ProgressEvent> {
    let stored = capped(tables_bytes(d.tables, d.tables.len() as int));
    tables_progress(d.tables, total, d.tables.len() as int).push(
        ProgressEvent { transferred: stored, total: stored },
    )
}

/// Whether `key` is the key of a chunk of one of the first `t` tables.
pub open spec fn written_by(
    name: Seq<u8>,
    rules: Seq<Rule>,
    tables: Seq<SourceModel>,
    options: OptionsModel,
    t: int,
    key: Seq<u8>,
) -> bool {
    exists|a: int|
        0 <= a < t && written_in(#[trigger] table_chunks(name, rules, tables[a], options), key)
}

/// The tables that a dump stores: each table's name and its rows after the
/// rules were applied.
pub open spec fn expected_tables(rules: Seq<Rule>, tables: Seq<SourceModel>, seed: u64) -> Seq<
    TableModel,
> {
    Seq::new(
        tables.len(),
        |t: int| (tables[t].name, transformed_rows(rules, tables[t], seed)),
    )
}

/// Storing the chunks of one table keeps the chunks of a table of another
/// name.
pub proof fn lemma_other_table_kept(
    now: Objects,
    next: Objects,
    name: Seq<u8>,
    rules: Seq<Rule>,
    other: SourceModel,
    table: SourceModel,
    options: OptionsModel,
)
    requires
        name_ok(name),
        name_ok(other.name),
        name_ok(table.name),
        other.name != table.name,
        holds_chunks(now, table_chunks(name, rules, other, options)),
        forall|key: Seq<u8>| #[trigger]
            same_at(now, next, key) || written_in(table_chunks(name, rules, table, options), key),
    ensures
        holds_chunks(next, table_chunks(name, rules, other, options)),
{
    let kept = table_chunks(name, rules, other, options);
    let added = table_chunks(name, rules, table, options);
    assert forall|k: int| 0 <= k < kept.len() implies next.contains_key((#[trigger] kept[k]).key)
        && next[kept[k].key] == kept[k].payload by {
        let key = kept[k].key;
        assert(same_at(now, next, key) || written_in(added, key));
        if written_in(added, key) {
            let j = choose|j: int| 0 <= j < added.len() && (#[trigger] added[j]).key == key;
            lemma_chunk_key_injective(name, other.name, k as nat, name, table.name, j as nat);
        }
    }
}

/// Dumps `tables` under the name `name`. The configuration is validated
/// first; then each table's rows go through the rules and the chunked writer,
/// and each chunk is stored as it is handed out; the index is stored last.
/// A row's ordinal is its index in its table.
pub fn dump<D: Datastore, P: ProgressSink>(
    store: &mut D,
    name: &[u8],
    tables: &Vec<Table>,
    rules: &Vec<Rule>,
    options: &DumpOptions,
    progress: &mut P,
) -> (res: Result<Dump, DumpError>)
    requires
        old(store).valid(),
        old(progress).ready(),
    ensures
        final(store).valid(),
        final(progress).ready(),
        final(store).writes() >= old(store).writes(),
        final(store).dependable() == old(store).dependable(),
        old(store).dependable() ==> !(res matches Err(DumpError::Store(_))),
        invisible(old(store).objects(), final(store).objects(), name@) || res is Ok,
        extends(old(progress).reported(), final(progress).reported()),
        match config_fault(name@, source_models(tables@), rules@) {
            Some(e) => {
                &&& res == Err::<Dump, DumpError>(DumpError::Config(e))
                &&& final(store).objects() == old(store).objects()
                &&& final(store).writes() == old(store).writes()
                &&& final(progress).reported() == old(progress).reported()
            },
            None => match res {
                Ok(d) => {
                    &&& forall|t: int|
                        0 <= t < tables.len() ==> table_appliable(
                            rules@,
                            #[trigger] source_models(tables@)[t],
                            options.seed,
                        )
                    &&& d@ == dump_index(name@, source_models(tables@), rules@, options@)
                    &&& index_fits(d@)
                    &&& final(store).objects().contains_key(index_key(name@))
                    &&& final(store).objects()[index_key(name@)] == encoded_index(d@)
                    &&& forall|t: int|
                        0 <= t < tables.len() ==> holds_chunks(
                            final(store).objects(),
                            table_chunks(
                                name@,
                                rules@,
                                #[trigger] source_models(tables@)[t],
                                options@,
                            ),
                        )
                    &&& forall|key: Seq<u8>|
                        key != index_key(name@) && !referenced(d@, key) ==> #[trigger] same_at(
                            old(store).objects(),
                            final(store).objects(),
                            key,
                        )
                    &&& final(store).writes() == old(store).writes()
                        + crate::catalog::chunks_before(d@.tables, d@.tables.len() as int) + 1
                    &&& final(progress).reported() == old(progress).reported() + dump_progress(
                        d@,
                        options.expected_total,
                    )
                    &&& restored(final(store).objects(), name@, options@.key) == Ok::<
                        Seq<TableModel>,
                        RestoreError,
                    >(expected_tables(rules@, source_models(tables@), options.seed))
                },
                Err(DumpError::Transform(e)) => transform_fault(
                    rules@,
                    source_models(tables@),
                    options.seed,
                    e,
                ),
                Err(DumpError::Store(_)) => true,
                Err(DumpError::Config(_)) => false,
            },
        },
{
    let ghost models = source_models(tables@);
    let ghost start = store.objects();
    let ghost sent = progress.reported();
    proof {
        assert(sent.take(sent.len() as int) =~= sent);
        lemma_config_fault(name@, models, rules@);
    }
    match validate(name, tables, rules) {
        Ok(()) => {},
        Err(e) => {
            return Err(DumpError::Config(e));
        },
    }
    let ghost index = dump_index(name@, models, rules@, options@);
    let ghost total = options.expected_total;
    let mut entries: Vec<TableEntry> = Vec::new();
    let mut written: u64 = 0;
    let mut t: usize = 0;
    while t < tables.len()
        invariant
            store.valid(),
            store.dependable() == old(store).dependable(),
            progress.ready(),
            models == source_models(tables@),
            start == old(store).objects(),
            sent == old(progress).reported(),
            index == dump_index(name@, models, rules@, options@),
            total == options.expected_total,
            config_valid(name@, models, rules@),
            config_fault(name@, models, rules@) is None,
            t <= tables.len(),
            entries.len() == t,
            forall|a: int| 0 <= a < t ==> (#[trigger] entries[a])@ == index.tables[a],
            forall|a: int|
                0 <= a < t ==> table_appliable(rules@, #[trigger] models[a], options.seed),
            forall|a: int|
                0 <= a < t ==> storable(
                    transformed_rows(rules@, #[trigger] models[a], options.seed),
                ),
            forall|a: int|
                0 <= a < t ==> holds_chunks(
                    store.objects(),
                    table_chunks(name@, rules@, #[trigger] models[a], options@),
                ),
            forall|key: Seq<u8>| #[trigger]
                same_at(start, store.objects(), key) || written_by(
                    name@,
                    rules@,
                    models,
                    options@,
                    t as int,
                    key,
                ),
            invisible(start, store.objects(), name@),
            store.writes() == old(store).writes() + crate::catalog::chunks_before(
                index.tables,
                t as int,
            ),
            written == capped(tables_bytes(index.tables, t as int)),
            progress.reported() == sent + tables_progress(index.tables, total, t as int),
        decreases tables.len() - t,
    {
        let ghost now = store.objects();
        let ghost reported = progress.reported();
        assert(models[t as int] == tables[t as int]@);
        assert(extends(sent, reported)) by {
            assert(reported.take(sent.len() as int) =~= sent);
        }
        let (entry, next) = match dump_table(
            store,
            name,
            &tables[t],
            t,
            rules,
            options,
            progress,
            written,
            Ghost(tables_bytes(index.tables, t as int)),
        ) {
            Ok(done) => done,
            Err(e) => {
                proof {
                    lemma_invisible_twice(start, now, store.objects(), name@);
                    lemma_extends_twice(sent, reported, progress.reported());
                }
                return Err(e);
            },
        };
        proof {
            let after = store.objects();
            lemma_invisible_twice(start, now, after, name@);
            assert forall|a: int| 0 <= a < t + 1 implies holds_chunks(
                after,
                table_chunks(name@, rules@, #[trigger] models[a], options@),
            ) by {
                if a < t {
                    lemma_other_table_kept(
                        now,
                        after,
                        name@,
                        rules@,
                        models[a],
                        models[t as int],
                        options@,
                    );
                }
            }
            assert forall|key: Seq<u8>| #[trigger]
                same_at(start, after, key) || written_by(
                    name@,
                    rules@,
                    models,
                    options@,
                    t + 1,
                    key,
                ) by {
                if !same_at(start, now, key) {
                    let a = choose|a: int|
                        0 <= a < t && written_in(
                            #[trigger] table_chunks(name@, rules@, models[a], options@),
                            key,
                        );
                    assert(written_in(table_chunks(name@, rules@, models[a], options@), key));
                } else if !same_at(now, after, key) {
                    assert(written_in(
                        table_chunks(name@, rules@, models[t as int], options@),
                        key,
                    ));
                }
            }
        }
        entries.push(entry);
        written = next;
        t += 1;
    }
    let d = Dump {
        name: bytes_of(name),
        created_at: options.created_at,
        compressed: options.compression,
        encrypted: options.key.is_some(),
        tables: entries,
    };
    assert(d@.tables =~= index.tables);
    let bytes = encode_index(&d);
    let key = index_key_of(name);
    let ghost now = store.objects();
    let ghost reported = progress.reported();
    match store.put(key.as_slice(), bytes.as_slice()) {
        Ok(()) => {},
        Err(cause) => {
            proof {
                assert(reported.take(sent.len() as int) =~= sent);
            }
            return Err(DumpError::Store(cause));
        },
    }
    progress.report(ProgressEvent { transferred: written, total: written });
    proof {
        let after = store.objects();
        let rows = Seq::new(
            models.len(),
            |t: int| transformed_rows(rules@, models[t], options.seed),
        );
        assert forall|a: int| 0 <= a < tables.len() implies holds_chunks(
            after,
            table_chunks(name@, rules@, #[trigger] models[a], options@),
        ) by {
            let chunks = table_chunks(name@, rules@, models[a], options@);
            assert forall|k: int| 0 <= k < chunks.len() implies after.contains_key(
                (#[trigger] chunks[k]).key,
            ) && after[chunks[k].key] == chunks[k].payload by {
                lemma_chunk_key_not_index(name@, models[a].name, k as nat, name@);
            }
        }
        assert forall|key: Seq<u8>|
            key != index_key(name@) && !referenced(d@, key) implies #[trigger] same_at(
            start,
            after,
            key,
        ) by {
            if !same_at(start, now, key) {
                let a = choose|a: int|
                    0 <= a < tables.len() && written_in(
                        #[trigger] table_chunks(name@, rules@, models[a], options@),
                        key,
                    );
                let chunks = table_chunks(name@, rules@, models[a], options@);
                let k = choose|k: int| 0 <= k < chunks.len() && (#[trigger] chunks[k]).key == key;
                assert(d@.tables[a].chunks[k].key == key);
            }
        }
        lemma_restored_dump(after, d@, rows, options@.chunk_size, options@.key);
        assert(Seq::new(rows.len(), |t: int| (d@.tables[t].table, rows[t])) =~= expected_tables(
            rules@,
            models,
            options.seed,
        ));
        assert(progress.reported().take(sent.len() as int) =~= sent);
    }
    Ok(d)
}

/// A store that changed twice at chunk keys of a dump only changed at chunk
/// keys of the dump only.
pub proof fn lemma_invisible_twice(first: Objects, second: Objects, third: Objects, name: Seq<u8>)
    requires
        invisible(first, second, name),
        invisible(second, third, name),
    ensures
        invisible(first, third, name),
{
    assert forall|key: Seq<u8>| #[trigger]
        same_at(first, third, key) || has_prefix(key, name + slash()) by {
        assert(same_at(first, second, key) || has_prefix(key, name + slash()));
        assert(same_at(second, third, key) || has_prefix(key, name + slash()));
    }
}

/// Reports that were added to twice were added to.
pub proof fn lemma_extends_twice(
    first: Seq<ProgressEvent>,
    second: Seq<ProgressEvent>,
    third: Seq<ProgressEvent>,
)
    requires
        extends(first, second),
        extends(second, third),
    ensures
        extends(first, third),
{
    assert(third.take(first.len() as int) =~= third.take(second.len() as int).take(
        first.len() as int,
    ));
}

/// An object among the indexes is no chunk of a dump: no key starts with both
/// `metadata/` and the name of a dump and a `/`.
pub proof fn lemma_index_not_under_dump(key: Seq<u8>, name: Seq<u8>)
    requires
        dump_name_ok(name),
        has_prefix(key, crate::keys::index_prefix()),
    ensures
        !has_prefix(key, name + slash()),
{
    let folder = crate::keys::index_folder();
    if has_prefix(key, name + slash()) {
        let first = key.skip(9);
        let second = key.skip(name.len() as int + 1);
        assert(key =~= folder + slash() + first);
        assert(key =~= name + slash() + second);
        assert(!folder.contains(47u8)) by {
            if folder.contains(47u8) {
                let i = choose|i: int| 0 <= i < folder.len() && folder[i] == 47u8;
                assert(i == 0 || i == 1 || i == 2 || i == 3 || i == 4 || i == 5 || i == 6 || i
                    == 7);
            }
        }
        crate::keys::lemma_split_at_slash(folder, first, name, second);
    }
}

/// The summaries of a list of index keys depend on the indexes only.
pub proof fn lemma_summaries_same(before: Objects, after: Objects, keys: Seq<Seq<u8>>, n: int)
    requires
        0 <= n <= keys.len(),
        forall|i: int| 0 <= i < keys.len() ==> same_at(before, after, #[trigger] keys[i]),
        forall|i: int| 0 <= i < keys.len() ==> before.contains_key(#[trigger] keys[i]),
    ensures
        crate::catalog::summaries(before, keys, n) == crate::catalog::summaries(after, keys, n),
    decreases n,
{
    if n > 0 {
        lemma_summaries_same(before, after, keys, n - 1);
    }
}

/// One direction of `lemma_failed_dump_unlisted`.
proof fn lemma_unlisted_one_way(
    before: Objects,
    after: Objects,
    name: Seq<u8>,
    outcome: Option<Seq<crate::catalog::SummaryModel>>,
)
    requires
        dump_name_ok(name),
        invisible(before, after, name),
        crate::catalog::list_outcome(before, outcome),
    ensures
        crate::catalog::list_outcome(after, outcome),
{
    let prefix = crate::keys::index_prefix();
    let keys = choose|keys: Seq<Seq<u8>>| #[trigger]
        crate::datastore::listing(before, prefix, keys) && outcome == match crate::catalog::summaries(
            before,
            keys,
            keys.len() as int,
        ) {
            Some(found) => Some(crate::catalog::newest_first(found)),
            None => None,
        };
    assert forall|key: Seq<u8>| has_prefix(key, prefix) implies same_at(before, after, key) by {
        lemma_index_not_under_dump(key, name);
    }
    lemma_summaries_same(before, after, keys, keys.len() as int);
    assert(crate::datastore::listing(after, prefix, keys));
}

/// What a dump that failed left in the store changes no
/// listing: the dumps listed after it are the dumps listed before it.
pub proof fn lemma_failed_dump_unlisted(
    before: Objects,
    after: Objects,
    name: Seq<u8>,
    outcome: Option<Seq<crate::catalog::SummaryModel>>,
)
    requires
        dump_name_ok(name),
        invisible(before, after, name),
    ensures
        crate::catalog::list_outcome(before, outcome) == crate::catalog::list_outcome(
            after,
            outcome,
        ),
{
    if crate::catalog::list_outcome(before, outcome) {
        lemma_unlisted_one_way(before, after, name, outcome);
    }
    if crate::catalog::list_outcome(after, outcome) {
        assert forall|key: Seq<u8>| #[trigger]
            same_at(after, before, key) || has_prefix(key, name + slash()) by {
            assert(same_at(before, after, key) || has_prefix(key, name + slash()));
        }
        lemma_unlisted_one_way(after, before, name, outcome);
    }
}

/// Whether the store holds the dump `name` of `tables`: its index and every
/// chunk of every table.
pub open spec fn holds_dump(
    objects: Objects,
    name: Seq<u8>,
    tables: Seq<SourceModel>,
    rules: Seq<Rule>,
    options: OptionsModel,
) -> bool {
    &&& objects.contains_key(index_key(name))
    &&& objects[index_key(name)] == encoded_index(dump_index(name, tables, rules, options))
    &&& forall|t: int|
        0 <= t < tables.len() ==> holds_chunks(
            objects,
            table_chunks(name, rules, #[trigger] tables[t], options),
        )
}

/// Two stores that hold a dump of the same name, tables, rules
/// and options, seed and creation time among them, hold the same bytes under
/// the key of the index and under the key of every chunk that the index
/// names.
pub proof fn lemma_dump_deterministic(
    first: Objects,
    second: Objects,
    name: Seq<u8>,
    tables: Seq<SourceModel>,
    rules: Seq<Rule>,
    options: OptionsModel,
    key: Seq<u8>,
)
    requires
        holds_dump(first, name, tables, rules, options),
        holds_dump(second, name, tables, rules, options),
        key == index_key(name) || referenced(dump_index(name, tables, rules, options), key),
    ensures
        first.contains_key(key),
        second.contains_key(key),
        first[key] == second[key],
{
    let d = dump_index(name, tables, rules, options);
    if key != index_key(name) {
        let (t, c) = choose|t: int, c: int|
            0 <= t < d.tables.len() && 0 <= c < d.tables[t].chunks.len() && (
            #[trigger] d.tables[t].chunks[c]).key == key;
    }
}

/// Of each value that a dump stores: its column keeps its name; without a
/// rule the value is the source value; with a rule it has the shape that the
/// rule's transformer promises, and differs from the source value where the
/// transformer alters that value.
pub proof fn lemma_stored_values(
    rules: Seq<Rule>,
    tables: Seq<SourceModel>,
    seed: u64,
    t: int,
    r: int,
    c: int,
)
    requires
        0 <= t < tables.len(),
        table_appliable(rules, tables[t], seed),
        0 <= r < tables[t].rows.len(),
        0 <= c < tables[t].rows[r].len(),
    ensures
        expected_tables(rules, tables, seed)[t].0 == tables[t].name,
        expected_tables(rules, tables, seed)[t].1.len() == tables[t].rows.len(),
        expected_tables(rules, tables, seed)[t].1[r].len() == tables[t].rows[r].len(),
        expected_tables(rules, tables, seed)[t].1[r][c].0 == tables[t].rows[r][c].0,
        match crate::rules::first_rule(
            rules,
            tables[t].name,
            tables[t].rows[r][c].0,
            rules.len() as int,
        ) {
            None => expected_tables(rules, tables, seed)[t].1[r][c].1 == tables[t].rows[r][c].1,
            Some(j) => {
                &&& 0 <= j < rules.len()
                &&& crate::rules::targets(rules[j], tables[t].name, tables[t].rows[r][c].0)
                &&& crate::transformer::well_shaped(
                    rules[j].transformer,
                    tables[t].rows[r][c].1,
                    expected_tables(rules, tables, seed)[t].1[r][c].1,
                )
                &&& crate::transformer::alters(rules[j].transformer, tables[t].rows[r][c].1)
                    ==> expected_tables(rules, tables, seed)[t].1[r][c].1 != tables[t].rows[r][c].1
            },
        },
{
    crate::rules::lemma_applied_column(rules, tables[t].name, tables[t].rows[r], seed, r as u64, c);
}

/// The chunks of a dump with a sound configuration have keys of their own:
/// no two chunks share a key, and no chunk has the key of an index.
pub proof fn lemma_chunk_keys_unique(
    name: Seq<u8>,
    tables: Seq<SourceModel>,
    rules: Seq<Rule>,
    options: OptionsModel,
    t1: int,
    c1: int,
    t2: int,
    c2: int,
    other: Seq<u8>,
)
    requires
        config_valid(name, tables, rules),
        0 <= t1 < tables.len(),
        0 <= t2 < tables.len(),
        0 <= c1 < table_chunks(name, rules, tables[t1], options).len(),
        0 <= c2 < table_chunks(name, rules, tables[t2], options).len(),
        !other.contains(47u8),
    ensures
        table_chunks(name, rules, tables[t1], options)[c1].key == table_chunks(
            name,
            rules,
            tables[t2],
            options,
        )[c2].key ==> t1 == t2 && c1 == c2,
        table_chunks(name, rules, tables[t1], options)[c1].key != index_key(other),
{
    lemma_chunk_key_not_index(name, tables[t1].name, c1 as nat, other);
    if table_chunks(name, rules, tables[t1], options)[c1].key == table_chunks(
        name,
        rules,
        tables[t2],
        options,
    )[c2].key {
        lemma_chunk_key_injective(
            name,
            tables[t1].name,
            c1 as nat,
            name,
            tables[t2].name,
            c2 as nat,
        );
    }
}

/// Rule sets that are the same name the same columns of every table.
pub proof fn lemma_ruled_columns_same(a: Seq<Rule>, b: Seq<Rule>, table: Seq<u8>, n: int)
    requires
        crate::rules::same_rules(a, b),
        0 <= n <= a.len(),
    ensures
        ruled_columns(a, table, n) == ruled_columns(b, table, n),
    decreases n,
{
    if n > 0 {
        lemma_ruled_columns_same(a, b, table, n - 1);
        assert(a[n - 1].table@ == b[n - 1].table@);
    }
}

/// What a dump stores depends on the tables, the rules as they are written
/// and the options, the seed among them, and on nothing else: not on the
/// store, and, but for the keys, the index's name and the time, not on the
/// dump. Two dumps of the same tables under rule sets that are the same and
/// with the same seed store the same rows, whatever their names, and with
/// the same name and options the same index and chunks.
pub proof fn lemma_dumps_agree(
    name: Seq<u8>,
    tables: Seq<SourceModel>,
    first: Seq<Rule>,
    second: Seq<Rule>,
    options: OptionsModel,
)
    requires
        crate::rules::same_rules(first, second),
    ensures
        expected_tables(first, tables, options.seed) == expected_tables(
            second,
            tables,
            options.seed,
        ),
        forall|t: int|
            0 <= t < tables.len() ==> table_appliable(first, #[trigger] tables[t], options.seed)
                == table_appliable(second, tables[t], options.seed),
        forall|t: int|
            0 <= t < tables.len() ==> table_chunks(name, first, #[trigger] tables[t], options)
                == table_chunks(name, second, tables[t], options),
        dump_index(name, tables, first, options) == dump_index(name, tables, second, options),
{
    assert forall|t: int| 0 <= t < tables.len() implies transformed_rows(
        first,
        #[trigger] tables[t],
        options.seed,
    ) == transformed_rows(second, tables[t], options.seed) && table_appliable(
        first,
        tables[t],
        options.seed,
    ) == table_appliable(second, tables[t], options.seed) && ruled_columns(
        first,
        tables[t].name,
        first.len() as int,
    ) == ruled_columns(second, tables[t].name, second.len() as int) by {
        let table = tables[t];
        assert forall|i: int| 0 <= i < table.rows.len() implies applied_row(
            first,
            table.name,
            #[trigger] table.rows[i],
            options.seed,
            i as u64,
        ) == applied_row(second, table.name, table.rows[i], options.seed, i as u64) && appliable(
            first,
            table.name,
            table.rows[i],
            options.seed,
            i as u64,
        ) == appliable(second, table.name, table.rows[i], options.seed, i as u64) by {
            crate::rules::lemma_applied_same(
                first,
                second,
                table.name,
                table.rows[i],
                options.seed,
                i as u64,
            );
        }
        assert(transformed_rows(first, table, options.seed) =~= transformed_rows(
            second,
            table,
            options.seed,
        ));
        lemma_ruled_columns_same(first, second, table.name, first.len() as int);
    }
    assert(expected_tables(first, tables, options.seed) =~= expected_tables(
        second,
        tables,
        options.seed,
    ));
    assert(dump_index(name, tables, first, options).tables =~= dump_index(
        name,
        tables,
        second,
        options,
    ).tables);
}

} // verus!
