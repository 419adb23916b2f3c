//! Restore: the rows of a dump, read back from the store.
//!
//! A dump is found by its index. Its tables are read in the index's order,
//! each through the chunked reader. The first chunk that is missing or corrupt
//! fails the restore.
//!
//! `restore` returns all rows at once. A caller that hands rows on as they
//! come reads the index with `read_index` and each chunk with
//! `reader::ChunkReader`.

use crate::catalog::{list, list_outcome, summary_models, tables_bytes, SummaryModel};
use crate::chunk::{chunk_ref_models, ChunkRefModel, TableEntryModel};
use crate::codec::key_model;
use crate::datastore::{Datastore, Objects};
use crate::dump::{dump_progress, extends, lemma_extends_twice, table_progress, tables_progress};
use crate::error::RestoreError;
use crate::index::{decode_index, decoded_index, Dump};
use crate::keys::{index_key, index_key_of};
use crate::progress::{capped, ProgressEvent, ProgressSink};
use crate::reader::{chunk_error, gathered, read_table};
use crate::row::{row_models, Row, RowModel};
use crate::wire::bytes_of;
use vstd::prelude::*;

verus! {

/// The rows of one table, as they come back from a dump.
#[derive(Clone, Debug, PartialEq, Eq)]
pub struct RestoredTable {
    pub name: Vec<u8>,
    pub rows: Vec<Row>,
}

/// A table as contracts see it: its name and its rows.
pub type TableModel = (Seq<u8>, Seq<RowModel>);

impl View for RestoredTable {
    type V = TableModel;

    open spec fn view(&self) -> TableModel {
        (self.name@, row_models(self.rows@))
    }
}

/// The tables held by a vector of them.
pub open spec fn table_models(tables: Seq<RestoredTable>) -> Seq<TableModel> {
    Seq::new(tables.len(), |i: int| tables[i]@)
}

/// Which dump to restore.
#[derive(Clone, Debug, PartialEq, Eq)]
pub enum Target {
    /// The dump that was made last.
    Latest,
    /// The dump of that name.
    Named(Vec<u8>),
}

/// The bytes of `latest`.
pub open spec fn latest_word() -> Seq<u8> {
    seq![108u8, 97u8, 116u8, 101u8, 115u8, 116u8]
}

impl Target {
    /// The target that an operator's word stands for: the dump made last for
    /// `latest`, and the dump of that name for any other word.
    pub fn parse(word: &[u8]) -> (target: Target)
        ensures
            match target {
                Target::Latest => word@ == latest_word(),
                Target::Named(name) => word@ != latest_word() && name@ == word@,
            },
    {
        let mut latest: Vec<u8> = Vec::new();
        latest.push(108u8);
        latest.push(97u8);
        latest.push(116u8);
        latest.push(101u8);
        latest.push(115u8);
        latest.push(116u8);
        assert(latest@ =~= latest_word());
        if crate::wire::bytes_eq(word, latest.as_slice()) {
            Target::Latest
        } else {
            Target::Named(bytes_of(word))
        }
    }
}

/// The key that the chunks of a dump are opened with: the given one where the
/// dump is enciphered, none where it is not.
pub open spec fn opening_key(encrypted: bool, key: Option<Seq<u8>>) -> Option<Seq<u8>> {
    if encrypted {
        key
    } else {
        None
    }
}

/// The first `n` tables of a dump, read back from `objects`, or the error of
/// the first chunk that is missing or corrupt.
pub open spec fn restored_tables(
    objects: Objects,
    entries: Seq<TableEntryModel>,
    compressed: bool,
    key: Option<Seq<u8>>,
    n: int,
) -> Result<Seq<TableModel>, RestoreError>
    decreases n,
{
    if n <= 0 {
        Ok(Seq::empty())
    } else {
        match restored_tables(objects, entries, compressed, key, n - 1) {
            Err(e) => Err(e),
            Ok(done) => match gathered(
                objects,
                entries[n - 1].chunks,
                compressed,
                key,
                entries[n - 1].chunks.len() as int,
            ) {
                Ok(rows) => Ok(done.push((entries[n - 1].table, rows))),
                Err((chunk, fault)) => Err(chunk_error(n - 1, chunk, fault)),
            },
        }
    }
}

/// What restoring the dump `name` from `objects` gives.
pub open spec fn restored(objects: Objects, name: Seq<u8>, key: Option<Seq<u8>>) -> Result<
    Seq<TableModel>,
    RestoreError,
> {
    if !objects.contains_key(index_key(name)) {
        Err(RestoreError::NotFound)
    } else {
        match decoded_index(objects[index_key(name)]) {
            None => Err(RestoreError::CorruptIndex),
            Some(d) => if d.encrypted && key is None {
                Err(RestoreError::KeyMissing)
            } else {
                restored_tables(
                    objects,
                    d.tables,
                    d.compressed,
                    opening_key(d.encrypted, key),
                    d.tables.len() as int,
                )
            },
        }
    }
}

/// An error among the first `n` tables is the first error among more.
pub proof fn lemma_restored_error_stays(
    objects: Objects,
    entries: Seq<TableEntryModel>,
    compressed: bool,
    key: Option<Seq<u8>>,
    n: int,
    m: int,
)
    requires
        0 <= n <= m,
        restored_tables(objects, entries, compressed, key, n) is Err,
    ensures
        restored_tables(objects, entries, compressed, key, m) == restored_tables(
            objects,
            entries,
            compressed,
            key,
            n,
        ),
    decreases m - n,
{
    if n < m {
        lemma_restored_error_stays(objects, entries, compressed, key, n, m - 1);
    }
}

/// Reads the index of the dump `name`.
pub fn read_index<D: Datastore>(store: &D, name: &[u8]) -> (res: Result<Dump, RestoreError>)
    requires
        store.valid(),
    ensures
        match res {
            Ok(d) => store.objects().contains_key(index_key(name@)) && decoded_index(
                store.objects()[index_key(name@)],
            ) == Some(d@),
            Err(RestoreError::NotFound) => !store.objects().contains_key(index_key(name@)),
            Err(RestoreError::CorruptIndex) => store.objects().contains_key(index_key(name@))
                && decoded_index(store.objects()[index_key(name@)]) is None,
            Err(RestoreError::Store(_)) => !store.dependable(),
            Err(_) => false,
        },
{
    let key = index_key_of(name);
    let bytes = match store.get(key.as_slice()) {
        Err(cause) => {
            return Err(RestoreError::Store(cause));
        },
        Ok(None) => {
            return Err(RestoreError::NotFound);
        },
        Ok(Some(bytes)) => bytes,
    };
    match decode_index(bytes.as_slice()) {
        Some(d) => Ok(d),
        None => Err(RestoreError::CorruptIndex),
    }
}

/// The progress reports of restoring the dump `name`: one after each chunk,
/// with the bytes read so far and the bytes of the dump, by the sizes that the
/// index records, and a last one in which both numbers are the bytes of the
/// dump.
pub open spec fn restore_progress(objects: Objects, name: Seq<u8>) -> Seq<ProgressEvent> {
    let d = decoded_index(objects[index_key(name)]).unwrap();
    dump_progress(d, capped(tables_bytes(d.tables, d.tables.len() as int)))
}

/// The progress reports of a restore of the dump `name` that fails at chunk
/// `chunk` of table `table`: those of the chunks before it.
pub open spec fn cut_progress(objects: Objects, name: Seq<u8>, table: int, chunk: int) -> Seq<
    ProgressEvent,
> {
    let d = decoded_index(objects[index_key(name)]).unwrap();
    let total = capped(tables_bytes(d.tables, d.tables.len() as int));
    tables_progress(d.tables, total, table) + table_progress(
        tables_bytes(d.tables, table),
        d.tables[table].chunks,
        total,
    ).take(chunk)
}

/// The progress reports of a restore of the dump `name` with the outcome
/// `outcome`: all reports after a success, those of the chunks that were
/// read after a failure over a chunk, and none after any other failure.
pub open spec fn restore_reports(
    objects: Objects,
    name: Seq<u8>,
    outcome: Result<Seq<TableModel>, RestoreError>,
) -> Seq<ProgressEvent> {
    match outcome {
        Ok(_) => restore_progress(objects, name),
        Err(RestoreError::MissingChunk { table, chunk }) => cut_progress(
            objects,
            name,
            table as int,
            chunk as int,
        ),
        Err(RestoreError::CorruptChunk { table, chunk }) => cut_progress(
            objects,
            name,
            table as int,
            chunk as int,
        ),
        Err(_) => Seq::empty(),
    }
}

/// The reports of a table do not depend on whether the bytes before it were
/// capped.
pub proof fn lemma_table_progress_capped(base: nat, records: Seq<ChunkRefModel>, total: u64)
    ensures
        table_progress(capped(base) as nat, records, total) == table_progress(base, records, total),
{
    assert(table_progress(capped(base) as nat, records, total) =~= table_progress(
        base,
        records,
        total,
    ));
}

/// Restores the dump `name`: reads its index, then every chunk of every
/// table, in order, and reports the progress after each chunk and at the
/// end. `key` opens the chunks of an enciphered dump.
pub fn restore_dump<D: Datastore, P: ProgressSink>(
    store: &D,
    name: &[u8],
    key: &Option<Vec<u8>>,
    progress: &mut P,
) -> (res: Result<Vec<RestoredTable>, RestoreError>)
    requires
        store.valid(),
        old(progress).ready(),
    ensures
        final(progress).ready(),
        extends(old(progress).reported(), final(progress).reported()),
        match res {
            Err(RestoreError::Store(_)) => !store.dependable(),
            _ => {
                &&& outcome_model(res) == restored(store.objects(), name@, key_model(*key))
                &&& final(progress).reported() == old(progress).reported() + restore_reports(
                    store.objects(),
                    name@,
                    outcome_model(res),
                )
            },
        },
{
    let ghost sent = progress.reported();
    assert(sent.take(sent.len() as int) =~= sent);
    assert(sent + Seq::<ProgressEvent>::empty() =~= sent);
    let d = match read_index(store, name) {
        Ok(d) => d,
        Err(e) => {
            return Err(e);
        },
    };
    if d.encrypted && key.is_none() {
        return Err(RestoreError::KeyMissing);
    }
    let none: Option<Vec<u8>> = None;
    let secret = if d.encrypted {
        key
    } else {
        &none
    };
    let total = d.size();
    let ghost entries = d@.tables;
    let ghost opening = opening_key(d.encrypted, key_model(*key));
    let mut tables: Vec<RestoredTable> = Vec::new();
    let mut read: u64 = 0;
    assert(table_models(tables@) =~= Seq::<TableModel>::empty());
    assert(sent + tables_progress(entries, total, 0) =~= sent);
    let mut t: usize = 0;
    while t < d.tables.len()
        invariant
            store.valid(),
            progress.ready(),
            t <= d.tables.len(),
            entries == d@.tables,
            sent == old(progress).reported(),
            total == capped(tables_bytes(entries, entries.len() as int)),
            read == capped(tables_bytes(entries, t as int)),
            progress.reported() == sent + tables_progress(entries, total, t as int),
            opening == key_model(*secret),
            opening == opening_key(d.encrypted, key_model(*key)),
            !(d.encrypted && key_model(*key) is None),
            store.objects().contains_key(index_key(name@)),
            decoded_index(store.objects()[index_key(name@)]) == Some(d@),
            restored_tables(store.objects(), entries, d.compressed, opening, t as int) == Ok::<
                Seq<TableModel>,
                RestoreError,
            >(table_models(tables@)),
        decreases d.tables.len() - t,
    {
        let entry = &d.tables[t];
        let ghost reported = progress.reported();
        assert(entries[t as int] == entry@);
        assert(entries[t as int].chunks == chunk_ref_models(entry.chunks@));
        assert(extends(sent, reported)) by {
            assert(reported.take(sent.len() as int) =~= sent);
        }
        match read_table(store, t, &entry.chunks, d.compressed, secret, progress, read, total) {
            Ok((rows, now)) => {
                let table = RestoredTable { name: bytes_of(entry.table.as_slice()), rows };
                proof {
                    assert(table_models(tables@.push(table)) =~= table_models(tables@).push(table@));
                    lemma_table_progress_capped(
                        tables_bytes(entries, t as int),
                        entries[t as int].chunks,
                        total,
                    );
                    assert(progress.reported() =~= sent + tables_progress(entries, total, t + 1));
                }
                tables.push(table);
                read = now;
            },
            Err(e) => {
                proof {
                    lemma_extends_twice(sent, reported, progress.reported());
                    if !(e is Store) {
                        lemma_table_progress_capped(
                            tables_bytes(entries, t as int),
                            entries[t as int].chunks,
                            total,
                        );
                        let (chunk, fault) = gathered(
                            store.objects(),
                            entries[t as int].chunks,
                            d.compressed,
                            opening,
                            entries[t as int].chunks.len() as int,
                        )->Err_0;
                        assert(e == chunk_error(t as int, chunk, fault));
                        assert(progress.reported() =~= sent + cut_progress(
                            store.objects(),
                            name@,
                            t as int,
                            chunk,
                        ));
                        assert(restored_tables(
                            store.objects(),
                            entries,
                            d.compressed,
                            opening,
                            t + 1,
                        ) == Err::<Seq<TableModel>, RestoreError>(e));
                        lemma_restored_error_stays(
                            store.objects(),
                            entries,
                            d.compressed,
                            opening,
                            t + 1,
                            d.tables.len() as int,
                        );
                    }
                }
                return Err(e);
            },
        }
        t += 1;
    }
    progress.report(ProgressEvent { transferred: read, total: read });
    proof {
        assert(progress.reported() =~= sent + restore_progress(store.objects(), name@));
        assert(progress.reported().take(sent.len() as int) =~= sent);
    }
    Ok(tables)
}

/// What restoring the newest dump of a listing gives.
pub open spec fn restored_latest(
    objects: Objects,
    outcome: Option<Seq<SummaryModel>>,
    key: Option<Seq<u8>>,
) -> Result<Seq<TableModel>, RestoreError> {
    match outcome {
        None => Err(RestoreError::CorruptIndex),
        Some(dumps) => if dumps.len() == 0 {
            Err(RestoreError::NotFound)
        } else {
            restored(objects, dumps[0].name, key)
        },
    }
}

/// The outcome of a restore, as contracts see it.
pub open spec fn outcome_model(res: Result<Vec<RestoredTable>, RestoreError>) -> Result<
    Seq<TableModel>,
    RestoreError,
> {
    match res {
        Ok(tables) => Ok(table_models(tables@)),
        Err(e) => Err(e),
    }
}

/// Restores the dump that `target` names: the named one, or for `Latest` the
/// first of the list of dumps, which is the one made last. The progress is
/// reported as `restore_dump` reports it.
pub fn restore<D: Datastore, P: ProgressSink>(
    store: &D,
    target: &Target,
    key: &Option<Vec<u8>>,
    progress: &mut P,
) -> (res: Result<Vec<RestoredTable>, RestoreError>)
    requires
        store.valid(),
        old(progress).ready(),
    ensures
        final(progress).ready(),
        extends(old(progress).reported(), final(progress).reported()),
        (res matches Err(RestoreError::Store(_)) && !store.dependable()) || match *target {
            Target::Named(name) => {
                &&& outcome_model(res) == restored(store.objects(), name@, key_model(*key))
                &&& final(progress).reported() == old(progress).reported() + restore_reports(
                    store.objects(),
                    name@,
                    outcome_model(res),
                )
            },
            Target::Latest => exists|outcome: Option<Seq<SummaryModel>>| #[trigger]
                list_outcome(store.objects(), outcome) && outcome_model(res) == restored_latest(
                    store.objects(),
                    outcome,
                    key_model(*key),
                ) && final(progress).reported() == old(progress).reported() + restore_reports(
                    store.objects(),
                    outcome.unwrap()[0].name,
                    outcome_model(res),
                ),
        },
{
    let ghost sent = progress.reported();
    assert(sent.take(sent.len() as int) =~= sent);
    assert(sent + Seq::<ProgressEvent>::empty() =~= sent);
    match target {
        Target::Named(name) => restore_dump(store, name.as_slice(), key, progress),
        Target::Latest => {
            let dumps = match list(store) {
                Ok(dumps) => dumps,
                Err(e) => {
                    assert(e is Store || list_outcome(store.objects(), None));
                    return Err(e);
                },
            };
            assert(list_outcome(store.objects(), Some(summary_models(dumps@))));
            if dumps.len() == 0 {
                return Err(RestoreError::NotFound);
            }
            assert(summary_models(dumps@)[0].name == dumps[0].name@);
            restore_dump(store, dumps[0].name.as_slice(), key, progress)
        },
    }
}

} // verus!
