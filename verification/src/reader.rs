//! The chunked reader: the chunks of a table entry in, rows out.
//!
//! The reader fetches the chunks that an entry names, in the entry's order.
//! Each chunk is opened, split into rows and held against the row count that
//! the entry records. A chunk that is missing or does not open to its rows
//! ends the reading: rows are never left out in silence.

use crate::chunk::{chunk_ref_models, ChunkRef, ChunkRefModel};
use crate::codec::{key_model, open, opened};
use crate::catalog::chunks_bytes;
use crate::datastore::{Datastore, Objects};
use crate::dump::{extends, table_progress};
use crate::progress::{capped, ProgressEvent, ProgressSink};
use crate::error::RestoreError;
use crate::row::{decode_rows, decoded_each, row_models, Row, RowModel};
use crate::wire::unpacked;
use vstd::prelude::*;

verus! {

/// What is wrong with a chunk.
#[derive(Clone, Copy, Debug, PartialEq, Eq, Structural)]
pub enum ChunkFault {
    /// The store holds nothing under the chunk's key.
    Missing,
    /// The object does not open to the rows that the index records.
    Corrupt,
}

/// The rows of the chunk that `r` records, as `objects` hold it.
pub open spec fn chunk_outcome(
    objects: Objects,
    r: ChunkRefModel,
    compressed: bool,
    key: Option<Seq<u8>>,
) -> Result<Seq<RowModel>, ChunkFault> {
    if !objects.contains_key(r.key) {
        Err(ChunkFault::Missing)
    } else {
        match opened(objects[r.key], compressed, key) {
            None => Err(ChunkFault::Corrupt),
            Some(raw) => match unpacked(raw) {
                None => Err(ChunkFault::Corrupt),
                Some(items) => match decoded_each(items) {
                    None => Err(ChunkFault::Corrupt),
                    Some(rows) => if rows.len() == r.rows {
                        Ok(rows)
                    } else {
                        Err(ChunkFault::Corrupt)
                    },
                },
            },
        }
    }
}

/// The rows of the first `n` chunks of a table, in order, or the index and
/// the fault of the first chunk that has one.
pub open spec fn gathered(
    objects: Objects,
    chunks: Seq<ChunkRefModel>,
    compressed: bool,
    key: Option<Seq<u8>>,
    n: int,
) -> Result<Seq<RowModel>, (int, ChunkFault)>
    decreases n,
{
    if n <= 0 {
        Ok(Seq::empty())
    } else {
        match gathered(objects, chunks, compressed, key, n - 1) {
            Err(fault) => Err(fault),
            Ok(rows) => match chunk_outcome(objects, chunks[n - 1], compressed, key) {
                Ok(more) => Ok(rows + more),
                Err(fault) => Err((n - 1, fault)),
            },
        }
    }
}

/// A fault among the first `n` chunks is the first fault among more.
pub proof fn lemma_gathered_fault_stays(
    objects: Objects,
    chunks: Seq<ChunkRefModel>,
    compressed: bool,
    key: Option<Seq<u8>>,
    n: int,
    m: int,
)
    requires
        0 <= n <= m,
        gathered(objects, chunks, compressed, key, n) is Err,
    ensures
        gathered(objects, chunks, compressed, key, m) == gathered(objects, chunks, compressed, key, n),
    decreases m - n,
{
    if n < m {
        lemma_gathered_fault_stays(objects, chunks, compressed, key, n, m - 1);
    }
}

/// The error that a chunk's fault makes of a restore.
pub open spec fn chunk_error(table: int, chunk: int, fault: ChunkFault) -> RestoreError {
    match fault {
        ChunkFault::Missing => RestoreError::MissingChunk {
            table: table as usize,
            chunk: chunk as usize,
        },
        ChunkFault::Corrupt => RestoreError::CorruptChunk {
            table: table as usize,
            chunk: chunk as usize,
        },
    }
}

/// The reader of one table: a position in the list of the table's chunks.
/// It only moves forward.
pub struct ChunkReader<'a> {
    /// The index of the table among the dump's tables.
    pub table: usize,
    /// The records of the table's chunks.
    pub chunks: &'a Vec<ChunkRef>,
    /// The number of chunks read so far.
    pub position: usize,
    /// Whether the chunks are compressed.
    pub compressed: bool,
    /// The key that the chunks are enciphered with, if they are.
    pub key: &'a Option<Vec<u8>>,
}

impl<'a> ChunkReader<'a> {
    /// The position is within the list.
    pub open spec fn wf(&self) -> bool {
        self.position <= self.chunks.len()
    }

    /// A reader at the first chunk of a table.
    pub fn new(
        table: usize,
        chunks: &'a Vec<ChunkRef>,
        compressed: bool,
        key: &'a Option<Vec<u8>>,
    ) -> (reader: ChunkReader<'a>)
        ensures
            reader.wf(),
            reader.table == table,
            reader.chunks == chunks,
            reader.position == 0,
            reader.compressed == compressed,
            reader.key == key,
    {
        ChunkReader { table, chunks, position: 0, compressed, key }
    }

    /// Fetches and opens the next chunk. `Ok(None)` at the end of the table.
    /// On an error the reader stays where it is.
    pub fn next_rows<D: Datastore>(&mut self, store: &D) -> (res: Result<
        Option<Vec<Row>>,
        RestoreError,
    >)
        requires
            old(self).wf(),
            store.valid(),
        ensures
            final(self).wf(),
            final(self).table == old(self).table,
            final(self).chunks == old(self).chunks,
            final(self).compressed == old(self).compressed,
            final(self).key == old(self).key,
            match res {
                Ok(None) => old(self).position == old(self).chunks.len() && final(self).position
                    == old(self).position,
                Ok(Some(rows)) => {
                    &&& old(self).position < old(self).chunks.len()
                    &&& final(self).position == old(self).position + 1
                    &&& chunk_outcome(
                        store.objects(),
                        old(self).chunks[old(self).position as int]@,
                        old(self).compressed,
                        key_model(*old(self).key),
                    ) == Ok::<Seq<RowModel>, ChunkFault>(row_models(rows@))
                },
                Err(RestoreError::Store(_)) => old(self).position < old(self).chunks.len()
                    && final(self).position == old(self).position && !store.dependable(),
                Err(e) => {
                    &&& old(self).position < old(self).chunks.len()
                    &&& final(self).position == old(self).position
                    &&& chunk_outcome(
                        store.objects(),
                        old(self).chunks[old(self).position as int]@,
                        old(self).compressed,
                        key_model(*old(self).key),
                    ) is Err
                    &&& e == chunk_error(
                        old(self).table as int,
                        old(self).position as int,
                        chunk_outcome(
                            store.objects(),
                            old(self).chunks[old(self).position as int]@,
                            old(self).compressed,
                            key_model(*old(self).key),
                        )->Err_0,
                    )
                },
            },
    {
        if self.position == self.chunks.len() {
            return Ok(None);
        }
        let record = &self.chunks[self.position];
        let payload = match store.get(record.key.as_slice()) {
            Err(cause) => {
                return Err(RestoreError::Store(cause));
            },
            Ok(None) => {
                return Err(
                    RestoreError::MissingChunk { table: self.table, chunk: self.position },
                );
            },
            Ok(Some(payload)) => payload,
        };
        let corrupt = RestoreError::CorruptChunk { table: self.table, chunk: self.position };
        let raw = match open(payload.as_slice(), self.compressed, self.key) {
            Some(raw) => raw,
            None => {
                return Err(corrupt);
            },
        };
        let rows = match decode_rows(raw.as_slice()) {
            Some(rows) => rows,
            None => {
                return Err(corrupt);
            },
        };
        if rows.len() as u64 != record.rows {
            return Err(corrupt);
        }
        self.position = self.position + 1;
        Ok(Some(rows))
    }
}

/// Reads all chunks of a table, in order, and reports the progress after
/// each: the bytes read so far, of which `read` were read before the table,
/// by the sizes that the index records, and `total`. Returns the rows and
/// the bytes read so far. The error is that of the first chunk that is
/// missing or corrupt, unless the store fails to answer before; the chunks
/// before it were reported.
pub fn read_table<D: Datastore, P: ProgressSink>(
    store: &D,
    table: usize,
    chunks: &Vec<ChunkRef>,
    compressed: bool,
    key: &Option<Vec<u8>>,
    progress: &mut P,
    read: u64,
    total: u64,
) -> (res: Result<(Vec<Row>, u64), RestoreError>)
    requires
        store.valid(),
        old(progress).ready(),
    ensures
        final(progress).ready(),
        extends(old(progress).reported(), final(progress).reported()),
        match res {
            Ok((rows, now)) => {
                &&& gathered(
                    store.objects(),
                    chunk_ref_models(chunks@),
                    compressed,
                    key_model(*key),
                    chunks.len() as int,
                ) == Ok::<Seq<RowModel>, (int, ChunkFault)>(row_models(rows@))
                &&& now == capped(
                    read as nat + chunks_bytes(chunk_ref_models(chunks@), chunks.len() as int),
                )
                &&& final(progress).reported() == old(progress).reported() + table_progress(
                    read as nat,
                    chunk_ref_models(chunks@),
                    total,
                )
            },
            Err(RestoreError::Store(_)) => !store.dependable(),
            Err(e) => match gathered(
                store.objects(),
                chunk_ref_models(chunks@),
                compressed,
                key_model(*key),
                chunks.len() as int,
            ) {
                Ok(_) => false,
                Err((chunk, fault)) => {
                    &&& e == chunk_error(table as int, chunk, fault)
                    &&& 0 <= chunk < chunks.len()
                    &&& final(progress).reported() == old(progress).reported() + table_progress(
                        read as nat,
                        chunk_ref_models(chunks@),
                        total,
                    ).take(chunk)
                },
            },
        },
{
    let ghost models = chunk_ref_models(chunks@);
    let ghost secret = key_model(*key);
    let ghost sent = progress.reported();
    let ghost reports = table_progress(read as nat, models, total);
    let mut reader = ChunkReader::new(table, chunks, compressed, key);
    let mut rows: Vec<Row> = Vec::new();
    let mut now = read;
    assert(row_models(rows@) =~= Seq::<RowModel>::empty());
    assert(sent + reports.take(0) =~= sent);
    loop
        invariant
            store.valid(),
            progress.ready(),
            reader.wf(),
            reader.table == table,
            reader.chunks == chunks,
            reader.compressed == compressed,
            reader.key == key,
            models == chunk_ref_models(chunks@),
            secret == key_model(*key),
            sent == old(progress).reported(),
            reports == table_progress(read as nat, models, total),
            now == capped(read as nat + chunks_bytes(models, reader.position as int)),
            progress.reported() == sent + reports.take(reader.position as int),
            gathered(store.objects(), models, compressed, secret, reader.position as int) == Ok::<
                Seq<RowModel>,
                (int, ChunkFault),
            >(row_models(rows@)),
        decreases chunks.len() - reader.position,
    {
        let ghost at = reader.position as int;
        let ghost so_far = row_models(rows@);
        proof {
            assert((sent + reports.take(at)).take(sent.len() as int) =~= sent);
        }
        match reader.next_rows(store) {
            Ok(None) => {
                assert(reports.take(at) =~= reports);
                return Ok((rows, now));
            },
            Ok(Some(mut more)) => {
                let ghost added = row_models(more@);
                rows.append(&mut more);
                assert(row_models(rows@) =~= so_far + added);
                assert(models[at] == chunks[at]@);
                now = now.saturating_add(chunks[reader.position - 1].size);
                progress.report(ProgressEvent { transferred: now, total });
                assert(sent + reports.take(at + 1) =~= (sent + reports.take(at)).push(
                    ProgressEvent { transferred: now, total },
                ));
            },
            Err(e) => {
                proof {
                    if !(e is Store) {
                        lemma_gathered_fault_stays(
                            store.objects(),
                            models,
                            compressed,
                            secret,
                            at + 1,
                            chunks.len() as int,
                        );
                    }
                }
                return Err(e);
            },
        }
    }
}

} // verus!
