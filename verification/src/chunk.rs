//! The chunked writer: encoded rows in, sealed chunks and a table entry out.
//!
//! Rows are buffered in arrival order. Once the buffer has reached the chunk
//! size after a row, it is sealed and handed out as the table's next chunk.
//! At the end of the table the rows still buffered make a last chunk.

use crate::codec::{key_model, seal, sealed};
use crate::keys::{chunk_key, chunk_key_of};
use crate::wire::{
    bytes_of, lemma_packed_len, lemma_packed_len_bound, packed, packed_len, views, write_frame,
};
use vstd::prelude::*;

verus! {

/// The chunk size of a dump that asks for none: 100 MiB.
pub const DEFAULT_CHUNK_SIZE: usize = 104_857_600;

/// What an index records of one chunk.
#[derive(Clone, Debug, PartialEq, Eq)]
pub struct ChunkRef {
    /// The key of the chunk's object.
    pub key: Vec<u8>,
    /// The number of bytes stored.
    pub size: u64,
    /// The number of rows in the chunk.
    pub rows: u64,
}

/// A `ChunkRef` as contracts see it.
pub struct ChunkRefModel {
    pub key: Seq<u8>,
    pub size: u64,
    pub rows: u64,
}

impl View for ChunkRef {
    type V = ChunkRefModel;

    open spec fn view(&self) -> ChunkRefModel {
        ChunkRefModel { key: self.key@, size: self.size, rows: self.rows }
    }
}

/// What an index records of one table.
#[derive(Clone, Debug, PartialEq, Eq)]
pub struct TableEntry {
    /// The table's name.
    pub table: Vec<u8>,
    /// The columns whose values were replaced, in the order of their rules.
    pub ruled: Vec<Vec<u8>>,
    /// The table's chunks, in the order of its rows.
    pub chunks: Vec<ChunkRef>,
}

/// A `TableEntry` as contracts see it.
pub struct TableEntryModel {
    pub table: Seq<u8>,
    pub ruled: Seq<Seq<u8>>,
    pub chunks: Seq<ChunkRefModel>,
}

/// The chunk records held by a vector of them.
pub open spec fn chunk_ref_models(chunks: Seq<ChunkRef>) -> Seq<ChunkRefModel> {
    Seq::new(chunks.len(), |i: int| chunks[i]@)
}

impl View for TableEntry {
    type V = TableEntryModel;

    open spec fn view(&self) -> TableEntryModel {
        TableEntryModel {
            table: self.table@,
            ruled: views(self.ruled@),
            chunks: chunk_ref_models(self.chunks@),
        }
    }
}

/// A chunk on its way to the store.
#[derive(Clone, Debug, PartialEq, Eq)]
pub struct Chunk {
    pub key: Vec<u8>,
    pub payload: Vec<u8>,
    pub rows: u64,
}

/// A `Chunk` as contracts see it.
pub struct ChunkModel {
    pub key: Seq<u8>,
    pub payload: Seq<u8>,
    pub rows: u64,
}

impl View for Chunk {
    type V = ChunkModel;

    open spec fn view(&self) -> ChunkModel {
        ChunkModel { key: self.key@, payload: self.payload@, rows: self.rows }
    }
}

/// How a table's chunks are laid out and sealed.
pub struct Layout {
    pub dump: Seq<u8>,
    pub table: Seq<u8>,
    pub chunk_size: nat,
    pub compression: bool,
    pub key: Option<Seq<u8>>,
}

/// The rows of a table split into the groups that were flushed and the rows
/// still buffered: a row joins the buffer, and the buffer is flushed once its
/// packed length has reached the chunk size.
pub open spec fn grouped(rows: Seq<Seq<u8>>, chunk_size: nat) -> (
    Seq<Seq<Seq<u8>>>,
    Seq<Seq<u8>>,
)
    decreases rows.len(),
{
    if rows.len() == 0 {
        (Seq::empty(), Seq::empty())
    } else {
        let (done, buffered) = grouped(rows.drop_last(), chunk_size);
        let grown = buffered.push(rows.last());
        if packed_len(grown) >= chunk_size {
            (done.push(grown), Seq::empty())
        } else {
            (done, grown)
        }
    }
}

/// The groups of rows that a table's chunks hold: the flushed groups, then the
/// rows left in the buffer, if there are any.
pub open spec fn chunked(rows: Seq<Seq<u8>>, chunk_size: nat) -> Seq<Seq<Seq<u8>>> {
    let (done, buffered) = grouped(rows, chunk_size);
    if buffered.len() > 0 {
        done.push(buffered)
    } else {
        done
    }
}

/// The rows of `groups`, one group after the other.
pub open spec fn joined(groups: Seq<Seq<Seq<u8>>>) -> Seq<Seq<u8>>
    decreases groups.len(),
{
    if groups.len() == 0 {
        Seq::empty()
    } else {
        joined(groups.drop_last()) + groups.last()
    }
}

/// Whether a row of `rows` ends after exactly `n` packed bytes.
pub open spec fn boundary(rows: Seq<Seq<u8>>, n: nat) -> bool {
    exists|j: int| 0 <= j <= rows.len() && packed_len(#[trigger] rows.take(j)) == n
}

/// Every multiple of the chunk size, up to the packed length of the table, is
/// where a row ends.
pub open spec fn fills_exactly(rows: Seq<Seq<u8>>, chunk_size: nat) -> bool {
    forall|n: nat|
        0 < n <= packed_len(rows) && n % chunk_size == 0 ==> #[trigger] boundary(rows, n)
}

/// The flushed groups and the buffered rows are the table's rows in order,
/// and no flushed group is empty.
pub proof fn lemma_grouped_joined(rows: Seq<Seq<u8>>, chunk_size: nat)
    ensures
        joined(grouped(rows, chunk_size).0) + grouped(rows, chunk_size).1 == rows,
        forall|k: int|
            0 <= k < grouped(rows, chunk_size).0.len() ==> (#[trigger] grouped(
                rows,
                chunk_size,
            ).0[k]).len() > 0,
    decreases rows.len(),
{
    if rows.len() == 0 {
        assert(joined(grouped(rows, chunk_size).0) + grouped(rows, chunk_size).1 =~= rows);
    } else {
        let init = rows.drop_last();
        lemma_grouped_joined(init, chunk_size);
        let (done, buffered) = grouped(init, chunk_size);
        let grown = buffered.push(rows.last());
        if packed_len(grown) >= chunk_size {
            assert(done.push(grown).drop_last() =~= done);
            assert(joined(done.push(grown)) + Seq::<Seq<u8>>::empty() =~= (joined(done)
                + buffered).push(rows.last()));
        }
    }
}

/// The chunks of a table hold its rows, in order; none is empty; and a table
/// with a row has a chunk.
pub proof fn lemma_chunked_joined(rows: Seq<Seq<u8>>, chunk_size: nat)
    ensures
        joined(chunked(rows, chunk_size)) == rows,
        forall|k: int|
            0 <= k < chunked(rows, chunk_size).len() ==> (#[trigger] chunked(
                rows,
                chunk_size,
            )[k]).len() > 0,
        rows.len() > 0 ==> chunked(rows, chunk_size).len() > 0,
{
    lemma_grouped_joined(rows, chunk_size);
    let (done, buffered) = grouped(rows, chunk_size);
    if buffered.len() > 0 {
        assert(done.push(buffered).drop_last() =~= done);
    }
}

/// A table with rows that packs into less than the chunk size makes one
/// chunk, which holds all its rows.
pub proof fn lemma_small_table_one_chunk(rows: Seq<Seq<u8>>, chunk_size: nat)
    requires
        packed_len(rows) < chunk_size,
    ensures
        grouped(rows, chunk_size) == (Seq::<Seq<Seq<u8>>>::empty(), rows),
        rows.len() > 0 ==> chunked(rows, chunk_size) == seq![rows],
        rows.len() == 0 ==> chunked(rows, chunk_size) == Seq::<Seq<Seq<u8>>>::empty(),
    decreases rows.len(),
{
    if rows.len() > 0 {
        let init = rows.drop_last();
        lemma_small_table_one_chunk(init, chunk_size);
        assert(init.push(rows.last()) =~= rows);
        assert(Seq::<Seq<Seq<u8>>>::empty().push(rows) =~= seq![rows]);
    } else {
        assert(rows =~= Seq::<Seq<u8>>::empty());
    }
}

/// A prefix of a table packs into no more bytes than the table.
pub proof fn lemma_prefix_len(rows: Seq<Seq<u8>>, j: int)
    requires
        0 <= j <= rows.len(),
    ensures
        packed_len(rows.take(j)) <= packed_len(rows),
        j < rows.len() ==> packed_len(rows.take(j)) < packed_len(rows),
    decreases rows.len(),
{
    if j == rows.len() {
        assert(rows.take(j) =~= rows);
    } else {
        assert(rows.drop_last().take(j) =~= rows.take(j));
        lemma_prefix_len(rows.drop_last(), j);
    }
}

/// Where every multiple of the chunk size is a row boundary, every flushed
/// group packs into exactly the chunk size, and the buffer into less.
pub proof fn lemma_grouped_sizes(rows: Seq<Seq<u8>>, chunk_size: nat)
    requires
        chunk_size > 0,
        fills_exactly(rows, chunk_size),
    ensures
        forall|k: int|
            0 <= k < grouped(rows, chunk_size).0.len() ==> packed_len(
                #[trigger] grouped(rows, chunk_size).0[k],
            ) == chunk_size,
        packed_len(grouped(rows, chunk_size).1) < chunk_size,
        packed_len(rows) == grouped(rows, chunk_size).0.len() * chunk_size + packed_len(
            grouped(rows, chunk_size).1,
        ),
    decreases rows.len(),
{
    if rows.len() > 0 {
        let init = rows.drop_last();
        assert forall|n: nat| 0 < n <= packed_len(init) && n % chunk_size == 0 implies #[trigger] boundary(
            init,
            n,
        ) by {
            assert(boundary(rows, n));
            let j = choose|j: int| 0 <= j <= rows.len() && packed_len(#[trigger] rows.take(j)) == n;
            if j == rows.len() {
                assert(rows.take(j) =~= rows);
            }
            assert(init.take(j) =~= rows.take(j));
        }
        lemma_grouped_sizes(init, chunk_size);
        let (done, buffered) = grouped(init, chunk_size);
        let grown = buffered.push(rows.last());
        assert(grown.drop_last() =~= buffered);
        let d = done.len();
        assert((d + 1) * chunk_size == d * chunk_size + chunk_size) by (nonlinear_arith);
        if packed_len(grown) >= chunk_size {
            let n = (d + 1) * chunk_size;
            vstd::arithmetic::div_mod::lemma_mod_multiples_basic((d + 1) as int, chunk_size as int);
            assert(boundary(rows, n));
            let j = choose|j: int| 0 <= j <= rows.len() && packed_len(#[trigger] rows.take(j)) == n;
            if j < rows.len() {
                assert(init.take(j) =~= rows.take(j));
                lemma_prefix_len(init, j);
            } else {
                assert(rows.take(j) =~= rows);
            }
        }
    }
}

/// Where every multiple of the chunk size is a row boundary,
/// every chunk but the last holds exactly the chunk size of raw bytes, and the
/// last chunk holds what is left.
pub proof fn lemma_chunk_sizes(rows: Seq<Seq<u8>>, chunk_size: nat)
    requires
        chunk_size > 0,
        fills_exactly(rows, chunk_size),
    ensures
        forall|k: int|
            0 <= k < chunked(rows, chunk_size).len() - 1 ==> packed(
                #[trigger] chunked(rows, chunk_size)[k],
            ).len() == chunk_size,
        chunked(rows, chunk_size).len() > 0 ==> packed(chunked(rows, chunk_size).last()).len()
            == packed(rows).len() - (chunked(rows, chunk_size).len() - 1) * chunk_size,
{
    lemma_grouped_sizes(rows, chunk_size);
    lemma_packed_len(rows);
    let (done, buffered) = grouped(rows, chunk_size);
    let groups = chunked(rows, chunk_size);
    let d = done.len();
    assert forall|k: int| 0 <= k < groups.len() implies packed(#[trigger] groups[k]).len()
        == packed_len(groups[k]) by {
        lemma_packed_len(groups[k]);
    }
    if buffered.len() == 0 && d > 0 {
        assert(d * chunk_size == (d - 1) * chunk_size + chunk_size) by (nonlinear_arith);
    }
}

/// Whatever the rows, every chunk but the last holds at least the chunk size
/// of raw bytes, and would hold less without its last row.
pub proof fn lemma_chunk_bounds(rows: Seq<Seq<u8>>, chunk_size: nat)
    ensures
        forall|k: int|
            0 <= k < grouped(rows, chunk_size).0.len() ==> {
                let group = #[trigger] grouped(rows, chunk_size).0[k];
                packed_len(group.drop_last()) < chunk_size <= packed_len(group) || (chunk_size
                    == 0 && group.len() == 1)
            },
        packed_len(grouped(rows, chunk_size).1) < chunk_size || grouped(rows, chunk_size).1.len()
            == 0,
    decreases rows.len(),
{
    if rows.len() > 0 {
        let init = rows.drop_last();
        lemma_chunk_bounds(init, chunk_size);
        let (done, buffered) = grouped(init, chunk_size);
        let grown = buffered.push(rows.last());
        assert(grown.drop_last() =~= buffered);
    }
}

/// The chunk that holds `group` as chunk `seq` of its table.
pub open spec fn chunk_of(layout: Layout, seq: nat, group: Seq<Seq<u8>>) -> ChunkModel {
    ChunkModel {
        key: chunk_key(layout.dump, layout.table, seq),
        payload: sealed(packed(group), layout.compression, layout.key),
        rows: group.len() as u64,
    }
}

/// What the index records of a chunk.
pub open spec fn ref_of(chunk: ChunkModel) -> ChunkRefModel {
    ChunkRefModel { key: chunk.key, size: chunk.payload.len() as u64, rows: chunk.rows }
}

/// The chunks that hold `groups`, numbered from zero.
pub open spec fn chunks_of(layout: Layout, groups: Seq<Seq<Seq<u8>>>) -> Seq<ChunkModel> {
    Seq::new(groups.len(), |k: int| chunk_of(layout, k as nat, groups[k]))
}

/// What the index records of `chunks`.
pub open spec fn refs_of(chunks: Seq<ChunkModel>) -> Seq<ChunkRefModel> {
    Seq::new(chunks.len(), |k: int| ref_of(chunks[k]))
}

/// The streaming writer of one table.
pub struct ChunkWriter {
    pub dump: Vec<u8>,
    pub table: Vec<u8>,
    pub ruled: Vec<Vec<u8>>,
    pub chunk_size: usize,
    pub compression: bool,
    pub key: Option<Vec<u8>>,
    /// The packed rows that no chunk holds yet.
    pub buffer: Vec<u8>,
    /// The number of rows in the buffer.
    pub buffered: u64,
    /// The records of the chunks handed out so far.
    pub chunks: Vec<ChunkRef>,
    /// The rows taken in so far.
    pub seen: Ghost<Seq<Seq<u8>>>,
}

impl ChunkWriter {
    /// The layout that the writer seals its chunks for.
    pub open spec fn layout(&self) -> Layout {
        Layout {
            dump: self.dump@,
            table: self.table@,
            chunk_size: self.chunk_size as nat,
            compression: self.compression,
            key: key_model(self.key),
        }
    }

    /// The buffer holds the rows that `grouped` leaves over, and the records
    /// are those of the groups that it flushed.
    pub open spec fn wf(&self) -> bool {
        let (done, buffered) = grouped(self.seen@, self.chunk_size as nat);
        &&& self.buffer@ == packed(buffered)
        &&& self.buffered == buffered.len()
        &&& chunk_ref_models(self.chunks@) == refs_of(chunks_of(self.layout(), done))
    }

    /// A writer for `table` of `dump` that has seen no row yet.
    pub fn new(
        dump: &[u8],
        table: &[u8],
        ruled: Vec<Vec<u8>>,
        chunk_size: usize,
        compression: bool,
        key: Option<Vec<u8>>,
    ) -> (writer: ChunkWriter)
        ensures
            writer.wf(),
            writer.seen@ == Seq::<Seq<u8>>::empty(),
            writer.layout() == (Layout {
                dump: dump@,
                table: table@,
                chunk_size: chunk_size as nat,
                compression,
                key: key_model(key),
            }),
            writer.ruled == ruled,
    {
        let writer = ChunkWriter {
            dump: bytes_of(dump),
            table: bytes_of(table),
            ruled,
            chunk_size,
            compression,
            key,
            buffer: Vec::new(),
            buffered: 0,
            chunks: Vec::new(),
            seen: Ghost(Seq::empty()),
        };
        assert(chunk_ref_models(writer.chunks@) =~= refs_of(
            chunks_of(writer.layout(), Seq::empty()),
        ));
        writer
    }

    /// Seals the buffer as the table's next chunk and empties it.
    fn flush(&mut self, Ghost(group): Ghost<Seq<Seq<u8>>>) -> (chunk: Chunk)
        requires
            old(self).buffer@ == packed(group),
            old(self).buffered == group.len(),
        ensures
            chunk@ == chunk_of(old(self).layout(), old(self).chunks.len() as nat, group),
            final(self).layout() == old(self).layout(),
            final(self).ruled == old(self).ruled,
            final(self).seen == old(self).seen,
            final(self).buffer@ == Seq::<u8>::empty(),
            final(self).buffered == 0,
            chunk_ref_models(final(self).chunks@) == chunk_ref_models(old(self).chunks@).push(
                ref_of(chunk@),
            ),
    {
        let key = chunk_key_of(self.dump.as_slice(), self.table.as_slice(), self.chunks.len() as u64);
        let payload = seal(self.buffer.as_slice(), self.compression, &self.key);
        let record = ChunkRef {
            key: bytes_of(key.as_slice()),
            size: payload.len() as u64,
            rows: self.buffered,
        };
        let chunk = Chunk { key, payload, rows: self.buffered };
        self.chunks.push(record);
        self.buffer = Vec::new();
        self.buffered = 0;
        assert(chunk_ref_models(self.chunks@) =~= chunk_ref_models(old(self).chunks@).push(
            ref_of(chunk@),
        ));
        chunk
    }

    /// Takes in the next encoded row. Hands out a chunk where the buffer has
    /// reached the chunk size with this row.
    pub fn push_row(&mut self, row: &[u8]) -> (res: Option<Chunk>)
        requires
            old(self).wf(),
        ensures
            final(self).wf(),
            final(self).layout() == old(self).layout(),
            final(self).ruled == old(self).ruled,
            final(self).seen@ == old(self).seen@.push(row@),
            ({
                let before = grouped(old(self).seen@, old(self).chunk_size as nat);
                let after = grouped(final(self).seen@, old(self).chunk_size as nat);
                if packed_len(before.1.push(row@)) >= old(self).chunk_size {
                    &&& after.0 == before.0.push(before.1.push(row@))
                    &&& res is Some
                    &&& res.unwrap()@ == chunk_of(
                        old(self).layout(),
                        before.0.len(),
                        before.1.push(row@),
                    )
                } else {
                    &&& after.0 == before.0
                    &&& res is None
                }
            }),
    {
        let ghost before = grouped(self.seen@, self.chunk_size as nat);
        let ghost grown = before.1.push(row@);
        let ghost next = self.seen@.push(row@);
        proof {
            assert(next.drop_last() =~= self.seen@);
            assert(grown.drop_last() =~= before.1);
            lemma_packed_len(grown);
            lemma_packed_len(before.1);
        }
        write_frame(&mut self.buffer, row);
        let filled = self.buffer.len();
        proof {
            lemma_packed_len_bound(grown);
        }
        self.buffered = self.buffered + 1;
        self.seen = Ghost(next);
        if filled >= self.chunk_size {
            let chunk = self.flush(Ghost(grown));
            proof {
                let layout = self.layout();
                assert(refs_of(chunks_of(layout, before.0.push(grown))) =~= refs_of(
                    chunks_of(layout, before.0),
                ).push(ref_of(chunk@)));
            }
            Some(chunk)
        } else {
            None
        }
    }

    /// Ends the table: hands out the rows still buffered as a last chunk, if
    /// there are any, and the table's entry for the index.
    pub fn finish(self) -> (res: (Option<Chunk>, TableEntry))
        requires
            self.wf(),
        ensures
            ({
                let (done, buffered) = grouped(self.seen@, self.chunk_size as nat);
                let groups = chunked(self.seen@, self.chunk_size as nat);
                &&& res.1@ == (TableEntryModel {
                    table: self.table@,
                    ruled: views(self.ruled@),
                    chunks: refs_of(chunks_of(self.layout(), groups)),
                })
                &&& if buffered.len() > 0 {
                    res.0 is Some && res.0.unwrap()@ == chunk_of(
                        self.layout(),
                        done.len(),
                        buffered,
                    )
                } else {
                    res.0 is None
                }
            }),
    {
        let mut writer = self;
        let ghost layout = writer.layout();
        let ghost (done, buffered) = grouped(writer.seen@, writer.chunk_size as nat);
        let last = if writer.buffered > 0 {
            let chunk = writer.flush(Ghost(buffered));
            proof {
                assert(refs_of(chunks_of(layout, done.push(buffered))) =~= refs_of(
                    chunks_of(layout, done),
                ).push(ref_of(chunk@)));
            }
            Some(chunk)
        } else {
            None
        };
        let entry = TableEntry { table: writer.table, ruled: writer.ruled, chunks: writer.chunks };
        (last, entry)
    }
}

} // verus!
