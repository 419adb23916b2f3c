//! The catalogue of a store: listing its dumps, and deleting one.
//!
//! A dump is in the catalogue where its index is in the store; chunks
//! without an index are not seen. A dump is listed under the name that its
//! key ends in. The list is ordered by creation time, the newest first, and
//! dumps of one time in the order of their keys.
//!
//! Deleting asks the store to remove each chunk that the index names, in the
//! order of the index, and goes on whatever the answers. Only where every
//! chunk is gone does it ask for the index to be removed. Where a removal
//! failed, the index stays and the deletion fails with the number of
//! failures. The contract speaks of the removals that the store was asked
//! for, which the store records, and of what is left in it.

use crate::chunk::{chunk_ref_models, ChunkRef, ChunkRefModel, TableEntry, TableEntryModel};
use crate::datastore::{listing, Datastore, Objects};
use crate::error::{DeleteError, RestoreError};
use crate::index::{decode_index, decoded_index, Dump, DumpModel};
use crate::keys::{
    has_prefix, index_key, index_key_of, index_prefix, index_prefix_bytes, version_key,
    version_key_bytes,
};
use crate::progress::capped;
use crate::wire::{bytes_eq, bytes_of, views};
use vstd::prelude::*;
use vstd::seq_lib::{to_multiset_build, to_multiset_insert};

verus! {

/// What the list of dumps shows of one dump.
#[derive(Clone, Debug, PartialEq, Eq)]
pub struct DumpSummary {
    pub name: Vec<u8>,
    /// When the dump was made, in milliseconds since the epoch.
    pub created_at: u64,
    /// The number of bytes that the dump's chunks take in the store, or the
    /// largest `u64` where they take more.
    pub size: u64,
    pub compressed: bool,
    pub encrypted: bool,
}

/// A `DumpSummary` as contracts see it.
pub struct SummaryModel {
    pub name: Seq<u8>,
    pub created_at: u64,
    pub size: u64,
    pub compressed: bool,
    pub encrypted: bool,
}

impl View for DumpSummary {
    type V = SummaryModel;

    open spec fn view(&self) -> SummaryModel {
        SummaryModel {
            name: self.name@,
            created_at: self.created_at,
            size: self.size,
            compressed: self.compressed,
            encrypted: self.encrypted,
        }
    }
}

/// The summaries held by a vector of them.
pub open spec fn summary_models(dumps: Seq<DumpSummary>) -> Seq<SummaryModel> {
    Seq::new(dumps.len(), |i: int| dumps[i]@)
}

/// The recorded sizes of the first `n` chunks, added up.
pub open spec fn chunks_bytes(chunks: Seq<ChunkRefModel>, n: int) -> nat
    decreases n,
{
    if n <= 0 {
        0
    } else {
        chunks_bytes(chunks, n - 1) + chunks[n - 1].size as nat
    }
}

/// The recorded sizes of the chunks of the first `n` tables, added up.
pub open spec fn tables_bytes(tables: Seq<TableEntryModel>, n: int) -> nat
    decreases n,
{
    if n <= 0 {
        0
    } else {
        tables_bytes(tables, n - 1) + chunks_bytes(
            tables[n - 1].chunks,
            tables[n - 1].chunks.len() as int,
        )
    }
}

/// The recorded row counts of the first `n` chunks, added up.
pub open spec fn chunks_rows(chunks: Seq<ChunkRefModel>, n: int) -> nat
    decreases n,
{
    if n <= 0 {
        0
    } else {
        chunks_rows(chunks, n - 1) + chunks[n - 1].rows as nat
    }
}

/// What the list shows of a dump.
pub open spec fn summary_of(d: DumpModel) -> SummaryModel {
    SummaryModel {
        name: d.name,
        created_at: d.created_at,
        size: capped(tables_bytes(d.tables, d.tables.len() as int)),
        compressed: d.compressed,
        encrypted: d.encrypted,
    }
}

impl TableEntry {
    /// The number of bytes that the table's chunks take in the store: the
    /// sum of the recorded chunk sizes, or the largest `u64` where it is
    /// larger.
    pub fn size(&self) -> (total: u64)
        ensures
            total == capped(chunks_bytes(self@.chunks, self.chunks.len() as int)),
    {
        let mut total: u64 = 0;
        let mut i: usize = 0;
        while i < self.chunks.len()
            invariant
                i <= self.chunks.len(),
                total == capped(chunks_bytes(self@.chunks, i as int)),
            decreases self.chunks.len() - i,
        {
            total = total.saturating_add(self.chunks[i].size);
            i += 1;
        }
        total
    }

    /// The number of rows of the table: the sum of the recorded row counts,
    /// or the largest `u64` where it is larger.
    pub fn rows(&self) -> (total: u64)
        ensures
            total == capped(chunks_rows(self@.chunks, self.chunks.len() as int)),
    {
        let mut total: u64 = 0;
        let mut i: usize = 0;
        while i < self.chunks.len()
            invariant
                i <= self.chunks.len(),
                total == capped(chunks_rows(self@.chunks, i as int)),
            decreases self.chunks.len() - i,
        {
            total = total.saturating_add(self.chunks[i].rows);
            i += 1;
        }
        total
    }
}

impl Dump {
    /// The number of bytes that the dump's chunks take in the store, or the
    /// largest `u64` where they take more.
    pub fn size(&self) -> (total: u64)
        ensures
            total == capped(tables_bytes(self@.tables, self.tables.len() as int)),
    {
        let mut total: u64 = 0;
        let mut i: usize = 0;
        while i < self.tables.len()
            invariant
                i <= self.tables.len(),
                total == capped(tables_bytes(self@.tables, i as int)),
            decreases self.tables.len() - i,
        {
            total = total.saturating_add(self.tables[i].size());
            i += 1;
        }
        total
    }

    /// What the list shows of the dump.
    pub fn summary(&self) -> (out: DumpSummary)
        ensures
            out@ == summary_of(self@),
    {
        DumpSummary {
            name: bytes_of(self.name.as_slice()),
            created_at: self.created_at,
            size: self.size(),
            compressed: self.compressed,
            encrypted: self.encrypted,
        }
    }
}

/// Where `x` goes in a list that is ordered newest first: behind every dump
/// that is as new or newer.
pub open spec fn place(sorted: Seq<SummaryModel>, x: SummaryModel) -> int
    decreases sorted.len(),
{
    if sorted.len() == 0 {
        0
    } else if sorted.last().created_at >= x.created_at {
        sorted.len() as int
    } else {
        place(sorted.drop_last(), x)
    }
}

/// The dumps ordered by creation time, the newest first; dumps of one time
/// stay in their order.
pub open spec fn newest_first(dumps: Seq<SummaryModel>) -> Seq<SummaryModel>
    decreases dumps.len(),
{
    if dumps.len() == 0 {
        Seq::empty()
    } else {
        let sorted = newest_first(dumps.drop_last());
        sorted.insert(place(sorted, dumps.last()), dumps.last())
    }
}

/// No dump in the list is followed by a newer one.
pub open spec fn is_newest_first(dumps: Seq<SummaryModel>) -> bool {
    forall|i: int, j: int|
        0 <= i < j < dumps.len() ==> (#[trigger] dumps[i]).created_at >= (
        #[trigger] dumps[j]).created_at
}

/// `place` is a position of the list; everything from it on is older than
/// `x`, and what stands before it is not.
pub proof fn lemma_place(sorted: Seq<SummaryModel>, x: SummaryModel)
    ensures
        0 <= place(sorted, x) <= sorted.len(),
        forall|j: int|
            place(sorted, x) <= j < sorted.len() ==> (#[trigger] sorted[j]).created_at
                < x.created_at,
        place(sorted, x) > 0 ==> sorted[place(sorted, x) - 1].created_at >= x.created_at,
    decreases sorted.len(),
{
    if sorted.len() > 0 && sorted.last().created_at < x.created_at {
        lemma_place(sorted.drop_last(), x);
        let p = place(sorted.drop_last(), x);
        assert forall|j: int| p <= j < sorted.len() implies (#[trigger] sorted[j]).created_at
            < x.created_at by {
            if j < sorted.len() - 1 {
                assert(sorted.drop_last()[j] == sorted[j]);
            }
        }
    }
}

/// The ordered list holds the same dumps as the list it was made from, each
/// as often, and none of them is followed by a newer one.
pub proof fn lemma_newest_first(dumps: Seq<SummaryModel>)
    ensures
        is_newest_first(newest_first(dumps)),
        newest_first(dumps).len() == dumps.len(),
        newest_first(dumps).to_multiset() == dumps.to_multiset(),
    decreases dumps.len(),
{
    if dumps.len() == 0 {
        assert(newest_first(dumps) =~= dumps);
    } else {
        let init = dumps.drop_last();
        let x = dumps.last();
        lemma_newest_first(init);
        let sorted = newest_first(init);
        lemma_place(sorted, x);
        let p = place(sorted, x);
        to_multiset_insert(sorted, p, x);
        to_multiset_build(init, x);
        assert(init.push(x) =~= dumps);
    }
}

/// What the list shows of the dump whose index `d` lies under `key`: the
/// name is what follows `metadata/` in the key.
pub open spec fn summary_at(key: Seq<u8>, d: DumpModel) -> SummaryModel {
    SummaryModel {
        name: key.skip(index_prefix().len() as int),
        created_at: d.created_at,
        size: capped(tables_bytes(d.tables, d.tables.len() as int)),
        compressed: d.compressed,
        encrypted: d.encrypted,
    }
}

/// The summaries of the indexes under the first `n` of `keys`, in the order of
/// the keys; the version marker is passed over. `None` where an object is no
/// index.
pub open spec fn summaries(objects: Objects, keys: Seq<Seq<u8>>, n: int) -> Option<
    Seq<SummaryModel>,
>
    decreases n,
{
    if n <= 0 {
        Some(Seq::empty())
    } else {
        match summaries(objects, keys, n - 1) {
            None => None,
            Some(done) => if keys[n - 1] == version_key() {
                Some(done)
            } else {
                match decoded_index(objects[keys[n - 1]]) {
                    Some(d) => Some(done.push(summary_at(keys[n - 1], d))),
                    None => None,
                }
            },
        }
    }
}

/// A failure among the first `n` keys is a failure among more.
pub proof fn lemma_summaries_fail(objects: Objects, keys: Seq<Seq<u8>>, n: int, m: int)
    requires
        0 <= n <= m,
        summaries(objects, keys, n) is None,
    ensures
        summaries(objects, keys, m) is None,
    decreases m - n,
{
    if n < m {
        lemma_summaries_fail(objects, keys, n, m - 1);
    }
}

/// `outcome` is what listing the dumps of `objects` gives: the summaries of
/// all indexes, newest first, or `None` where an object among the indexes is
/// none.
pub open spec fn list_outcome(objects: Objects, outcome: Option<Seq<SummaryModel>>) -> bool {
    exists|keys: Seq<Seq<u8>>| #[trigger]
        listing(objects, index_prefix(), keys) && outcome == match summaries(
            objects,
            keys,
            keys.len() as int,
        ) {
            Some(found) => Some(newest_first(found)),
            None => None,
        }
}

/// Whether a dump of the name `name` is in the list.
pub open spec fn names_in(dumps: Seq<SummaryModel>, name: Seq<u8>) -> bool {
    exists|i: int| 0 <= i < dumps.len() && (#[trigger] dumps[i]).name == name
}

/// Whether one of the first `n` keys, the version marker's apart, ends in
/// `name` behind `metadata/`.
pub open spec fn key_named(keys: Seq<Seq<u8>>, n: int, name: Seq<u8>) -> bool {
    exists|i: int|
        0 <= i < n && (#[trigger] keys[i]) != version_key() && keys[i].skip(
            index_prefix().len() as int,
        ) == name
}

/// The summaries of a list of keys bear the names that the keys end in.
pub proof fn lemma_summaries_names(objects: Objects, keys: Seq<Seq<u8>>, n: int, name: Seq<u8>)
    requires
        0 <= n <= keys.len(),
        summaries(objects, keys, n) is Some,
    ensures
        names_in(summaries(objects, keys, n).unwrap(), name) <==> key_named(keys, n, name),
    decreases n,
{
    if n > 0 {
        lemma_summaries_names(objects, keys, n - 1, name);
        let done = summaries(objects, keys, n - 1).unwrap();
        let now = summaries(objects, keys, n).unwrap();
        let key = keys[n - 1];
        if key_named(keys, n - 1, name) {
            let i = choose|i: int|
                0 <= i < n - 1 && (#[trigger] keys[i]) != version_key() && keys[i].skip(
                    index_prefix().len() as int,
                ) == name;
            assert(keys[i] != version_key());
            assert(key_named(keys, n, name));
        }
        if names_in(done, name) {
            let i = choose|i: int| 0 <= i < done.len() && (#[trigger] done[i]).name == name;
            assert(now[i].name == name);
        }
        if key != version_key() {
            let d = decoded_index(objects[key]).unwrap();
            assert(now == done.push(summary_at(key, d)));
            assert(now[done.len() as int].name == key.skip(index_prefix().len() as int));
            if key.skip(index_prefix().len() as int) == name {
                assert(keys[n - 1] != version_key());
                assert(key_named(keys, n, name));
                assert(names_in(now, name));
            }
        }
        if names_in(now, name) && !names_in(done, name) {
            let i = choose|i: int| 0 <= i < now.len() && (#[trigger] now[i]).name == name;
            if i < done.len() {
                assert(done[i].name == name);
            }
        }
        if key_named(keys, n, name) && !key_named(keys, n - 1, name) {
            let i = choose|i: int|
                0 <= i < n && (#[trigger] keys[i]) != version_key() && keys[i].skip(
                    index_prefix().len() as int,
                ) == name;
            if i < n - 1 {
                assert(keys[i] != version_key());
            }
        }
    }
}

/// The dumps that a listing shows are the dumps whose index is in the store:
/// a name is listed exactly where the store holds an object under
/// `metadata/` and that name, the version marker's apart.
pub proof fn lemma_listed_names(objects: Objects, dumps: Seq<SummaryModel>, name: Seq<u8>)
    requires
        list_outcome(objects, Some(dumps)),
    ensures
        names_in(dumps, name) <==> objects.contains_key(index_key(name)) && name
            != crate::keys::marker_name(),
{
    let prefix = index_prefix();
    let keys = choose|keys: Seq<Seq<u8>>| #[trigger]
        listing(objects, prefix, keys) && Some(dumps) == match summaries(
            objects,
            keys,
            keys.len() as int,
        ) {
            Some(found) => Some(newest_first(found)),
            None => None,
        };
    let found = summaries(objects, keys, keys.len() as int).unwrap();
    lemma_newest_first(found);
    lemma_summaries_names(objects, keys, keys.len() as int, name);
    if names_in(dumps, name) {
        let i = choose|i: int| 0 <= i < dumps.len() && (#[trigger] dumps[i]).name == name;
        vstd::seq_lib::to_multiset_contains(dumps, dumps[i]);
        vstd::seq_lib::to_multiset_contains(found, dumps[i]);
        assert(dumps.contains(dumps[i]));
        let j = choose|j: int| 0 <= j < found.len() && found[j] == dumps[i];
        assert(found[j].name == name);
    }
    if names_in(found, name) {
        let j = choose|j: int| 0 <= j < found.len() && (#[trigger] found[j]).name == name;
        vstd::seq_lib::to_multiset_contains(dumps, found[j]);
        vstd::seq_lib::to_multiset_contains(found, found[j]);
        assert(found.contains(found[j]));
        let i = choose|i: int| 0 <= i < dumps.len() && dumps[i] == found[j];
        assert(dumps[i].name == name);
    }
    crate::keys::lemma_index_key_injective(name, crate::keys::marker_name());
    if key_named(keys, keys.len() as int, name) {
        let i = choose|i: int|
            0 <= i < keys.len() && (#[trigger] keys[i]) != version_key() && keys[i].skip(
                prefix.len() as int,
            ) == name;
        assert(objects.contains_key(keys[i]) && has_prefix(keys[i], prefix));
        assert(keys[i] =~= prefix + keys[i].skip(prefix.len() as int));
    }
    if objects.contains_key(index_key(name)) && name != crate::keys::marker_name() {
        let key = index_key(name);
        assert(key.take(prefix.len() as int) =~= prefix);
        assert(has_prefix(key, prefix));
        assert(keys.contains(key));
        let i = choose|i: int| 0 <= i < keys.len() && keys[i] == key;
        assert(keys[i].skip(prefix.len() as int) =~= name);
        assert(keys[i] != version_key());
        assert(key_named(keys, keys.len() as int, name));
    }
}

/// A store has one list of dumps.
pub proof fn lemma_list_outcome_unique(
    objects: Objects,
    first: Option<Seq<SummaryModel>>,
    second: Option<Seq<SummaryModel>>,
)
    requires
        list_outcome(objects, first),
        list_outcome(objects, second),
    ensures
        first == second,
{
    let a = choose|keys: Seq<Seq<u8>>| #[trigger]
        listing(objects, index_prefix(), keys) && first == match summaries(
            objects,
            keys,
            keys.len() as int,
        ) {
            Some(found) => Some(newest_first(found)),
            None => None,
        };
    let b = choose|keys: Seq<Seq<u8>>| #[trigger]
        listing(objects, index_prefix(), keys) && second == match summaries(
            objects,
            keys,
            keys.len() as int,
        ) {
            Some(found) => Some(newest_first(found)),
            None => None,
        };
    crate::datastore::lemma_listing_unique(objects, index_prefix(), a, b);
}

/// Puts `x` into a list that is ordered newest first.
fn insert_sorted(sorted: &mut Vec<DumpSummary>, x: DumpSummary)
    ensures
        summary_models(final(sorted)@) == summary_models(old(sorted)@).insert(
            place(summary_models(old(sorted)@), x@),
            x@,
        ),
{
    let ghost before = summary_models(sorted@);
    let mut i: usize = sorted.len();
    assert(before.take(i as int) =~= before);
    while i > 0 && sorted[i - 1].created_at < x.created_at
        invariant
            i <= sorted.len(),
            before == summary_models(sorted@),
            place(before, x@) == place(before.take(i as int), x@),
        decreases i,
    {
        proof {
            assert(before.take(i as int).drop_last() =~= before.take(i - 1));
        }
        i -= 1;
    }
    sorted.insert(i, x);
}

/// Lists the dumps of a store, the newest first. Only indexes count: chunks
/// that no index names are not seen.
pub fn list<D: Datastore>(store: &D) -> (res: Result<Vec<DumpSummary>, RestoreError>)
    requires
        store.valid(),
    ensures
        match res {
            Ok(dumps) => list_outcome(store.objects(), Some(summary_models(dumps@))),
            Err(RestoreError::CorruptIndex) => list_outcome(store.objects(), None),
            Err(RestoreError::Store(_)) => !store.dependable(),
            Err(_) => false,
        },
{
    let prefix = index_prefix_bytes();
    let marker = version_key_bytes();
    let keys = match store.list(prefix.as_slice()) {
        Ok(keys) => keys,
        Err(cause) => {
            return Err(RestoreError::Store(cause));
        },
    };
    let ghost names = views(keys@);
    let mut dumps: Vec<DumpSummary> = Vec::new();
    let ghost mut found: Seq<SummaryModel> = Seq::empty();
    let mut i: usize = 0;
    while i < keys.len()
        invariant
            store.valid(),
            i <= keys.len(),
            names == views(keys@),
            marker@ == version_key(),
            listing(store.objects(), index_prefix(), names),
            summaries(store.objects(), names, i as int) == Some(found),
            summary_models(dumps@) == newest_first(found),
        decreases keys.len() - i,
    {
        assert(names[i as int] == keys[i as int]@);
        if !bytes_eq(keys[i].as_slice(), marker.as_slice()) {
            let bytes = match store.get(keys[i].as_slice()) {
                Err(cause) => {
                    return Err(RestoreError::Store(cause));
                },
                Ok(None) => {
                    return Err(RestoreError::NotFound);
                },
                Ok(Some(bytes)) => bytes,
            };
            match decode_index(bytes.as_slice()) {
                Some(d) => {
                    assert(has_prefix(names[i as int], index_prefix()));
                    let mut summary = d.summary();
                    summary.name = bytes_of(
                        vstd::slice::slice_subrange(keys[i].as_slice(), 9, keys[i].len()),
                    );
                    assert(summary@ == summary_at(names[i as int], d@));
                    proof {
                        let next = found.push(summary@);
                        assert(next.drop_last() =~= found);
                        found = next;
                    }
                    insert_sorted(&mut dumps, summary);
                },
                None => {
                    proof {
                        lemma_summaries_fail(store.objects(), names, i + 1, keys.len() as int);
                    }
                    return Err(RestoreError::CorruptIndex);
                },
            }
        }
        i += 1;
    }
    Ok(dumps)
}

/// Whether an object agrees in two stores: in both or in neither, and with
/// the same bytes.
pub open spec fn same_at(a: Objects, b: Objects, key: Seq<u8>) -> bool {
    a.contains_key(key) == b.contains_key(key) && (a.contains_key(key) ==> a[key] == b[key])
}

/// Whether the index `d` names a chunk with the key `key`.
pub open spec fn referenced(d: DumpModel, key: Seq<u8>) -> bool {
    exists|t: int, c: int|
        0 <= t < d.tables.len() && 0 <= c < d.tables[t].chunks.len() && (
        #[trigger] d.tables[t].chunks[c]).key == key
}

/// The number of chunks of the first `n` tables.
pub open spec fn chunks_before(tables: Seq<TableEntryModel>, n: int) -> nat
    decreases n,
{
    if n <= 0 {
        0
    } else {
        chunks_before(tables, n - 1) + tables[n - 1].chunks.len()
    }
}

/// The keys of a table's chunks, in order.
pub open spec fn table_keys(chunks: Seq<ChunkRefModel>) -> Seq<Seq<u8>> {
    Seq::new(chunks.len(), |c: int| chunks[c].key)
}

/// The keys of the chunks of the first `n` tables, in the order of the index.
pub open spec fn chunk_keys(tables: Seq<TableEntryModel>, n: int) -> Seq<Seq<u8>>
    decreases n,
{
    if n <= 0 {
        Seq::empty()
    } else {
        chunk_keys(tables, n - 1) + table_keys(tables[n - 1].chunks)
    }
}

/// One removal for each key, in order, with its answer: whether it
/// succeeded.
pub open spec fn attempts(keys: Seq<Seq<u8>>, answers: Seq<bool>) -> Seq<(Seq<u8>, bool)> {
    Seq::new(keys.len(), |i: int| (keys[i], answers[i]))
}

/// The number of removals that failed.
pub open spec fn failures(answers: Seq<bool>) -> nat
    decreases answers.len(),
{
    if answers.len() == 0 {
        0
    } else {
        failures(answers.drop_last()) + if answers.last() {
            0nat
        } else {
            1nat
        }
    }
}

/// The failures of two lists of answers add up, and are no more than the
/// answers.
pub proof fn lemma_failures_concat(a: Seq<bool>, b: Seq<bool>)
    ensures
        failures(a + b) == failures(a) + failures(b),
        failures(b) <= b.len(),
    decreases b.len(),
{
    if b.len() == 0 {
        assert(a + b =~= a);
    } else {
        assert((a + b).drop_last() =~= a + b.drop_last());
        lemma_failures_concat(a, b.drop_last());
    }
}

/// A count as a `usize`: itself, or the largest `usize` where it is larger.
pub open spec fn capped_count(n: nat) -> usize {
    if n <= usize::MAX {
        n as usize
    } else {
        usize::MAX
    }
}

/// Tries to remove every chunk of a list, one call for each, in order,
/// whatever the answers to the others. Returns the number of removals that
/// failed, and the answers.
fn delete_chunks<D: Datastore>(store: &mut D, chunks: &Vec<ChunkRef>) -> (res: (
    usize,
    Ghost<Seq<bool>>,
))
    requires
        old(store).valid(),
    ensures
        final(store).valid(),
        final(store).writes() == old(store).writes() + chunks.len(),
        final(store).dependable() == old(store).dependable(),
        old(store).dependable() ==> res.0 == 0,
        res.1@.len() == chunks.len(),
        res.0 == failures(res.1@),
        final(store).removals() == old(store).removals() + attempts(
            table_keys(chunk_ref_models(chunks@)),
            res.1@,
        ),
        forall|c: int|
            0 <= c < chunks.len() && res.1@[c] ==> !final(store).objects().contains_key(
                (#[trigger] chunks[c]).key@,
            ),
        forall|key: Seq<u8>|
            same_at(old(store).objects(), final(store).objects(), key) || (!final(store).objects().contains_key(key) && exists|c: int|
                0 <= c < chunks.len() && (#[trigger] chunks[c]).key@ == key),
{
    let ghost keys = table_keys(chunk_ref_models(chunks@));
    let ghost log = store.removals();
    let mut failed: usize = 0;
    let ghost mut answers: Seq<bool> = Seq::empty();
    let mut c: usize = 0;
    assert(log + attempts(keys.take(0), answers) =~= log);
    while c < chunks.len()
        invariant
            store.valid(),
            c <= chunks.len(),
            failed <= c,
            keys == table_keys(chunk_ref_models(chunks@)),
            log == old(store).removals(),
            answers.len() == c,
            failed == failures(answers),
            store.removals() == log + attempts(keys.take(c as int), answers),
            forall|b: int|
                0 <= b < c && answers[b] ==> !store.objects().contains_key(
                    (#[trigger] chunks[b]).key@,
                ),
            store.writes() == old(store).writes() + c,
            store.dependable() == old(store).dependable(),
            old(store).dependable() ==> failed == 0,
            forall|key: Seq<u8>|
                same_at(old(store).objects(), store.objects(), key) || (
                !store.objects().contains_key(key) && exists|b: int|
                    0 <= b < chunks.len() && (#[trigger] chunks[b]).key@ == key),
        decreases chunks.len() - c,
    {
        let ghost before = store.objects();
        let ghost given = answers;
        let removed = store.delete(chunks[c].key.as_slice()).is_ok();
        if !removed {
            failed = failed + 1;
        }
        proof {
            answers = given.push(removed);
            assert(answers.drop_last() =~= given);
            assert(keys[c as int] == chunks[c as int].key@);
            assert(log + attempts(keys.take(c + 1), answers) =~= (log + attempts(
                keys.take(c as int),
                given,
            )).push((chunks[c as int].key@, removed)));
            assert forall|b: int| 0 <= b < c + 1 && answers[b] implies !store.objects().contains_key(
                (#[trigger] chunks[b]).key@,
            ) by {
                if b < c {
                    assert(given[b]);
                    assert(!before.contains_key(chunks[b].key@));
                }
            }
            assert forall|key: Seq<u8>|
                same_at(old(store).objects(), store.objects(), key) || (
                !store.objects().contains_key(key) && exists|b: int|
                    0 <= b < chunks.len() && (#[trigger] chunks[b]).key@ == key) by {
                assert(same_at(old(store).objects(), before, key) || (!before.contains_key(key)
                    && exists|b: int| 0 <= b < chunks.len() && (#[trigger] chunks[b]).key@ == key));
                if key == chunks[c as int].key@ {
                    assert(chunks[c as int].key@ == key);
                }
            }
        }
        c += 1;
    }
    assert(keys.take(c as int) =~= keys);
    (failed, Ghost(answers))
}

/// The removal of the index that follows the removals of the chunks: one,
/// where none of those failed, and none, where one did.
pub open spec fn index_attempt(index: Seq<u8>, answers: Seq<bool>, removed: bool) -> Seq<
    (Seq<u8>, bool),
> {
    if failures(answers) == 0 {
        seq![(index, removed)]
    } else {
        Seq::empty()
    }
}

/// What the answers to the removals make of a deletion: `Ok` where every
/// removal succeeded, `ChunksLeft` with the number of failures where the
/// removal of a chunk failed, and `Store` where only that of the index did.
pub open spec fn concluded(answers: Seq<bool>, res: Result<(), DeleteError>) -> bool {
    match res {
        Ok(()) => failures(answers) == 0,
        Err(DeleteError::Store(_)) => failures(answers) == 0,
        Err(DeleteError::ChunksLeft { failed }) => failures(answers) > 0 && failed == capped_count(
            failures(answers),
        ),
        _ => false,
    }
}

/// Which removals a deletion of the dump `name` asked the store for, and
/// what it made of the answers. Where the index could not be had, none.
/// Else one removal for each chunk that the index names, in the order of the
/// index, whatever the answers; then, where none of them failed, one of the
/// index. A chunk whose removal succeeded is gone.
pub open spec fn removed(
    before: Objects,
    after: Objects,
    log_before: Seq<(Seq<u8>, bool)>,
    log_after: Seq<(Seq<u8>, bool)>,
    name: Seq<u8>,
    res: Result<(), DeleteError>,
) -> bool {
    let index = index_key(name);
    let d = decoded_index(before[index]).unwrap();
    let keys = chunk_keys(d.tables, d.tables.len() as int);
    match res {
        Err(DeleteError::NotFound) => log_after == log_before,
        Err(DeleteError::CorruptIndex) => log_after == log_before,
        Err(DeleteError::Read(_)) => log_after == log_before,
        _ => exists|answers: Seq<bool>|
            #![trigger attempts(keys, answers)]
            {
                &&& answers.len() == keys.len()
                &&& concluded(answers, res)
                &&& log_after == log_before + attempts(keys, answers) + index_attempt(
                    index,
                    answers,
                    res is Ok,
                )
                &&& forall|i: int|
                    0 <= i < keys.len() && answers[i] ==> !after.contains_key(#[trigger] keys[i])
            },
    }
}

/// The answers to the removals that a deletion asked for show that it asked
/// for them.
pub proof fn lemma_removed(
    before: Objects,
    after: Objects,
    log_before: Seq<(Seq<u8>, bool)>,
    log_after: Seq<(Seq<u8>, bool)>,
    name: Seq<u8>,
    res: Result<(), DeleteError>,
    answers: Seq<bool>,
)
    requires
        ({
            let index = index_key(name);
            let d = decoded_index(before[index]).unwrap();
            let keys = chunk_keys(d.tables, d.tables.len() as int);
            &&& answers.len() == keys.len()
            &&& concluded(answers, res)
            &&& log_after == log_before + attempts(keys, answers) + index_attempt(
                index,
                answers,
                res is Ok,
            )
            &&& forall|i: int|
                0 <= i < keys.len() && answers[i] ==> !after.contains_key(#[trigger] keys[i])
        }),
    ensures
        removed(before, after, log_before, log_after, name, res),
{
    let index = index_key(name);
    let d = decoded_index(before[index]).unwrap();
    let keys = chunk_keys(d.tables, d.tables.len() as int);
    assert(attempts(keys, answers).len() == keys.len());
}

/// How a store and the outcome of deleting the dump `name` relate.
pub open spec fn deleted(
    before: Objects,
    writes_before: nat,
    after: Objects,
    writes_after: nat,
    name: Seq<u8>,
    res: Result<(), DeleteError>,
) -> bool {
    let unchanged = after == before && writes_after == writes_before;
    let index = index_key(name);
    let d = decoded_index(before[index]).unwrap();
    let known = before.contains_key(index) && decoded_index(before[index]) is Some;
    let chunks = chunks_before(d.tables, d.tables.len() as int);
    let others_stay = forall|key: Seq<u8>|
        key != index ==> #[trigger] same_at(before, after, key) || (referenced(d, key)
            && !after.contains_key(key));
    let chunks_gone = forall|key: Seq<u8>| #[trigger] referenced(d, key) ==> !after.contains_key(key);
    match res {
        Ok(()) => {
            &&& known
            &&& !after.contains_key(index)
            &&& others_stay
            &&& chunks_gone
            &&& writes_after == writes_before + chunks + 1
        },
        Err(DeleteError::NotFound) => !before.contains_key(index) && unchanged,
        Err(DeleteError::CorruptIndex) => before.contains_key(index) && decoded_index(
            before[index],
        ) is None && unchanged,
        Err(DeleteError::Read(cause)) => unchanged,
        Err(DeleteError::ChunksLeft { failed }) => {
            &&& known
            &&& 0 < failed <= chunks
            &&& others_stay
            &&& same_at(before, after, index) || referenced(d, index)
            &&& writes_after == writes_before + chunks
        },
        Err(DeleteError::Store(cause)) => {
            &&& known
            &&& others_stay
            &&& chunks_gone
            &&& same_at(before, after, index) || referenced(d, index)
            &&& writes_after == writes_before + chunks + 1
        },
    }
}

/// Deletes the dump `name`: first every chunk that its index names, in the
/// order of the index, then the index. A chunk that cannot be removed does
/// not stop the others from being tried; the index then stays, and the
/// deletion fails with the number of chunks whose removal failed.
pub fn delete<D: Datastore>(store: &mut D, name: &[u8]) -> (res: Result<(), DeleteError>)
    requires
        old(store).valid(),
    ensures
        final(store).valid(),
        final(store).dependable() == old(store).dependable(),
        old(store).dependable() ==> res is Ok || res == Err::<(), DeleteError>(
            DeleteError::NotFound,
        ) || res == Err::<(), DeleteError>(DeleteError::CorruptIndex),
        res matches Err(DeleteError::Read(_)) ==> !old(store).dependable(),
        deleted(
            old(store).objects(),
            old(store).writes(),
            final(store).objects(),
            final(store).writes(),
            name@,
            res,
        ),
        removed(
            old(store).objects(),
            final(store).objects(),
            old(store).removals(),
            final(store).removals(),
            name@,
            res,
        ),
{
    let key = index_key_of(name);
    let bytes = match store.get(key.as_slice()) {
        Err(cause) => {
            return Err(DeleteError::Read(cause));
        },
        Ok(None) => {
            return Err(DeleteError::NotFound);
        },
        Ok(Some(bytes)) => bytes,
    };
    let d = match decode_index(bytes.as_slice()) {
        Some(d) => d,
        None => {
            return Err(DeleteError::CorruptIndex);
        },
    };
    let ghost model = d@;
    let ghost index = index_key(name@);
    let ghost log = store.removals();
    let mut failed: usize = 0;
    let ghost mut answers: Seq<bool> = Seq::empty();
    let mut t: usize = 0;
    assert(log + attempts(chunk_keys(model.tables, 0), answers) =~= log);
    while t < d.tables.len()
        invariant
            store.valid(),
            t <= d.tables.len(),
            model == d@,
            index == index_key(name@),
            key@ == index,
            log == old(store).removals(),
            answers.len() == chunk_keys(model.tables, t as int).len(),
            answers.len() == chunks_before(model.tables, t as int),
            failed == capped_count(failures(answers)),
            failures(answers) <= answers.len(),
            store.removals() == log + attempts(chunk_keys(model.tables, t as int), answers),
            forall|i: int|
                0 <= i < answers.len() && answers[i] ==> !store.objects().contains_key(
                    #[trigger] chunk_keys(model.tables, t as int)[i],
                ),
            store.writes() == old(store).writes() + chunks_before(model.tables, t as int),
            store.dependable() == old(store).dependable(),
            old(store).dependable() ==> failed == 0,
            forall|k: Seq<u8>| #[trigger]
                same_at(old(store).objects(), store.objects(), k) || (referenced(model, k)
                    && !store.objects().contains_key(k)),
        decreases d.tables.len() - t,
    {
        let ghost before = store.objects();
        let ghost given = answers;
        let ghost keys = chunk_keys(model.tables, t as int);
        let chunks = &d.tables[t].chunks;
        assert(model.tables[t as int] == d.tables[t as int]@);
        let (left, Ghost(here)) = delete_chunks(store, chunks);
        proof {
            let now = store.objects();
            let more = table_keys(model.tables[t as int].chunks);
            answers = given + here;
            lemma_failures_concat(given, here);
            assert(store.removals() =~= log + attempts(keys + more, answers));
            assert forall|i: int| 0 <= i < answers.len() && answers[i] implies !now.contains_key(
                #[trigger] (keys + more)[i],
            ) by {
                let k = (keys + more)[i];
                if i < keys.len() {
                    assert(given[i]);
                    assert(!before.contains_key(keys[i]));
                    assert(same_at(before, now, k) || !now.contains_key(k));
                } else {
                    let c = i - keys.len();
                    assert(here[c]);
                    assert(chunks[c].key@ == k);
                }
            }
            assert forall|k: Seq<u8>| #[trigger]
                same_at(old(store).objects(), now, k) || (referenced(model, k)
                    && !now.contains_key(k)) by {
                assert(same_at(old(store).objects(), before, k) || (referenced(model, k)
                    && !before.contains_key(k)));
                if !same_at(before, now, k) {
                    let c = choose|c: int| 0 <= c < chunks.len() && (#[trigger] chunks[c]).key@ == k;
                    assert(model.tables[t as int].chunks[c].key == k);
                }
            }
        }
        failed = if left > usize::MAX - failed {
            usize::MAX
        } else {
            failed + left
        };
        t += 1;
    }
    let ghost keys = chunk_keys(model.tables, model.tables.len() as int);
    if failed > 0 {
        proof {
            let res = Err::<(), DeleteError>(DeleteError::ChunksLeft { failed });
            assert(decoded_index(old(store).objects()[index]) == Some(model));
            assert(answers.len() == keys.len());
            assert(concluded(answers, res));
            assert(index_attempt(index, answers, false) =~= Seq::<(Seq<u8>, bool)>::empty());
            assert(store.removals() =~= log + attempts(keys, answers) + index_attempt(
                index,
                answers,
                false,
            ));
            assert(forall|i: int|
                0 <= i < keys.len() && answers[i] ==> !store.objects().contains_key(
                    #[trigger] keys[i],
                ));
            lemma_removed(
                old(store).objects(),
                store.objects(),
                log,
                store.removals(),
                name@,
                res,
                answers,
            );
        }
        return Err(DeleteError::ChunksLeft { failed });
    }
    let ghost mid = store.objects();
    proof {
        assert forall|k: Seq<u8>| #[trigger] referenced(model, k) implies !mid.contains_key(k) by {
            let (a, c) = choose|a: int, c: int|
                0 <= a < model.tables.len() && 0 <= c < model.tables[a].chunks.len() && (
                #[trigger] model.tables[a].chunks[c]).key == k;
            lemma_chunk_key_at(model.tables, model.tables.len() as int, a, c);
            let i = chunks_before(model.tables, a) + c;
            lemma_all_succeeded(answers, i);
            assert(!mid.contains_key(keys[i]));
        }
    }
    let res = match store.delete(key.as_slice()) {
        Ok(()) => Ok(()),
        Err(cause) => Err(DeleteError::Store(cause)),
    };
    proof {
        let now = store.objects();
        assert forall|k: Seq<u8>| k != index implies #[trigger] same_at(
            old(store).objects(),
            now,
            k,
        ) || (referenced(model, k) && !now.contains_key(k)) by {
            assert(same_at(old(store).objects(), mid, k) || (referenced(model, k)
                && !mid.contains_key(k)));
        }
        assert(same_at(old(store).objects(), mid, index) || (referenced(model, index)
            && !mid.contains_key(index)));
        assert(decoded_index(old(store).objects()[index]) == Some(model));
        assert(answers.len() == keys.len());
        assert(failures(answers) == 0);
        assert(concluded(answers, res));
        assert(store.removals() =~= log + attempts(keys, answers) + index_attempt(
            index,
            answers,
            res is Ok,
        ));
        assert forall|i: int| 0 <= i < keys.len() && answers[i] implies !now.contains_key(
            #[trigger] keys[i],
        ) by {
            assert(!mid.contains_key(keys[i]));
        }
        lemma_removed(
            old(store).objects(),
            now,
            log,
            store.removals(),
            name@,
            res,
            answers,
        );
    }
    res
}

/// Where no removal failed, each succeeded.
pub proof fn lemma_all_succeeded(answers: Seq<bool>, i: int)
    requires
        failures(answers) == 0,
        0 <= i < answers.len(),
    ensures
        answers[i],
    decreases answers.len(),
{
    if i < answers.len() - 1 {
        lemma_all_succeeded(answers.drop_last(), i);
    }
}

/// The key of chunk `c` of table `a` stands in the list of all chunk keys
/// behind the keys of the tables before `a`.
pub proof fn lemma_chunk_key_at(tables: Seq<TableEntryModel>, n: int, a: int, c: int)
    requires
        0 <= a < n <= tables.len(),
        0 <= c < tables[a].chunks.len(),
    ensures
        chunk_keys(tables, n).len() == chunks_before(tables, n),
        chunks_before(tables, a) + c < chunks_before(tables, n),
        chunk_keys(tables, n)[chunks_before(tables, a) + c] == tables[a].chunks[c].key,
    decreases n,
{
    lemma_chunk_keys_len(tables, n);
    lemma_chunk_keys_len(tables, n - 1);
    if a < n - 1 {
        lemma_chunk_key_at(tables, n - 1, a, c);
    }
}

/// There is one key for each chunk.
pub proof fn lemma_chunk_keys_len(tables: Seq<TableEntryModel>, n: int)
    ensures
        chunk_keys(tables, n).len() == chunks_before(tables, n),
    decreases n,
{
    if n > 0 {
        lemma_chunk_keys_len(tables, n - 1);
    }
}

/// A restore that fails over a table's chunks fails with a chunk error.
pub proof fn lemma_restored_tables_error(
    objects: Objects,
    entries: Seq<TableEntryModel>,
    compressed: bool,
    key: Option<Seq<u8>>,
    n: int,
)
    requires
        n >= 0,
    ensures
        match crate::restore::restored_tables(objects, entries, compressed, key, n) {
            Ok(_) => true,
            Err(e) => e is MissingChunk || e is CorruptChunk,
        },
    decreases n,
{
    if n > 0 {
        lemma_restored_tables_error(objects, entries, compressed, key, n - 1);
    }
}

/// A restore never passes over a missing chunk: where the store lacks a
/// chunk that the index names, restoring fails with a chunk error and gives
/// no rows.
pub proof fn lemma_missing_chunk_fails_restore(
    objects: Objects,
    name: Seq<u8>,
    key: Option<Seq<u8>>,
    t: int,
    c: int,
)
    requires
        objects.contains_key(index_key(name)),
        decoded_index(objects[index_key(name)]) is Some,
        !(decoded_index(objects[index_key(name)]).unwrap().encrypted && key is None),
        0 <= t < decoded_index(objects[index_key(name)]).unwrap().tables.len(),
        0 <= c < decoded_index(objects[index_key(name)]).unwrap().tables[t].chunks.len(),
        !objects.contains_key(
            decoded_index(objects[index_key(name)]).unwrap().tables[t].chunks[c].key,
        ),
    ensures
        match crate::restore::restored(objects, name, key) {
            Ok(_) => false,
            Err(e) => e is MissingChunk || e is CorruptChunk,
        },
{
    let d = decoded_index(objects[index_key(name)]).unwrap();
    let opening = crate::restore::opening_key(d.encrypted, key);
    let chunks = d.tables[t].chunks;
    crate::reader::lemma_gathered_fault_stays(
        objects,
        chunks,
        d.compressed,
        opening,
        c + 1,
        chunks.len() as int,
    );
    crate::restore::lemma_restored_error_stays(
        objects,
        d.tables,
        d.compressed,
        opening,
        t + 1,
        d.tables.len() as int,
    );
    lemma_restored_tables_error(objects, d.tables, d.compressed, opening, d.tables.len() as int);
}

/// After a deletion that failed over some chunks and removed another, the
/// dump is still listed by its index, and restoring it fails with a chunk
/// error: it never gives the rows that are left as if they were all.
pub proof fn lemma_partial_delete_fails_restore(
    before: Objects,
    writes_before: nat,
    after: Objects,
    writes_after: nat,
    name: Seq<u8>,
    failed: usize,
    key: Option<Seq<u8>>,
    t: int,
    c: int,
)
    requires
        deleted(
            before,
            writes_before,
            after,
            writes_after,
            name,
            Err(DeleteError::ChunksLeft { failed }),
        ),
        !referenced(decoded_index(before[index_key(name)]).unwrap(), index_key(name)),
        !(decoded_index(before[index_key(name)]).unwrap().encrypted && key is None),
        0 <= t < decoded_index(before[index_key(name)]).unwrap().tables.len(),
        0 <= c < decoded_index(before[index_key(name)]).unwrap().tables[t].chunks.len(),
        !after.contains_key(decoded_index(before[index_key(name)]).unwrap().tables[t].chunks[c].key),
    ensures
        after.contains_key(index_key(name)),
        after[index_key(name)] == before[index_key(name)],
        match crate::restore::restored(after, name, key) {
            Ok(_) => false,
            Err(e) => e is MissingChunk || e is CorruptChunk,
        },
{
    lemma_missing_chunk_fails_restore(after, name, key, t, c);
}

} // verus!
