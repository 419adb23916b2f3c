//! The datastore: a durable map from keys to byte strings.
//!
//! `Datastore` is the capability set that every backend offers. Its contract
//! is stated over the map of the stored objects: a write either takes effect
//! as a whole or leaves the store as it was. `MemoryStore` is the backend that
//! keeps its objects in memory, ordered by key.

use crate::error::StoreError;
use crate::keys::{
    before, has_prefix, is_before, lemma_before_irreflexive, lemma_before_total,
    lemma_before_transitive, starts_with,
};
use crate::wire::{bytes_eq, bytes_of, views};
use vstd::prelude::*;

verus! {

/// The objects of a store, by key.
pub type Objects = Map<Seq<u8>, Seq<u8>>;

/// Each key comes before the keys after it, in dictionary order.
pub open spec fn ascending(keys: Seq<Seq<u8>>) -> bool {
    forall|i: int, j: int| 0 <= i < j < keys.len() ==> before(#[trigger] keys[i], #[trigger] keys[j])
}

/// `keys` are the keys of `objects` that start with `prefix`, each once, in
/// dictionary order.
pub open spec fn listing(objects: Objects, prefix: Seq<u8>, keys: Seq<Seq<u8>>) -> bool {
    &&& ascending(keys)
    &&& forall|i: int|
        0 <= i < keys.len() ==> objects.contains_key(#[trigger] keys[i]) && has_prefix(
            keys[i],
            prefix,
        )
    &&& forall|k: Seq<u8>| #[trigger]
        objects.contains_key(k) && has_prefix(k, prefix) ==> keys.contains(k)
}

/// Two ascending lists with the same members are the same list.
pub proof fn lemma_ascending_same(a: Seq<Seq<u8>>, b: Seq<Seq<u8>>)
    requires
        ascending(a),
        ascending(b),
        forall|i: int| 0 <= i < a.len() ==> b.contains(#[trigger] a[i]),
        forall|j: int| 0 <= j < b.len() ==> a.contains(#[trigger] b[j]),
    ensures
        a == b,
    decreases a.len(),
{
    if a.len() == 0 {
        if b.len() > 0 {
            assert(a.contains(b[0]));
        }
    } else {
        let x = a.last();
        let j = choose|j: int| 0 <= j < b.len() && b[j] == x;
        let y = b.last();
        let i = choose|i: int| 0 <= i < a.len() && a[i] == y;
        if j < b.len() - 1 && i < a.len() - 1 {
            lemma_before_transitive(x, y, x);
            lemma_before_irreflexive(x);
        }
        let short_a = a.drop_last();
        let short_b = b.drop_last();
        assert forall|p: int| 0 <= p < short_a.len() implies short_b.contains(
            #[trigger] short_a[p],
        ) by {
            let q = choose|q: int| 0 <= q < b.len() && b[q] == a[p];
            lemma_before_irreflexive(x);
            assert(short_b[q] == a[p]);
        }
        assert forall|q: int| 0 <= q < short_b.len() implies short_a.contains(
            #[trigger] short_b[q],
        ) by {
            let p = choose|p: int| 0 <= p < a.len() && a[p] == b[q];
            lemma_before_irreflexive(x);
            assert(short_a[p] == b[q]);
        }
        lemma_ascending_same(short_a, short_b);
        assert(a =~= short_a.push(x));
    }
}

/// A store has one listing for each prefix.
pub proof fn lemma_listing_unique(
    objects: Objects,
    prefix: Seq<u8>,
    a: Seq<Seq<u8>>,
    b: Seq<Seq<u8>>,
)
    requires
        listing(objects, prefix, a),
        listing(objects, prefix, b),
    ensures
        a == b,
{
    lemma_ascending_same(a, b);
}

/// What every backend offers. A failed call leaves the store as it was.
pub trait Datastore {
    /// The backend's own invariant. A backend that states none has none.
    open spec fn valid(&self) -> bool {
        true
    }

    /// The stored objects. A backend that does not say what it holds leaves
    /// that open.
    open spec fn objects(&self) -> Objects {
        arbitrary()
    }

    /// The number of `put` and `delete` calls made so far.
    open spec fn writes(&self) -> nat {
        arbitrary()
    }

    /// Whether no call to the backend ever fails. A backend that cannot
    /// promise that says no.
    open spec fn dependable(&self) -> bool {
        false
    }

    /// Every `delete` call made so far, in order: its key, and whether it
    /// succeeded.
    open spec fn removals(&self) -> Seq<(Seq<u8>, bool)> {
        arbitrary()
    }

    /// Whether the store was prepared for use: `init` makes it so, and no
    /// other call undoes it.
    open spec fn prepared(&self) -> bool {
        arbitrary()
    }

    /// Prepares the store for use. Changes no object.
    fn init(&mut self) -> (res: Result<(), StoreError>)
        requires
            old(self).valid(),
        ensures
            final(self).valid(),
            final(self).objects() == old(self).objects(),
            final(self).writes() == old(self).writes(),
            final(self).dependable() == old(self).dependable(),
            old(self).dependable() ==> res is Ok,
            final(self).prepared() == (old(self).prepared() || res is Ok),
            final(self).removals() == old(self).removals(),
    ;

    /// Stores `bytes` under `key`, in place of what was there.
    fn put(&mut self, key: &[u8], bytes: &[u8]) -> (res: Result<(), StoreError>)
        requires
            old(self).valid(),
        ensures
            final(self).valid(),
            final(self).writes() == old(self).writes() + 1,
            final(self).objects() == if res is Ok {
                old(self).objects().insert(key@, bytes@)
            } else {
                old(self).objects()
            },
            final(self).dependable() == old(self).dependable(),
            old(self).dependable() ==> res is Ok,
            final(self).prepared() == old(self).prepared(),
            final(self).removals() == old(self).removals(),
    ;

    /// The bytes stored under `key`, or `None` where there are none.
    fn get(&self, key: &[u8]) -> (res: Result<Option<Vec<u8>>, StoreError>)
        requires
            self.valid(),
        ensures
            match res {
                Ok(Some(bytes)) => self.objects().contains_key(key@) && self.objects()[key@]
                    == bytes@,
                Ok(None) => !self.objects().contains_key(key@),
                Err(_) => !self.dependable(),
            },
    ;

    /// Whether anything is stored under `key`.
    fn contains(&self, key: &[u8]) -> (res: Result<bool, StoreError>)
        requires
            self.valid(),
        ensures
            match res {
                Ok(found) => found == self.objects().contains_key(key@),
                Err(_) => !self.dependable(),
            },
    ;

    /// The keys that start with `prefix`, each once, in dictionary order.
    fn list(&self, prefix: &[u8]) -> (res: Result<Vec<Vec<u8>>, StoreError>)
        requires
            self.valid(),
        ensures
            match res {
                Ok(keys) => listing(self.objects(), prefix@, views(keys@)),
                Err(_) => !self.dependable(),
            },
    ;

    /// Removes what is stored under `key`. Succeeds where nothing is.
    fn delete(&mut self, key: &[u8]) -> (res: Result<(), StoreError>)
        requires
            old(self).valid(),
        ensures
            final(self).valid(),
            final(self).writes() == old(self).writes() + 1,
            final(self).objects() == if res is Ok {
                old(self).objects().remove(key@)
            } else {
                old(self).objects()
            },
            final(self).dependable() == old(self).dependable(),
            old(self).dependable() ==> res is Ok,
            final(self).prepared() == old(self).prepared(),
            final(self).removals() == old(self).removals().push((key@, res is Ok)),
    ;
}

/// One stored object.
#[derive(Clone, Debug, PartialEq, Eq)]
pub struct Object {
    pub key: Vec<u8>,
    pub bytes: Vec<u8>,
}

/// The keys of a list of objects, in order.
pub open spec fn keys_of(entries: Seq<Object>) -> Seq<Seq<u8>> {
    Seq::new(entries.len(), |i: int| entries[i].key@)
}

/// Whether entry `i` is stored under `key`.
pub open spec fn holds_key(entries: Seq<Object>, key: Seq<u8>, i: int) -> bool {
    0 <= i < entries.len() && entries[i].key@ == key
}

/// The map that a list of objects stands for.
pub open spec fn entries_map(entries: Seq<Object>) -> Objects {
    Map::new(
        |key: Seq<u8>| exists|i: int| holds_key(entries, key, i),
        |key: Seq<u8>| entries[choose|i: int| holds_key(entries, key, i)].bytes@,
    )
}

/// In an ascending list every key occurs once, and the map holds each entry's
/// bytes under its key.
pub proof fn lemma_entries_map(entries: Seq<Object>, i: int)
    requires
        ascending(keys_of(entries)),
        0 <= i < entries.len(),
    ensures
        entries_map(entries).contains_key(entries[i].key@),
        entries_map(entries)[entries[i].key@] == entries[i].bytes@,
        forall|j: int| holds_key(entries, entries[i].key@, j) ==> j == i,
{
    let key = entries[i].key@;
    assert(holds_key(entries, key, i));
    assert forall|j: int| holds_key(entries, key, j) implies j == i by {
        lemma_before_irreflexive(key);
        if j < i {
            assert(before(keys_of(entries)[j], keys_of(entries)[i]));
        }
        if i < j {
            assert(before(keys_of(entries)[i], keys_of(entries)[j]));
        }
    }
}

/// A store that keeps its objects in memory. Keys can be locked: a locked key
/// refuses `put` and `delete`, which lets a caller rehearse failures.
pub struct MemoryStore {
    /// The objects, ascending by key.
    pub entries: Vec<Object>,
    /// The keys that refuse writes.
    pub locked: Vec<Vec<u8>>,
    /// Whether `init` was called.
    pub ready: bool,
    /// The number of `put` and `delete` calls made so far; it stops at the
    /// largest `u64`.
    pub write_count: u64,
    /// The same number, without a limit.
    pub calls: Ghost<nat>,
    /// Every `delete` call made so far: its key, and whether it succeeded.
    pub removed: Ghost<Seq<(Seq<u8>, bool)>>,
}

impl MemoryStore {
    /// Whether `key` refuses writes.
    pub open spec fn refuses(&self, key: Seq<u8>) -> bool {
        exists|i: int| 0 <= i < self.locked.len() && (#[trigger] self.locked[i])@ == key
    }

    /// An empty store without locked keys.
    pub fn new() -> (store: MemoryStore)
        ensures
            store.valid(),
            store.objects() == Objects::empty(),
            store.writes() == 0,
            store.removals() == Seq::<(Seq<u8>, bool)>::empty(),
            store.dependable(),
            !store.prepared(),
    {
        let store = MemoryStore {
            entries: Vec::new(),
            locked: Vec::new(),
            ready: false,
            write_count: 0,
            calls: Ghost(0),
            removed: Ghost(Seq::empty()),
        };
        store
    }

    /// Makes `key` refuse writes from now on.
    pub fn lock(&mut self, key: &[u8])
        requires
            old(self).valid(),
        ensures
            final(self).valid(),
            final(self).objects() == old(self).objects(),
            final(self).writes() == old(self).writes(),
            final(self).prepared() == old(self).prepared(),
            final(self).removals() == old(self).removals(),
            forall|k: Seq<u8>| final(self).refuses(k) == (old(self).refuses(k) || k == key@),
    {
        self.locked.push(bytes_of(key));
        assert forall|k: Seq<u8>| final(self).refuses(k) == (old(self).refuses(k) || k
            == key@) by {
            if old(self).refuses(k) {
                let i = choose|i: int| 0 <= i < old(self).locked.len() && (#[trigger] old(self).locked[i])@ == k;
                assert(self.locked[i]@ == k);
            }
            if k == key@ {
                assert(self.locked[self.locked.len() - 1]@ == k);
            }
        }
    }

    /// Lets every key take writes again.
    pub fn unlock_all(&mut self)
        requires
            old(self).valid(),
        ensures
            final(self).valid(),
            final(self).objects() == old(self).objects(),
            final(self).writes() == old(self).writes(),
            final(self).prepared() == old(self).prepared(),
            final(self).removals() == old(self).removals(),
            final(self).dependable(),
    {
        self.locked = Vec::new();
    }

    /// The number of stored objects.
    pub fn len(&self) -> (n: usize)
        ensures
            n == self.entries.len(),
    {
        self.entries.len()
    }

    /// The number of `put` and `delete` calls made so far, or the largest
    /// `u64` where there were more.
    pub fn write_count(&self) -> (n: u64)
        requires
            self.valid(),
        ensures
            n == if self.writes() <= u64::MAX {
                self.writes()
            } else {
                u64::MAX as nat
            },
    {
        self.write_count
    }

    /// Whether `key` refuses writes.
    pub fn is_locked(&self, key: &[u8]) -> (yes: bool)
        ensures
            yes == self.refuses(key@),
    {
        let mut i: usize = 0;
        while i < self.locked.len()
            invariant
                i <= self.locked.len(),
                forall|j: int| 0 <= j < i ==> (#[trigger] self.locked[j])@ != key@,
            decreases self.locked.len() - i,
        {
            if bytes_eq(self.locked[i].as_slice(), key) {
                return true;
            }
            i += 1;
        }
        false
    }

    /// Counts one more write.
    fn count_write(&mut self)
        requires
            old(self).valid(),
        ensures
            final(self).valid(),
            final(self).entries == old(self).entries,
            final(self).locked == old(self).locked,
            final(self).ready == old(self).ready,
            final(self).removed == old(self).removed,
            final(self).writes() == old(self).writes() + 1,
    {
        if self.write_count < u64::MAX {
            self.write_count = self.write_count + 1;
        }
        self.calls = Ghost((self.calls@ + 1) as nat);
    }

    /// The index of the first entry whose key does not come before `key`.
    fn position(&self, key: &[u8]) -> (i: usize)
        requires
            self.valid(),
        ensures
            i <= self.entries.len(),
            forall|j: int| 0 <= j < i ==> before(#[trigger] self.entries[j].key@, key@),
            forall|j: int| i <= j < self.entries.len() ==> !before(#[trigger] self.entries[j].key@, key@),
            forall|j: int| i < j < self.entries.len() ==> before(key@, #[trigger] self.entries[j].key@),
            i < self.entries.len() ==> (self.entries[i as int].key@ == key@ || before(
                key@,
                self.entries[i as int].key@,
            )),
            forall|j: int| holds_key(self.entries@, key@, j) ==> j == i,
    {
        let mut i: usize = 0;
        while i < self.entries.len() && is_before(self.entries[i].key.as_slice(), key)
            invariant
                i <= self.entries.len(),
                forall|j: int| 0 <= j < i ==> before(#[trigger] self.entries[j].key@, key@),
            decreases self.entries.len() - i,
        {
            i += 1;
        }
        proof {
            let keys = keys_of(self.entries@);
            if i < self.entries.len() {
                let at = self.entries[i as int].key@;
                lemma_before_total(at, key@);
                assert forall|j: int| i < j < self.entries.len() implies before(
                    key@,
                    #[trigger] self.entries[j].key@,
                ) && !before(self.entries[j].key@, key@) by {
                    let other = self.entries[j].key@;
                    assert(before(keys[i as int], keys[j]));
                    if at != key@ {
                        lemma_before_transitive(key@, at, other);
                    }
                    if before(other, key@) {
                        lemma_before_transitive(key@, other, key@);
                        lemma_before_irreflexive(key@);
                    }
                }
            }
            assert forall|j: int| holds_key(self.entries@, key@, j) implies j == i by {
                lemma_before_irreflexive(key@);
            }
        }
        i
    }
}

impl Datastore for MemoryStore {
    open spec fn valid(&self) -> bool {
        &&& ascending(keys_of(self.entries@))
        &&& self.write_count == if self.calls@ <= u64::MAX {
            self.calls@
        } else {
            u64::MAX as nat
        }
    }

    open spec fn objects(&self) -> Objects {
        entries_map(self.entries@)
    }

    open spec fn writes(&self) -> nat {
        self.calls@
    }

    open spec fn dependable(&self) -> bool {
        self.locked.len() == 0
    }

    open spec fn prepared(&self) -> bool {
        self.ready
    }

    open spec fn removals(&self) -> Seq<(Seq<u8>, bool)> {
        self.removed@
    }

    fn init(&mut self) -> (res: Result<(), StoreError>)
        ensures
            res is Ok,
    {
        self.ready = true;
        Ok(())
    }

    fn put(&mut self, key: &[u8], bytes: &[u8]) -> (res: Result<(), StoreError>)
        ensures
            res is Err <==> old(self).refuses(key@),
            res is Err ==> res == Err::<(), StoreError>(StoreError::Fatal),
            final(self).locked == old(self).locked,
    {
        self.count_write();
        if self.is_locked(key) {
            return Err(StoreError::Fatal);
        }
        let i = self.position(key);
        let ghost before_entries = self.entries@;
        let ghost first_keys = forall|j: int|
            0 <= j < i ==> before((#[trigger] before_entries[j]).key@, key@);
        let ghost last_keys = forall|j: int|
            i <= j < before_entries.len() && before_entries[j].key@ != key@ ==> before(
                key@,
                (#[trigger] before_entries[j]).key@,
            );
        proof {
            assert(first_keys) by {
                assert forall|j: int| 0 <= j < i implies before(
                    (#[trigger] before_entries[j]).key@,
                    key@,
                ) by {
                    assert(before(self.entries[j].key@, key@));
                }
            }
            assert(last_keys) by {
                assert forall|j: int|
                    i <= j < before_entries.len() && before_entries[j].key@ != key@ implies before(
                    key@,
                    (#[trigger] before_entries[j]).key@,
                ) by {
                    if j > i {
                        assert(before(key@, self.entries[j].key@));
                    }
                }
            }
        }
        let object = Object { key: bytes_of(key), bytes: bytes_of(bytes) };
        if i < self.entries.len() && bytes_eq(self.entries[i].key.as_slice(), key) {
            self.entries.set(i, object);
        } else {
            self.entries.insert(i, object);
        }
        proof {
            let after = self.entries@;
            let replaced = i < before_entries.len() && before_entries[i as int].key@ == key@;
            assert(holds_key(after, key@, i as int));
            assert forall|a: int, b: int| 0 <= a < b < after.len() implies before(
                #[trigger] keys_of(after)[a],
                #[trigger] keys_of(after)[b],
            ) by {
                let old_a = if replaced || a < i {
                    a
                } else {
                    a - 1
                };
                let old_b = if replaced || b < i {
                    b
                } else {
                    b - 1
                };
                if a != i && b != i {
                    assert(before(keys_of(before_entries)[old_a], keys_of(before_entries)[old_b]));
                } else if b == i {
                    assert(before(self.entries[a].key@, key@)) by {
                        assert(after[a] == before_entries[a]);
                        assert(first_keys);
                    }
                } else {
                    assert(before(key@, self.entries[b].key@)) by {
                        assert(after[b] == before_entries[old_b]);
                        assert(last_keys);
                    }
                }
            }
            assert forall|k: Seq<u8>| #[trigger]
                entries_map(after).contains_key(k) == entries_map(before_entries).insert(
                    key@,
                    bytes@,
                ).contains_key(k) by {
                if entries_map(after).contains_key(k) {
                    let j = choose|j: int| holds_key(after, k, j);
                    if j != i {
                        let old_j = if replaced || j < i {
                            j
                        } else {
                            j - 1
                        };
                        assert(holds_key(before_entries, k, old_j));
                    }
                }
                if k != key@ && entries_map(before_entries).contains_key(k) {
                    let j = choose|j: int| holds_key(before_entries, k, j);
                    let new_j = if replaced || j < i {
                        j
                    } else {
                        j + 1
                    };
                    assert(holds_key(after, k, new_j));
                }
            }
            assert forall|k: Seq<u8>| #[trigger]
                entries_map(after).contains_key(k) implies entries_map(after)[k] == entries_map(
                before_entries,
            ).insert(key@, bytes@)[k] by {
                let j = choose|j: int| holds_key(after, k, j);
                lemma_entries_map(after, j);
                if k != key@ {
                    let old_j = if replaced || j < i {
                        j
                    } else {
                        j - 1
                    };
                    lemma_entries_map(before_entries, old_j);
                } else {
                    lemma_entries_map(after, i as int);
                }
            }
        }
        Ok(())
    }

    fn get(&self, key: &[u8]) -> (res: Result<Option<Vec<u8>>, StoreError>)
        ensures
            res is Ok,
    {
        let i = self.position(key);
        if i < self.entries.len() && bytes_eq(self.entries[i].key.as_slice(), key) {
            proof {
                lemma_entries_map(self.entries@, i as int);
            }
            Ok(Some(bytes_of(self.entries[i].bytes.as_slice())))
        } else {
            Ok(None)
        }
    }

    fn contains(&self, key: &[u8]) -> (res: Result<bool, StoreError>)
        ensures
            res is Ok,
    {
        let i = self.position(key);
        let found = i < self.entries.len() && bytes_eq(self.entries[i].key.as_slice(), key);
        proof {
            if found {
                assert(holds_key(self.entries@, key@, i as int));
            }
        }
        Ok(found)
    }

    fn list(&self, prefix: &[u8]) -> (res: Result<Vec<Vec<u8>>, StoreError>)
        ensures
            res is Ok,
    {
        let mut keys: Vec<Vec<u8>> = Vec::new();
        let mut i: usize = 0;
        while i < self.entries.len()
            invariant
                i <= self.entries.len(),
                self.valid(),
                ascending(views(keys@)),
                forall|a: int, j: int|
                    0 <= a < keys.len() && i <= j < self.entries.len() ==> before(
                        #[trigger] views(keys@)[a],
                        #[trigger] self.entries[j].key@,
                    ),
                forall|a: int|
                    0 <= a < keys.len() ==> self.objects().contains_key(#[trigger] views(keys@)[a])
                        && has_prefix(views(keys@)[a], prefix@),
                forall|j: int|
                    0 <= j < i && has_prefix(#[trigger] self.entries[j].key@, prefix@)
                        ==> views(keys@).contains(self.entries[j].key@),
            decreases self.entries.len() - i,
        {
            if starts_with(self.entries[i].key.as_slice(), prefix) {
                let ghost prev = views(keys@);
                let key = bytes_of(self.entries[i].key.as_slice());
                keys.push(key);
                proof {
                    let now = views(keys@);
                    let at = self.entries[i as int].key@;
                    assert(now =~= prev.push(at));
                    assert(holds_key(self.entries@, at, i as int));
                    assert forall|a: int, j: int|
                        0 <= a < keys.len() && i + 1 <= j < self.entries.len() implies before(
                        #[trigger] now[a],
                        #[trigger] self.entries[j].key@,
                    ) by {
                        if a == keys.len() - 1 {
                            assert(before(
                                keys_of(self.entries@)[i as int],
                                keys_of(self.entries@)[j],
                            ));
                        }
                    }
                    assert forall|j: int|
                        0 <= j < i + 1 && has_prefix(
                            #[trigger] self.entries[j].key@,
                            prefix@,
                        ) implies now.contains(self.entries[j].key@) by {
                        if j < i {
                            let a = choose|a: int|
                                0 <= a < prev.len() && prev[a] == self.entries[j].key@;
                            assert(now[a] == self.entries[j].key@);
                        } else {
                            assert(now[now.len() - 1] == at);
                        }
                    }
                }
            }
            i += 1;
        }
        Ok(keys)
    }

    fn delete(&mut self, key: &[u8]) -> (res: Result<(), StoreError>)
        ensures
            res is Err <==> old(self).refuses(key@),
            res is Err ==> res == Err::<(), StoreError>(StoreError::Fatal),
            final(self).locked == old(self).locked,
    {
        self.count_write();
        if self.is_locked(key) {
            self.removed = Ghost(self.removed@.push((key@, false)));
            return Err(StoreError::Fatal);
        }
        self.removed = Ghost(self.removed@.push((key@, true)));
        let i = self.position(key);
        let ghost before_entries = self.entries@;
        if i < self.entries.len() && bytes_eq(self.entries[i].key.as_slice(), key) {
            let _ = self.entries.remove(i);
            proof {
                let after = self.entries@;
                assert forall|a: int, b: int| 0 <= a < b < after.len() implies before(
                    #[trigger] keys_of(after)[a],
                    #[trigger] keys_of(after)[b],
                ) by {
                    let old_a = if a < i {
                        a
                    } else {
                        a + 1
                    };
                    let old_b = if b < i {
                        b
                    } else {
                        b + 1
                    };
                    assert(before(keys_of(before_entries)[old_a], keys_of(before_entries)[old_b]));
                }
                assert forall|k: Seq<u8>| #[trigger]
                    entries_map(after).contains_key(k) == entries_map(before_entries).remove(
                        key@,
                    ).contains_key(k) by {
                    if entries_map(after).contains_key(k) {
                        let j = choose|j: int| holds_key(after, k, j);
                        let old_j = if j < i {
                            j
                        } else {
                            j + 1
                        };
                        lemma_entries_map(before_entries, old_j);
                    }
                    if k != key@ && entries_map(before_entries).contains_key(k) {
                        let j = choose|j: int| holds_key(before_entries, k, j);
                        let new_j = if j < i {
                            j
                        } else {
                            j - 1
                        };
                        assert(holds_key(after, k, new_j));
                    }
                }
                assert forall|k: Seq<u8>| #[trigger]
                    entries_map(after).contains_key(k) implies entries_map(after)[k]
                    == entries_map(before_entries).remove(key@)[k] by {
                    let j = choose|j: int| holds_key(after, k, j);
                    lemma_entries_map(after, j);
                    let old_j = if j < i {
                        j
                    } else {
                        j + 1
                    };
                    lemma_entries_map(before_entries, old_j);
                }
            }
        }
        Ok(())
    }
}

/// Whether `k` is one of the first `n` of `keys`.
pub open spec fn among(keys: Seq<Seq<u8>>, n: int, k: Seq<u8>) -> bool {
    exists|j: int| 0 <= j < n && #[trigger] keys[j] == k
}

/// The listing of a set of keys: those that start with `prefix`, each once,
/// in dictionary order. Every backend lists its keys in this way.
pub fn listed(keys: &Vec<Vec<u8>>, prefix: &[u8]) -> (out: Vec<Vec<u8>>)
    ensures
        ascending(views(out@)),
        forall|k: Seq<u8>|
            #[trigger] views(out@).contains(k) <==> views(keys@).contains(k) && has_prefix(
                k,
                prefix@,
            ),
{
    let mut store = MemoryStore::new();
    let ghost all = views(keys@);
    let mut i: usize = 0;
    assert forall|k: Seq<u8>| #[trigger]
        store.objects().contains_key(k) <==> has_prefix(k, prefix@) && among(all, 0, k) by {}
    while i < keys.len()
        invariant
            i <= keys.len(),
            all == views(keys@),
            store.valid(),
            store.dependable(),
            forall|k: Seq<u8>| #[trigger]
                store.objects().contains_key(k) <==> has_prefix(k, prefix@) && among(
                    all,
                    i as int,
                    k,
                ),
        decreases keys.len() - i,
    {
        let ghost held = store.objects();
        assert(all[i as int] == keys[i as int]@);
        if starts_with(keys[i].as_slice(), prefix) {
            let none: Vec<u8> = Vec::new();
            let _ = store.put(keys[i].as_slice(), none.as_slice());
        }
        proof {
            assert forall|k: Seq<u8>| #[trigger]
                store.objects().contains_key(k) <==> has_prefix(k, prefix@) && among(
                    all,
                    i + 1,
                    k,
                ) by {
                assert(held.contains_key(k) <==> has_prefix(k, prefix@) && among(all, i as int, k));
                if among(all, i as int, k) {
                    let j = choose|j: int| 0 <= j < i && #[trigger] all[j] == k;
                    assert(all[j] == k);
                }
                if among(all, i + 1, k) {
                    let j = choose|j: int| 0 <= j < i + 1 && #[trigger] all[j] == k;
                    if j < i {
                        assert(among(all, i as int, k));
                    }
                }
                if all[i as int] == k {
                    assert(among(all, i + 1, k));
                }
            }
        }
        i += 1;
    }
    let out = match store.list(prefix) {
        Ok(out) => out,
        Err(_) => Vec::new(),
    };
    proof {
        let found = views(out@);
        assert forall|k: Seq<u8>| #[trigger] found.contains(k) <==> all.contains(k) && has_prefix(
            k,
            prefix@,
        ) by {
            assert(store.objects().contains_key(k) <==> has_prefix(k, prefix@) && among(
                all,
                keys.len() as int,
                k,
            ));
            if found.contains(k) {
                let a = choose|a: int| 0 <= a < found.len() && found[a] == k;
                assert(store.objects().contains_key(found[a]));
                let j = choose|j: int| 0 <= j < keys.len() && #[trigger] all[j] == k;
                assert(all[j] == k);
            }
            if all.contains(k) && has_prefix(k, prefix@) {
                let j = choose|j: int| 0 <= j < all.len() && all[j] == k;
                assert(all[j] == k);
                assert(among(all, keys.len() as int, k));
                assert(store.objects().contains_key(k));
            }
        }
    }
    out
}

} // verus!
