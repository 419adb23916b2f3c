//! Object keys: where chunks, indexes and the version marker live.
//!
//! A chunk lives at `<dump>/<table>/<sequence>`, an index at
//! `metadata/<dump>`, the version marker at `metadata/__version`. Names hold no
//! `/`, so a key tells its parts apart.

use crate::wire::{append_bytes, bytes_eq};
use vstd::prelude::*;

verus! {

/// The byte `/`.
pub open spec fn slash() -> Seq<u8> {
    seq![47u8]
}

/// A name that can be part of a key: not empty, and without `/`.
pub open spec fn name_ok(name: Seq<u8>) -> bool {
    name.len() > 0 && !name.contains(47u8)
}

/// The bytes of `metadata/`.
pub open spec fn index_prefix() -> Seq<u8> {
    seq![109u8, 101u8, 116u8, 97u8, 100u8, 97u8, 116u8, 97u8, 47u8]
}

/// The bytes of `__version`.
pub open spec fn marker_name() -> Seq<u8> {
    seq![95u8, 95u8, 118u8, 101u8, 114u8, 115u8, 105u8, 111u8, 110u8]
}

/// The bytes of `metadata`.
pub open spec fn index_folder() -> Seq<u8> {
    seq![109u8, 101u8, 116u8, 97u8, 100u8, 97u8, 116u8, 97u8]
}

/// A name that a dump can have: one that can be part of a key, not that of the
/// version marker, and not that of the folder of the indexes.
pub open spec fn dump_name_ok(name: Seq<u8>) -> bool {
    name_ok(name) && name != marker_name() && name != index_folder()
}

/// Whether `key` starts with `prefix`.
pub open spec fn has_prefix(key: Seq<u8>, prefix: Seq<u8>) -> bool {
    prefix.len() <= key.len() && key.take(prefix.len() as int) == prefix
}

/// Byte strings in dictionary order: `a` comes before `b`.
pub open spec fn before(a: Seq<u8>, b: Seq<u8>) -> bool
    decreases a.len(),
{
    if b.len() == 0 {
        false
    } else if a.len() == 0 {
        true
    } else if a[0] != b[0] {
        a[0] < b[0]
    } else {
        before(a.skip(1), b.skip(1))
    }
}

/// No byte string comes before itself.
pub proof fn lemma_before_irreflexive(a: Seq<u8>)
    ensures
        !before(a, a),
    decreases a.len(),
{
    if a.len() > 0 {
        lemma_before_irreflexive(a.skip(1));
    }
}

/// Dictionary order is transitive.
pub proof fn lemma_before_transitive(a: Seq<u8>, b: Seq<u8>, c: Seq<u8>)
    requires
        before(a, b),
        before(b, c),
    ensures
        before(a, c),
    decreases a.len(),
{
    if a.len() > 0 && b.len() > 0 && c.len() > 0 && a[0] == b[0] && b[0] == c[0] {
        lemma_before_transitive(a.skip(1), b.skip(1), c.skip(1));
    }
}

/// Of two different byte strings one comes before the other.
pub proof fn lemma_before_total(a: Seq<u8>, b: Seq<u8>)
    ensures
        before(a, b) || a == b || before(b, a),
    decreases a.len(),
{
    if a.len() > 0 && b.len() > 0 && a[0] == b[0] {
        lemma_before_total(a.skip(1), b.skip(1));
        if a.skip(1) == b.skip(1) {
            assert(a =~= seq![a[0]] + a.skip(1));
        }
    }
}

/// Strings that agree on their first `n` bytes are ordered as what follows.
pub proof fn lemma_before_skip(a: Seq<u8>, b: Seq<u8>, n: int)
    requires
        0 <= n <= a.len(),
        n <= b.len(),
        a.take(n) == b.take(n),
    ensures
        before(a, b) == before(a.skip(n), b.skip(n)),
    decreases n,
{
    if n == 0 {
        assert(a.skip(0) =~= a);
        assert(b.skip(0) =~= b);
    } else {
        assert(a[0] == a.take(n)[0]);
        assert(a.skip(1).take(n - 1) =~= a.take(n).skip(1));
        assert(b.skip(1).take(n - 1) =~= b.take(n).skip(1));
        lemma_before_skip(a.skip(1), b.skip(1), n - 1);
        assert(a.skip(1).skip(n - 1) =~= a.skip(n));
        assert(b.skip(1).skip(n - 1) =~= b.skip(n));
    }
}

/// The decimal digits of `n`, without leading zeros.
pub open spec fn decimal(n: nat) -> Seq<u8>
    decreases n,
{
    if n < 10 {
        seq![(48 + n) as u8]
    } else {
        decimal(n / 10).push((48 + n % 10) as u8)
    }
}

/// The number that a string of decimal digits stands for.
pub open spec fn decimal_value(digits: Seq<u8>) -> nat
    decreases digits.len(),
{
    if digits.len() == 0 {
        0
    } else {
        (decimal_value(digits.drop_last()) * 10 + (digits.last() - 48)) as nat
    }
}

/// The key of chunk `seq` of `table` in `dump`.
pub open spec fn chunk_key(dump: Seq<u8>, table: Seq<u8>, seq: nat) -> Seq<u8> {
    dump + slash() + (table + slash() + decimal(seq))
}

/// The key of the index of `dump`.
pub open spec fn index_key(dump: Seq<u8>) -> Seq<u8> {
    index_prefix() + dump
}

/// The key of the version marker.
pub open spec fn version_key() -> Seq<u8> {
    index_prefix() + marker_name()
}

/// Decimal digits are digits, and stand for the number they were made from.
pub proof fn lemma_decimal(n: nat)
    ensures
        decimal(n).len() > 0,
        forall|i: int| 0 <= i < decimal(n).len() ==> 48 <= #[trigger] decimal(n)[i] <= 57,
        decimal_value(decimal(n)) == n,
    decreases n,
{
    if n < 10 {
        let d = decimal(n);
        assert(decimal_value(d.drop_last()) == 0);
    } else {
        lemma_decimal(n / 10);
        let d = decimal(n);
        assert(d.drop_last() =~= decimal(n / 10));
    }
}

/// Two strings that each start with a name and a `/` are equal only where the
/// names are equal and what follows the `/` is equal.
pub proof fn lemma_split_at_slash(a: Seq<u8>, x: Seq<u8>, b: Seq<u8>, y: Seq<u8>)
    requires
        !a.contains(47u8),
        !b.contains(47u8),
        a + slash() + x == b + slash() + y,
    ensures
        a == b,
        x == y,
{
    let left = a + slash() + x;
    let right = b + slash() + y;
    if a.len() < b.len() {
        assert(left[a.len() as int] == 47u8);
    }
    if b.len() < a.len() {
        assert(right[b.len() as int] == 47u8);
    }
    assert(a =~= left.take(a.len() as int));
    assert(x =~= left.skip(a.len() as int + 1));
}

/// Chunk keys tell dump, table and sequence number apart.
pub proof fn lemma_chunk_key_injective(
    dump1: Seq<u8>,
    table1: Seq<u8>,
    seq1: nat,
    dump2: Seq<u8>,
    table2: Seq<u8>,
    seq2: nat,
)
    requires
        name_ok(dump1),
        name_ok(table1),
        name_ok(dump2),
        name_ok(table2),
        chunk_key(dump1, table1, seq1) == chunk_key(dump2, table2, seq2),
    ensures
        dump1 == dump2,
        table1 == table2,
        seq1 == seq2,
{
    lemma_split_at_slash(
        dump1,
        table1 + slash() + decimal(seq1),
        dump2,
        table2 + slash() + decimal(seq2),
    );
    lemma_split_at_slash(table1, decimal(seq1), table2, decimal(seq2));
    lemma_decimal(seq1);
    lemma_decimal(seq2);
}

/// No chunk key is the key of an index or of the version marker: a chunk key
/// holds two `/`, the others one.
pub proof fn lemma_chunk_key_not_index(dump: Seq<u8>, table: Seq<u8>, seq: nat, other: Seq<u8>)
    requires
        !other.contains(47u8),
    ensures
        chunk_key(dump, table, seq) != index_key(other),
{
    let key = chunk_key(dump, table, seq);
    let index = index_key(other);
    if key == index {
        let p = dump.len() as int;
        let q = p + 1 + table.len();
        assert(key[p] == 47u8);
        assert(key[q] == 47u8);
        assert forall|i: int| 0 <= i < index.len() && index[i] == 47u8 implies i == 8 by {
        }
    }
}

/// Index keys tell dumps apart, and the marker's key is that of no dump.
pub proof fn lemma_index_key_injective(dump1: Seq<u8>, dump2: Seq<u8>)
    ensures
        index_key(dump1) == index_key(dump2) ==> dump1 == dump2,
        dump_name_ok(dump1) ==> index_key(dump1) != version_key(),
{
    assert(index_key(dump1).skip(9) =~= dump1);
    assert(version_key().skip(9) =~= marker_name());
}

/// Whether `name` can be part of a key.
pub fn is_name_ok(name: &[u8]) -> (ok: bool)
    ensures
        ok == name_ok(name@),
{
    if name.len() == 0 {
        return false;
    }
    let mut i: usize = 0;
    while i < name.len()
        invariant
            i <= name.len(),
            forall|j: int| 0 <= j < i ==> name@[j] != 47u8,
        decreases name.len() - i,
    {
        if name[i] == 47u8 {
            return false;
        }
        i += 1;
    }
    true
}

/// The name of the version marker.
pub fn marker_name_bytes() -> (out: Vec<u8>)
    ensures
        out@ == marker_name(),
{
    let mut out: Vec<u8> = Vec::new();
    out.push(95u8);
    out.push(95u8);
    out.push(118u8);
    out.push(101u8);
    out.push(114u8);
    out.push(115u8);
    out.push(105u8);
    out.push(111u8);
    out.push(110u8);
    out
}

/// Whether a dump can have the name `name`.
pub fn is_dump_name_ok(name: &[u8]) -> (ok: bool)
    ensures
        ok == dump_name_ok(name@),
{
    let marker = marker_name_bytes();
    let prefix = index_prefix_bytes();
    assert(prefix@.take(8) =~= index_folder());
    let folder = vstd::slice::slice_subrange(prefix.as_slice(), 0, 8);
    is_name_ok(name) && !bytes_eq(name, marker.as_slice()) && !bytes_eq(name, folder)
}

/// Whether `a` comes before `b` in dictionary order.
pub fn is_before(a: &[u8], b: &[u8]) -> (less: bool)
    ensures
        less == before(a@, b@),
{
    let mut i: usize = 0;
    while i < a.len() && i < b.len()
        invariant
            i <= a.len(),
            i <= b.len(),
            a@.take(i as int) == b@.take(i as int),
        decreases a.len() - i,
    {
        if a[i] != b[i] {
            proof {
                lemma_before_skip(a@, b@, i as int);
            }
            return a[i] < b[i];
        }
        i += 1;
    }
    proof {
        lemma_before_skip(a@, b@, i as int);
    }
    i < b.len()
}

/// Whether `key` starts with `prefix`.
pub fn starts_with(key: &[u8], prefix: &[u8]) -> (yes: bool)
    ensures
        yes == has_prefix(key@, prefix@),
{
    if prefix.len() > key.len() {
        return false;
    }
    bytes_eq(vstd::slice::slice_subrange(key, 0, prefix.len()), prefix)
}

/// The prefix that the keys of all indexes share.
pub fn index_prefix_bytes() -> (out: Vec<u8>)
    ensures
        out@ == index_prefix(),
{
    let mut out: Vec<u8> = Vec::new();
    out.push(109u8);
    out.push(101u8);
    out.push(116u8);
    out.push(97u8);
    out.push(100u8);
    out.push(97u8);
    out.push(116u8);
    out.push(97u8);
    out.push(47u8);
    out
}

/// The key of the index of `dump`.
pub fn index_key_of(dump: &[u8]) -> (out: Vec<u8>)
    ensures
        out@ == index_key(dump@),
{
    let mut out = index_prefix_bytes();
    append_bytes(&mut out, dump);
    out
}

/// The key of the version marker.
pub fn version_key_bytes() -> (out: Vec<u8>)
    ensures
        out@ == version_key(),
{
    let marker = marker_name_bytes();
    index_key_of(marker.as_slice())
}

/// Appends the decimal digits of `n` to `out`.
pub fn push_decimal(out: &mut Vec<u8>, n: u64)
    ensures
        final(out)@ == old(out)@ + decimal(n as nat),
    decreases n,
{
    if n >= 10 {
        push_decimal(out, n / 10);
    }
    out.push(48u8 + (n % 10) as u8);
}

/// The key of chunk `seq` of `table` in `dump`.
pub fn chunk_key_of(dump: &[u8], table: &[u8], seq: u64) -> (out: Vec<u8>)
    ensures
        out@ == chunk_key(dump@, table@, seq as nat),
{
    let mut out: Vec<u8> = Vec::new();
    append_bytes(&mut out, dump);
    out.push(47u8);
    append_bytes(&mut out, table);
    out.push(47u8);
    push_decimal(&mut out, seq);
    out
}

} // verus!
