//! Wire format shared by rows, chunks and the dump index.
//!
//! A packed byte string is a concatenation of frames. A frame is the length of
//! an item as eight little-endian bytes, followed by the item's bytes. Packing a
//! list of items and unpacking the result gives the list back.

use vstd::bytes::{
    lemma_auto_spec_u64_to_from_le_bytes, spec_u64_from_le_bytes, spec_u64_to_le_bytes,
    u64_from_le_bytes, u64_to_le_bytes,
};
use vstd::prelude::*;
use vstd::slice::slice_subrange;

verus! {

/// The byte strings held by a vector of byte vectors.
pub open spec fn views(items: Seq<Vec<u8>>) -> Seq<Seq<u8>> {
    Seq::new(items.len(), |i: int| items[i]@)
}

/// One item on the wire: its length, then its bytes.
pub open spec fn frame(item: Seq<u8>) -> Seq<u8> {
    spec_u64_to_le_bytes(item.len() as u64) + item
}

/// The frames of `items`, one after the other.
pub open spec fn packed(items: Seq<Seq<u8>>) -> Seq<u8>
    decreases items.len(),
{
    if items.len() == 0 {
        Seq::empty()
    } else {
        packed(items.drop_last()) + frame(items.last())
    }
}

/// The items whose frames make up `bytes`, or `None` where `bytes` ends inside
/// a frame.
pub open spec fn unpacked(bytes: Seq<u8>) -> Option<Seq<Seq<u8>>>
    decreases bytes.len(),
{
    if bytes.len() == 0 {
        Some(Seq::empty())
    } else if bytes.len() < 8 {
        None
    } else {
        let n = spec_u64_from_le_bytes(bytes.take(8)) as int;
        if n > bytes.len() - 8 {
            None
        } else {
            match unpacked(bytes.skip(8 + n)) {
                Some(rest) => Some(seq![bytes.subrange(8, 8 + n)] + rest),
                None => None,
            }
        }
    }
}

/// Every item is short enough for its length to fit the frame header.
pub open spec fn frameable(items: Seq<Seq<u8>>) -> bool {
    forall|i: int| 0 <= i < items.len() ==> (#[trigger] items[i]).len() <= u64::MAX
}

/// The number of bytes that the frames of `items` take.
pub open spec fn packed_len(items: Seq<Seq<u8>>) -> nat
    decreases items.len(),
{
    if items.len() == 0 {
        0
    } else {
        packed_len(items.drop_last()) + 8 + items.last().len()
    }
}

/// `packed_len` is the length of `packed`.
pub proof fn lemma_packed_len(items: Seq<Seq<u8>>)
    ensures
        packed(items).len() == packed_len(items),
    decreases items.len(),
{
    lemma_auto_spec_u64_to_from_le_bytes();
    if items.len() > 0 {
        lemma_packed_len(items.drop_last());
    }
}

/// Every frame takes at least the eight bytes of its header.
pub proof fn lemma_packed_len_bound(items: Seq<Seq<u8>>)
    ensures
        packed_len(items) >= 8 * items.len(),
    decreases items.len(),
{
    if items.len() > 0 {
        lemma_packed_len_bound(items.drop_last());
    }
}

/// Packing distributes over concatenation.
pub proof fn lemma_packed_concat(a: Seq<Seq<u8>>, b: Seq<Seq<u8>>)
    ensures
        packed(a + b) == packed(a) + packed(b),
    decreases b.len(),
{
    if b.len() > 0 {
        assert((a + b).drop_last() =~= a + b.drop_last());
        lemma_packed_concat(a, b.drop_last());
    }
}

/// Unpacking reads back the first frame and goes on with what follows it.
pub proof fn lemma_unpacked_frame(item: Seq<u8>, tail: Seq<u8>)
    requires
        item.len() <= u64::MAX,
    ensures
        unpacked(frame(item) + tail) == match unpacked(tail) {
            Some(rest) => Some(seq![item] + rest),
            None => None,
        },
{
    lemma_auto_spec_u64_to_from_le_bytes();
    let bytes = frame(item) + tail;
    let header = spec_u64_to_le_bytes(item.len() as u64);
    assert(bytes.take(8) =~= header);
    let n = item.len() as int;
    assert(bytes.subrange(8, 8 + n) =~= item);
    assert(bytes.skip(8 + n) =~= tail);
}

/// Unpacking what was packed gives the items back.
pub proof fn lemma_unpacked_packed(items: Seq<Seq<u8>>)
    requires
        frameable(items),
    ensures
        unpacked(packed(items)) == Some(items),
    decreases items.len(),
{
    if items.len() > 0 {
        let head = seq![items[0]];
        let rest = items.skip(1);
        assert(items =~= head + rest);
        lemma_packed_concat(head, rest);
        assert(packed(head) =~= frame(items[0])) by {
            assert(packed(head.drop_last()) =~= Seq::<u8>::empty());
        }
        lemma_unpacked_packed(rest);
        lemma_unpacked_frame(items[0], packed(rest));
    }
}

/// The values that `parse` reads from each of `items`; `None` where it reads
/// none from one of them.
pub open spec fn parsed_each<T>(
    items: Seq<Seq<u8>>,
    parse: spec_fn(Seq<u8>) -> Option<T>,
) -> Option<Seq<T>>
    decreases items.len(),
{
    if items.len() == 0 {
        Some(Seq::empty())
    } else {
        match (parsed_each(items.drop_last(), parse), parse(items.last())) {
            (Some(done), Some(value)) => Some(done.push(value)),
            _ => None,
        }
    }
}

/// Where parsing fails on a prefix of a list, it fails on the list.
pub proof fn lemma_parsed_each_fails<T>(
    items: Seq<Seq<u8>>,
    parse: spec_fn(Seq<u8>) -> Option<T>,
    n: int,
)
    requires
        0 <= n <= items.len(),
        parsed_each(items.take(n), parse) is None,
    ensures
        parsed_each(items, parse) is None,
    decreases items.len() - n,
{
    if n < items.len() {
        assert(items.take(n + 1).drop_last() =~= items.take(n));
        lemma_parsed_each_fails(items, parse, n + 1);
    } else {
        assert(items.take(n) =~= items);
    }
}

/// Where `parse` reads back what `write` wrote of each value, it reads back a
/// list of values from the list of what `write` wrote of them.
pub proof fn lemma_parsed_each_written<T>(
    values: Seq<T>,
    write: spec_fn(T) -> Seq<u8>,
    parse: spec_fn(Seq<u8>) -> Option<T>,
)
    requires
        forall|i: int| 0 <= i < values.len() ==> parse(write(#[trigger] values[i])) == Some(values[i]),
    ensures
        parsed_each(Seq::new(values.len(), |i: int| write(values[i])), parse) == Some(values),
    decreases values.len(),
{
    let items = Seq::new(values.len(), |i: int| write(values[i]));
    if values.len() > 0 {
        let init = values.drop_last();
        assert(items.drop_last() =~= Seq::new(init.len(), |i: int| write(init[i])));
        lemma_parsed_each_written(init, write, parse);
    }
}

/// Appends `src` to `out`.
pub fn append_bytes(out: &mut Vec<u8>, src: &[u8])
    ensures
        final(out)@ == old(out)@ + src@,
{
    let mut i: usize = 0;
    while i < src.len()
        invariant
            i <= src.len(),
            out@ == old(out)@ + src@.take(i as int),
        decreases src.len() - i,
    {
        out.push(src[i]);
        i += 1;
    }
}

/// Whether two byte strings are the same.
pub fn bytes_eq(a: &[u8], b: &[u8]) -> (same: bool)
    ensures
        same == (a@ == b@),
{
    if a.len() != b.len() {
        return false;
    }
    let mut i: usize = 0;
    while i < a.len()
        invariant
            i <= a.len(),
            a.len() == b.len(),
            a@.take(i as int) == b@.take(i as int),
        decreases a.len() - i,
    {
        if a[i] != b[i] {
            return false;
        }
        i += 1;
    }
    assert(a@.take(i as int) =~= a@);
    assert(b@.take(i as int) =~= b@);
    true
}

/// A fresh vector holding the bytes of `src`.
pub fn bytes_of(src: &[u8]) -> (out: Vec<u8>)
    ensures
        out@ == src@,
{
    let mut out: Vec<u8> = Vec::new();
    append_bytes(&mut out, src);
    out
}

/// A fresh copy of a list of byte strings.
pub fn copy_items(items: &Vec<Vec<u8>>) -> (out: Vec<Vec<u8>>)
    ensures
        views(out@) == views(items@),
{
    let mut out: Vec<Vec<u8>> = Vec::new();
    let mut i: usize = 0;
    while i < items.len()
        invariant
            i <= items.len(),
            out.len() == i,
            forall|k: int| 0 <= k < i ==> (#[trigger] out[k])@ == items[k]@,
        decreases items.len() - i,
    {
        out.push(bytes_of(items[i].as_slice()));
        i += 1;
    }
    out
}

/// Appends the frame of `item` to `out`.
pub fn write_frame(out: &mut Vec<u8>, item: &[u8])
    ensures
        final(out)@ == old(out)@ + frame(item@),
{
    let header = u64_to_le_bytes(item.len() as u64);
    append_bytes(out, header.as_slice());
    append_bytes(out, item);
}

/// Packs `items` into one byte string.
pub fn pack(items: &Vec<Vec<u8>>) -> (out: Vec<u8>)
    ensures
        out@ == packed(views(items@)),
{
    let mut out: Vec<u8> = Vec::new();
    let mut i: usize = 0;
    while i < items.len()
        invariant
            i <= items.len(),
            out@ == packed(views(items@).take(i as int)),
        decreases items.len() - i,
    {
        write_frame(&mut out, items[i].as_slice());
        i += 1;
        proof {
            let done = views(items@).take(i as int);
            assert(done.drop_last() =~= views(items@).take(i - 1));
        }
    }
    assert(views(items@).take(i as int) =~= views(items@));
    out
}

/// Splits a packed byte string into its items. `None` where the input ends
/// inside a frame.
pub fn unpack(bytes: &[u8]) -> (res: Option<Vec<Vec<u8>>>)
    ensures
        match res {
            Some(items) => unpacked(bytes@) == Some(views(items@)),
            None => unpacked(bytes@) is None,
        },
{
    let mut items: Vec<Vec<u8>> = Vec::new();
    let mut pos: usize = 0;
    assert(bytes@.skip(0) =~= bytes@);
    while pos < bytes.len()
        invariant
            pos <= bytes.len(),
            unpacked(bytes@) == match unpacked(bytes@.skip(pos as int)) {
                Some(rest) => Some(views(items@) + rest),
                None => None,
            },
        decreases bytes.len() - pos,
    {
        let ghost tail = bytes@.skip(pos as int);
        if bytes.len() - pos < 8 {
            return None;
        }
        let n = u64_from_le_bytes(slice_subrange(bytes, pos, pos + 8));
        assert(bytes@.subrange(pos as int, pos + 8) =~= tail.take(8));
        if n > (bytes.len() - pos - 8) as u64 {
            return None;
        }
        let start: usize = pos + 8;
        let end: usize = start + n as usize;
        let mut item: Vec<u8> = Vec::new();
        append_bytes(&mut item, slice_subrange(bytes, start, end));
        proof {
            assert(item@ =~= tail.subrange(8, 8 + n));
            assert(tail.skip(8 + n) =~= bytes@.skip(end as int));
        }
        items.push(item);
        pos = end;
    }
    Some(items)
}

} // verus!
