//! Chunk payloads: run-length compression and a keyed stream cipher.
//!
//! A raw chunk is sealed by compressing it, where the dump asks for that, and
//! then enciphering it, where a key is given. Opening a sealed chunk with the
//! same settings gives the raw chunk back.
//!
//! The cipher is a keystream, made from a digest of the key, that is xor-ed
//! onto the data. It keeps a chunk from being read by accident. It does not
//! withstand an attack: the keystream of one key is the same for every chunk,
//! so two chunks, or one chunk whose content is known in part, give it away,
//! and nothing tells a chunk that was tampered with from one that was not. A
//! store of production data that must stay secret needs encryption of its
//! own, under the datastore or around it.

use vstd::prelude::*;

verus! {

/// `count` copies of `byte`.
pub open spec fn repeated(count: nat, byte: u8) -> Seq<u8> {
    Seq::new(count, |i: int| byte)
}

/// Compressed data is a list of (count, byte) pairs with no count of zero.
pub open spec fn well_formed_runs(pairs: Seq<u8>) -> bool {
    &&& pairs.len() % 2 == 0
    &&& forall|k: int| 0 <= k < pairs.len() / 2 ==> #[trigger] pairs[2 * k] > 0
}

/// The bytes that a list of (count, byte) pairs stands for.
pub open spec fn expanded(pairs: Seq<u8>) -> Seq<u8>
    decreases pairs.len(),
{
    if pairs.len() < 2 {
        Seq::empty()
    } else {
        let n = pairs.len() - 2;
        expanded(pairs.take(n)) + repeated(pairs[n] as nat, pairs[n + 1])
    }
}

/// The run-length encoding of `raw`: each maximal run of equal bytes becomes
/// pairs of at most 255 bytes each, the full ones first.
pub open spec fn runs(raw: Seq<u8>) -> Seq<u8>
    decreases raw.len(),
{
    if raw.len() == 0 {
        Seq::empty()
    } else {
        let prev = runs(raw.drop_last());
        let n = prev.len();
        if n >= 2 && prev[n - 1] == raw.last() && prev[n - 2] < 255 {
            prev.update(n - 2, (prev[n - 2] + 1) as u8)
        } else {
            prev.push(1u8).push(raw.last())
        }
    }
}

/// Run-length encodings are well formed.
pub proof fn lemma_runs_well_formed(raw: Seq<u8>)
    ensures
        well_formed_runs(runs(raw)),
    decreases raw.len(),
{
    if raw.len() > 0 {
        lemma_runs_well_formed(raw.drop_last());
    }
}

/// Expanding a run-length encoding gives the raw bytes back.
pub proof fn lemma_expanded_runs(raw: Seq<u8>)
    ensures
        expanded(runs(raw)) == raw,
    decreases raw.len(),
{
    if raw.len() > 0 {
        let init = raw.drop_last();
        lemma_expanded_runs(init);
        lemma_runs_well_formed(init);
        let prev = runs(init);
        let next = runs(raw);
        let n = prev.len() as int;
        if n >= 2 && prev[n - 1] == raw.last() && prev[n - 2] < 255 {
            assert(next.take(n - 2) =~= prev.take(n - 2));
            assert(repeated((prev[n - 2] + 1) as nat, raw.last()) =~= repeated(prev[n - 2] as nat, raw.last())
                + seq![raw.last()]);
            assert(expanded(next) =~= expanded(prev) + seq![raw.last()]);
        } else {
            assert(next.take(n) =~= prev);
        }
    }
}

/// Compresses `raw` by run-length encoding.
pub fn compress(raw: &[u8]) -> (out: Vec<u8>)
    ensures
        out@ == runs(raw@),
{
    let mut out: Vec<u8> = Vec::new();
    let mut i: usize = 0;
    while i < raw.len()
        invariant
            i <= raw.len(),
            out@ == runs(raw@.take(i as int)),
        decreases raw.len() - i,
    {
        proof {
            assert(raw@.take(i + 1).drop_last() =~= raw@.take(i as int));
        }
        let byte = raw[i];
        let n = out.len();
        if n >= 2 && out[n - 1] == byte && out[n - 2] < 255 {
            let count = out[n - 2];
            out.set(n - 2, count + 1);
        } else {
            out.push(1u8);
            out.push(byte);
        }
        i += 1;
    }
    assert(raw@.take(i as int) =~= raw@);
    out
}

/// Expands run-length encoded data; `None` where `pairs` is not well formed.
pub fn decompress(pairs: &[u8]) -> (res: Option<Vec<u8>>)
    ensures
        match res {
            Some(raw) => well_formed_runs(pairs@) && raw@ == expanded(pairs@),
            None => !well_formed_runs(pairs@),
        },
{
    if pairs.len() % 2 != 0 {
        return None;
    }
    let mut out: Vec<u8> = Vec::new();
    let mut k: usize = 0;
    while 2 * k < pairs.len()
        invariant
            pairs.len() % 2 == 0,
            2 * k <= pairs.len(),
            out@ == expanded(pairs@.take(2 * k)),
            forall|j: int| 0 <= j < k ==> #[trigger] pairs@[2 * j] > 0,
        decreases pairs.len() - 2 * k,
    {
        let count = pairs[2 * k];
        let byte = pairs[2 * k + 1];
        if count == 0 {
            return None;
        }
        let ghost before = out@;
        let mut m: u8 = 0;
        while m < count
            invariant
                m <= count,
                out@ == before + repeated(m as nat, byte),
            decreases count - m,
        {
            out.push(byte);
            m += 1;
        }
        proof {
            let next = pairs@.take(2 * k + 2);
            assert(next.take(next.len() - 2) =~= pairs@.take(2 * k));
        }
        k += 1;
    }
    assert(pairs@.take(2 * k) =~= pairs@);
    Some(out)
}

/// A 64-bit mixing step: xor-shifts and multiplications that wrap.
pub open spec fn mixed(x: u64) -> u64 {
    let a = (x ^ (x >> 30)).wrapping_mul(0xbf58_476d_1ce4_e5b9);
    let b = (a ^ (a >> 27)).wrapping_mul(0x94d0_49bb_1331_11eb);
    b ^ (b >> 31)
}

/// Computes `mixed`.
pub fn mix(x: u64) -> (out: u64)
    ensures
        out == mixed(x),
{
    let a = (x ^ (x >> 30)).wrapping_mul(0xbf58_476d_1ce4_e5b9);
    let b = (a ^ (a >> 27)).wrapping_mul(0x94d0_49bb_1331_11eb);
    b ^ (b >> 31)
}

/// The 64-bit digest of a byte string: each byte in turn is folded into the
/// state, which is then mixed.
pub open spec fn digest(bytes: Seq<u8>) -> u64
    decreases bytes.len(),
{
    if bytes.len() == 0 {
        0xcbf2_9ce4_8422_2325
    } else {
        mixed(digest(bytes.drop_last()) ^ (bytes.last() as u64))
    }
}

/// Computes `digest`.
pub fn digest_of(bytes: &[u8]) -> (out: u64)
    ensures
        out == digest(bytes@),
{
    let mut state: u64 = 0xcbf2_9ce4_8422_2325;
    let mut i: usize = 0;
    while i < bytes.len()
        invariant
            i <= bytes.len(),
            state == digest(bytes@.take(i as int)),
        decreases bytes.len() - i,
    {
        proof {
            assert(bytes@.take(i + 1).drop_last() =~= bytes@.take(i as int));
        }
        state = mix(state ^ (bytes[i] as u64));
        i += 1;
    }
    assert(bytes@.take(i as int) =~= bytes@);
    state
}

/// The keystream byte at position `i`: byte `i % 8` of the mixed sum of the
/// state and the block number `i / 8`.
pub open spec fn pad(state: u64, i: nat) -> u8 {
    let word = mixed(state.wrapping_add((i / 8) as u64));
    ((word >> ((8 * (i % 8)) as u64)) % 256) as u8
}

/// `data` with the keystream of `key` xor-ed onto it.
pub open spec fn enciphered(data: Seq<u8>, key: Seq<u8>) -> Seq<u8> {
    Seq::new(data.len(), |i: int| data[i] ^ pad(digest(key), i as nat))
}

/// Enciphering twice with one key gives the data back.
pub proof fn lemma_enciphered_twice(data: Seq<u8>, key: Seq<u8>)
    ensures
        enciphered(enciphered(data, key), key) == data,
{
    let once = enciphered(data, key);
    let twice = enciphered(once, key);
    assert forall|i: int| 0 <= i < data.len() implies twice[i] == data[i] by {
        let d = data[i];
        let p = pad(digest(key), i as nat);
        assert((d ^ p) ^ p == d) by (bit_vector);
    }
}

/// Xors the keystream of `key` onto `data`. The same call deciphers. This
/// hides the data from a casual look and from no one else.
pub fn encipher(data: &[u8], key: &[u8]) -> (out: Vec<u8>)
    ensures
        out@ == enciphered(data@, key@),
{
    let state = digest_of(key);
    let mut out: Vec<u8> = Vec::new();
    let mut i: usize = 0;
    while i < data.len()
        invariant
            i <= data.len(),
            state == digest(key@),
            out@ == enciphered(data@, key@).take(i as int),
        decreases data.len() - i,
    {
        let word = mix(state.wrapping_add((i / 8) as u64));
        let shift: u64 = (8 * (i % 8)) as u64;
        let p: u8 = ((word >> shift) % 256) as u8;
        out.push(data[i] ^ p);
        i += 1;
    }
    out
}

/// The key of a dump, as contracts see it.
pub open spec fn key_model(key: Option<Vec<u8>>) -> Option<Seq<u8>> {
    match key {
        Some(k) => Some(k@),
        None => None,
    }
}

/// The stored form of a raw chunk.
pub open spec fn sealed(raw: Seq<u8>, compression: bool, key: Option<Seq<u8>>) -> Seq<u8> {
    let body = if compression {
        runs(raw)
    } else {
        raw
    };
    match key {
        Some(k) => enciphered(body, k),
        None => body,
    }
}

/// The raw chunk that a stored chunk holds; `None` where it does not expand.
pub open spec fn opened(payload: Seq<u8>, compression: bool, key: Option<Seq<u8>>) -> Option<
    Seq<u8>,
> {
    let body = match key {
        Some(k) => enciphered(payload, k),
        None => payload,
    };
    if !compression {
        Some(body)
    } else if well_formed_runs(body) {
        Some(expanded(body))
    } else {
        None
    }
}

/// Opening a sealed chunk with the same settings gives the raw chunk back.
pub proof fn lemma_opened_sealed(raw: Seq<u8>, compression: bool, key: Option<Seq<u8>>)
    ensures
        opened(sealed(raw, compression, key), compression, key) == Some(raw),
{
    let body = if compression {
        runs(raw)
    } else {
        raw
    };
    if let Some(k) = key {
        lemma_enciphered_twice(body, k);
    }
    lemma_runs_well_formed(raw);
    lemma_expanded_runs(raw);
}

/// Seals a raw chunk: compresses it if asked, then enciphers it if a key is
/// given.
pub fn seal(raw: &[u8], compression: bool, key: &Option<Vec<u8>>) -> (out: Vec<u8>)
    ensures
        out@ == sealed(raw@, compression, key_model(*key)),
{
    let body = if compression {
        compress(raw)
    } else {
        crate::wire::bytes_of(raw)
    };
    match key {
        Some(k) => encipher(body.as_slice(), k.as_slice()),
        None => body,
    }
}

/// Opens a sealed chunk: deciphers it if a key is given, then expands it if the
/// dump is compressed. `None` where the deciphered bytes are not well-formed
/// compressed data.
pub fn open(payload: &[u8], compression: bool, key: &Option<Vec<u8>>) -> (res: Option<Vec<u8>>)
    ensures
        match res {
            Some(raw) => opened(payload@, compression, key_model(*key)) == Some(raw@),
            None => opened(payload@, compression, key_model(*key)) is None,
        },
{
    let body = match key {
        Some(k) => encipher(payload, k.as_slice()),
        None => crate::wire::bytes_of(payload),
    };
    if compression {
        decompress(body.as_slice())
    } else {
        Some(body)
    }
}

} // verus!
