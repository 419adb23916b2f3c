//! The transformer engine: deterministic anonymisation of column values.
//!
//! A transformer replaces a raw value by a function of the value, the dump's
//! seed and the row's ordinal. Every variant states the shape of what it
//! makes, and the fake generators never hand the source value back.

use crate::codec::{digest, digest_of, mix, mixed, repeated};
use crate::wire::bytes_eq;
use vstd::prelude::*;

verus! {

/// A set of byte values that a substitution replaces.
#[derive(Clone, Copy, Debug, PartialEq, Eq, Structural)]
pub enum ByteClass {
    /// The ASCII digits.
    Digit,
    /// The ASCII letters.
    Letter,
    /// Every byte.
    Any,
}

/// How a column's values are replaced.
#[derive(Clone, Debug, PartialEq, Eq)]
pub enum Transformer {
    /// The value passes through unchanged.
    Keep,
    /// A made-up address at `example.com`. The source must hold an `@`.
    Email,
    /// Every digit is replaced by another digit; the other bytes stay. The
    /// source must hold a digit.
    Phone,
    /// A made-up name: a capital letter and seven small ones.
    Name,
    /// Every byte is replaced by `mask`.
    Redact { mask: u8 },
    /// Every byte of `class` is replaced by `with`. The three classes are
    /// the only patterns: there are no regular expressions.
    Substitute { class: ByteClass, with: u8 },
    /// `length` bytes drawn from `alphabet`, which must not be empty.
    Custom { alphabet: Vec<u8>, length: usize },
}

pub open spec fn is_digit(b: u8) -> bool {
    48 <= b <= 57
}

pub open spec fn is_lower(b: u8) -> bool {
    97 <= b <= 122
}

pub open spec fn is_upper(b: u8) -> bool {
    65 <= b <= 90
}

impl ByteClass {
    /// Whether `b` belongs to the class.
    pub open spec fn holds(self, b: u8) -> bool {
        match self {
            ByteClass::Digit => is_digit(b),
            ByteClass::Letter => is_lower(b) || is_upper(b),
            ByteClass::Any => true,
        }
    }

    /// Whether `b` belongs to the class.
    pub fn contains(&self, b: u8) -> (inside: bool)
        ensures
            inside == self.holds(b),
    {
        match self {
            ByteClass::Digit => 48 <= b && b <= 57,
            ByteClass::Letter => (97 <= b && b <= 122) || (65 <= b && b <= 90),
            ByteClass::Any => true,
        }
    }
}

/// The state that a value's pseudo-random draws start from.
pub open spec fn stream_base(seed: u64, ordinal: u64, value: Seq<u8>) -> u64 {
    mixed(mixed(seed ^ digest(value)) ^ ordinal)
}

/// The `i`-th pseudo-random draw of a stream.
pub open spec fn draw(base: u64, i: int) -> u64 {
    mixed(base.wrapping_add(i as u64))
}

/// The small letter picked by a draw.
pub open spec fn lower(d: u64) -> u8 {
    (97 + d % 26) as u8
}

/// The capital letter picked by a draw.
pub open spec fn upper(d: u64) -> u8 {
    (65 + d % 26) as u8
}

/// The letter after `b` in its alphabet, `a` after `z`.
pub open spec fn next_letter(b: u8) -> u8 {
    if b == 122 {
        97
    } else if b == 90 {
        65
    } else if b < 255 {
        (b + 1) as u8
    } else {
        0
    }
}

/// `s` with its first letter moved on by one.
pub open spec fn bumped(s: Seq<u8>) -> Seq<u8> {
    s.update(0, next_letter(s[0]))
}

/// `candidate`, or its bumped form where it equals the source value.
pub open spec fn apart(candidate: Seq<u8>, value: Seq<u8>) -> Seq<u8> {
    if candidate == value {
        bumped(candidate)
    } else {
        candidate
    }
}

/// The bytes of `@example.com`.
pub open spec fn email_domain() -> Seq<u8> {
    seq![64u8, 101u8, 120u8, 97u8, 109u8, 112u8, 108u8, 101u8, 46u8, 99u8, 111u8, 109u8]
}

/// Ten small letters drawn from the stream.
pub open spec fn email_local(base: u64) -> Seq<u8> {
    Seq::new(10, |j: int| lower(draw(base, j)))
}

/// The digit that replaces digit `b` under draw `d`: never `b` itself.
pub open spec fn fake_digit(b: u8, d: u64) -> u8 {
    (48 + ((b - 48) + 1 + d % 9) % 10) as u8
}

/// `value` with each digit replaced.
pub open spec fn fake_phone(base: u64, value: Seq<u8>) -> Seq<u8> {
    Seq::new(
        value.len(),
        |i: int|
            if is_digit(value[i]) {
                fake_digit(value[i], draw(base, i))
            } else {
                value[i]
            },
    )
}

/// A capital letter and seven small ones drawn from the stream.
pub open spec fn name_letters(base: u64) -> Seq<u8> {
    Seq::new(
        8,
        |j: int|
            if j == 0 {
                upper(draw(base, j))
            } else {
                lower(draw(base, j))
            },
    )
}

/// `value` with each byte of `class` replaced by `with`.
pub open spec fn substituted(class: ByteClass, with: u8, value: Seq<u8>) -> Seq<u8> {
    Seq::new(
        value.len(),
        |i: int|
            if class.holds(value[i]) {
                with
            } else {
                value[i]
            },
    )
}

/// `length` bytes of `alphabet`, picked by the stream's draws.
pub open spec fn custom_bytes(base: u64, alphabet: Seq<u8>, length: nat) -> Seq<u8> {
    Seq::new(length, |j: int| alphabet[(draw(base, j) % (alphabet.len() as u64)) as int])
}

impl Transformer {
    /// Whether the transformer's own settings make sense.
    pub open spec fn valid(self) -> bool {
        match self {
            Transformer::Custom { alphabet, length } => alphabet.len() > 0,
            _ => true,
        }
    }

    /// Computes `valid`.
    pub fn is_valid(&self) -> (ok: bool)
        ensures
            ok == self.valid(),
    {
        match self {
            Transformer::Custom { alphabet, length } => alphabet.len() > 0,
            _ => true,
        }
    }
}

/// What `t` makes of `value` in row `ordinal` of a dump seeded with `seed`;
/// `None` where `t` cannot process the value.
pub open spec fn transformed(t: Transformer, value: Seq<u8>, seed: u64, ordinal: u64) -> Option<
    Seq<u8>,
> {
    let base = stream_base(seed, ordinal, value);
    match t {
        Transformer::Keep => Some(value),
        Transformer::Email => if value.contains(64u8) {
            Some(apart(email_local(base) + email_domain(), value))
        } else {
            None
        },
        Transformer::Phone => if exists|i: int| 0 <= i < value.len() && is_digit(#[trigger] value[i]) {
            Some(fake_phone(base, value))
        } else {
            None
        },
        Transformer::Name => Some(apart(name_letters(base), value)),
        Transformer::Redact { mask } => Some(repeated(value.len(), mask)),
        Transformer::Substitute { class, with } => Some(substituted(class, with, value)),
        Transformer::Custom { alphabet, length } => if alphabet.len() > 0 {
            Some(custom_bytes(base, alphabet@, length as nat))
        } else {
            None
        },
    }
}

/// The shape that each transformer promises of its output.
pub open spec fn well_shaped(t: Transformer, value: Seq<u8>, out: Seq<u8>) -> bool {
    match t {
        Transformer::Keep => out == value,
        Transformer::Email => {
            &&& out.len() == 22
            &&& forall|j: int| 0 <= j < 10 ==> is_lower(#[trigger] out[j])
            &&& out.skip(10) == email_domain()
        },
        Transformer::Phone => {
            &&& out.len() == value.len()
            &&& forall|i: int|
                0 <= i < value.len() ==> if is_digit(value[i]) {
                    is_digit(#[trigger] out[i]) && out[i] != value[i]
                } else {
                    out[i] == value[i]
                }
        },
        Transformer::Name => {
            &&& out.len() == 8
            &&& is_upper(out[0])
            &&& forall|j: int| 1 <= j < 8 ==> is_lower(#[trigger] out[j])
        },
        Transformer::Redact { mask } => {
            &&& out.len() == value.len()
            &&& forall|i: int| 0 <= i < out.len() ==> #[trigger] out[i] == mask
        },
        Transformer::Substitute { class, with } => {
            &&& out.len() == value.len()
            &&& forall|i: int|
                0 <= i < value.len() ==> #[trigger] out[i] == if class.holds(value[i]) {
                    with
                } else {
                    value[i]
                }
        },
        Transformer::Custom { alphabet, length } => {
            &&& out.len() == length
            &&& forall|j: int| 0 <= j < out.len() ==> alphabet@.contains(#[trigger] out[j])
        },
    }
}

/// Whether `t` is sure to change `value`: the fake generators always do, a
/// mask or a substitution where the value holds a byte that they replace by
/// another, a custom generator where the value cannot be one of its outputs.
pub open spec fn alters(t: Transformer, value: Seq<u8>) -> bool {
    match t {
        Transformer::Keep => false,
        Transformer::Email => true,
        Transformer::Phone => true,
        Transformer::Name => true,
        Transformer::Redact { mask } => exists|i: int|
            0 <= i < value.len() && #[trigger] value[i] != mask,
        Transformer::Substitute { class, with } => exists|i: int|
            0 <= i < value.len() && class.holds(#[trigger] value[i]) && value[i] != with,
        Transformer::Custom { alphabet, length } => value.len() != length || exists|i: int|
            0 <= i < value.len() && !alphabet@.contains(#[trigger] value[i]),
    }
}

/// Whether two transformers are of one kind and have the same settings.
pub open spec fn same_transformer(a: Transformer, b: Transformer) -> bool {
    match (a, b) {
        (Transformer::Keep, Transformer::Keep) => true,
        (Transformer::Email, Transformer::Email) => true,
        (Transformer::Phone, Transformer::Phone) => true,
        (Transformer::Name, Transformer::Name) => true,
        (Transformer::Redact { mask: m1 }, Transformer::Redact { mask: m2 }) => m1 == m2,
        (
            Transformer::Substitute { class: c1, with: w1 },
            Transformer::Substitute { class: c2, with: w2 },
        ) => c1 == c2 && w1 == w2,
        (
            Transformer::Custom { alphabet: a1, length: l1 },
            Transformer::Custom { alphabet: a2, length: l2 },
        ) => a1@ == a2@ && l1 == l2,
        _ => false,
    }
}

/// Transformers of one kind with the same settings make the same of every
/// value: what a transformer makes depends on nothing else.
pub proof fn lemma_transformed_same(
    a: Transformer,
    b: Transformer,
    value: Seq<u8>,
    seed: u64,
    ordinal: u64,
)
    requires
        same_transformer(a, b),
    ensures
        transformed(a, value, seed, ordinal) == transformed(b, value, seed, ordinal),
        a.valid() == b.valid(),
{
    match (a, b) {
        (
            Transformer::Custom { alphabet: a1, length: l1 },
            Transformer::Custom { alphabet: a2, length: l2 },
        ) => {
            assert(a1.len() == a1@.len());
            assert(a2.len() == a2@.len());
        },
        _ => {},
    }
}

/// Moving a letter on by one keeps its case and changes it.
pub proof fn lemma_next_letter(b: u8)
    ensures
        next_letter(b) != b,
        is_lower(b) ==> is_lower(next_letter(b)),
        is_upper(b) ==> is_upper(next_letter(b)),
{
}

/// Every output has the shape that its transformer promises.
pub proof fn lemma_transformed_shape(t: Transformer, value: Seq<u8>, seed: u64, ordinal: u64)
    requires
        transformed(t, value, seed, ordinal) is Some,
    ensures
        well_shaped(t, value, transformed(t, value, seed, ordinal).unwrap()),
{
    let base = stream_base(seed, ordinal, value);
    let out = transformed(t, value, seed, ordinal).unwrap();
    match t {
        Transformer::Email => {
            let candidate = email_local(base) + email_domain();
            assert(out.skip(10) =~= email_domain());
            assert forall|j: int| 0 <= j < 10 implies is_lower(#[trigger] out[j]) by {
                lemma_next_letter(candidate[0]);
            }
        },
        Transformer::Name => {
            let candidate = name_letters(base);
            lemma_next_letter(candidate[0]);
        },
        _ => {},
    }
}

/// A transformer that alters a value never hands it back.
pub proof fn lemma_transformed_differs(t: Transformer, value: Seq<u8>, seed: u64, ordinal: u64)
    requires
        alters(t, value),
        transformed(t, value, seed, ordinal) is Some,
    ensures
        transformed(t, value, seed, ordinal).unwrap() != value,
{
    let base = stream_base(seed, ordinal, value);
    match t {
        Transformer::Email => {
            let candidate = email_local(base) + email_domain();
            lemma_next_letter(candidate[0]);
        },
        Transformer::Name => {
            let candidate = name_letters(base);
            lemma_next_letter(candidate[0]);
        },
        Transformer::Custom { alphabet, length } => {
            lemma_transformed_shape(t, value, seed, ordinal);
        },
        _ => {},
    }
}

/// Whether `value` holds the byte `b`.
pub fn has_byte(value: &[u8], b: u8) -> (found: bool)
    ensures
        found == value@.contains(b),
{
    let mut i: usize = 0;
    while i < value.len()
        invariant
            i <= value.len(),
            forall|j: int| 0 <= j < i ==> value@[j] != b,
        decreases value.len() - i,
    {
        if value[i] == b {
            return true;
        }
        i += 1;
    }
    false
}

/// Whether `value` holds an ASCII digit.
pub fn has_digit(value: &[u8]) -> (found: bool)
    ensures
        found == exists|i: int| 0 <= i < value.len() && is_digit(#[trigger] value@[i]),
{
    let mut i: usize = 0;
    while i < value.len()
        invariant
            i <= value.len(),
            forall|j: int| 0 <= j < i ==> !is_digit(#[trigger] value@[j]),
        decreases value.len() - i,
    {
        if 48 <= value[i] && value[i] <= 57 {
            return true;
        }
        i += 1;
    }
    false
}

/// Moves the first letter of `out` on by one where `out` equals `value`.
fn keep_apart(out: &mut Vec<u8>, value: &[u8])
    requires
        old(out).len() > 0,
        is_lower(old(out)[0]) || is_upper(old(out)[0]),
    ensures
        final(out)@ == apart(old(out)@, value@),
{
    if bytes_eq(out.as_slice(), value) {
        let first = out[0];
        let next: u8 = if first == 122 {
            97
        } else if first == 90 {
            65
        } else {
            first + 1
        };
        out.set(0, next);
    }
}

/// Applies `t` to one value. `None` where `t` cannot process the value: an
/// address without `@`, a phone number without a digit, a custom generator
/// without an alphabet.
pub fn transform(t: &Transformer, value: &[u8], seed: u64, ordinal: u64) -> (res: Option<Vec<u8>>)
    ensures
        match res {
            Some(out) => transformed(*t, value@, seed, ordinal) == Some(out@),
            None => transformed(*t, value@, seed, ordinal) is None,
        },
{
    let base = mix(mix(seed ^ digest_of(value)) ^ ordinal);
    match t {
        Transformer::Keep => {
            let out = crate::wire::bytes_of(value);
            Some(out)
        },
        Transformer::Email => {
            if !has_byte(value, 64u8) {
                return None;
            }
            let mut out: Vec<u8> = Vec::new();
            let mut j: usize = 0;
            while j < 10
                invariant
                    j <= 10,
                    out@ == email_local(base).take(j as int),
                decreases 10 - j,
            {
                let d = mix(base.wrapping_add(j as u64));
                out.push(97u8 + (d % 26) as u8);
                j += 1;
            }
            out.push(64u8);
            out.push(101u8);
            out.push(120u8);
            out.push(97u8);
            out.push(109u8);
            out.push(112u8);
            out.push(108u8);
            out.push(101u8);
            out.push(46u8);
            out.push(99u8);
            out.push(111u8);
            out.push(109u8);
            assert(out@ =~= email_local(base) + email_domain());
            keep_apart(&mut out, value);
            Some(out)
        },
        Transformer::Phone => {
            if !has_digit(value) {
                return None;
            }
            let mut out: Vec<u8> = Vec::new();
            let mut i: usize = 0;
            while i < value.len()
                invariant
                    i <= value.len(),
                    out@ == fake_phone(base, value@).take(i as int),
                decreases value.len() - i,
            {
                let b = value[i];
                if 48 <= b && b <= 57 {
                    let d = mix(base.wrapping_add(i as u64));
                    let moved: u64 = ((b - 48) as u64 + 1 + d % 9) % 10;
                    out.push(48u8 + moved as u8);
                } else {
                    out.push(b);
                }
                i += 1;
            }
            Some(out)
        },
        Transformer::Name => {
            let mut out: Vec<u8> = Vec::new();
            let first = mix(base.wrapping_add(0u64));
            out.push(65u8 + (first % 26) as u8);
            let mut j: usize = 1;
            while j < 8
                invariant
                    1 <= j <= 8,
                    out@ == name_letters(base).take(j as int),
                decreases 8 - j,
            {
                let d = mix(base.wrapping_add(j as u64));
                out.push(97u8 + (d % 26) as u8);
                j += 1;
            }
            assert(out@ =~= name_letters(base));
            keep_apart(&mut out, value);
            Some(out)
        },
        Transformer::Redact { mask } => {
            let mut out: Vec<u8> = Vec::new();
            let mut i: usize = 0;
            while i < value.len()
                invariant
                    i <= value.len(),
                    out@ == repeated(i as nat, *mask),
                decreases value.len() - i,
            {
                out.push(*mask);
                i += 1;
            }
            Some(out)
        },
        Transformer::Substitute { class, with } => {
            let mut out: Vec<u8> = Vec::new();
            let mut i: usize = 0;
            while i < value.len()
                invariant
                    i <= value.len(),
                    out@ == substituted(*class, *with, value@).take(i as int),
                decreases value.len() - i,
            {
                if class.contains(value[i]) {
                    out.push(*with);
                } else {
                    out.push(value[i]);
                }
                i += 1;
            }
            Some(out)
        },
        Transformer::Custom { alphabet, length } => {
            if alphabet.len() == 0 {
                return None;
            }
            let mut out: Vec<u8> = Vec::new();
            let mut j: usize = 0;
            while j < *length
                invariant
                    j <= *length,
                    alphabet.len() > 0,
                    out@ == custom_bytes(base, alphabet@, *length as nat).take(j as int),
                decreases *length - j,
            {
                let d = mix(base.wrapping_add(j as u64));
                let k = (d % (alphabet.len() as u64)) as usize;
                out.push(alphabet[k]);
                j += 1;
            }
            Some(out)
        },
    }
}

} // verus!
