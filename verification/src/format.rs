//! The byte layout of a stored index.
//!
//! An index is stored as its entries one after another, sixteen bytes each,
//! with nothing before, between or after them. An entry is its four fields
//! `w1`, `w2`, `w3`, `count` in this order, each as four bytes with the least
//! significant byte first.

use vstd::prelude::*;
use crate::record::Entry;

verus! {

/// The number of bytes that one entry takes.
pub const ENTRY_BYTES: usize = 16;

/// Why stored data could not be loaded.
#[derive(Clone, Copy, Debug, PartialEq, Eq, Structural)]
pub enum LoadError {
    /// The stored index does not end with a whole entry.
    PartialEntry,
    /// The word list holds more words than there are ids.
    TooManyWords,
    /// An entry names an id that no word of the word list has.
    IdOutOfRange,
}

/// The four bytes of `x`, least significant first.
pub open spec fn u32_bytes(x: u32) -> Seq<u8> {
    seq![
        (x % 0x100) as u8,
        ((x / 0x100) % 0x100) as u8,
        ((x / 0x1_0000) % 0x100) as u8,
        (x / 0x100_0000) as u8,
    ]
}

/// The number whose bytes, least significant first, are `b[at..at + 4]`.
pub open spec fn u32_at(b: Seq<u8>, at: int) -> u32 {
    (b[at] + b[at + 1] * 0x100 + b[at + 2] * 0x1_0000 + b[at + 3] * 0x100_0000) as u32
}

/// The sixteen bytes of an entry.
pub open spec fn entry_bytes(e: Entry) -> Seq<u8> {
    u32_bytes(e.w1) + u32_bytes(e.w2) + u32_bytes(e.w3) + u32_bytes(e.count)
}

/// The entry whose bytes are `b[at..at + 16]`.
pub open spec fn entry_at(b: Seq<u8>, at: int) -> Entry {
    Entry {
        w1: u32_at(b, at),
        w2: u32_at(b, at + 4),
        w3: u32_at(b, at + 8),
        count: u32_at(b, at + 12),
    }
}

/// The bytes of an index: those of its entries, one entry after another.
pub open spec fn encoded(entries: Seq<Entry>) -> Seq<u8> {
    Seq::new(16 * entries.len(), |i: int| entry_bytes(entries[i / 16])[i % 16])
}

/// The entries that `bytes` hold, where `bytes` are whole entries.
pub open spec fn decoded(bytes: Seq<u8>) -> Seq<Entry> {
    Seq::new(bytes.len() / 16, |i: int| entry_at(bytes, 16 * i))
}

/// A number is read back from its four bytes.
pub proof fn lemma_u32_round_trip(x: u32)
    ensures
        u32_bytes(x).len() == 4,
        u32_at(u32_bytes(x), 0) == x,
{
}

/// An entry is read back from its sixteen bytes.
pub proof fn lemma_entry_round_trip(e: Entry)
    ensures
        entry_bytes(e).len() == 16,
        entry_at(entry_bytes(e), 0) == e,
{
    lemma_u32_round_trip(e.w1);
    lemma_u32_round_trip(e.w2);
    lemma_u32_round_trip(e.w3);
    lemma_u32_round_trip(e.count);
}

/// An index is read back from its bytes, entry for entry.
pub proof fn lemma_index_round_trip(entries: Seq<Entry>)
    ensures
        encoded(entries).len() == 16 * entries.len(),
        decoded(encoded(entries)) == entries,
{
    let bytes = encoded(entries);
    assert forall|i: int| 0 <= i < entries.len() implies entry_at(bytes, 16 * i) == entries[i] by {
        let e = entries[i];
        lemma_entry_round_trip(e);
        assert forall|k: int| 0 <= k < 16 implies bytes[16 * i + k] == entry_bytes(e)[k] by {
            assert((16 * i + k) / 16 == i);
            assert((16 * i + k) % 16 == k);
        }
    }
    assert(decoded(bytes) =~= entries);
}

/// One more entry adds its sixteen bytes at the end.
pub proof fn lemma_encoded_push(entries: Seq<Entry>, e: Entry)
    ensures
        encoded(entries.push(e)) == encoded(entries) + entry_bytes(e),
{
    let n = entries.len() as int;
    let whole = encoded(entries.push(e));
    let parts = encoded(entries) + entry_bytes(e);
    assert(entry_bytes(e).len() == 16);
    assert forall|i: int| 0 <= i < whole.len() implies whole[i] == parts[i] by {
        if i < 16 * n {
            assert(i / 16 < n);
        } else {
            assert(i / 16 == n);
            assert(i % 16 == i - 16 * n);
        }
    }
    assert(whole =~= parts);
}

/// Appends the four bytes of `x`.
fn push_u32(out: &mut Vec<u8>, x: u32)
    ensures
        final(out)@ == old(out)@ + u32_bytes(x),
{
    out.push((x % 0x100) as u8);
    out.push(((x / 0x100) % 0x100) as u8);
    out.push(((x / 0x1_0000) % 0x100) as u8);
    out.push((x / 0x100_0000) as u8);
    assert(out@ == old(out)@ + u32_bytes(x));
}

/// Reads the number that stands at `bytes[at..at + 4]`.
fn read_u32(bytes: &[u8], at: usize) -> (x: u32)
    requires
        at + 4 <= bytes.len(),
    ensures
        x == u32_at(bytes@, at as int),
{
    let b0 = bytes[at] as u32;
    let b1 = bytes[at + 1] as u32;
    let b2 = bytes[at + 2] as u32;
    let b3 = bytes[at + 3] as u32;
    b0 + b1 * 0x100 + b2 * 0x1_0000 + b3 * 0x100_0000
}

/// The bytes under which an index is stored.
pub fn encode_index(entries: &[Entry]) -> (bytes: Vec<u8>)
    ensures
        bytes@ == encoded(entries@),
{
    let mut bytes: Vec<u8> = Vec::new();
    let mut i: usize = 0;
    assert(bytes@ == encoded(entries@.take(0)));
    while i < entries.len()
        invariant
            i <= entries.len(),
            bytes@ == encoded(entries@.take(i as int)),
        decreases entries.len() - i,
    {
        let e = entries[i];
        let ghost before = bytes@;
        push_u32(&mut bytes, e.w1);
        push_u32(&mut bytes, e.w2);
        push_u32(&mut bytes, e.w3);
        push_u32(&mut bytes, e.count);
        proof {
            assert(bytes@ == before + entry_bytes(e));
            lemma_encoded_push(entries@.take(i as int), e);
            assert(entries@.take(i as int).push(e) == entries@.take(i + 1));
        }
        i += 1;
    }
    assert(entries@.take(entries.len() as int) == entries@);
    bytes
}

/// The entries that stored bytes hold. Bytes that do not end with a whole
/// entry are refused.
pub fn decode_index(bytes: &[u8]) -> (r: Result<Vec<Entry>, LoadError>)
    ensures
        match r {
            Ok(entries) => bytes@.len() % 16 == 0 && entries@ == decoded(bytes@),
            Err(e) => bytes@.len() % 16 != 0 && e == LoadError::PartialEntry,
        },
{
    if bytes.len() % ENTRY_BYTES != 0 {
        return Err(LoadError::PartialEntry);
    }
    let n = bytes.len() / ENTRY_BYTES;
    let mut entries: Vec<Entry> = Vec::new();
    let mut i: usize = 0;
    while i < n
        invariant
            i <= n,
            n == bytes.len() / 16,
            entries@ == decoded(bytes@).take(i as int),
        decreases n - i,
    {
        let at = i * ENTRY_BYTES;
        let e = Entry {
            w1: read_u32(bytes, at),
            w2: read_u32(bytes, at + 4),
            w3: read_u32(bytes, at + 8),
            count: read_u32(bytes, at + 12),
        };
        entries.push(e);
        assert(entries@ == decoded(bytes@).take(i + 1));
        i += 1;
    }
    assert(decoded(bytes@).take(n as int) == decoded(bytes@));
    Ok(entries)
}

} // verus!
