//! Raw database structure.
//!
//! The binary blob is a sequence of packed fixed-width records whose 32-bit
//! fields are stored in little-endian byte order.  In memory every field is
//! kept as a native integer; the little-endian conversion happens exactly
//! once, when a record is emitted to or parsed from the blob.
//!
//! Strings and integer lists are never stored inline: a record carries a
//! handle (an index into the string list, or an offset/length pair into the
//! vector arena) instead.

use vstd::prelude::*;

verus! {

/// The little-endian encoding of a 32-bit value, least significant byte first.
pub open spec fn le32(v: u32) -> Seq<u8> {
    seq![
        (v % 0x100) as u8,
        ((v / 0x100) % 0x100) as u8,
        ((v / 0x10000) % 0x100) as u8,
        ((v / 0x1000000) % 0x100) as u8,
    ]
}

/// The 32-bit value named by four little-endian bytes.
pub open spec fn le32_val(s: Seq<u8>) -> u32
    recommends
        s.len() == 4,
{
    (s[0] + s[1] * 0x100 + s[2] * 0x10000 + s[3] * 0x1000000) as u32
}

/// Decoding the little-endian bytes of a value gives the value back.
pub proof fn lemma_le32_round_trip(v: u32)
    ensures
        le32(v).len() == 4,
        le32_val(le32(v)) == v,
{
    assert(v % 0x100 + ((v / 0x100) % 0x100) * 0x100 + ((v / 0x10000) % 0x100) * 0x10000 + ((v
        / 0x1000000) % 0x100) * 0x1000000 == v) by (bit_vector);
}

/// Unsigned 32-bit integer as persisted in the blob (little-endian byte
/// order).  The in-memory `value` is the decoded native integer.
#[derive(Clone, Copy, PartialEq, Eq, Structural)]
pub struct RawUint32 {
    pub value: u32,
}

impl RawUint32 {
    /// Appends the little-endian bytes of the value to `out`.
    pub fn write_le(self, out: &mut Vec<u8>)
        ensures
            final(out)@ == old(out)@ + le32(self.value),
    {
        out.push((self.value % 0x100) as u8);
        out.push(((self.value / 0x100) % 0x100) as u8);
        out.push(((self.value / 0x10000) % 0x100) as u8);
        out.push(((self.value / 0x1000000) % 0x100) as u8);
        assert(out@ =~= old(out)@ + le32(self.value));
    }

    /// Decodes the four little-endian bytes starting at `pos`.
    pub fn read_le(bytes: &Vec<u8>, pos: usize) -> (r: RawUint32)
        requires
            pos + 4 <= bytes@.len(),
        ensures
            r.value == le32_val(bytes@.subrange(pos as int, pos + 4)),
    {
        let n = bytes.len();
        assert(pos + 4 <= n);
        let b0 = bytes[pos] as u32;
        let b1 = bytes[pos + 1] as u32;
        let b2 = bytes[pos + 2] as u32;
        let b3 = bytes[pos + 3] as u32;
        let v = b0 + b1 * 0x100 + b2 * 0x10000 + b3 * 0x1000000;
        proof {
            let s = bytes@.subrange(pos as int, pos + 4);
            assert(s[0] == bytes@[pos as int]);
            assert(s[1] == bytes@[pos + 1]);
            assert(s[2] == bytes@[pos + 2]);
            assert(s[3] == bytes@[pos + 3]);
        }
        RawUint32 { value: v }
    }
}

/// Signed 32-bit integer in the blob.  Stored as the two's-complement bit
/// pattern of the value, little-endian, like `RawUint32`.
#[derive(Clone, Copy, PartialEq, Eq, Structural)]
pub struct RawInt32 {
    pub value: i32,
}

impl RawInt32 {
    /// The unsigned bit pattern under which the value is persisted.
    pub fn to_bits(self) -> (r: u32)
        ensures
            r == self.value as u32,
    {
        self.value as u32
    }

    /// Recovers the signed value from its persisted bit pattern.
    pub fn from_bits(bits: u32) -> (r: RawInt32)
        ensures
            r.value == bits as i32,
    {
        RawInt32 { value: bits as i32 }
    }
}

/// Handle for a serialized string.
///
/// Strings are interned for de-duplication and all string data is stored in a
/// single byte blob; a string is addressed by its byte offset and byte length
/// within that blob.
#[derive(Clone, Copy, PartialEq, Eq, Structural)]
pub struct StrHandle {
    pub offset: u32,
    pub length: u32,
}

impl StrHandle {
    /// Converts the raw offset and length into a `(start, end)` range that
    /// can be used to index the string data.
    pub fn range(&self) -> (r: (usize, usize))
        requires
            self.offset + self.length <= usize::MAX,
        ensures
            r.0 == self.offset,
            r.1 == self.offset + self.length,
    {
        (self.offset as usize, self.offset as usize + self.length as usize)
    }
}

/// Handle for a serialized vector.
///
/// All list data (term glossaries, kanji readings, tag indexes, character
/// buckets) is serialized into a single `u32` arena and referenced by offset
/// and length, counted in elements.  The empty list is always `{0, 0}`.
#[derive(Clone, Copy, PartialEq, Eq, Structural)]
pub struct VecHandle {
    pub offset: u32,
    pub length: u32,
}

impl VecHandle {
    /// Converts the raw offset and length into a `(start, end)` range that
    /// can be used to index the vector data.
    pub fn range(&self) -> (r: (usize, usize))
        requires
            self.offset + self.length <= usize::MAX,
        ensures
            r.0 == self.offset,
            r.1 == self.offset + self.length,
    {
        (self.offset as usize, self.offset as usize + self.length as usize)
    }
}

/// Raw structure for a serialized tag.
#[derive(Clone, Copy, PartialEq, Eq, Structural)]
pub struct TagRaw {
    pub name: u32,
    pub category: u32,
    pub order: u32,
    pub notes: u32,
}

/// Raw structure for a serialized kanji.
#[derive(Clone, Copy, PartialEq, Eq, Structural)]
pub struct KanjiRaw {
    pub character: u32,
    pub frequency: u32,
    pub source: u32,
    pub meanings: VecHandle,
    pub onyomi: VecHandle,
    pub kunyomi: VecHandle,
    pub tags: VecHandle,
    pub stats: VecHandle,
}

/// Raw structure for a serialized term.
#[derive(Clone, Copy, PartialEq, Eq, Structural)]
pub struct TermRaw {
    pub expression: u32,
    pub reading: u32,
    pub search_key: u32,
    pub score: u32,
    pub sequence: u32,
    pub frequency: u32,
    pub source: u32,
    pub glossary: VecHandle,
    pub rules: VecHandle,
    pub term_tags: VecHandle,
    pub definition_tags: VecHandle,
}

/// Serialized row in the term index.
#[derive(Clone, Copy, PartialEq, Eq, Structural)]
pub struct TermIndex {
    pub key: u32,
    pub term: u32,
}

/// Serialized row in the character index.
#[derive(Clone, Copy, PartialEq, Eq, Structural)]
pub struct CharIndex {
    pub character: u32,
    pub indexes: VecHandle,
}

} // verus!
