//! A table that stores strings without duplicates.
//!
//! A [`StringTable`] specializes the blob store to UTF-8 byte sequences: its
//! element type is a single byte, and every entry's bytes form a valid UTF-8
//! string. [`insert`](StringTable::insert) returns a stable byte offset, and
//! [`read`](StringTable::read) resolves an offset against the serialized
//! buffer, re-validating the bytes as UTF-8 since the buffer may not come
//! from this table.

use vstd::prelude::*;
use vstd::utf8::decode_utf8;
use vstd::utf8::encode_utf8;
use vstd::utf8::encode_utf8_decode_utf8;
use vstd::utf8::encode_utf8_valid_utf8;
use vstd::utf8::valid_utf8;

use crate::offset_set::OffsetSet;
use crate::offset_set::ReadOffsetSetError;
use crate::offset_set::ValidationError;
use crate::offset_set::entry_items_at;
use crate::offset_set::entry_read_result;
use crate::offset_set::entry_scan;
use crate::offset_set::lemma_scan_contains;
use crate::offset_set::lemma_wf_scan;

verus! {

/// An error when trying to read a string from a serialized [`StringTable`].
#[derive(Debug, Clone, Copy, PartialEq, Eq, Structural)]
pub enum ReadStringError {
    /// The string's length prefix is not valid LEB128.
    Leb128,
    /// The string data is not valid UTF-8.
    Utf8,
    /// The string's offset or length is outside the bounds of the data blob.
    OutOfBounds,
}

impl From<ReadOffsetSetError> for ReadStringError {
    fn from(value: ReadOffsetSetError) -> (r: Self) {
        match value {
            ReadOffsetSetError::Leb128 => ReadStringError::Leb128,
            ReadOffsetSetError::OutOfBounds => ReadStringError::OutOfBounds,
        }
    }
}

impl vstd::std_specs::convert::FromSpecImpl<ReadOffsetSetError> for ReadStringError {
    open spec fn obeys_from_spec() -> bool {
        true
    }

    open spec fn from_spec(t: ReadOffsetSetError) -> Self {
        match t {
            ReadOffsetSetError::Leb128 => ReadStringError::Leb128,
            ReadOffsetSetError::OutOfBounds => ReadStringError::OutOfBounds,
        }
    }
}

/// Relies on `String::from_utf8`: it succeeds exactly on valid UTF-8 input,
/// and the string it returns holds the characters those bytes encode.
#[verifier::external_body]
fn bytes_to_string(bytes: Vec<u8>) -> (r: Option<String>)
    ensures
        r is Some <==> valid_utf8(bytes@),
        r matches Some(s) ==> s@ == decode_utf8(bytes@),
{
    String::from_utf8(bytes).ok()
}

/// Relies on `str::from_utf8`: it returns `Ok` exactly when the bytes are
/// valid UTF-8.
#[verifier::external_body]
fn utf8_check(bytes: &[u8]) -> (r: bool)
    ensures
        r == valid_utf8(bytes@),
{
    core::str::from_utf8(bytes).is_ok()
}

/// A struct for storing strings without duplicates.
///
/// Add strings to the table with [`insert`](StringTable::insert). The
/// returned offset can be used to [`read`](StringTable::read) the string back
/// from the table's byte representation: the concatenation of the stored
/// strings, each prefixed with its byte length in LEB128 encoding, holding
/// each string only once.
#[derive(Clone, Debug)]
pub struct StringTable {
    inner: OffsetSet<u8>,
}

impl Default for StringTable {
    /// An empty table, as [`StringTable::new`] returns.
    fn default() -> (r: Self)
        ensures
            r.wf(),
            r.is_canonical(),
            r.bytes() == Seq::<u8>::empty(),
    {
        StringTable::new()
    }
}

impl StringTable {
    /// The serialized bytes of the table.
    pub closed spec fn bytes(self) -> Seq<u8> {
        self.inner.bytes()
    }

    /// The entry at `offset` is indexed and holds the UTF-8 encoding of the
    /// characters `s`.
    pub closed spec fn indexed(self, offset: usize, s: Seq<char>) -> bool {
        self.inner.indexed(offset, encode_utf8(s))
    }

    /// Some indexed entry holds the UTF-8 encoding of the characters `s`.
    pub closed spec fn contains_string(self, s: Seq<char>) -> bool {
        self.inner.contains_items(encode_utf8(s))
    }

    /// Well-formedness: the underlying blob store is well-formed and every
    /// entry's bytes form valid UTF-8.
    pub closed spec fn wf(self) -> bool {
        &&& self.inner.wf()
        &&& forall|p: int|
            #[trigger] entry_scan::<u8>(self.bytes(), 0)->Ok_0.contains(p) ==> valid_utf8(
                entry_items_at::<u8>(self.bytes(), p),
            )
    }

    /// The stored strings are pairwise distinct: true of every table built
    /// only by insertions.
    pub closed spec fn is_canonical(self) -> bool {
        self.inner.is_canonical()
    }

    /// Initializes an empty [`StringTable`].
    pub fn new() -> (r: Self)
        ensures
            r.wf(),
            r.is_canonical(),
            r.bytes() == Seq::<u8>::empty(),
    {
        let r = StringTable { inner: OffsetSet::new() };
        r
    }

    /// Initializes a [`StringTable`] from a previously serialized
    /// representation.
    ///
    /// This essentially reverses the [`as_bytes`](Self::as_bytes) call. It
    /// fails on the first malformed length prefix, out-of-bounds entry, or
    /// entry whose bytes are not valid UTF-8, discarding any partial result.
    pub fn from_bytes(buffer: &[u8]) -> (r: Result<Self, ReadStringError>)
        ensures
            match r {
                Ok(t) => {
                    &&& entry_scan::<u8>(buffer@, 0) is Ok
                    &&& t.wf()
                    &&& t.bytes() == buffer@
                },
                Err(ReadStringError::Leb128) => entry_scan::<u8>(buffer@, 0) == Err::<
                    Seq<int>,
                    ReadOffsetSetError,
                >(ReadOffsetSetError::Leb128),
                Err(ReadStringError::OutOfBounds) => entry_scan::<u8>(buffer@, 0) == Err::<
                    Seq<int>,
                    ReadOffsetSetError,
                >(ReadOffsetSetError::OutOfBounds),
                Err(ReadStringError::Utf8) => exists|p: int|
                    #![auto]
                    entry_read_result::<u8>(buffer@, p) is Ok && !valid_utf8(
                        entry_items_at::<u8>(buffer@, p),
                    ),
            },
            (entry_scan::<u8>(buffer@, 0) is Ok && (forall|p: int|
                #[trigger] entry_scan::<u8>(buffer@, 0)->Ok_0.contains(p) ==> valid_utf8(
                    entry_items_at::<u8>(buffer@, p),
                ))) ==> r is Ok,
    {
        let check = |entry: &[u8]| -> (b: bool)
            ensures
                b == valid_utf8(entry@),
            { utf8_check(entry) };
        match OffsetSet::<u8>::from_bytes_validated(buffer, check) {
            Ok(inner) => {
                let t = StringTable { inner };
                proof {
                    assert forall|p: int|
                        #[trigger] entry_scan::<u8>(t.bytes(), 0)->Ok_0.contains(
                            p,
                        ) implies valid_utf8(entry_items_at::<u8>(t.bytes(), p)) by {
                        assert(entry_scan::<u8>(buffer@, 0)->Ok_0.contains(p));
                    }
                }
                Ok(t)
            },
            Err(ValidationError::Read(ReadOffsetSetError::Leb128)) => Err(ReadStringError::Leb128),
            Err(ValidationError::Read(ReadOffsetSetError::OutOfBounds)) => Err(
                ReadStringError::OutOfBounds,
            ),
            Err(ValidationError::Invalid) => Err(ReadStringError::Utf8),
        }
    }

    /// Inserts a string into this [`StringTable`].
    ///
    /// Returns an offset that can be used to retrieve the inserted string
    /// with [`read`](Self::read) after serializing this table with
    /// [`as_bytes`](Self::as_bytes). Inserting a string the table already
    /// holds changes nothing and returns the offset the string already has.
    pub fn insert(&mut self, s: &str) -> (r: usize)
        requires
            old(self).wf(),
        ensures
            final(self).wf(),
            final(self).indexed(r, s@),
            entry_read_result::<u8>(final(self).bytes(), r as int) is Ok,
            entry_items_at::<u8>(final(self).bytes(), r as int) == encode_utf8(s@),
            old(self).bytes().is_prefix_of(final(self).bytes()),
            forall|off: int|
                entry_read_result::<u8>(old(self).bytes(), off) is Ok
                    ==> #[trigger] entry_read_result::<u8>(final(self).bytes(), off)
                    == entry_read_result::<u8>(old(self).bytes(), off),
            old(self).contains_string(s@) ==> *final(self) == *old(self) && old(self).indexed(
                r,
                s@,
            ),
            !old(self).contains_string(s@) ==> final(self).bytes() == old(self).bytes()
                + crate::offset_set::entry_encoding::<u8>(encode_utf8(s@)) && r == old(
                self,
            ).bytes().len(),
            old(self).is_canonical() ==> final(self).is_canonical(),
    {
        let bytes = s.as_bytes();
        let len: usize = bytes.len();
        proof {
            assert(len <= usize::MAX);
            assert(bytes@.len() <= u64::MAX);
            lemma_wf_scan::<u8>(self.inner);
        }
        let ghost old_bytes = self.inner.bytes();
        let ghost old_starts = entry_scan::<u8>(old_bytes, 0)->Ok_0;
        let r = self.inner.insert(bytes);
        proof {
            encode_utf8_valid_utf8(s@);
            assert(bytes@ == encode_utf8(s@));
            if !old(self).contains_string(s@) {
                let new_starts = entry_scan::<u8>(self.inner.bytes(), 0)->Ok_0;
                assert(new_starts == old_starts.push(r as int));
                assert forall|p: int| #[trigger] new_starts.contains(p) implies valid_utf8(
                    entry_items_at::<u8>(self.inner.bytes(), p),
                ) by {
                    let k = choose|k: int| 0 <= k < new_starts.len() && new_starts[k] == p;
                    if k < old_starts.len() {
                        assert(old_starts[k] == p);
                        assert(old_starts.contains(p));
                        lemma_scan_contains::<u8>(old_bytes, 0, p);
                        assert(entry_read_result::<u8>(self.inner.bytes(), p)
                            == entry_read_result::<u8>(old_bytes, p));
                    } else {
                        assert(p == r as int);
                    }
                }
            }
        }
        r
    }

    /// Returns a byte slice containing the concatenation of the strings that
    /// have been added to this [`StringTable`].
    pub fn as_bytes(&self) -> (r: &[u8])
        ensures
            r@ == self.bytes(),
    {
        self.inner.as_bytes()
    }

    /// Returns a byte vector containing the concatenation of the strings that
    /// have been added to this [`StringTable`].
    ///
    /// This consumes the [`StringTable`].
    pub fn into_bytes(self) -> (r: Vec<u8>)
        ensures
            r@ == self.bytes(),
    {
        self.inner.into_bytes()
    }

    /// Returns the string stored at the given offset in the byte slice, if
    /// any.
    ///
    /// Use this to retrieve a string that was previously
    /// [inserted](StringTable::insert) into a [`StringTable`]. The entry's
    /// bytes are validated as UTF-8 on every read, because the buffer may not
    /// come from a [`StringTable`] at all.
    pub fn read(buffer: &[u8], offset: usize) -> (r: Result<String, ReadStringError>)
        ensures
            match r {
                Ok(st) => {
                    &&& entry_read_result::<u8>(buffer@, offset as int) is Ok
                    &&& valid_utf8(entry_items_at::<u8>(buffer@, offset as int))
                    &&& st@ == decode_utf8(entry_items_at::<u8>(buffer@, offset as int))
                    &&& encode_utf8(st@) == entry_items_at::<u8>(buffer@, offset as int)
                },
                Err(ReadStringError::Utf8) => entry_read_result::<u8>(buffer@, offset as int)
                    is Ok && !valid_utf8(entry_items_at::<u8>(buffer@, offset as int)),
                Err(ReadStringError::Leb128) => entry_read_result::<u8>(buffer@, offset as int)
                    == Err::<(Seq<u8>, int), ReadOffsetSetError>(ReadOffsetSetError::Leb128),
                Err(ReadStringError::OutOfBounds) => entry_read_result::<u8>(
                    buffer@,
                    offset as int,
                ) == Err::<(Seq<u8>, int), ReadOffsetSetError>(ReadOffsetSetError::OutOfBounds),
            },
    {
        let bytes = match OffsetSet::<u8>::read(buffer, offset) {
            Ok(v) => v,
            Err(ReadOffsetSetError::Leb128) => {
                return Err(ReadStringError::Leb128);
            },
            Err(ReadOffsetSetError::OutOfBounds) => {
                return Err(ReadStringError::OutOfBounds);
            },
        };
        match bytes_to_string(bytes) {
            Some(st) => {
                proof {
                    vstd::utf8::decode_utf8_encode_utf8(
                        entry_items_at::<u8>(buffer@, offset as int),
                    );
                }
                Ok(st)
            },
            None => Err(ReadStringError::Utf8),
        }
    }
}

/// Round trip law: the entry that an inserted string leaves in the buffer is
/// valid UTF-8 and decodes to exactly that string, so reading at the offset
/// that [`StringTable::insert`] returned gives the inserted string back.
pub proof fn lemma_string_round_trip(b: Seq<u8>, off: int, s: Seq<char>)
    requires
        entry_read_result::<u8>(b, off) is Ok,
        entry_items_at::<u8>(b, off) == encode_utf8(s),
    ensures
        valid_utf8(entry_items_at::<u8>(b, off)),
        decode_utf8(entry_items_at::<u8>(b, off)) == s,
{
    encode_utf8_valid_utf8(s);
    encode_utf8_decode_utf8(s);
}

} // verus!
