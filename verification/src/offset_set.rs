//! A deduplicating, offset-addressed blob store.
//!
//! An [`OffsetSet`] interns slices of a fixed element type into an
//! append-only byte buffer. Each unique slice is stored once, as one
//! **entry**: a LEB128 length prefix followed by the raw bytes of the
//! elements. The byte offset of the entry doubles as the slice's stable
//! external identifier: it is returned by [`insert`](OffsetSet::insert) and
//! resolved by [`read`](OffsetSet::read) against the serialized buffer.
//!
//! The in-memory index holds only offsets, never a copy of the stored data:
//! every equality test during deduplication re-reads the candidate entry from
//! the buffer and compares it byte for byte.

use core::marker::PhantomData;

use vstd::prelude::*;

use crate::pod::Pod;
use crate::pod::bytes_of_items;
use crate::pod::items_of_bytes;
use crate::pod::lemma_bytes_of_items_len;
use crate::pod::lemma_bytes_of_items_of_bytes;
use crate::pod::lemma_items_of_bytes_of_items;
use crate::pod::lemma_items_of_bytes_take;
use crate::pod::read_items;
use crate::pod::slice_as_bytes;
use crate::varint::leb128_decode;
use crate::varint::leb128_encode;
use crate::varint::lemma_leb128_decode_extend;
use crate::varint::lemma_leb128_decode_inverse;
use crate::varint::lemma_leb128_round_trip;
use crate::varint::read_leb128;
use crate::varint::write_leb128;

verus! {

broadcast use vstd::slice::group_slice_axioms;

/// Relies on `PhantomData`'s `Clone`: the type is a unit, so the call can
/// only return the unit value. Needed so that a store over a generic element
/// type can derive `Clone`.
pub assume_specification<T: core::marker::PointeeSized>[ <PhantomData<T> as Clone>::clone ](
    p: &PhantomData<T>,
) -> (r: PhantomData<T>)
    ensures
        r == *p,
;

/// An error when trying to read a slice from a serialized [`OffsetSet`].
#[derive(Debug, Clone, Copy, PartialEq, Eq, Structural)]
pub enum ReadOffsetSetError {
    /// The entry's length prefix is not valid LEB128.
    Leb128,
    /// The entry's offset or length is outside the bounds of the data blob.
    OutOfBounds,
}

/// An error when rebuilding an [`OffsetSet`] from a serialized buffer while
/// validating each entry.
#[derive(Debug, Clone, Copy, PartialEq, Eq, Structural)]
pub enum ValidationError {
    /// The buffer is not a well-formed sequence of entries.
    Read(ReadOffsetSetError),
    /// The validator rejected a decoded entry.
    Invalid,
}

/// The wire encoding of one entry: the LEB128 element count, then the raw
/// bytes of the elements.
pub open spec fn entry_encoding<T: Pod>(items: Seq<T>) -> Seq<u8> {
    leb128_encode(items.len()) + bytes_of_items(items)
}

/// What reading an entry at `offset` of `b` yields: the decoded elements and
/// the position just past the entry, or the error.
pub open spec fn entry_read_result<T: Pod>(b: Seq<u8>, offset: int) -> Result<
    (Seq<T>, int),
    ReadOffsetSetError,
> {
    if !(0 <= offset <= b.len()) {
        Err(ReadOffsetSetError::OutOfBounds)
    } else {
        match leb128_decode(b.skip(offset)) {
            None => Err(ReadOffsetSetError::Leb128),
            Some(pair) => {
                let start = offset + pair.1;
                let end = start + pair.0 * T::size_spec();
                if end <= b.len() {
                    Ok((items_of_bytes::<T>(b.subrange(start, end)), end))
                } else {
                    Err(ReadOffsetSetError::OutOfBounds)
                }
            },
        }
    }
}

/// The elements of the entry at `offset` of `b`, when one reads successfully.
pub open spec fn entry_items_at<T: Pod>(b: Seq<u8>, offset: int) -> Seq<T> {
    entry_read_result::<T>(b, offset)->Ok_0.0
}

/// The position just past the entry at `offset` of `b`, when one reads
/// successfully.
pub open spec fn entry_end_at<T: Pod>(b: Seq<u8>, offset: int) -> int {
    entry_read_result::<T>(b, offset)->Ok_0.1
}

/// The start positions of the entries that tile `b` from position `pos` to
/// its end, or the first error met while scanning.
pub open spec fn entry_scan<T: Pod>(b: Seq<u8>, pos: int) -> Result<Seq<int>, ReadOffsetSetError>
    decreases b.len() - pos,
{
    if pos == b.len() {
        Ok(Seq::empty())
    } else {
        match entry_read_result::<T>(b, pos) {
            Err(e) => Err(e),
            Ok(pair) => {
                if pos < pair.1 <= b.len() {
                    match entry_scan::<T>(b, pair.1) {
                        Ok(rest) => Ok(seq![pos] + rest),
                        Err(e) => Err(e),
                    }
                } else {
                    Err(ReadOffsetSetError::OutOfBounds)
                }
            },
        }
    }
}

/// A successful entry read always advances: the end lies strictly past the
/// offset and within the buffer.
pub proof fn lemma_entry_read_advance<T: Pod>(b: Seq<u8>, offset: int)
    requires
        entry_read_result::<T>(b, offset) is Ok,
    ensures
        offset < entry_end_at::<T>(b, offset) <= b.len(),
{
    T::lemma_layout();
    let pair = leb128_decode(b.skip(offset)).unwrap();
    lemma_leb128_decode_inverse(b.skip(offset));
    assert(pair.0 * T::size_spec() >= 0) by (nonlinear_arith)
        requires
            pair.0 >= 0,
            T::size_spec() >= 1,
    ;
}

/// Appending bytes to a buffer does not change how an already well-formed
/// entry reads.
pub proof fn lemma_entry_read_extend<T: Pod>(b: Seq<u8>, ext: Seq<u8>, offset: int)
    requires
        entry_read_result::<T>(b, offset) is Ok,
    ensures
        entry_read_result::<T>(b + ext, offset) == entry_read_result::<T>(b, offset),
{
    T::lemma_layout();
    assert((b + ext).skip(offset) =~= b.skip(offset) + ext);
    lemma_leb128_decode_extend(b.skip(offset), ext);
    lemma_leb128_decode_inverse(b.skip(offset));
    let pair = leb128_decode(b.skip(offset)).unwrap();
    let start = offset + pair.1;
    let end = start + pair.0 * T::size_spec();
    assert(pair.0 * T::size_spec() >= 0) by (nonlinear_arith)
        requires
            pair.0 >= 0,
            T::size_spec() >= 1,
    ;
    lemma_entry_read_advance::<T>(b, offset);
    assert((b + ext).subrange(start, end) =~= b.subrange(start, end));
}

/// Round trip: an entry appended to any buffer reads back, at the offset
/// where the buffer ended, as exactly the items it encodes.
pub proof fn lemma_entry_round_trip<T: Pod>(b: Seq<u8>, x: Seq<T>)
    requires
        x.len() <= u64::MAX,
    ensures
        entry_read_result::<T>(b + entry_encoding::<T>(x), b.len() as int) == Ok::<
            (Seq<T>, int),
            ReadOffsetSetError,
        >((x, (b + entry_encoding::<T>(x)).len() as int)),
{
    T::lemma_layout();
    let e = entry_encoding::<T>(x);
    let whole = b + e;
    let data = bytes_of_items(x);
    assert(whole.skip(b.len() as int) =~= e);
    lemma_leb128_round_trip(x.len(), data);
    let prefix_len = leb128_encode(x.len()).len();
    lemma_bytes_of_items_len::<T>(x);
    let start = b.len() + prefix_len;
    let end = start + x.len() * T::size_spec();
    assert(end == whole.len());
    assert(whole.subrange(start as int, end as int) =~= data);
    lemma_items_of_bytes_of_items::<T>(x);
}

/// Appending a fresh entry to a buffer that scans cleanly extends the scan by
/// exactly that entry's offset.
pub proof fn lemma_scan_append<T: Pod>(b: Seq<u8>, x: Seq<T>, pos: int)
    requires
        0 <= pos <= b.len(),
        entry_scan::<T>(b, pos) is Ok,
        x.len() <= u64::MAX,
    ensures
        entry_scan::<T>(b + entry_encoding::<T>(x), pos) == Ok::<Seq<int>, ReadOffsetSetError>(
            entry_scan::<T>(b, pos)->Ok_0 + seq![b.len() as int],
        ),
    decreases b.len() - pos,
{
    let e = entry_encoding::<T>(x);
    let whole = b + e;
    lemma_entry_round_trip::<T>(b, x);
    if pos == b.len() {
        lemma_entry_read_advance::<T>(whole, pos);
        assert(entry_scan::<T>(whole, whole.len() as int) == Ok::<Seq<int>, ReadOffsetSetError>(
            Seq::empty(),
        ));
        assert(entry_scan::<T>(whole, pos) == Ok::<Seq<int>, ReadOffsetSetError>(
            seq![pos] + Seq::empty(),
        ));
        assert(seq![pos] + Seq::<int>::empty() =~= entry_scan::<T>(b, pos)->Ok_0 + seq![
            b.len() as int,
        ]);
    } else {
        let pair = entry_read_result::<T>(b, pos)->Ok_0;
        lemma_entry_read_advance::<T>(b, pos);
        lemma_entry_read_extend::<T>(b, e, pos);
        lemma_scan_append::<T>(b, x, pair.1);
        let rest = entry_scan::<T>(b, pair.1)->Ok_0;
        assert(seq![pos] + (rest + seq![b.len() as int]) =~= (seq![pos] + rest) + seq![
            b.len() as int,
        ]);
    }
}

/// A struct for storing slices of a [`Pod`] element type without duplicates.
///
/// Inserting a slice returns the byte *offset* of its entry within the
/// store's buffer rather than an index; the offset stays valid for the
/// lifetime of the buffer and across any number of serializations, because
/// the buffer is strictly append-only. The element type must have alignment
/// one, so that no padding is ever needed between the length prefix and the
/// data or between consecutive entries.
#[derive(Clone, Debug)]
pub struct OffsetSet<T> {
    offsets: Vec<usize>,
    buffer: Vec<u8>,
    _t: PhantomData<T>,
}

impl<T: Pod> Default for OffsetSet<T> {
    /// An empty store, as [`OffsetSet::new`] returns.
    fn default() -> (r: Self)
        ensures
            T::align_spec() == 1 ==> r.wf() && r.is_canonical(),
            r.bytes() == Seq::<u8>::empty(),
            r.index_offsets() == Seq::<usize>::empty(),
    {
        let r = OffsetSet { offsets: Vec::new(), buffer: Vec::new(), _t: PhantomData };
        proof {
            assert(r.bytes() =~= Seq::<u8>::empty());
            assert(r.index_offsets() =~= Seq::<usize>::empty());
        }
        r
    }
}

impl<T: Pod> OffsetSet<T> {
    /// The serialized bytes of the store.
    pub closed spec fn bytes(self) -> Seq<u8> {
        self.buffer@
    }

    /// The indexed entry offsets, one per distinct stored slice, in insertion
    /// order.
    pub closed spec fn index_offsets(self) -> Seq<usize> {
        self.offsets@
    }

    /// The entry at `offset` is indexed and holds exactly the elements `x`.
    pub open spec fn indexed(self, offset: usize, x: Seq<T>) -> bool {
        &&& self.index_offsets().contains(offset)
        &&& entry_read_result::<T>(self.bytes(), offset as int) is Ok
        &&& entry_items_at::<T>(self.bytes(), offset as int) == x
    }

    /// Some indexed entry holds exactly the elements `x`.
    pub open spec fn contains_items(self, x: Seq<T>) -> bool {
        exists|offset: usize| self.indexed(offset, x)
    }

    /// Well-formedness: the element type has alignment one, the buffer is a
    /// clean tiling of entries, every indexed offset starts an entry, the
    /// indexed entries hold pairwise distinct contents, and every entry's
    /// content can be found through the index.
    pub closed spec fn wf(self) -> bool {
        &&& T::align_spec() == 1
        &&& entry_scan::<T>(self.bytes(), 0) is Ok
        &&& (forall|i: int|
            0 <= i < self.offsets@.len() ==> entry_scan::<T>(self.bytes(), 0)->Ok_0.contains(
                #[trigger] self.offsets@[i] as int,
            ))
        &&& (forall|i: int, j: int|
            0 <= i < j < self.offsets@.len() ==> entry_items_at::<T>(
                self.bytes(),
                #[trigger] self.offsets@[i] as int,
            ) != entry_items_at::<T>(self.bytes(), #[trigger] self.offsets@[j] as int))
        &&& (forall|p: int|
            entry_scan::<T>(self.bytes(), 0)->Ok_0.contains(p) ==> exists|i: int|
                0 <= i < self.offsets@.len() && entry_items_at::<T>(
                    self.bytes(),
                    #[trigger] self.offsets@[i] as int,
                ) == entry_items_at::<T>(self.bytes(), p))
    }

    /// The stored entries are pairwise distinct: true of every store built
    /// only by insertions, though not of every buffer that a store can be
    /// reloaded from.
    pub closed spec fn is_canonical(self) -> bool {
        forall|i: int, j: int|
            0 <= i < j < entry_scan::<T>(self.bytes(), 0)->Ok_0.len() ==> entry_items_at::<T>(
                self.bytes(),
                #[trigger] entry_scan::<T>(self.bytes(), 0)->Ok_0[i],
            ) != entry_items_at::<T>(self.bytes(), #[trigger] entry_scan::<T>(self.bytes(), 0)->Ok_0[j])
    }

    /// Initializes an empty [`OffsetSet`].
    pub fn new() -> (r: Self)
        requires
            T::align_spec() == 1,
        ensures
            r.wf(),
            r.is_canonical(),
            r.bytes() == Seq::<u8>::empty(),
            r.index_offsets() == Seq::<usize>::empty(),
    {
        let r = OffsetSet { offsets: Vec::new(), buffer: Vec::new(), _t: PhantomData };
        proof {
            assert(r.bytes() =~= Seq::<u8>::empty());
            assert(r.index_offsets() =~= Seq::<usize>::empty());
        }
        r
    }

    /// Returns a byte slice containing the serialized representation of this
    /// [`OffsetSet`].
    pub fn as_bytes(&self) -> (r: &[u8])
        ensures
            r@ == self.bytes(),
    {
        self.buffer.as_slice()
    }

    /// Returns a byte vector containing the serialized representation of this
    /// [`OffsetSet`].
    ///
    /// This consumes the [`OffsetSet`].
    pub fn into_bytes(self) -> (r: Vec<u8>)
        ensures
            r@ == self.bytes(),
    {
        self.buffer
    }

    /// Reads the entry at `offset` of `buffer`: the decoded elements and the
    /// position just past the entry.
    fn read_entry(buffer: &[u8], offset: usize) -> (r: Result<(Vec<T>, usize), ReadOffsetSetError>)
        ensures
            match r {
                Ok(pair) => {
                    &&& entry_read_result::<T>(buffer@, offset as int) is Ok
                    &&& pair.0@ == entry_items_at::<T>(buffer@, offset as int)
                    &&& pair.1 as int == entry_end_at::<T>(buffer@, offset as int)
                    &&& offset < pair.1 <= buffer@.len()
                },
                Err(e) => entry_read_result::<T>(buffer@, offset as int) == Err::<
                    (Seq<T>, int),
                    ReadOffsetSetError,
                >(e),
            },
    {
        proof {
            T::lemma_layout();
        }
        let n: usize = buffer.len();
        if offset > n {
            return Err(ReadOffsetSetError::OutOfBounds);
        }
        match read_leb128(buffer, offset) {
            None => Err(ReadOffsetSetError::Leb128),
            Some((count, prefix_len)) => {
                let size = T::size();
                let start = offset + prefix_len;
                let avail = n - start;
                let max_count = avail / size;
                proof {
                    vstd::arithmetic::div_mod::lemma_fundamental_div_mod(
                        avail as int,
                        T::size_spec(),
                    );
                }
                if count > max_count as u64 {
                    proof {
                        assert(count * T::size_spec() > avail) by (nonlinear_arith)
                            requires
                                count > max_count,
                                T::size_spec() * max_count + avail as int % T::size_spec() == avail,
                                0 <= avail as int % T::size_spec() < T::size_spec(),
                                T::size_spec() >= 1,
                        ;
                    }
                    return Err(ReadOffsetSetError::OutOfBounds);
                }
                let count_us = count as usize;
                proof {
                    assert(count_us * T::size_spec() <= avail) by (nonlinear_arith)
                        requires
                            count_us <= max_count,
                            T::size_spec() * max_count <= avail,
                            T::size_spec() >= 1,
                            count_us >= 0,
                    ;
                }
                let len = count_us * size;
                let end = start + len;
                let v = read_items::<T>(buffer, start, count_us);
                proof {
                    lemma_items_of_bytes_take::<T>(buffer@.skip(start as int), count_us as int);
                    assert(buffer@.skip(start as int).take(count_us as int * T::size_spec())
                        =~= buffer@.subrange(start as int, end as int));
                    assert(v@ =~= items_of_bytes::<T>(buffer@.subrange(start as int, end as int)));
                }
                Ok((v, end))
            },
        }
    }

    /// Iterates over all the entries in this [`OffsetSet`], as
    /// `(offset, slice)` pairs in insertion order.
    pub fn entries(&self) -> (r: Vec<(usize, Vec<T>)>)
        requires
            self.wf(),
        ensures
            r@.len() == self.index_offsets().len(),
            forall|i: int|
                0 <= i < r@.len() ==> (#[trigger] r@[i]).0 == self.index_offsets()[i] && r@[i].1@
                    == entry_items_at::<T>(self.bytes(), self.index_offsets()[i] as int),
    {
        let mut r: Vec<(usize, Vec<T>)> = Vec::new();
        let mut i: usize = 0;
        while i < self.offsets.len()
            invariant
                self.wf(),
                i <= self.offsets@.len(),
                r@.len() == i,
                forall|j: int|
                    0 <= j < i ==> (#[trigger] r@[j]).0 == self.index_offsets()[j] && r@[j].1@
                        == entry_items_at::<T>(self.bytes(), self.index_offsets()[j] as int),
            decreases self.offsets@.len() - i,
        {
            let off = self.offsets[i];
            proof {
                lemma_scan_contains::<T>(self.bytes(), 0, off as int);
            }
            match Self::read_entry(self.buffer.as_slice(), off) {
                Ok(pair) => {
                    r.push((off, pair.0));
                },
                Err(_) => {
                    proof {
                        assert(false);
                    }
                },
            }
            i = i + 1;
        }
        r
    }

    /// Searches the indexed offsets for an entry whose elements equal
    /// `items`, re-reading each candidate from the buffer and comparing byte
    /// for byte.
    fn find_indexed(buffer: &[u8], offsets: &Vec<usize>, items: &[T]) -> (r: Option<usize>)
        requires
            forall|i: int|
                0 <= i < offsets@.len() ==> entry_read_result::<T>(
                    buffer@,
                    #[trigger] offsets@[i] as int,
                ) is Ok,
        ensures
            match r {
                Some(off) => {
                    &&& offsets@.contains(off)
                    &&& entry_read_result::<T>(buffer@, off as int) is Ok
                    &&& entry_items_at::<T>(buffer@, off as int) == items@
                },
                None => forall|i: int|
                    0 <= i < offsets@.len() ==> entry_items_at::<T>(
                        buffer@,
                        #[trigger] offsets@[i] as int,
                    ) != items@,
            },
    {
        proof {
            T::lemma_layout();
        }
        let ghost s = T::size_spec();
        let data = slice_as_bytes(items);
        let items_len = items.len();
        let n: usize = buffer.len();
        proof {
            lemma_bytes_of_items_len::<T>(items@);
        }
        let mut i: usize = 0;
        while i < offsets.len()
            invariant
                forall|l: int|
                    0 <= l < offsets@.len() ==> entry_read_result::<T>(
                        buffer@,
                        #[trigger] offsets@[l] as int,
                    ) is Ok,
                buffer@.len() == n,
                s == T::size_spec(),
                s >= 1,
                data@ == bytes_of_items(items@),
                data@.len() == items@.len() * s,
                items_len == items@.len(),
                i <= offsets@.len(),
                forall|j: int|
                    0 <= j < i ==> entry_items_at::<T>(buffer@, #[trigger] offsets@[j] as int)
                        != items@,
            decreases offsets@.len() - i,
        {
            let off = offsets[i];
            let ghost content = entry_items_at::<T>(buffer@, off as int);
            let ghost dpair = leb128_decode(buffer@.skip(off as int)).unwrap();
            proof {
                // the entry reads successfully, so decoding its parts cannot fail
                assert(entry_read_result::<T>(buffer@, off as int) is Ok);
                assert(content.len() == dpair.0) by {
                    let sub = buffer@.subrange(
                        off + dpair.1,
                        off + dpair.1 + dpair.0 * T::size_spec(),
                    );
                    assert(sub.len() == dpair.0 * s);
                    assert((dpair.0 * s) as int / s == dpair.0) by {
                        vstd::arithmetic::div_mod::lemma_div_multiples_vanish(dpair.0 as int, s);
                        assert(s * dpair.0 == dpair.0 * s) by (nonlinear_arith);
                    }
                }
            }
            match read_leb128(buffer, off) {
                Some(pair) => {
                    let (count, prefix_len) = pair;
                    if count == items_len as u64 {
                        let start = off + prefix_len;
                        proof {
                            assert(start + data@.len() <= buffer@.len());
                        }
                        if Self::range_matches(buffer, start, &data) {
                            proof {
                                let sub = buffer@.subrange(
                                    start as int,
                                    start as int + data@.len() as int,
                                );
                                assert(sub == bytes_of_items(items@));
                                assert(content == items_of_bytes::<T>(sub));
                                lemma_items_of_bytes_of_items::<T>(items@);
                            }
                            return Some(off);
                        }
                        proof {
                            // the byte ranges differ, so the contents differ: equal
                            // contents would encode to equal bytes
                            let sub = buffer@.subrange(
                                start as int,
                                start as int + data@.len() as int,
                            );
                            if content == items@ {
                                assert(sub.len() as int % s == 0) by {
                                    vstd::arithmetic::div_mod::lemma_mod_multiples_basic(
                                        items@.len() as int,
                                        s,
                                    );
                                }
                                lemma_bytes_of_items_of_bytes::<T>(sub);
                                assert(sub == bytes_of_items(content));
                                assert(false);
                            }
                        }
                    } else {
                        proof {
                            // the element counts differ, so the contents differ
                            assert(content.len() != items@.len());
                        }
                    }
                },
                None => {
                    proof {
                        assert(false);
                    }
                },
            }
            i = i + 1;
        }
        None
    }

    /// True when the bytes of `buffer` from `start` on match `data` exactly.
    fn range_matches(buffer: &[u8], start: usize, data: &Vec<u8>) -> (r: bool)
        requires
            start + data@.len() <= buffer@.len(),
        ensures
            r == (buffer@.subrange(start as int, start as int + data@.len() as int) == data@),
    {
        let len = data.len();
        let n: usize = buffer.len();
        let mut i: usize = 0;
        while i < len
            invariant
                start + len <= buffer@.len(),
                buffer@.len() == n,
                len == data@.len(),
                i <= len,
                forall|j: int| 0 <= j < i ==> buffer@[start + j] == data@[j],
            decreases len - i,
        {
            if buffer[start + i] != data[i] {
                proof {
                    let sub = buffer@.subrange(start as int, start as int + data@.len() as int);
                    assert(sub[i as int] == buffer@[start + i]);
                }
                return false;
            }
            i = i + 1;
        }
        proof {
            assert(buffer@.subrange(start as int, start as int + data@.len() as int) =~= data@);
        }
        true
    }

    /// Inserts a slice into this [`OffsetSet`].
    ///
    /// Returns an offset that can be used to retrieve the inserted input with
    /// [`read`](Self::read) after serializing this store with
    /// [`as_bytes`](Self::as_bytes). Inserting a slice that the store already
    /// holds changes nothing and returns the offset the slice already has.
    pub fn insert(&mut self, input: &[T]) -> (r: usize)
        requires
            old(self).wf(),
        ensures
            final(self).wf(),
            final(self).indexed(r, input@),
            entry_read_result::<T>(final(self).bytes(), r as int) is Ok,
            entry_items_at::<T>(final(self).bytes(), r as int) == input@,
            old(self).bytes().is_prefix_of(final(self).bytes()),
            forall|off: int|
                entry_read_result::<T>(old(self).bytes(), off) is Ok
                    ==> #[trigger] entry_read_result::<T>(final(self).bytes(), off)
                    == entry_read_result::<T>(old(self).bytes(), off),
            old(self).contains_items(input@) ==> *final(self) == *old(self) && old(self).indexed(
                r,
                input@,
            ),
            !old(self).contains_items(input@) ==> {
                &&& final(self).bytes() == old(self).bytes() + entry_encoding::<T>(input@)
                &&& r == old(self).bytes().len()
                &&& final(self).index_offsets() == old(self).index_offsets().push(r)
                &&& entry_scan::<T>(final(self).bytes(), 0)->Ok_0 == entry_scan::<T>(
                    old(self).bytes(),
                    0,
                )->Ok_0.push(r as int)
            },
            old(self).is_canonical() ==> final(self).is_canonical(),
    {
        let input_len: usize = input.len();
        proof {
            T::lemma_layout();
            assert(input_len <= usize::MAX && input@.len() <= u64::MAX);
            assert forall|l: int| 0 <= l < self.offsets@.len() implies entry_read_result::<T>(
                self.buffer@,
                #[trigger] self.offsets@[l] as int,
            ) is Ok by {
                lemma_scan_contains::<T>(self.buffer@, 0, self.offsets@[l] as int);
            }
        }
        match Self::find_indexed(self.buffer.as_slice(), &self.offsets, input) {
            Some(off) => {
                proof {
                    assert(old(self).indexed(off, input@));
                }
                off
            },
            None => {
                let ghost old_bytes = self.buffer@;
                let ghost old_offsets = self.offsets@;
                let ghost old_starts = entry_scan::<T>(old_bytes, 0)->Ok_0;
                proof {
                    // nothing indexed holds these elements, so no entry does
                    assert(!old(self).contains_items(input@)) by {
                        if old(self).contains_items(input@) {
                            let off = choose|off: usize| old(self).indexed(off, input@);
                            let l = choose|l: int|
                                0 <= l < old_offsets.len() && old_offsets[l] == off;
                            assert(entry_items_at::<T>(old_bytes, old_offsets[l] as int)
                                != input@);
                        }
                    }
                }
                let off = self.buffer.len();
                write_leb128(&mut self.buffer, input.len() as u64);
                let mut data = slice_as_bytes(input);
                self.buffer.append(&mut data);
                self.offsets.push(off);
                proof {
                    assert((input@.len() as u64) as nat == input@.len());
                    assert(self.buffer@ =~= old_bytes + entry_encoding::<T>(input@));
                    lemma_insert_appended::<T>(
                        *old(self),
                        *self,
                        input@,
                        off,
                        old_bytes,
                        old_offsets,
                        old_starts,
                    );
                }
                off
            },
        }
    }

    /// Initializes an [`OffsetSet`] from a previously serialized
    /// representation.
    ///
    /// This essentially reverses the [`as_bytes`](Self::as_bytes) call. It
    /// fails on the first malformed length prefix or out-of-bounds entry,
    /// discarding any partial result.
    pub fn from_bytes(buffer: &[u8]) -> (r: Result<Self, ReadOffsetSetError>)
        requires
            T::align_spec() == 1,
        ensures
            match r {
                Ok(s) => {
                    &&& entry_scan::<T>(buffer@, 0) is Ok
                    &&& s.wf()
                    &&& s.bytes() == buffer@
                },
                Err(e) => entry_scan::<T>(buffer@, 0) == Err::<Seq<int>, ReadOffsetSetError>(e),
            },
    {
        let accept = |entry: &[T]| -> (b: bool)
            ensures
                b,
            { true };
        match Self::from_bytes_validated(buffer, accept) {
            Ok(s) => Ok(s),
            Err(ValidationError::Read(e)) => Err(e),
            Err(ValidationError::Invalid) => {
                proof {
                    assert(false);
                }
                Err(ReadOffsetSetError::OutOfBounds)
            },
        }
    }

    /// Initializes an [`OffsetSet`] from a previously serialized
    /// representation, running each loaded slice through a validation
    /// function.
    ///
    /// The scan stops at the first malformed length prefix, out-of-bounds
    /// entry, or rejected slice, discarding any partial result.
    #[verifier::rlimit(60)]
    pub fn from_bytes_validated<V: Fn(&[T]) -> bool>(buffer: &[u8], validate: V) -> (r: Result<
        Self,
        ValidationError,
    >)
        requires
            T::align_spec() == 1,
            forall|entry: &[T]| #[trigger] call_requires(validate, (entry,)),
        ensures
            match r {
                Ok(s) => {
                    &&& entry_scan::<T>(buffer@, 0) is Ok
                    &&& s.wf()
                    &&& s.bytes() == buffer@
                    &&& forall|p: int|
                        #[trigger] entry_scan::<T>(buffer@, 0)->Ok_0.contains(p) ==> exists|
                            entry: &[T],
                        |
                            entry@ == entry_items_at::<T>(buffer@, p) && call_ensures(
                                validate,
                                (entry,),
                                true,
                            )
                },
                Err(ValidationError::Read(e)) => entry_scan::<T>(buffer@, 0) == Err::<
                    Seq<int>,
                    ReadOffsetSetError,
                >(e),
                Err(ValidationError::Invalid) => exists|p: int|
                    #![auto]
                    entry_read_result::<T>(buffer@, p) is Ok && (exists|entry: &[T]|
                        entry@ == entry_items_at::<T>(buffer@, p) && call_ensures(
                            validate,
                            (entry,),
                            false,
                        )),
            },
            entry_scan::<T>(buffer@, 0) is Ok && r is Err ==> r == Err::<Self, ValidationError>(
                ValidationError::Invalid,
            ) && (exists|p: int|
                #[trigger] entry_scan::<T>(buffer@, 0)->Ok_0.contains(p) && (exists|entry: &[T]|
                    entry@ == entry_items_at::<T>(buffer@, p) && call_ensures(
                        validate,
                        (entry,),
                        false,
                    ))),
    {
        proof {
            T::lemma_layout();
        }
        let n: usize = buffer.len();
        let mut offsets: Vec<usize> = Vec::new();
        let mut pos: usize = 0;
        let ghost mut processed: Seq<int> = Seq::empty();
        while pos < n
            invariant
                T::align_spec() == 1,
                forall|entry: &[T]| #[trigger] call_requires(validate, (entry,)),
                n == buffer@.len(),
                pos <= n,
                entry_scan::<T>(buffer@, 0) == (match entry_scan::<T>(buffer@, pos as int) {
                    Ok(rest) => Ok::<Seq<int>, ReadOffsetSetError>(processed + rest),
                    Err(e) => Err::<Seq<int>, ReadOffsetSetError>(e),
                }),
                forall|k: int|
                    0 <= k < processed.len() ==> entry_read_result::<T>(
                        buffer@,
                        #[trigger] processed[k],
                    ) is Ok,
                forall|k: int|
                    0 <= k < processed.len() ==> exists|entry: &[T]|
                        entry@ == entry_items_at::<T>(buffer@, #[trigger] processed[k])
                            && call_ensures(validate, (entry,), true),
                forall|l: int|
                    0 <= l < offsets@.len() ==> processed.contains(#[trigger] offsets@[l] as int),
                forall|l: int|
                    0 <= l < offsets@.len() ==> entry_read_result::<T>(
                        buffer@,
                        #[trigger] offsets@[l] as int,
                    ) is Ok,
                forall|l1: int, l2: int|
                    0 <= l1 < l2 < offsets@.len() ==> entry_items_at::<T>(
                        buffer@,
                        #[trigger] offsets@[l1] as int,
                    ) != entry_items_at::<T>(buffer@, #[trigger] offsets@[l2] as int),
                forall|k: int|
                    0 <= k < processed.len() ==> content_covered::<T>(
                        buffer@,
                        offsets@,
                        #[trigger] processed[k],
                    ),
            decreases n - pos,
        {
            match Self::read_entry(buffer, pos) {
                Err(e) => {
                    return Err(ValidationError::Read(e));
                },
                Ok(pair) => {
                    let items = pair.0;
                    let end = pair.1;
                    let entry_ref = items.as_slice();
                    let ok = validate(entry_ref);
                    if !ok {
                        proof {
                            assert(call_ensures(validate, (entry_ref,), false));
                            if entry_scan::<T>(buffer@, 0) is Ok {
                                assert(entry_scan::<T>(buffer@, pos as int) is Ok);
                                let rest = entry_scan::<T>(buffer@, pos as int)->Ok_0;
                                assert(rest[0] == pos as int);
                                assert(rest.contains(pos as int));
                                assert(entry_scan::<T>(buffer@, 0)->Ok_0 == processed + rest);
                                assert(entry_scan::<T>(buffer@, 0)->Ok_0[processed.len() as int]
                                    == pos as int);
                                assert(entry_scan::<T>(buffer@, 0)->Ok_0.contains(pos as int));
                            }
                        }
                        return Err(ValidationError::Invalid);
                    }
                    let ghost old_processed = processed;
                    let ghost old_offs = offsets@;
                    let found = Self::find_indexed(buffer, &offsets, entry_ref);
                    if found.is_none() {
                        offsets.push(pos);
                    }
                    proof {
                        assert(call_ensures(validate, (entry_ref,), true));
                        processed = old_processed.push(pos as int);
                        lemma_entry_read_advance::<T>(buffer@, pos as int);
                        assert(entry_scan::<T>(buffer@, 0) == (match entry_scan::<T>(
                            buffer@,
                            end as int,
                        ) {
                            Ok(rest) => Ok::<Seq<int>, ReadOffsetSetError>(processed + rest),
                            Err(e) => Err::<Seq<int>, ReadOffsetSetError>(e),
                        })) by {
                            match entry_scan::<T>(buffer@, end as int) {
                                Ok(rest) => {
                                    assert(old_processed + (seq![pos as int] + rest)
                                        =~= old_processed.push(pos as int) + rest);
                                },
                                Err(_) => {},
                            }
                        }
                        assert forall|l: int| 0 <= l < offsets@.len() implies processed.contains(
                            #[trigger] offsets@[l] as int,
                        ) by {
                            if l < old_offs.len() {
                                assert(offsets@[l] == old_offs[l]);
                                assert(old_processed.contains(old_offs[l] as int));
                                let k = choose|k: int|
                                    0 <= k < old_processed.len() && old_processed[k] == old_offs[l] as int;
                                assert(processed[k] == offsets@[l] as int);
                            } else {
                                assert(offsets@[l] == pos);
                                assert(processed[processed.len() - 1] == pos as int);
                            }
                        }
                        assert forall|k: int|
                            0 <= k < processed.len() implies content_covered::<T>(
                            buffer@,
                            offsets@,
                            #[trigger] processed[k],
                        ) by {
                            if k < old_processed.len() {
                                assert(processed[k] == old_processed[k]);
                                assert(content_covered::<T>(buffer@, old_offs, old_processed[k]));
                                let l = choose|l: int|
                                    0 <= l < old_offs.len() && entry_items_at::<T>(
                                        buffer@,
                                        #[trigger] old_offs[l] as int,
                                    ) == entry_items_at::<T>(buffer@, old_processed[k]);
                                assert(offsets@[l] == old_offs[l]);
                                assert(entry_items_at::<T>(buffer@, offsets@[l] as int)
                                    == entry_items_at::<T>(buffer@, processed[k]));
                            } else {
                                assert(processed[k] == pos as int);
                                match found {
                                    Some(fo) => {
                                        let l = choose|l: int|
                                            0 <= l < offsets@.len() && offsets@[l] == fo;
                                        assert(entry_items_at::<T>(buffer@, fo as int)
                                            == entry_items_at::<T>(buffer@, pos as int));
                                        assert(entry_items_at::<T>(buffer@, offsets@[l] as int)
                                            == entry_items_at::<T>(buffer@, processed[k]));
                                    },
                                    None => {
                                        let l = offsets@.len() - 1;
                                        assert(offsets@[l] == pos);
                                        assert(entry_items_at::<T>(buffer@, offsets@[l] as int)
                                            == entry_items_at::<T>(buffer@, processed[k]));
                                    },
                                }
                            }
                        }
                    }
                    pos = end;
                },
            }
        }
        let ghost final_offs = offsets@;
        let r = OffsetSet {
            offsets,
            buffer: vstd::slice::slice_to_vec(buffer),
            _t: PhantomData,
        };
        proof {
            assert(entry_scan::<T>(buffer@, pos as int) == Ok::<Seq<int>, ReadOffsetSetError>(
                Seq::empty(),
            ));
            assert(processed + Seq::<int>::empty() =~= processed);
            assert(entry_scan::<T>(buffer@, 0) == Ok::<Seq<int>, ReadOffsetSetError>(processed));
            assert(r.bytes() == buffer@);
            assert(r.index_offsets() == final_offs);
            assert forall|l: int| 0 <= l < r.index_offsets().len() implies entry_scan::<T>(
                r.bytes(),
                0,
            )->Ok_0.contains(#[trigger] r.index_offsets()[l] as int) by {
                assert(processed.contains(final_offs[l] as int));
            }
            assert forall|p: int|
                entry_scan::<T>(r.bytes(), 0)->Ok_0.contains(p) implies exists|i: int|
                0 <= i < r.index_offsets().len() && entry_items_at::<T>(
                    r.bytes(),
                    #[trigger] r.index_offsets()[i] as int,
                ) == entry_items_at::<T>(r.bytes(), p) by {
                let k = choose|k: int| 0 <= k < processed.len() && processed[k] == p;
                assert(processed[k] == p);
                assert(content_covered::<T>(buffer@, final_offs, processed[k]));
                let l = choose|l: int|
                    0 <= l < final_offs.len() && entry_items_at::<T>(
                        buffer@,
                        #[trigger] final_offs[l] as int,
                    ) == entry_items_at::<T>(buffer@, processed[k]);
                assert(entry_items_at::<T>(r.bytes(), r.index_offsets()[l] as int)
                    == entry_items_at::<T>(r.bytes(), p));
            }
            assert(r.wf());
        }
        Ok(r)
    }

    /// Returns the slice stored at the given offset in the byte slice, if
    /// any.
    ///
    /// Use this to retrieve a slice that was previously
    /// [inserted](OffsetSet::insert) into an [`OffsetSet`] whose buffer was
    /// then serialized with [`as_bytes`](OffsetSet::as_bytes).
    pub fn read(buffer: &[u8], offset: usize) -> (r: Result<Vec<T>, ReadOffsetSetError>)
        ensures
            match r {
                Ok(v) => entry_read_result::<T>(buffer@, offset as int) is Ok && v@
                    == entry_items_at::<T>(buffer@, offset as int),
                Err(e) => entry_read_result::<T>(buffer@, offset as int) == Err::<
                    (Seq<T>, int),
                    ReadOffsetSetError,
                >(e),
            },
    {
        match Self::read_entry(buffer, offset) {
            Ok((v, _end)) => Ok(v),
            Err(e) => Err(e),
        }
    }
}

/// Some offset among `offsets` starts an entry of `b` holding the same
/// elements as the entry at `p`.
spec fn content_covered<T: Pod>(b: Seq<u8>, offsets: Seq<usize>, p: int) -> bool {
    exists|l: int|
        0 <= l < offsets.len() && entry_items_at::<T>(b, #[trigger] offsets[l] as int)
            == entry_items_at::<T>(b, p)
}

/// After appending a fresh entry holding `x` at the end of a well-formed
/// store, the store is well-formed again: the scan gains exactly the new
/// offset, earlier entries read unchanged, and distinctness is kept because
/// no indexed entry held `x`.
proof fn lemma_insert_appended<T: Pod>(
    old_s: OffsetSet<T>,
    new_s: OffsetSet<T>,
    x: Seq<T>,
    off: usize,
    old_bytes: Seq<u8>,
    old_offsets: Seq<usize>,
    old_starts: Seq<int>,
)
    requires
        old_s.wf(),
        x.len() <= u64::MAX,
        old_bytes == old_s.bytes(),
        old_offsets == old_s.index_offsets(),
        old_starts == entry_scan::<T>(old_bytes, 0)->Ok_0,
        off as int == old_bytes.len(),
        new_s.bytes() == old_bytes + entry_encoding::<T>(x),
        new_s.index_offsets() == old_offsets.push(off),
        forall|l: int|
            0 <= l < old_offsets.len() ==> entry_items_at::<T>(
                old_bytes,
                #[trigger] old_offsets[l] as int,
            ) != x,
    ensures
        new_s.wf(),
        new_s.indexed(off, x),
        entry_read_result::<T>(new_s.bytes(), off as int) is Ok,
        entry_items_at::<T>(new_s.bytes(), off as int) == x,
        old_bytes.is_prefix_of(new_s.bytes()),
        forall|o: int|
            entry_read_result::<T>(old_bytes, o) is Ok ==> #[trigger] entry_read_result::<T>(
                new_s.bytes(),
                o,
            ) == entry_read_result::<T>(old_bytes, o),
        entry_scan::<T>(new_s.bytes(), 0)->Ok_0 == old_starts.push(off as int),
        old_s.is_canonical() ==> new_s.is_canonical(),
{
    T::lemma_layout();
    let e = entry_encoding::<T>(x);
    let nb = new_s.bytes();
    let new_offsets = new_s.index_offsets();
    lemma_entry_round_trip::<T>(old_bytes, x);
    lemma_scan_append::<T>(old_bytes, x, 0);
    assert(old_starts + seq![off as int] =~= old_starts.push(off as int));
    let new_starts = entry_scan::<T>(nb, 0)->Ok_0;
    assert(new_starts == old_starts.push(off as int));
    assert(old_bytes.is_prefix_of(nb)) by {
        assert(nb.take(old_bytes.len() as int) =~= old_bytes);
    }
    assert forall|o: int| entry_read_result::<T>(old_bytes, o) is Ok implies #[trigger] entry_read_result::<
        T,
    >(nb, o) == entry_read_result::<T>(old_bytes, o) by {
        lemma_entry_read_extend::<T>(old_bytes, e, o);
    }
    // every old entry start still reads as before
    assert forall|p: int| old_starts.contains(p) implies entry_read_result::<T>(nb, p)
        == entry_read_result::<T>(old_bytes, p) && entry_read_result::<T>(old_bytes, p) is Ok by {
        lemma_scan_contains::<T>(old_bytes, 0, p);
    }
    // every old indexed offset still reads as before
    assert forall|l: int| 0 <= l < old_offsets.len() implies entry_read_result::<T>(
        nb,
        #[trigger] old_offsets[l] as int,
    ) == entry_read_result::<T>(old_bytes, old_offsets[l] as int) && entry_read_result::<T>(
        old_bytes,
        old_offsets[l] as int,
    ) is Ok by {
        assert(old_starts.contains(old_offsets[l] as int));
    }
    // membership of every indexed offset among the new entry starts
    assert forall|i: int| 0 <= i < new_offsets.len() implies new_starts.contains(
        #[trigger] new_offsets[i] as int,
    ) by {
        if i < old_offsets.len() {
            let p = old_offsets[i] as int;
            assert(old_starts.contains(p));
            let k = choose|k: int| 0 <= k < old_starts.len() && old_starts[k] == p;
            assert(new_starts[k] == p);
        } else {
            assert(new_offsets[i] == off);
            assert(new_starts[new_starts.len() - 1] == off as int);
        }
    }
    // pairwise distinct indexed contents
    assert forall|i: int, j: int| 0 <= i < j < new_offsets.len() implies entry_items_at::<T>(
        nb,
        #[trigger] new_offsets[i] as int,
    ) != entry_items_at::<T>(nb, #[trigger] new_offsets[j] as int) by {
        if j < old_offsets.len() {
            assert(entry_items_at::<T>(old_bytes, old_offsets[i] as int) != entry_items_at::<T>(
                old_bytes,
                old_offsets[j] as int,
            ));
        } else {
            assert(new_offsets[j] == off);
            assert(entry_items_at::<T>(nb, off as int) == x);
            assert(entry_items_at::<T>(old_bytes, old_offsets[i] as int) != x);
        }
    }
    // every entry content reachable through the index
    assert forall|p: int| new_starts.contains(p) implies exists|i: int|
        0 <= i < new_offsets.len() && entry_items_at::<T>(nb, #[trigger] new_offsets[i] as int)
            == entry_items_at::<T>(nb, p) by {
        let k = choose|k: int| 0 <= k < new_starts.len() && new_starts[k] == p;
        if k < old_starts.len() {
            assert(old_starts[k] == p);
            assert(old_starts.contains(p));
            let i = choose|i: int|
                0 <= i < old_offsets.len() && entry_items_at::<T>(
                    old_bytes,
                    #[trigger] old_offsets[i] as int,
                ) == entry_items_at::<T>(old_bytes, p);
            assert(new_offsets[i] == old_offsets[i]);
            assert(entry_items_at::<T>(nb, new_offsets[i] as int) == entry_items_at::<T>(nb, p));
        } else {
            assert(p == off as int);
            let i = new_offsets.len() - 1;
            assert(new_offsets[i] == off);
            assert(entry_items_at::<T>(nb, new_offsets[i] as int) == entry_items_at::<T>(nb, p));
        }
    }
    assert(new_s.wf());
    assert(new_offsets[new_offsets.len() - 1] == off);
    assert(new_offsets.contains(off));
    if old_s.is_canonical() {
        assert forall|i: int, j: int|
            0 <= i < j < new_starts.len() implies entry_items_at::<T>(
            nb,
            #[trigger] new_starts[i],
        ) != entry_items_at::<T>(nb, #[trigger] new_starts[j]) by {
            if j < old_starts.len() {
                assert(old_starts.contains(old_starts[i]));
                assert(old_starts.contains(old_starts[j]));
                assert(entry_items_at::<T>(
                    old_bytes,
                    entry_scan::<T>(old_bytes, 0)->Ok_0[i],
                ) != entry_items_at::<T>(old_bytes, entry_scan::<T>(old_bytes, 0)->Ok_0[j]));
                assert(entry_read_result::<T>(nb, old_starts[i]) == entry_read_result::<T>(
                    old_bytes,
                    old_starts[i],
                ));
                assert(entry_read_result::<T>(nb, old_starts[j]) == entry_read_result::<T>(
                    old_bytes,
                    old_starts[j],
                ));
            } else {
                assert(new_starts[j] == off as int);
                assert(old_starts.contains(old_starts[i]));
                let l = choose|l: int|
                    0 <= l < old_offsets.len() && entry_items_at::<T>(
                        old_bytes,
                        #[trigger] old_offsets[l] as int,
                    ) == entry_items_at::<T>(old_bytes, old_starts[i]);
                assert(entry_items_at::<T>(old_bytes, old_offsets[l] as int) != x);
                assert(entry_items_at::<T>(nb, off as int) == x);
            }
        }
    }
}

/// A well-formed store's buffer scans cleanly into entries.
pub proof fn lemma_wf_scan<T: Pod>(s: OffsetSet<T>)
    requires
        s.wf(),
    ensures
        entry_scan::<T>(s.bytes(), 0) is Ok,
{
}

/// Deduplication law: a well-formed store indexes at most one entry for any
/// given content, so looking the same slice up twice finds the same offset.
pub proof fn lemma_indexed_offset_unique<T: Pod>(s: OffsetSet<T>, o1: usize, o2: usize, x: Seq<T>)
    requires
        s.wf(),
        s.indexed(o1, x),
        s.indexed(o2, x),
    ensures
        o1 == o2,
{
    let offs = s.index_offsets();
    let i1 = choose|i: int| 0 <= i < offs.len() && offs[i] == o1;
    let i2 = choose|i: int| 0 <= i < offs.len() && offs[i] == o2;
    assert(offs[i1] == o1 && offs[i2] == o2);
    if i1 != i2 {
        assert(entry_items_at::<T>(s.bytes(), offs[i1] as int) != entry_items_at::<T>(
            s.bytes(),
            offs[i2] as int,
        ));
        assert(false);
    }
}

/// Deduplication law: in a well-formed store whose entries are pairwise
/// distinct, an indexed content occurs in the serialized buffer exactly once:
/// at its own offset and nowhere else.
pub proof fn lemma_content_indexed_once<T: Pod>(s: OffsetSet<T>, off: usize, x: Seq<T>)
    requires
        s.wf(),
        s.is_canonical(),
        s.indexed(off, x),
    ensures
        entry_scan::<T>(s.bytes(), 0) is Ok,
        entry_scan::<T>(s.bytes(), 0)->Ok_0.contains(off as int),
        forall|p: int|
            #[trigger] entry_scan::<T>(s.bytes(), 0)->Ok_0.contains(p) && entry_items_at::<T>(
                s.bytes(),
                p,
            ) == x ==> p == off as int,
{
    let b = s.bytes();
    let starts = entry_scan::<T>(b, 0)->Ok_0;
    let offs = s.index_offsets();
    let i = choose|i: int| 0 <= i < offs.len() && offs[i] == off;
    assert(offs[i] == off);
    assert(starts.contains(offs[i] as int));
    assert forall|p: int|
        #[trigger] entry_scan::<T>(b, 0)->Ok_0.contains(p) && entry_items_at::<T>(b, p)
            == x implies p == off as int by {
        let kp = choose|k: int| 0 <= k < starts.len() && starts[k] == p;
        let ko = choose|k: int| 0 <= k < starts.len() && starts[k] == off as int;
        if kp != ko {
            assert(entry_items_at::<T>(b, entry_scan::<T>(b, 0)->Ok_0[kp]) != entry_items_at::<T>(
                b,
                entry_scan::<T>(b, 0)->Ok_0[ko],
            ));
            assert(false);
        }
    }
}

/// Reload stability law: any well-formed store over the same serialized
/// buffer, such as one rebuilt with
/// [`from_bytes`](OffsetSet::from_bytes), indexes a stored content at the
/// same unique offset as the store the buffer came from.
pub proof fn lemma_reload_keeps_offsets<T: Pod>(
    s0: OffsetSet<T>,
    s1: OffsetSet<T>,
    off: usize,
    x: Seq<T>,
)
    requires
        s0.wf(),
        s0.is_canonical(),
        s0.indexed(off, x),
        s1.wf(),
        s1.bytes() == s0.bytes(),
    ensures
        s1.contains_items(x),
        forall|o: usize| #[trigger] s1.indexed(o, x) ==> o == off,
{
    lemma_content_indexed_once::<T>(s0, off, x);
    let b = s0.bytes();
    let starts = entry_scan::<T>(b, 0)->Ok_0;
    assert(starts.contains(off as int));
    // the reloaded index covers the entry at `off`, whose content is `x`
    let i = choose|i: int|
        0 <= i < s1.index_offsets().len() && entry_items_at::<T>(
            b,
            #[trigger] s1.index_offsets()[i] as int,
        ) == entry_items_at::<T>(b, off as int);
    let o1 = s1.index_offsets()[i];
    assert(starts.contains(o1 as int));
    lemma_scan_contains::<T>(b, 0, o1 as int);
    assert(s1.index_offsets().contains(o1));
    assert(s1.indexed(o1, x));
    assert forall|o: usize| #[trigger] s1.indexed(o, x) implies o == off by {
        let j = choose|j: int| 0 <= j < s1.index_offsets().len() && s1.index_offsets()[j] == o;
        assert(starts.contains(s1.index_offsets()[j] as int));
        assert(starts.contains(o as int) && entry_items_at::<T>(b, o as int) == x);
    }
}

/// Every position a clean scan reports is the start of a readable entry
/// within the buffer.
pub proof fn lemma_scan_contains<T: Pod>(b: Seq<u8>, pos: int, p: int)
    requires
        0 <= pos <= b.len(),
        entry_scan::<T>(b, pos) is Ok,
        entry_scan::<T>(b, pos)->Ok_0.contains(p),
    ensures
        entry_read_result::<T>(b, p) is Ok,
        pos <= p < b.len(),
    decreases b.len() - pos,
{
    let starts = entry_scan::<T>(b, pos)->Ok_0;
    if pos == b.len() {
        assert(false);
    } else {
        let pair = entry_read_result::<T>(b, pos)->Ok_0;
        let rest = entry_scan::<T>(b, pair.1)->Ok_0;
        if p == pos {
        } else {
            let i = choose|i: int| 0 <= i < starts.len() && starts[i] == p;
            assert(rest[i - 1] == p);
            assert(rest.contains(p));
            lemma_scan_contains::<T>(b, pair.1, p);
        }
    }
}

} // verus!
