//! Plain Old Data: the capability of a type to be converted to and from raw
//! bytes.
//!
//! A [`Pod`] type has a fixed byte width, and every byte pattern of that width
//! stands for exactly one value: encoding to bytes and decoding from bytes are
//! mutual inverses, which the trait states as proof obligations. Byte order is
//! little-endian, so the layout is the same on every host.
//!
//! Buffers are viewed as typed values by decoding, never by reinterpreting
//! memory, so the view functions return owned values. Each one still checks
//! the alignment that an in-place reinterpretation would need: the caller
//! passes the buffer's distance from an aligned origin as `pos`.

use vstd::arithmetic::div_mod::lemma_div_multiples_vanish;
use vstd::prelude::*;

use crate::utils::is_power_of_two;

verus! {

broadcast use vstd::slice::group_slice_axioms;

/// Plain Old Data: a fixed-width type whose values are in one-to-one
/// correspondence with the byte patterns of its width.
pub trait Pod: Sized + Copy {
    /// The width of the type's byte encoding.
    spec fn size_spec() -> int;

    /// The alignment an in-place view of the type would need.
    spec fn align_spec() -> int;

    /// The byte encoding of a value.
    spec fn bytes_spec(self) -> Seq<u8>;

    /// The value a byte pattern of width `size_spec()` stands for.
    spec fn from_bytes_spec(b: Seq<u8>) -> Self;

    /// The width is positive and the alignment is a power of two.
    proof fn lemma_layout()
        ensures
            Self::size_spec() >= 1,
            is_power_of_two(Self::align_spec()),
    ;

    /// Every value encodes to exactly `size_spec()` bytes.
    proof fn lemma_bytes_len(self)
        ensures
            self.bytes_spec().len() == Self::size_spec(),
    ;

    /// Decoding a value's encoding gives the value back.
    proof fn lemma_from_to(self)
        ensures
            Self::from_bytes_spec(self.bytes_spec()) == self,
    ;

    /// Encoding the value a byte pattern stands for gives the pattern back:
    /// every byte pattern of the right width is a legal value.
    proof fn lemma_to_from(b: Seq<u8>)
        requires
            b.len() == Self::size_spec(),
        ensures
            Self::from_bytes_spec(b).bytes_spec() == b,
    ;

    /// The width of the type's byte encoding.
    fn size() -> (r: usize)
        ensures
            r as int == Self::size_spec(),
    ;

    /// The alignment an in-place view of the type would need.
    fn align() -> (r: usize)
        ensures
            r as int == Self::align_spec(),
    ;

    /// Appends the byte encoding of `self` to `out`.
    fn append_to(&self, out: &mut Vec<u8>)
        ensures
            final(out)@ == old(out)@ + self.bytes_spec(),
    ;

    /// Decodes one value from `bytes` at byte position `start`.
    fn read_at(bytes: &[u8], start: usize) -> (r: Self)
        requires
            start + Self::size_spec() <= bytes@.len(),
        ensures
            r == Self::from_bytes_spec(
                bytes@.subrange(start as int, start as int + Self::size_spec()),
            ),
    ;

}

/// The byte encoding of a single value.
pub fn as_bytes<T: Pod>(value: &T) -> (r: Vec<u8>)
    ensures
        r@ == value.bytes_spec(),
{
    let mut out = Vec::new();
    value.append_to(&mut out);
    out
}

/// Views `bytes` as a single value of `T`.
///
/// The view is present exactly when `bytes` has length `T::size_spec()` and
/// its position `pos` from an aligned origin is aligned for `T`.
pub fn ref_from_bytes<T: Pod>(bytes: &[u8], pos: usize) -> (r: Option<T>)
    ensures
        match r {
            Some(v) => {
                &&& bytes@.len() == T::size_spec()
                &&& pos as int % T::align_spec() == 0
                &&& v == T::from_bytes_spec(bytes@)
            },
            None => !(bytes@.len() == T::size_spec() && pos as int % T::align_spec() == 0),
        },
{
    proof {
        T::lemma_layout();
    }
    if bytes.len() == T::size() && pos % T::align() == 0 {
        let v = T::read_at(bytes, 0);
        proof {
            assert(bytes@.subrange(0, T::size_spec()) =~= bytes@);
        }
        Some(v)
    } else {
        None
    }
}

/// Views the front of `bytes` as a single value of `T` and also returns the
/// trailing bytes.
///
/// The view is present exactly when `bytes` has at least `T::size_spec()`
/// bytes and its position `pos` from an aligned origin is aligned for `T`.
pub fn ref_from_prefix<T: Pod>(bytes: &[u8], pos: usize) -> (r: Option<(T, &[u8])>)
    ensures
        match r {
            Some(pair) => {
                &&& bytes@.len() >= T::size_spec()
                &&& pos as int % T::align_spec() == 0
                &&& pair.0 == T::from_bytes_spec(bytes@.take(T::size_spec()))
                &&& pair.1@ == bytes@.skip(T::size_spec())
            },
            None => !(bytes@.len() >= T::size_spec() && pos as int % T::align_spec() == 0),
        },
{
    proof {
        T::lemma_layout();
    }
    let size = T::size();
    if bytes.len() >= size && pos % T::align() == 0 {
        let v = T::read_at(bytes, 0);
        let suffix = &bytes[size..bytes.len()];
        proof {
            assert(bytes@.subrange(0, T::size_spec()) =~= bytes@.take(T::size_spec()));
            assert(suffix@ =~= bytes@.skip(T::size_spec()));
        }
        Some((v, suffix))
    } else {
        None
    }
}

/// Views `bytes` as a slice of values of `T`, holding exactly the number of
/// values that fit.
///
/// The view is present exactly when the length of `bytes` is a multiple of
/// `T::size_spec()` and its position `pos` from an aligned origin is aligned
/// for `T`.
pub fn slice_from_bytes<T: Pod>(bytes: &[u8], pos: usize) -> (r: Option<Vec<T>>)
    ensures
        match r {
            Some(v) => {
                &&& bytes@.len() as int % T::size_spec() == 0
                &&& pos as int % T::align_spec() == 0
                &&& v@ == items_of_bytes::<T>(bytes@)
                &&& v@.len() * T::size_spec() == bytes@.len()
            },
            None => !(bytes@.len() as int % T::size_spec() == 0 && pos as int % T::align_spec()
                == 0),
        },
{
    proof {
        T::lemma_layout();
    }
    let size = T::size();
    if bytes.len() % size == 0 && pos % T::align() == 0 {
        let count = bytes.len() / size;
        proof {
            assert(count * T::size_spec() == bytes@.len()) by {
                vstd::arithmetic::div_mod::lemma_fundamental_div_mod(
                    bytes@.len() as int,
                    T::size_spec(),
                );
                assert(T::size_spec() * count == count * T::size_spec()) by (nonlinear_arith);
            }
        }
        let v = read_items::<T>(bytes, 0, count);
        proof {
            assert(bytes@.skip(0) =~= bytes@);
            let decoded = items_of_bytes::<T>(bytes@);
            assert(decoded.len() == count);
            assert(v@ =~= decoded);
        }
        Some(v)
    } else {
        None
    }
}

/// Views the front of `bytes` as a slice of `count` values of `T` and also
/// returns the trailing bytes.
///
/// The view is present exactly when `bytes` holds at least
/// `count * T::size_spec()` bytes and its position `pos` from an aligned
/// origin is aligned for `T`.
pub fn slice_from_prefix<T: Pod>(bytes: &[u8], pos: usize, count: usize) -> (r: Option<
    (Vec<T>, &[u8]),
>)
    ensures
        match r {
            Some(pair) => {
                &&& count * T::size_spec() <= bytes@.len()
                &&& pos as int % T::align_spec() == 0
                &&& pair.0@ == items_of_bytes::<T>(bytes@.take(count * T::size_spec()))
                &&& pair.0@.len() == count
                &&& pair.1@ == bytes@.skip(count * T::size_spec())
            },
            None => !(count * T::size_spec() <= bytes@.len() && pos as int % T::align_spec()
                == 0),
        },
{
    proof {
        T::lemma_layout();
    }
    let size = T::size();
    let n: usize = bytes.len();
    let expected_len = match count.checked_mul(size) {
        Some(len) => len,
        None => {
            return None;
        },
    };
    if expected_len <= n && pos % T::align() == 0 {
        let v = read_items::<T>(bytes, 0, count);
        let suffix = &bytes[expected_len..n];
        proof {
            assert(suffix@ =~= bytes@.skip(count * T::size_spec()));
            lemma_items_of_bytes_take::<T>(bytes@, count as int);
            assert(bytes@.skip(0) =~= bytes@);
            assert(v@ =~= items_of_bytes::<T>(bytes@.take(count * T::size_spec())));
        }
        Some((v, suffix))
    } else {
        None
    }
}

/// The concatenated byte encodings of a sequence of values.
pub open spec fn bytes_of_items<T: Pod>(items: Seq<T>) -> Seq<u8>
    decreases items.len(),
{
    if items.len() == 0 {
        Seq::empty()
    } else {
        items[0].bytes_spec() + bytes_of_items(items.drop_first())
    }
}

/// The values that a byte sequence stands for, one value per `size_spec()`
/// bytes, holding as many values as fit.
pub open spec fn items_of_bytes<T: Pod>(b: Seq<u8>) -> Seq<T> {
    Seq::new(
        (b.len() as int / T::size_spec()) as nat,
        |i: int| T::from_bytes_spec(b.subrange(i * T::size_spec(), (i + 1) * T::size_spec())),
    )
}

/// The concatenated encodings of `items` take `items.len() * size_spec()` bytes.
pub proof fn lemma_bytes_of_items_len<T: Pod>(items: Seq<T>)
    ensures
        bytes_of_items(items).len() == items.len() * T::size_spec(),
    decreases items.len(),
{
    T::lemma_layout();
    if items.len() == 0 {
    } else {
        items[0].lemma_bytes_len();
        lemma_bytes_of_items_len::<T>(items.drop_first());
        assert(T::size_spec() + (items.len() - 1) * T::size_spec() == items.len()
            * T::size_spec()) by (nonlinear_arith);
    }
}

/// Appending one value to a sequence appends its encoding to the bytes.
pub proof fn lemma_bytes_of_items_push<T: Pod>(items: Seq<T>, x: T)
    ensures
        bytes_of_items(items.push(x)) == bytes_of_items(items) + x.bytes_spec(),
    decreases items.len(),
{
    if items.len() == 0 {
        assert(items.push(x).drop_first() =~= Seq::<T>::empty());
        assert(bytes_of_items(Seq::<T>::empty()) == Seq::<u8>::empty());
        assert(items.push(x)[0] == x);
        assert(bytes_of_items(items.push(x)) == x.bytes_spec() + Seq::<u8>::empty());
        assert(bytes_of_items(items.push(x)) =~= bytes_of_items(items) + x.bytes_spec());
    } else {
        assert(items.push(x).drop_first() =~= items.drop_first().push(x));
        lemma_bytes_of_items_push::<T>(items.drop_first(), x);
        assert(bytes_of_items(items.push(x)) =~= bytes_of_items(items) + x.bytes_spec());
    }
}

/// Within the concatenated encodings, value `i` occupies bytes
/// `i * size_spec()` up to `(i + 1) * size_spec()`.
pub proof fn lemma_bytes_of_items_index<T: Pod>(items: Seq<T>, i: int)
    requires
        0 <= i < items.len(),
    ensures
        bytes_of_items(items).subrange(i * T::size_spec(), (i + 1) * T::size_spec())
            == items[i].bytes_spec(),
    decreases items.len(),
{
    T::lemma_layout();
    let s = T::size_spec();
    items[0].lemma_bytes_len();
    lemma_bytes_of_items_len::<T>(items.drop_first());
    lemma_bytes_of_items_len::<T>(items);
    assert((items.len() - 1) * s >= i * s - s && i * s <= items.len() * s && (i + 1) * s
        <= items.len() * s) by (nonlinear_arith)
        requires
            s >= 1,
            0 <= i < items.len(),
    ;
    if i == 0 {
        assert(i * s == 0 && (i + 1) * s == s) by (nonlinear_arith)
            requires
                i == 0,
        ;
        assert(bytes_of_items(items).subrange(0, s) =~= items[0].bytes_spec());
        assert(bytes_of_items(items).subrange(i * s, (i + 1) * s) == bytes_of_items(
            items,
        ).subrange(0, s));
    } else {
        lemma_bytes_of_items_index::<T>(items.drop_first(), i - 1);
        assert((i - 1) * s == i * s - s && i * s == (i + 1) * s - s && i * s >= s)
            by (nonlinear_arith)
            requires
                s >= 1,
                1 <= i,
        ;
        assert(bytes_of_items(items).subrange(i * s, (i + 1) * s) =~= bytes_of_items(
            items.drop_first(),
        ).subrange((i - 1) * s, i * s));
    }
}

/// Decoding the concatenated encodings of a sequence of values gives the
/// sequence back.
pub proof fn lemma_items_of_bytes_of_items<T: Pod>(items: Seq<T>)
    ensures
        items_of_bytes::<T>(bytes_of_items(items)) == items,
{
    T::lemma_layout();
    let s = T::size_spec();
    lemma_bytes_of_items_len::<T>(items);
    lemma_div_multiples_vanish(items.len() as int, s);
    assert(items.len() * s == s * items.len()) by (nonlinear_arith);
    let decoded = items_of_bytes::<T>(bytes_of_items(items));
    assert forall|i: int| 0 <= i < items.len() implies decoded[i] == items[i] by {
        lemma_bytes_of_items_index::<T>(items, i);
        items[i].lemma_from_to();
    }
    assert(decoded =~= items);
}

/// Encoding the values that a byte sequence stands for gives the bytes back,
/// when the sequence's length is an exact multiple of the value width.
pub proof fn lemma_bytes_of_items_of_bytes<T: Pod>(b: Seq<u8>)
    requires
        b.len() as int % T::size_spec() == 0,
    ensures
        bytes_of_items(items_of_bytes::<T>(b)) == b,
    decreases b.len(),
{
    T::lemma_layout();
    let s = T::size_spec();
    let items = items_of_bytes::<T>(b);
    if b.len() == 0 {
        assert(items =~= Seq::<T>::empty());
        assert(bytes_of_items(items) =~= b);
    } else {
        assert(b.len() >= s) by {
            vstd::arithmetic::div_mod::lemma_mod_is_zero(b.len() as nat, s as nat);
        }
        let rest = b.skip(s);
        assert(rest.len() as int % s == 0) by {
            vstd::arithmetic::div_mod::lemma_mod_sub_multiples_vanish(b.len() as int, s);
        }
        lemma_bytes_of_items_of_bytes::<T>(rest);
        assert(rest.len() as int / s == b.len() as int / s - 1) by {
            vstd::arithmetic::div_mod::lemma_hoist_over_denominator(rest.len() as int, 1, s as nat);
            assert(rest.len() + 1 * s == b.len());
        }
        assert(items.len() == b.len() as int / s);
        assert(items.len() >= 1) by {
            vstd::arithmetic::div_mod::lemma_div_non_zero(b.len() as int, s);
        }
        assert(b.len() == (b.len() as int / s) * s) by {
            vstd::arithmetic::div_mod::lemma_fundamental_div_mod(b.len() as int, s);
            assert(s * (b.len() as int / s) == (b.len() as int / s) * s) by (nonlinear_arith);
        }
        assert(items.drop_first() =~= items_of_bytes::<T>(rest)) by {
            assert forall|i: int| 0 <= i < items.len() - 1 implies items.drop_first()[i]
                == items_of_bytes::<T>(rest)[i] by {
                assert((i + 1) * s == i * s + s && (i + 2) * s == (i + 1) * s + s)
                    by (nonlinear_arith);
                assert(0 <= i * s && (i + 2) * s <= (b.len() as int / s) * s) by (nonlinear_arith)
                    requires
                        s >= 1,
                        0 <= i,
                        i + 2 <= b.len() as int / s,
                ;
                assert(rest.subrange(i * s, (i + 1) * s) =~= b.subrange((i + 1) * s, (i + 2) * s));
            }
        }
        assert(items[0] == T::from_bytes_spec(b.take(s))) by {
            assert(b.subrange(0 * s, 1 * s) =~= b.take(s));
        }
        T::lemma_to_from(b.take(s));
        assert(bytes_of_items(items) == b.take(s) + rest);
        assert(b.take(s) + rest =~= b);
    }
}

/// `items_of_bytes` of a prefix that is a whole number of values agrees with
/// a prefix of `items_of_bytes`.
pub proof fn lemma_items_of_bytes_take<T: Pod>(b: Seq<u8>, count: int)
    requires
        0 <= count,
        count * T::size_spec() <= b.len(),
    ensures
        items_of_bytes::<T>(b.take(count * T::size_spec())).len() == count,
        forall|i: int|
            0 <= i < count ==> items_of_bytes::<T>(b.take(count * T::size_spec()))[i]
                == items_of_bytes_at::<T>(b, i),
{
    T::lemma_layout();
    let s = T::size_spec();
    let pre = b.take(count * s);
    lemma_div_multiples_vanish(count, s);
    assert(count * s == s * count && 0 <= count * s) by (nonlinear_arith)
        requires
            s >= 1,
            0 <= count,
    ;
    assert(pre.len() == count * s);
    assert forall|i: int| 0 <= i < count implies items_of_bytes::<T>(pre)[i]
        == items_of_bytes_at::<T>(b, i) by {
        assert(0 <= i * s && i * s + s == (i + 1) * s && (i + 1) * s <= count * s)
            by (nonlinear_arith)
            requires
                s >= 1,
                0 <= i < count,
        ;
        assert(pre.subrange(i * s, (i + 1) * s) =~= b.subrange(i * s, (i + 1) * s));
    }
}

/// The value that bytes `i * size_spec()` up to `(i + 1) * size_spec()` of a
/// byte sequence stand for.
pub open spec fn items_of_bytes_at<T: Pod>(b: Seq<u8>, i: int) -> T {
    T::from_bytes_spec(b.subrange(i * T::size_spec(), (i + 1) * T::size_spec()))
}

/// Decodes `count` values of `T` from `bytes`, starting at byte position
/// `start`.
pub(crate) fn read_items<T: Pod>(bytes: &[u8], start: usize, count: usize) -> (r: Vec<T>)
    requires
        start + count * T::size_spec() <= bytes@.len(),
    ensures
        r@.len() == count,
        forall|i: int|
            0 <= i < count ==> r@[i] == items_of_bytes_at::<T>(bytes@.skip(start as int), i),
{
    proof {
        T::lemma_layout();
    }
    let size = T::size();
    let n: usize = bytes.len();
    let mut r: Vec<T> = Vec::new();
    let mut i: usize = 0;
    let mut off: usize = start;
    while i < count
        invariant
            start + count * T::size_spec() <= bytes@.len(),
            bytes@.len() == n,
            size as int == T::size_spec(),
            T::size_spec() >= 1,
            i <= count,
            off == start + i * T::size_spec(),
            r@.len() == i,
            forall|j: int|
                0 <= j < i ==> r@[j] == items_of_bytes_at::<T>(bytes@.skip(start as int), j),
        decreases count - i,
    {
        proof {
            assert(i * T::size_spec() + T::size_spec() <= count * T::size_spec())
                by (nonlinear_arith)
                requires
                    T::size_spec() >= 1,
                    i < count,
            ;
        }
        let v = T::read_at(bytes, off);
        proof {
            let s = T::size_spec();
            assert(i * s + s == (i + 1) * s) by (nonlinear_arith);
            assert(bytes@.subrange(start + i * s, start + i * s + s) =~= bytes@.skip(
                start as int,
            ).subrange(i * s, (i + 1) * s));
        }
        r.push(v);
        i = i + 1;
        off = off + size;
    }
    r
}

/// The concatenated byte encodings of a slice of values.
pub fn slice_as_bytes<T: Pod>(items: &[T]) -> (r: Vec<u8>)
    ensures
        r@ == bytes_of_items(items@),
{
    let mut r: Vec<u8> = Vec::new();
    let mut i: usize = 0;
    proof {
        assert(items@.take(0) =~= Seq::<T>::empty());
    }
    while i < items.len()
        invariant
            i <= items@.len(),
            r@ == bytes_of_items(items@.take(i as int)),
        decreases items@.len() - i,
    {
        let v = items[i];
        v.append_to(&mut r);
        proof {
            assert(items@.take(i + 1) =~= items@.take(i as int).push(items@[i as int]));
            lemma_bytes_of_items_push::<T>(items@.take(i as int), items@[i as int]);
        }
        i = i + 1;
    }
    proof {
        assert(items@.take(items@.len() as int) =~= items@);
    }
    r
}

impl Pod for u8 {
    open spec fn size_spec() -> int {
        1
    }

    open spec fn align_spec() -> int {
        1
    }

    open spec fn bytes_spec(self) -> Seq<u8> {
        seq![self]
    }

    open spec fn from_bytes_spec(b: Seq<u8>) -> u8 {
        b[0]
    }

    proof fn lemma_layout() {
    }

    proof fn lemma_bytes_len(self) {
    }

    proof fn lemma_from_to(self) {
        assert(seq![self][0] == self);
    }

    proof fn lemma_to_from(b: Seq<u8>) {
        assert(b =~= seq![b[0]]);
    }

    fn size() -> usize {
        1
    }

    fn align() -> usize {
        1
    }

    fn append_to(&self, out: &mut Vec<u8>) {
        out.push(*self);
        proof {
            assert(out@ =~= old(out)@ + self.bytes_spec());
        }
    }

    fn read_at(bytes: &[u8], start: usize) -> (r: u8) {
        bytes[start]
    }
}

impl Pod for u16 {
    open spec fn size_spec() -> int {
        2
    }

    open spec fn align_spec() -> int {
        2
    }

    open spec fn bytes_spec(self) -> Seq<u8> {
        vstd::bytes::spec_u16_to_le_bytes(self)
    }

    open spec fn from_bytes_spec(b: Seq<u8>) -> u16 {
        vstd::bytes::spec_u16_from_le_bytes(b)
    }

    proof fn lemma_layout() {
        reveal_with_fuel(is_power_of_two, 3);
    }

    proof fn lemma_bytes_len(self) {
        vstd::bytes::lemma_auto_spec_u16_to_from_le_bytes();
        assert(vstd::bytes::spec_u16_to_le_bytes(self).len() == 2);
    }

    proof fn lemma_from_to(self) {
        vstd::bytes::lemma_auto_spec_u16_to_from_le_bytes();
        assert(vstd::bytes::spec_u16_to_le_bytes(self).len() == 2);
    }

    proof fn lemma_to_from(b: Seq<u8>) {
        vstd::bytes::lemma_auto_spec_u16_to_from_le_bytes();
    }

    fn size() -> usize {
        2
    }

    fn align() -> usize {
        2
    }

    fn append_to(&self, out: &mut Vec<u8>) {
        let mut bytes = vstd::bytes::u16_to_le_bytes(*self);
        out.append(&mut bytes);
    }

    fn read_at(bytes: &[u8], start: usize) -> (r: u16) {
        let n: usize = bytes.len();
        proof {
            assert(start + 2 <= n);
        }
        vstd::bytes::u16_from_le_bytes(&bytes[start..start + 2])
    }
}

impl Pod for u32 {
    open spec fn size_spec() -> int {
        4
    }

    open spec fn align_spec() -> int {
        4
    }

    open spec fn bytes_spec(self) -> Seq<u8> {
        vstd::bytes::spec_u32_to_le_bytes(self)
    }

    open spec fn from_bytes_spec(b: Seq<u8>) -> u32 {
        vstd::bytes::spec_u32_from_le_bytes(b)
    }

    proof fn lemma_layout() {
        reveal_with_fuel(is_power_of_two, 4);
    }

    proof fn lemma_bytes_len(self) {
        vstd::bytes::lemma_auto_spec_u32_to_from_le_bytes();
        assert(vstd::bytes::spec_u32_to_le_bytes(self).len() == 4);
    }

    proof fn lemma_from_to(self) {
        vstd::bytes::lemma_auto_spec_u32_to_from_le_bytes();
        assert(vstd::bytes::spec_u32_to_le_bytes(self).len() == 4);
    }

    proof fn lemma_to_from(b: Seq<u8>) {
        vstd::bytes::lemma_auto_spec_u32_to_from_le_bytes();
    }

    fn size() -> usize {
        4
    }

    fn align() -> usize {
        4
    }

    fn append_to(&self, out: &mut Vec<u8>) {
        let mut bytes = vstd::bytes::u32_to_le_bytes(*self);
        out.append(&mut bytes);
    }

    fn read_at(bytes: &[u8], start: usize) -> (r: u32) {
        let n: usize = bytes.len();
        proof {
            assert(start + 4 <= n);
        }
        vstd::bytes::u32_from_le_bytes(&bytes[start..start + 4])
    }
}

impl Pod for u64 {
    open spec fn size_spec() -> int {
        8
    }

    open spec fn align_spec() -> int {
        8
    }

    open spec fn bytes_spec(self) -> Seq<u8> {
        vstd::bytes::spec_u64_to_le_bytes(self)
    }

    open spec fn from_bytes_spec(b: Seq<u8>) -> u64 {
        vstd::bytes::spec_u64_from_le_bytes(b)
    }

    proof fn lemma_layout() {
        reveal_with_fuel(is_power_of_two, 5);
    }

    proof fn lemma_bytes_len(self) {
        vstd::bytes::lemma_auto_spec_u64_to_from_le_bytes();
        assert(vstd::bytes::spec_u64_to_le_bytes(self).len() == 8);
    }

    proof fn lemma_from_to(self) {
        vstd::bytes::lemma_auto_spec_u64_to_from_le_bytes();
        assert(vstd::bytes::spec_u64_to_le_bytes(self).len() == 8);
    }

    proof fn lemma_to_from(b: Seq<u8>) {
        vstd::bytes::lemma_auto_spec_u64_to_from_le_bytes();
    }

    fn size() -> usize {
        8
    }

    fn align() -> usize {
        8
    }

    fn append_to(&self, out: &mut Vec<u8>) {
        let mut bytes = vstd::bytes::u64_to_le_bytes(*self);
        out.append(&mut bytes);
    }

    fn read_at(bytes: &[u8], start: usize) -> (r: u64) {
        let n: usize = bytes.len();
        proof {
            assert(start + 8 <= n);
        }
        vstd::bytes::u64_from_le_bytes(&bytes[start..start + 8])
    }
}


impl Pod for i8 {
    open spec fn size_spec() -> int {
        1
    }

    open spec fn align_spec() -> int {
        1
    }

    open spec fn bytes_spec(self) -> Seq<u8> {
        seq![self as u8]
    }

    open spec fn from_bytes_spec(b: Seq<u8>) -> i8 {
        b[0] as i8
    }

    proof fn lemma_layout() {
    }

    proof fn lemma_bytes_len(self) {
    }

    proof fn lemma_from_to(self) {
        assert(self as u8 as i8 == self) by (bit_vector);
    }

    proof fn lemma_to_from(b: Seq<u8>) {
        let x = b[0];
        assert(x as i8 as u8 == x) by (bit_vector);
        assert(b =~= seq![b[0]]);
    }

    fn size() -> usize {
        1
    }

    fn align() -> usize {
        1
    }

    fn append_to(&self, out: &mut Vec<u8>) {
        out.push(#[verifier::truncate] (*self as u8));
        proof {
            assert(out@ =~= old(out)@ + self.bytes_spec());
        }
    }

    fn read_at(bytes: &[u8], start: usize) -> (r: i8) {
        #[verifier::truncate] (bytes[start] as i8)
    }
}

impl Pod for i16 {
    open spec fn size_spec() -> int {
        2
    }

    open spec fn align_spec() -> int {
        2
    }

    open spec fn bytes_spec(self) -> Seq<u8> {
        vstd::bytes::spec_u16_to_le_bytes(self as u16)
    }

    open spec fn from_bytes_spec(b: Seq<u8>) -> i16 {
        vstd::bytes::spec_u16_from_le_bytes(b) as i16
    }

    proof fn lemma_layout() {
        reveal_with_fuel(is_power_of_two, 6);
    }

    proof fn lemma_bytes_len(self) {
        vstd::bytes::lemma_auto_spec_u16_to_from_le_bytes();
        assert(vstd::bytes::spec_u16_to_le_bytes(self as u16).len() == 2);
    }

    proof fn lemma_from_to(self) {
        vstd::bytes::lemma_auto_spec_u16_to_from_le_bytes();
        assert(vstd::bytes::spec_u16_to_le_bytes(self as u16).len() == 2);
        let x = self;
        assert(x as u16 as i16 == x) by (bit_vector);
    }

    proof fn lemma_to_from(b: Seq<u8>) {
        vstd::bytes::lemma_auto_spec_u16_to_from_le_bytes();
        let u = vstd::bytes::spec_u16_from_le_bytes(b);
        assert(u as i16 as u16 == u) by (bit_vector);
    }

    fn size() -> usize {
        2
    }

    fn align() -> usize {
        2
    }

    fn append_to(&self, out: &mut Vec<u8>) {
        let mut bytes = vstd::bytes::u16_to_le_bytes(#[verifier::truncate] (*self as u16));
        out.append(&mut bytes);
    }

    fn read_at(bytes: &[u8], start: usize) -> (r: i16) {
        let count: usize = bytes.len();
        proof {
            assert(start + 2 <= count);
        }
        let u = vstd::bytes::u16_from_le_bytes(&bytes[start..start + 2]);
        #[verifier::truncate] (u as i16)
    }
}

impl Pod for i32 {
    open spec fn size_spec() -> int {
        4
    }

    open spec fn align_spec() -> int {
        4
    }

    open spec fn bytes_spec(self) -> Seq<u8> {
        vstd::bytes::spec_u32_to_le_bytes(self as u32)
    }

    open spec fn from_bytes_spec(b: Seq<u8>) -> i32 {
        vstd::bytes::spec_u32_from_le_bytes(b) as i32
    }

    proof fn lemma_layout() {
        reveal_with_fuel(is_power_of_two, 6);
    }

    proof fn lemma_bytes_len(self) {
        vstd::bytes::lemma_auto_spec_u32_to_from_le_bytes();
        assert(vstd::bytes::spec_u32_to_le_bytes(self as u32).len() == 4);
    }

    proof fn lemma_from_to(self) {
        vstd::bytes::lemma_auto_spec_u32_to_from_le_bytes();
        assert(vstd::bytes::spec_u32_to_le_bytes(self as u32).len() == 4);
        let x = self;
        assert(x as u32 as i32 == x) by (bit_vector);
    }

    proof fn lemma_to_from(b: Seq<u8>) {
        vstd::bytes::lemma_auto_spec_u32_to_from_le_bytes();
        let u = vstd::bytes::spec_u32_from_le_bytes(b);
        assert(u as i32 as u32 == u) by (bit_vector);
    }

    fn size() -> usize {
        4
    }

    fn align() -> usize {
        4
    }

    fn append_to(&self, out: &mut Vec<u8>) {
        let mut bytes = vstd::bytes::u32_to_le_bytes(#[verifier::truncate] (*self as u32));
        out.append(&mut bytes);
    }

    fn read_at(bytes: &[u8], start: usize) -> (r: i32) {
        let count: usize = bytes.len();
        proof {
            assert(start + 4 <= count);
        }
        let u = vstd::bytes::u32_from_le_bytes(&bytes[start..start + 4]);
        #[verifier::truncate] (u as i32)
    }
}

impl Pod for i64 {
    open spec fn size_spec() -> int {
        8
    }

    open spec fn align_spec() -> int {
        8
    }

    open spec fn bytes_spec(self) -> Seq<u8> {
        vstd::bytes::spec_u64_to_le_bytes(self as u64)
    }

    open spec fn from_bytes_spec(b: Seq<u8>) -> i64 {
        vstd::bytes::spec_u64_from_le_bytes(b) as i64
    }

    proof fn lemma_layout() {
        reveal_with_fuel(is_power_of_two, 6);
    }

    proof fn lemma_bytes_len(self) {
        vstd::bytes::lemma_auto_spec_u64_to_from_le_bytes();
        assert(vstd::bytes::spec_u64_to_le_bytes(self as u64).len() == 8);
    }

    proof fn lemma_from_to(self) {
        vstd::bytes::lemma_auto_spec_u64_to_from_le_bytes();
        assert(vstd::bytes::spec_u64_to_le_bytes(self as u64).len() == 8);
        let x = self;
        assert(x as u64 as i64 == x) by (bit_vector);
    }

    proof fn lemma_to_from(b: Seq<u8>) {
        vstd::bytes::lemma_auto_spec_u64_to_from_le_bytes();
        let u = vstd::bytes::spec_u64_from_le_bytes(b);
        assert(u as i64 as u64 == u) by (bit_vector);
    }

    fn size() -> usize {
        8
    }

    fn align() -> usize {
        8
    }

    fn append_to(&self, out: &mut Vec<u8>) {
        let mut bytes = vstd::bytes::u64_to_le_bytes(#[verifier::truncate] (*self as u64));
        out.append(&mut bytes);
    }

    fn read_at(bytes: &[u8], start: usize) -> (r: i64) {
        let count: usize = bytes.len();
        proof {
            assert(start + 8 <= count);
        }
        let u = vstd::bytes::u64_from_le_bytes(&bytes[start..start + 8]);
        #[verifier::truncate] (u as i64)
    }
}

impl Pod for u128 {
    open spec fn size_spec() -> int {
        16
    }

    open spec fn align_spec() -> int {
        16
    }

    open spec fn bytes_spec(self) -> Seq<u8> {
        vstd::bytes::spec_u128_to_le_bytes(self)
    }

    open spec fn from_bytes_spec(b: Seq<u8>) -> u128 {
        vstd::bytes::spec_u128_from_le_bytes(b)
    }

    proof fn lemma_layout() {
        reveal_with_fuel(is_power_of_two, 6);
    }

    proof fn lemma_bytes_len(self) {
        vstd::bytes::lemma_auto_spec_u128_to_from_le_bytes();
        assert(vstd::bytes::spec_u128_to_le_bytes(self).len() == 16);
    }

    proof fn lemma_from_to(self) {
        vstd::bytes::lemma_auto_spec_u128_to_from_le_bytes();
        assert(vstd::bytes::spec_u128_to_le_bytes(self).len() == 16);
    }

    proof fn lemma_to_from(b: Seq<u8>) {
        vstd::bytes::lemma_auto_spec_u128_to_from_le_bytes();
    }

    fn size() -> usize {
        16
    }

    fn align() -> usize {
        16
    }

    fn append_to(&self, out: &mut Vec<u8>) {
        let mut bytes = vstd::bytes::u128_to_le_bytes(*self);
        out.append(&mut bytes);
    }

    fn read_at(bytes: &[u8], start: usize) -> (r: u128) {
        let count: usize = bytes.len();
        proof {
            assert(start + 16 <= count);
        }
        vstd::bytes::u128_from_le_bytes(&bytes[start..start + 16])
    }
}

} // verus!
