//! A byte sink that keeps track of the bytes written and can pad its output
//! up to a requested alignment.

use vstd::prelude::*;

use crate::pod::Pod;
use crate::utils::is_power_of_two;
use crate::utils::lemma_padding_needed;
use crate::utils::padding_len;
use crate::utils::padding_needed;

verus! {

/// A run of `n` zero bytes.
pub open spec fn zero_bytes(n: nat) -> Seq<u8> {
    Seq::new(n, |i: int| 0u8)
}

/// A wrapper around a byte buffer that keeps track of the bytes written.
///
/// The main usage is the [`Writer::align_to`] method, which pads the output
/// with zero bytes up to a requested alignment.
pub struct Writer {
    inner: Vec<u8>,
    pos: usize,
}

impl Writer {
    /// The bytes held by the wrapped buffer, including any it held before
    /// this writer was created.
    pub closed spec fn bytes(self) -> Seq<u8> {
        self.inner@
    }

    /// The number of bytes written through this writer: monotonically
    /// non-decreasing, and reset only by constructing a new writer.
    pub closed spec fn position(self) -> int {
        self.pos as int
    }

    /// The position counts only bytes this writer appended, so it never
    /// exceeds the buffer's length.
    pub closed spec fn wf(self) -> bool {
        self.pos <= self.inner@.len()
    }

    /// Creates a new [`Writer`] that appends to `inner`.
    pub fn new(inner: Vec<u8>) -> (r: Self)
        ensures
            r.wf(),
            r.bytes() == inner@,
            r.position() == 0,
    {
        Writer { inner, pos: 0 }
    }

    /// Unwraps the [`Writer`] into the wrapped buffer.
    pub fn into_inner(self) -> (r: Vec<u8>)
        ensures
            r@ == self.bytes(),
    {
        self.inner
    }

    /// Appends `buf` to the output and counts it as written.
    ///
    /// Returns the number of bytes written: always all of `buf`, since the
    /// wrapped buffer accepts everything.
    pub fn write(&mut self, buf: &[u8]) -> (r: usize)
        requires
            old(self).wf(),
        ensures
            final(self).wf(),
            final(self).bytes() == old(self).bytes() + buf@,
            final(self).position() == old(self).position() + buf@.len(),
            r == buf@.len(),
    {
        let count = buf.len();
        let mut tmp = vstd::slice::slice_to_vec(buf);
        self.inner.append(&mut tmp);
        let total = self.inner.len();
        proof {
            assert(self.pos + count <= total);
        }
        self.pos = self.pos + count;
        count
    }

    /// Explicitly aligns the output to `align` bytes by appending the
    /// necessary number of zero padding bytes.
    ///
    /// Appends exactly `padding_needed(position, align)` zero bytes — none
    /// when the position is already aligned — and returns that count;
    /// afterwards the position is a multiple of `align`. `align` must be a
    /// power of two.
    pub fn align_to(&mut self, align: usize) -> (r: usize)
        requires
            old(self).wf(),
            is_power_of_two(align as int),
        ensures
            final(self).wf(),
            r == padding_needed(old(self).position(), align as int),
            final(self).bytes() == old(self).bytes() + zero_bytes(r as nat),
            final(self).position() == old(self).position() + r,
            final(self).position() % (align as int) == 0,
    {
        proof {
            lemma_padding_needed(self.pos as int, align as int);
        }
        let pad = padding_len(self.pos, align);
        let mut i: usize = 0;
        while i < pad
            invariant
                i <= pad,
                self.inner@ == old(self).bytes() + zero_bytes(i as nat),
                self.pos == old(self).pos,
            decreases pad - i,
        {
            self.inner.push(0);
            proof {
                assert(self.inner@ =~= old(self).bytes() + zero_bytes((i + 1) as nat));
            }
            i = i + 1;
        }
        let total = self.inner.len();
        proof {
            assert(self.pos + pad <= total);
        }
        self.pos = self.pos + pad;
        pad
    }

    /// Explicitly aligns the output to the alignment of `T` by appending the
    /// necessary number of zero padding bytes.
    pub fn align_to_type<T: Pod>(&mut self) -> (r: usize)
        requires
            old(self).wf(),
        ensures
            final(self).wf(),
            r == padding_needed(old(self).position(), T::align_spec()),
            final(self).bytes() == old(self).bytes() + zero_bytes(r as nat),
            final(self).position() == old(self).position() + r,
            final(self).position() % T::align_spec() == 0,
    {
        proof {
            T::lemma_layout();
        }
        self.align_to(T::align())
    }
}

} // verus!
