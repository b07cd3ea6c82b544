//! Alignment helpers: splitting a buffer into an unaligned prefix and an
//! aligned suffix, and checking whether a position satisfies an alignment.

use vstd::arithmetic::div_mod::lemma_fundamental_div_mod;
use vstd::arithmetic::div_mod::lemma_mod_self_0;
use vstd::arithmetic::div_mod::lemma_small_mod;
use vstd::prelude::*;

use crate::pod::Pod;

verus! {

/// True when `n` is a power of two (and hence positive).
pub open spec fn is_power_of_two(n: int) -> bool
    decreases n,
{
    if n <= 0 {
        false
    } else if n == 1 {
        true
    } else {
        n % 2 == 0 && is_power_of_two(n / 2)
    }
}

/// The number of padding bytes needed to move position `pos` up to the next
/// multiple of `align`: the least `p >= 0` with `(pos + p) % align == 0`.
pub open spec fn padding_needed(pos: int, align: int) -> int
    recommends
        align >= 1,
        pos >= 0,
{
    (align - pos % align) % align
}

/// `padding_needed` is below `align` and lands exactly on a multiple of `align`.
pub proof fn lemma_padding_needed(pos: int, align: int)
    requires
        align >= 1,
        pos >= 0,
    ensures
        0 <= padding_needed(pos, align) < align,
        (pos + padding_needed(pos, align)) % align == 0,
        padding_needed(pos, align) == if pos % align == 0 {
            0int
        } else {
            align - pos % align
        },
{
    let r = pos % align;
    lemma_fundamental_div_mod(pos, align);
    if r == 0 {
        lemma_mod_self_0(align);
        assert((pos + 0) % align == 0) by {
            lemma_small_mod(0, align as nat);
            assert(pos == align * (pos / align));
            assert(pos % align == 0);
        }
    } else {
        lemma_small_mod((align - r) as nat, align as nat);
        assert(padding_needed(pos, align) == align - r);
        assert(pos + (align - r) == align * (pos / align + 1)) by {
            assert(pos == align * (pos / align) + r);
            assert(align * (pos / align) + align == align * (pos / align + 1)) by (nonlinear_arith);
        }
        assert((align * (pos / align + 1)) % align == 0) by {
            vstd::arithmetic::div_mod::lemma_mod_multiples_basic(pos / align + 1, align);
        }
    }
}

/// The number of padding bytes needed to move position `pos` up to the next
/// multiple of `align`. `align` must be a power of two.
pub fn padding_len(pos: usize, align: usize) -> (r: usize)
    requires
        is_power_of_two(align as int),
    ensures
        r == padding_needed(pos as int, align as int),
{
    proof {
        lemma_padding_needed(pos as int, align as int);
    }
    let rem = pos % align;
    if rem == 0 {
        0
    } else {
        align - rem
    }
}

/// True when a buffer that starts at distance `pos` from an aligned origin
/// satisfies the alignment `align`.
///
/// `align` must be a power of two: that is a caller contract, not a data
/// condition.
pub fn is_aligned_to(pos: usize, align: usize) -> (r: bool)
    requires
        is_power_of_two(align as int),
    ensures
        r == (pos as int % align as int == 0),
{
    pos % align == 0
}

/// Splits `bytes`, which starts at distance `pos` from an aligned origin,
/// into the padding needed to reach the next position aligned to `align`
/// and the aligned suffix that follows it.
///
/// Returns [`None`] exactly when `bytes` is too short to reach the aligned
/// position. `align` must be a power of two.
pub fn align_to(bytes: &[u8], pos: usize, align: usize) -> (r: Option<(&[u8], &[u8])>)
    requires
        is_power_of_two(align as int),
    ensures
        match r {
            Some(parts) => {
                &&& parts.0@ == bytes@.take(padding_needed(pos as int, align as int))
                &&& parts.1@ == bytes@.skip(padding_needed(pos as int, align as int))
                &&& parts.0@.len() + parts.1@.len() == bytes@.len()
                &&& (pos + parts.0@.len()) % (align as int) == 0
            },
            None => bytes@.len() < padding_needed(pos as int, align as int),
        },
{
    proof {
        lemma_padding_needed(pos as int, align as int);
    }
    let offset = padding_len(pos, align);
    if bytes.len() < offset {
        return None;
    }
    let prefix = &bytes[0..offset];
    let suffix = &bytes[offset..bytes.len()];
    assert(prefix@ == bytes@.take(offset as int));
    assert(suffix@ == bytes@.skip(offset as int));
    Some((prefix, suffix))
}

/// Splits `bytes`, which starts at distance `pos` from an aligned origin,
/// into the padding needed to reach the next position aligned for `T`
/// and the aligned suffix that follows it.
///
/// Returns [`None`] exactly when `bytes` is too short to reach the aligned
/// position.
pub fn align_to_type<T: Pod>(bytes: &[u8], pos: usize) -> (r: Option<(&[u8], &[u8])>)
    ensures
        match r {
            Some(parts) => {
                &&& parts.0@ == bytes@.take(padding_needed(pos as int, T::align_spec()))
                &&& parts.1@ == bytes@.skip(padding_needed(pos as int, T::align_spec()))
                &&& parts.0@.len() + parts.1@.len() == bytes@.len()
                &&& (pos + parts.0@.len()) % T::align_spec() == 0
            },
            None => bytes@.len() < padding_needed(pos as int, T::align_spec()),
        },
{
    proof {
        T::lemma_layout();
    }
    align_to(bytes, pos, T::align())
}

} // verus!
