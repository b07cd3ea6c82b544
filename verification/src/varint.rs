//! Unsigned LEB128 varints: the length prefix of the blob-store wire format.
//!
//! LEB128 stores seven data bits per byte, least significant group first,
//! with the high bit set on every byte but the last. Only canonical
//! encodings are accepted when decoding: a varint that is truncated, that
//! ends in a spare zero byte (overlong), or whose value does not fit in 64
//! bits is malformed.

use vstd::arithmetic::div_mod::lemma_fundamental_div_mod;
use vstd::arithmetic::div_mod::lemma_fundamental_div_mod_converse;
use vstd::prelude::*;

verus! {

broadcast use vstd::slice::group_slice_axioms;

/// The canonical LEB128 encoding of `n`.
pub open spec fn leb128_encode(n: nat) -> Seq<u8>
    decreases n,
{
    if n < 128 {
        seq![n as u8]
    } else {
        seq![(n % 128 + 128) as u8] + leb128_encode(n / 128)
    }
}

/// Decodes a LEB128 varint from the front of `b`: the value and the number
/// of bytes it occupies. `None` when the varint is malformed: truncated,
/// overlong, or too large for 64 bits.
pub open spec fn leb128_decode(b: Seq<u8>) -> Option<(nat, nat)>
    decreases b.len(),
{
    if b.len() == 0 {
        None
    } else if b[0] < 128 {
        Some((b[0] as nat, 1))
    } else {
        match leb128_decode(b.drop_first()) {
            Some(rest) => {
                let value = (b[0] - 128) + rest.0 * 128;
                if rest.0 == 0 {
                    None
                } else if value > u64::MAX {
                    None
                } else {
                    Some((value as nat, rest.1 + 1))
                }
            },
            None => None,
        }
    }
}

/// An encoded varint decodes to the value it encodes, whatever follows it.
pub proof fn lemma_leb128_round_trip(n: nat, rest: Seq<u8>)
    requires
        n <= u64::MAX,
    ensures
        leb128_encode(n).len() >= 1,
        leb128_decode(leb128_encode(n) + rest) == Some((n, leb128_encode(n).len())),
    decreases n,
{
    let e = leb128_encode(n);
    let whole = e + rest;
    if n < 128 {
        assert(whole[0] == n as u8);
    } else {
        lemma_leb128_round_trip(n / 128, rest);
        assert(whole.drop_first() =~= leb128_encode(n / 128) + rest);
        assert(whole[0] == (n % 128 + 128) as u8);
        assert(0 <= n % 128 < 128 && n / 128 >= 1 && (whole[0] - 128) + (n / 128) * 128 == n) by {
            lemma_fundamental_div_mod(n as int, 128);
        }
    }
}

/// A decoded varint occupies at least one byte, fits in 64 bits, and is the
/// canonical encoding of its value.
pub proof fn lemma_leb128_decode_inverse(b: Seq<u8>)
    ensures
        leb128_decode(b) matches Some(pair) ==> {
            &&& 1 <= pair.1 <= b.len()
            &&& pair.0 <= u64::MAX
            &&& leb128_encode(pair.0) == b.take(pair.1 as int)
        },
    decreases b.len(),
{
    if b.len() == 0 {
    } else if b[0] < 128 {
        if let Some(pair) = leb128_decode(b) {
            assert(leb128_encode(pair.0) =~= b.take(pair.1 as int));
        }
    } else {
        lemma_leb128_decode_inverse(b.drop_first());
        if let Some(pair) = leb128_decode(b) {
            let rest = leb128_decode(b.drop_first()).unwrap();
            let v = pair.0;
            assert(v == (b[0] - 128) + rest.0 * 128);
            assert(v % 128 == b[0] - 128 && v / 128 == rest.0) by {
                lemma_fundamental_div_mod_converse(
                    v as int,
                    128,
                    rest.0 as int,
                    (b[0] - 128) as int,
                );
            }
            assert(v >= 128) by {
                assert(rest.0 * 128 >= 128) by (nonlinear_arith)
                    requires
                        rest.0 >= 1,
                ;
            }
            assert(leb128_encode(v) == seq![b[0]] + leb128_encode(rest.0)) by {
                assert((v % 128 + 128) as u8 == b[0]);
            }
            assert(leb128_encode(v) =~= b.take(pair.1 as int)) by {
                assert(leb128_encode(rest.0) == b.drop_first().take(rest.1 as int));
            }
        }
    }
}

/// Appending bytes after a well-formed varint does not change how it decodes.
pub proof fn lemma_leb128_decode_extend(b: Seq<u8>, ext: Seq<u8>)
    requires
        leb128_decode(b) is Some,
    ensures
        leb128_decode(b + ext) == leb128_decode(b),
{
    let pair = leb128_decode(b).unwrap();
    lemma_leb128_decode_inverse(b);
    lemma_leb128_round_trip(pair.0, b.skip(pair.1 as int) + ext);
    assert(leb128_encode(pair.0) + (b.skip(pair.1 as int) + ext) =~= b + ext);
    assert(leb128_encode(pair.0).len() == pair.1) by {
        assert(b.take(pair.1 as int).len() == pair.1);
    }
}

/// Appends the LEB128 encoding of `value` to `out`.
pub fn write_leb128(out: &mut Vec<u8>, value: u64)
    ensures
        final(out)@ == old(out)@ + leb128_encode(value as nat),
{
    let mut cur: u64 = value;
    while cur >= 128
        invariant
            out@ + leb128_encode(cur as nat) == old(out)@ + leb128_encode(value as nat),
        decreases cur,
    {
        let byte: u8 = ((cur % 128) + 128) as u8;
        let ghost pre = out@;
        out.push(byte);
        proof {
            assert(leb128_encode(cur as nat) == seq![byte] + leb128_encode((cur / 128) as nat));
            assert(out@ + leb128_encode((cur / 128) as nat) =~= pre + leb128_encode(cur as nat));
        }
        cur = cur / 128;
    }
    let ghost pre = out@;
    out.push(cur as u8);
    proof {
        assert(leb128_encode(cur as nat) == seq![cur as u8]);
        assert(out@ =~= pre + leb128_encode(cur as nat));
    }
}

/// Decodes a LEB128 varint from `bytes` at byte position `start`.
///
/// Returns the value and the number of bytes the varint occupies, or [`None`]
/// when no well-formed varint starts there.
pub fn read_leb128(bytes: &[u8], start: usize) -> (r: Option<(u64, usize)>)
    requires
        start <= bytes@.len(),
    ensures
        match r {
            Some(pair) => {
                &&& leb128_decode(bytes@.skip(start as int)) == Some(
                    (pair.0 as nat, pair.1 as nat),
                )
                &&& 1 <= pair.1
                &&& start + pair.1 <= bytes@.len()
            },
            None => leb128_decode(bytes@.skip(start as int)) is None,
        },
    decreases bytes@.len() - start,
{
    let n: usize = bytes.len();
    if start >= n {
        return None;
    }
    let b0 = bytes[start];
    proof {
        assert(bytes@.skip(start as int)[0] == b0);
    }
    if b0 < 128 {
        return Some((b0 as u64, 1));
    }
    match read_leb128(bytes, start + 1) {
        Some(pair) => {
            proof {
                assert(bytes@.skip(start as int).drop_first() =~= bytes@.skip(start as int + 1));
            }
            let (v, k) = pair;
            if v == 0 {
                return None;
            }
            let low = (b0 - 128) as u64;
            let cap = (u64::MAX - low) / 128;
            proof {
                lemma_fundamental_div_mod((u64::MAX - low) as int, 128);
            }
            if v > cap {
                proof {
                    assert(v * 128 > u64::MAX - low) by (nonlinear_arith)
                        requires
                            v > cap,
                            128 * cap + (u64::MAX - low) % 128 == u64::MAX - low,
                            0 <= (u64::MAX - low) % 128 < 128,
                    ;
                }
                return None;
            }
            proof {
                assert(v * 128 <= u64::MAX - low) by (nonlinear_arith)
                    requires
                        v <= cap,
                        128 * cap <= u64::MAX - low,
                ;
            }
            Some((low + v * 128, k + 1))
        },
        None => {
            proof {
                assert(bytes@.skip(start as int).drop_first() =~= bytes@.skip(start as int + 1));
            }
            None
        },
    }
}

} // verus!
