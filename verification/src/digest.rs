//! The per-value 64-bit digest the block filter index is built from
//! and probed with. Build and probe must agree on every value, so the
//! digest is a pure function of the cell: a Fowler–Noll–Vo fold over a
//! type-tagged encoding of the value.

use vstd::prelude::*;
use vstd::string::StrSliceExecFns;

use crate::value::Value;
use crate::value::ValueView;

verus! {

/// Multiplication on 64-bit words, wrapping around.
pub open spec fn wrap_mul64(a: u64, b: u64) -> u64 {
    ((a * b) % 0x1_0000_0000_0000_0000) as u64
}

/// One digest step: fold one byte into the state.
pub open spec fn digest_step(h: u64, b: u8) -> u64 {
    wrap_mul64(h ^ (b as u64), 0x100000001b3)
}

/// The digest of a byte sequence, folded left to right from the
/// standard offset basis.
pub open spec fn digest_bytes_spec(bytes: Seq<u8>) -> u64
    decreases bytes.len(),
{
    if bytes.len() == 0 {
        0xcbf29ce484222325u64
    } else {
        digest_step(digest_bytes_spec(bytes.drop_last()), bytes.last())
    }
}

/// The eight little-endian bytes of a 64-bit word.
pub open spec fn le_bytes64(x: u64) -> Seq<u8> {
    seq![
        (x & 0xff) as u8,
        ((x >> 8) & 0xff) as u8,
        ((x >> 16) & 0xff) as u8,
        ((x >> 24) & 0xff) as u8,
        ((x >> 32) & 0xff) as u8,
        ((x >> 40) & 0xff) as u8,
        ((x >> 48) & 0xff) as u8,
        ((x >> 56) & 0xff) as u8,
    ]
}

/// Each character of the string as four little-endian bytes.
pub open spec fn char_bytes(s: Seq<char>) -> Seq<u8>
    decreases s.len(),
{
    if s.len() == 0 {
        Seq::empty()
    } else {
        char_bytes(s.drop_last()) + le_bytes32(s.last() as u32)
    }
}

/// The four little-endian bytes of a 32-bit word.
pub open spec fn le_bytes32(x: u32) -> Seq<u8> {
    seq![
        (x & 0xff) as u8,
        ((x >> 8) & 0xff) as u8,
        ((x >> 16) & 0xff) as u8,
        ((x >> 24) & 0xff) as u8,
    ]
}

/// The type-tagged encoding a cell is digested through. Different
/// kinds of value never share an encoding, because the first byte
/// names the kind.
pub open spec fn value_digest_bytes(v: ValueView) -> Seq<u8> {
    match v {
        ValueView::Null => seq![0u8],
        ValueView::Boolean(b) => seq![
            5u8,
            if b {
                1u8
            } else {
                0u8
            },
        ],
        ValueView::UInt64(x) => seq![1u8] + le_bytes64(x),
        ValueView::Int64(x) => seq![2u8] + le_bytes64(x as u64),
        ValueView::Utf8(s) => seq![3u8] + char_bytes(s),
        ValueView::Bytes(b) => seq![4u8] + b,
    }
}

/// The digest of a cell.
pub open spec fn digest_of(v: ValueView) -> u64 {
    digest_bytes_spec(value_digest_bytes(v))
}

/// Fold one byte into the digest state.
fn step(h: u64, b: u8) -> (r: u64)
    ensures
        r == digest_step(h, b),
{
    (h ^ (b as u64)).wrapping_mul(0x100000001b3)
}

/// Digest a byte slice, continuing from the given state.
fn fold_bytes(mut h: u64, bytes: &Vec<u8>, Ghost(prefix): Ghost<Seq<u8>>) -> (r: u64)
    requires
        h == digest_bytes_spec(prefix),
    ensures
        r == digest_bytes_spec(prefix + bytes@),
{
    let mut j: usize = 0;
    while j < bytes.len()
        invariant
            0 <= j <= bytes@.len(),
            h == digest_bytes_spec(prefix + bytes@.subrange(0, j as int)),
        decreases bytes@.len() - j,
    {
        proof {
            assert((prefix + bytes@.subrange(0, j + 1)).drop_last() =~= prefix + bytes@.subrange(
                0,
                j as int,
            ));
            assert((prefix + bytes@.subrange(0, j + 1)).last() == bytes@[j as int]);
        }
        h = step(h, bytes[j]);
        j += 1;
    }
    proof {
        assert(prefix + bytes@.subrange(0, bytes@.len() as int) =~= prefix + bytes@);
    }
    h
}

/// Append the eight little-endian bytes of a word.
fn push_le64(out: &mut Vec<u8>, x: u64)
    ensures
        final(out)@ == old(out)@ + le_bytes64(x),
{
    out.push((x & 0xff) as u8);
    out.push(((x >> 8) & 0xff) as u8);
    out.push(((x >> 16) & 0xff) as u8);
    out.push(((x >> 24) & 0xff) as u8);
    out.push(((x >> 32) & 0xff) as u8);
    out.push(((x >> 40) & 0xff) as u8);
    out.push(((x >> 48) & 0xff) as u8);
    out.push(((x >> 56) & 0xff) as u8);
    proof {
        assert(out@ =~= old(out)@ + le_bytes64(x));
    }
}

/// The encoding a cell is digested through.
pub fn encode_value(v: &Value) -> (r: Vec<u8>)
    ensures
        r@ == value_digest_bytes(v@),
{
    let mut out: Vec<u8> = Vec::new();
    match v {
        Value::Null => {
            out.push(0);
            proof {
                assert(out@ =~= value_digest_bytes(v@));
            }
        },
        Value::Boolean(b) => {
            out.push(5);
            out.push(if *b {
                1
            } else {
                0
            });
            proof {
                assert(out@ =~= value_digest_bytes(v@));
            }
        },
        Value::UInt64(x) => {
            out.push(1);
            push_le64(&mut out, *x);
            proof {
                assert(out@ =~= value_digest_bytes(v@));
            }
        },
        Value::Int64(x) => {
            out.push(2);
            push_le64(&mut out, *x as u64);
            proof {
                assert(out@ =~= value_digest_bytes(v@));
            }
        },
        Value::Utf8(s) => {
            out.push(3);
            let st = s.as_str();
            let n = st.unicode_len();
            let mut j: usize = 0;
            while j < n
                invariant
                    0 <= j <= n,
                    n == st@.len(),
                    st@ == s@,
                    out@ == seq![3u8] + char_bytes(st@.subrange(0, j as int)),
                decreases n - j,
            {
                let c = st.get_char(j);
                let cv: u32 = c as u32;
                out.push((cv & 0xff) as u8);
                out.push(((cv >> 8) & 0xff) as u8);
                out.push(((cv >> 16) & 0xff) as u8);
                out.push(((cv >> 24) & 0xff) as u8);
                proof {
                    assert(st@.subrange(0, j + 1).drop_last() =~= st@.subrange(0, j as int));
                    assert(st@.subrange(0, j + 1).last() == st@[j as int]);
                    assert(out@ =~= seq![3u8] + char_bytes(st@.subrange(0, j + 1)));
                }
                j += 1;
            }
            proof {
                assert(st@.subrange(0, n as int) =~= st@);
                assert(out@ =~= value_digest_bytes(v@));
            }
        },
        Value::Bytes(b) => {
            out.push(4);
            let mut j: usize = 0;
            while j < b.len()
                invariant
                    0 <= j <= b@.len(),
                    out@ == seq![4u8] + b@.subrange(0, j as int),
                decreases b@.len() - j,
            {
                out.push(b[j]);
                proof {
                    assert(out@ =~= seq![4u8] + b@.subrange(0, j + 1));
                }
                j += 1;
            }
            proof {
                assert(b@.subrange(0, b@.len() as int) =~= b@);
                assert(out@ =~= value_digest_bytes(v@));
            }
        },
    }
    out
}

/// The digest of a cell: what the filter is built from and probed
/// with.
pub fn digest_value(v: &Value) -> (r: u64)
    ensures
        r == digest_of(v@),
{
    let bytes = encode_value(v);
    proof {
        assert(Seq::<u8>::empty() + bytes@ =~= bytes@);
    }
    fold_bytes(0xcbf29ce484222325, &bytes, Ghost(Seq::empty()))
}

} // verus!
