//! Length-prefixed string encoding.
//!
//! Instead of keeping a pointer and a count for every string, a string
//! can be kept as a single byte run: a one-byte length prefix for short
//! strings, or a marker byte followed by an eight-byte little-endian
//! length for long ones (255 bytes or more), then the string's UTF-8
//! bytes. `encode_into` writes that form, `as_str` reads it back, and
//! `lemma_encoding_round_trip` says the two agree.

use vstd::prelude::*;

use crate::backing::bytes_as_str;
use vstd::string::StringSliceAdditionalSpecFns;
use vstd::utf8::encode_utf8;
use vstd::utf8::valid_utf8;

verus! {

/// The eight little-endian bytes of a length.
pub open spec fn le_bytes(n: u64) -> Seq<u8> {
    seq![
        (n & 0xff) as u8,
        ((n >> 8) & 0xff) as u8,
        ((n >> 16) & 0xff) as u8,
        ((n >> 24) & 0xff) as u8,
        ((n >> 32) & 0xff) as u8,
        ((n >> 40) & 0xff) as u8,
        ((n >> 48) & 0xff) as u8,
        ((n >> 56) & 0xff) as u8,
    ]
}

/// The length that eight little-endian bytes spell.
pub open spec fn le_value(b: Seq<u8>) -> u64 {
    ((b[0] as u64) | ((b[1] as u64) << 8) | ((b[2] as u64) << 16) | ((b[3] as u64) << 24) | ((b[4]
        as u64) << 32) | ((b[5] as u64) << 40) | ((b[6] as u64) << 48) | ((b[7] as u64) << 56))
}

/// Reading back the bytes of a length gives the length.
pub proof fn lemma_le_round_trip(n: u64)
    ensures
        le_value(le_bytes(n)) == n,
{
    let b = le_bytes(n);
    assert(b[0] == (n & 0xff) as u8);
    assert(b[1] == ((n >> 8) & 0xff) as u8);
    assert(b[2] == ((n >> 16) & 0xff) as u8);
    assert(b[3] == ((n >> 24) & 0xff) as u8);
    assert(b[4] == ((n >> 32) & 0xff) as u8);
    assert(b[5] == ((n >> 40) & 0xff) as u8);
    assert(b[6] == ((n >> 48) & 0xff) as u8);
    assert(b[7] == ((n >> 56) & 0xff) as u8);
    assert((((n & 0xff) as u8 as u64) | ((((n >> 8) & 0xff) as u8 as u64) << 8) | ((((n >> 16)
        & 0xff) as u8 as u64) << 16) | ((((n >> 24) & 0xff) as u8 as u64) << 24) | ((((n >> 32)
        & 0xff) as u8 as u64) << 32) | ((((n >> 40) & 0xff) as u8 as u64) << 40) | ((((n >> 48)
        & 0xff) as u8 as u64) << 48) | ((((n >> 56) & 0xff) as u8 as u64) << 56)) == n)
        by (bit_vector);
}

/// The encoded form of a byte run: a one-byte length for short runs, or
/// the 255 marker and an eight-byte length for long ones, then the run.
pub open spec fn spec_encoding(b: Seq<u8>) -> Seq<u8> {
    if b.len() < 255 {
        seq![b.len() as u8] + b
    } else {
        seq![255u8] + le_bytes(b.len() as u64) + b
    }
}

/// The byte run an encoded form holds, or nothing when the form is not
/// an encoding: too short, the wrong length, or a long form whose run
/// would have fit the short form.
pub open spec fn spec_decoding(e: Seq<u8>) -> Option<Seq<u8>> {
    if e.len() == 0 {
        None
    } else if e[0] < 255 {
        if e.len() == 1 + e[0] {
            Some(e.skip(1))
        } else {
            None
        }
    } else {
        if e.len() >= 9 && le_value(e.subrange(1, 9)) == (e.len() - 9) as u64 && e.len() - 9
            >= 255 {
            Some(e.skip(9))
        } else {
            None
        }
    }
}

/// Law: every encoding reads back as the run it was written from.
pub proof fn lemma_encoding_round_trip(b: Seq<u8>)
    requires
        b.len() <= u64::MAX,
    ensures
        spec_decoding(spec_encoding(b)) == Some(b),
{
    let e = spec_encoding(b);
    if b.len() < 255 {
        assert(e[0] == b.len() as u8);
        assert(e.skip(1) =~= b);
    } else {
        let n = b.len() as u64;
        assert(e[0] == 255);
        assert(e.len() == 9 + b.len());
        assert(e.subrange(1, 9) =~= le_bytes(n));
        lemma_le_round_trip(n);
        assert(e.skip(9) =~= b);
    }
}

/// The number of bytes the encoding of `s` takes: one more than the
/// string's byte length, or nine more for long strings.
pub fn len_of(s: &str) -> (r: usize)
    requires
        s.spec_bytes().len() + 9 <= usize::MAX,
    ensures
        r as int == spec_encoding(s.spec_bytes()).len(),
{
    let l: usize = s.len();
    if l < 255 {
        l + 1
    } else {
        l + 9
    }
}

/// Append the encoding of `s` to `out`.
pub fn encode_into(s: &str, out: &mut Vec<u8>)
    requires
        old(out)@.len() + s.spec_bytes().len() + 9 <= usize::MAX,
    ensures
        final(out)@ == old(out)@ + spec_encoding(s.spec_bytes()),
{
    let b: &[u8] = s.as_bytes();
    let l: usize = b.len();
    if l < 255 {
        out.push(l as u8);
    } else {
        encode_long(l, out);
    }
    let ghost mid = out@;
    let mut i: usize = 0;
    while i < l
        invariant
            l == b@.len(),
            i <= l,
            out@ == mid + b@.take(i as int),
            mid.len() + l <= usize::MAX,
        decreases l - i,
    {
        let byte: u8 = *vstd::slice::slice_index_get(b, i);
        out.push(byte);
        proof {
            assert(mid + b@.take(i as int + 1) =~= (mid + b@.take(i as int)).push(b@[i as int]));
        }
        i = i + 1;
    }
    proof {
        assert(b@.take(l as int) =~= b@);
        if l < 255 {
            assert(mid =~= old(out)@ + seq![l as u8]);
            assert(old(out)@ + spec_encoding(b@) =~= mid + b@);
        } else {
            assert(old(out)@ + spec_encoding(b@) =~= mid + b@);
        }
    }
}

/// The long form's prefix: the 255 marker, then the length in eight
/// little-endian bytes.
fn encode_long(l: usize, out: &mut Vec<u8>)
    requires
        l >= 255,
        old(out)@.len() + 9 <= usize::MAX,
    ensures
        final(out)@ == old(out)@ + seq![255u8] + le_bytes(l as u64),
{
    let n: u64 = l as u64;
    out.push(255u8);
    out.push((n & 0xff) as u8);
    out.push(((n >> 8) & 0xff) as u8);
    out.push(((n >> 16) & 0xff) as u8);
    out.push(((n >> 24) & 0xff) as u8);
    out.push(((n >> 32) & 0xff) as u8);
    out.push(((n >> 40) & 0xff) as u8);
    out.push(((n >> 48) & 0xff) as u8);
    out.push(((n >> 56) & 0xff) as u8);
    proof {
        assert(old(out)@ + seq![255u8] + le_bytes(n) =~= out@);
    }
}

/// Read an encoded form back as the string it holds. Returns `None`
/// exactly when the bytes are not an encoding, or the run they carry is
/// not UTF-8.
pub fn as_str(buf: &[u8]) -> (r: Option<&str>)
    ensures
        r matches Some(t) ==> (spec_decoding(buf@) matches Some(b) && valid_utf8(b) && encode_utf8(t@) == b),
        r is None ==> (spec_decoding(buf@) is None || !valid_utf8(spec_decoding(buf@)->0)),
{
    let n: usize = buf.len();
    if n == 0 {
        return None;
    }
    let first: u8 = *vstd::slice::slice_index_get(buf, 0);
    if first < 255 {
        if n == 1 + (first as usize) {
            let payload: &[u8] = vstd::slice::slice_subrange(buf, 1, n);
            proof {
                assert(payload@ =~= buf@.skip(1));
            }
            bytes_as_str(payload)
        } else {
            None
        }
    } else {
        if n < 9 + 255 {
            return None;
        }
        let b0 = *vstd::slice::slice_index_get(buf, 1);
        let b1 = *vstd::slice::slice_index_get(buf, 2);
        let b2 = *vstd::slice::slice_index_get(buf, 3);
        let b3 = *vstd::slice::slice_index_get(buf, 4);
        let b4 = *vstd::slice::slice_index_get(buf, 5);
        let b5 = *vstd::slice::slice_index_get(buf, 6);
        let b6 = *vstd::slice::slice_index_get(buf, 7);
        let b7 = *vstd::slice::slice_index_get(buf, 8);
        let len: u64 = ((b0 as u64) | ((b1 as u64) << 8) | ((b2 as u64) << 16) | ((b3 as u64)
            << 24) | ((b4 as u64) << 32) | ((b5 as u64) << 40) | ((b6 as u64) << 48) | ((b7 as u64)
            << 56));
        proof {
            assert(buf@.subrange(1, 9)[0] == buf@[1]);
            assert(buf@.subrange(1, 9)[1] == buf@[2]);
            assert(buf@.subrange(1, 9)[2] == buf@[3]);
            assert(buf@.subrange(1, 9)[3] == buf@[4]);
            assert(buf@.subrange(1, 9)[4] == buf@[5]);
            assert(buf@.subrange(1, 9)[5] == buf@[6]);
            assert(buf@.subrange(1, 9)[6] == buf@[7]);
            assert(buf@.subrange(1, 9)[7] == buf@[8]);
        }
        if len == ((n - 9) as u64) {
            let payload: &[u8] = vstd::slice::slice_subrange(buf, 9, n);
            proof {
                assert(payload@ =~= buf@.skip(9));
            }
            bytes_as_str(payload)
        } else {
            None
        }
    }
}

} // verus!
