//! Little-endian reads and writes over in-memory byte buffers.
//!
//! Every multi-byte field of the container format is little-endian. The spec
//! functions here say what value a field at a given position holds.

use vstd::prelude::*;

verus! {

/// The value of the four little-endian bytes at position `i` of `s`.
pub open spec fn le32_at(s: Seq<u8>, i: int) -> int
    recommends
        0 <= i,
        i + 4 <= s.len(),
{
    (s[i] as int) + 256 * (s[i + 1] as int) + 65536 * (s[i + 2] as int) + 16777216 * (s[i
        + 3] as int)
}

/// The value of the two little-endian bytes at position `i` of `s`.
pub open spec fn le16_at(s: Seq<u8>, i: int) -> int
    recommends
        0 <= i,
        i + 2 <= s.len(),
{
    (s[i] as int) + 256 * (s[i + 1] as int)
}

/// The four little-endian bytes of `v`.
pub open spec fn u32_bytes(v: u32) -> Seq<u8> {
    seq![
        (v & 0xff) as u8,
        ((v >> 8) & 0xff) as u8,
        ((v >> 16) & 0xff) as u8,
        ((v >> 24) & 0xff) as u8,
    ]
}

/// Serializing `v` and reading the field back yields `v`, wherever the field
/// sits inside a longer stream.
pub proof fn lemma_le32_of_u32(s: Seq<u8>, i: int, v: u32)
    requires
        0 <= i,
        i + 4 <= s.len(),
        s.subrange(i, i + 4) == u32_bytes(v),
    ensures
        le32_at(s, i) == v,
{
    assert(s[i] == u32_bytes(v)[0] && s[i + 1] == u32_bytes(v)[1] && s[i + 2] == u32_bytes(v)[2]
        && s[i + 3] == u32_bytes(v)[3]) by {
        assert(s.subrange(i, i + 4)[0] == s[i]);
        assert(s.subrange(i, i + 4)[1] == s[i + 1]);
        assert(s.subrange(i, i + 4)[2] == s[i + 2]);
        assert(s.subrange(i, i + 4)[3] == s[i + 3]);
    }
    assert(v & 0xff < 256 && (v >> 8) & 0xff < 256 && (v >> 16) & 0xff < 256 && (v >> 24) & 0xff
        < 256) by (bit_vector);
    lemma_u32_bytes_value(v);
}

/// The arithmetic meaning of the four bytes of `v` is `v` itself.
pub proof fn lemma_u32_bytes_value(v: u32)
    ensures
        ((v & 0xff) as int) + 256 * (((v >> 8) & 0xff) as int) + 65536 * (((v >> 16)
            & 0xff) as int) + 16777216 * (((v >> 24) & 0xff) as int) == v as int,
{
    assert(((v & 0xff) as u64) + 256u64 * (((v >> 8) & 0xff) as u64) + 65536u64 * (((v >> 16)
        & 0xff) as u64) + 16777216u64 * (((v >> 24) & 0xff) as u64) == v as u64) by (bit_vector);
}

/// A four-byte field holds a value below 2^32.
pub proof fn lemma_le32_bounds(s: Seq<u8>, i: int)
    requires
        0 <= i,
        i + 4 <= s.len(),
    ensures
        0 <= le32_at(s, i) < 0x100000000,
{
}

/// Read the little-endian `u32` at position `i` of `data`.
pub fn read_u32_at(data: &Vec<u8>, i: usize) -> (r: u32)
    requires
        i + 4 <= data@.len(),
    ensures
        r as int == le32_at(data@, i as int),
{
    let n = data.len();
    let b0 = data[i] as u32;
    let b1 = data[i + 1] as u32;
    let b2 = data[i + 2] as u32;
    let b3 = data[i + 3] as u32;
    b0 + 256 * b1 + 65536 * b2 + 16777216 * b3
}

/// Read the little-endian `u16` at position `i` of `data`.
pub fn read_u16_at(data: &Vec<u8>, i: usize) -> (r: u16)
    requires
        i + 2 <= data@.len(),
    ensures
        r as int == le16_at(data@, i as int),
{
    let n = data.len();
    let b0 = data[i] as u16;
    let b1 = data[i + 1] as u16;
    b0 + 256 * b1
}

/// Append the four little-endian bytes of `v` to `out`.
pub fn push_u32_le(out: &mut Vec<u8>, v: u32)
    ensures
        final(out)@ == old(out)@ + u32_bytes(v),
{
    proof {
        assert(v & 0xff < 256 && (v >> 8) & 0xff < 256 && (v >> 16) & 0xff < 256 && (v >> 24)
            & 0xff < 256) by (bit_vector);
    }
    out.push((v & 0xff) as u8);
    out.push(((v >> 8) & 0xff) as u8);
    out.push(((v >> 16) & 0xff) as u8);
    out.push(((v >> 24) & 0xff) as u8);
    proof {
        assert(out@ =~= old(out)@ + u32_bytes(v));
    }
}

/// Append every byte of `src` to `out`.
pub fn push_bytes(out: &mut Vec<u8>, src: &[u8])
    ensures
        final(out)@ == old(out)@ + src@,
{
    let mut j: usize = 0;
    while j < src.len()
        invariant
            j <= src@.len(),
            out@ == old(out)@ + src@.subrange(0, j as int),
        decreases src@.len() - j,
    {
        out.push(src[j]);
        proof {
            assert(old(out)@ + src@.subrange(0, j as int) + seq![src@[j as int]] =~= old(out)@
                + src@.subrange(0, j + 1));
        }
        j = j + 1;
    }
    proof {
        assert(src@.subrange(0, src@.len() as int) =~= src@);
    }
}

/// Append `k` zero bytes to `out`.
pub fn push_zeros(out: &mut Vec<u8>, k: usize)
    ensures
        final(out)@ == old(out)@ + Seq::new(k as nat, |i: int| 0u8),
{
    let mut j: usize = 0;
    while j < k
        invariant
            j <= k,
            out@ == old(out)@ + Seq::new(j as nat, |i: int| 0u8),
        decreases k - j,
    {
        out.push(0u8);
        proof {
            assert(old(out)@ + Seq::new(j as nat, |i: int| 0u8) + seq![0u8] =~= old(out)@ + Seq::new(
                (j + 1) as nat,
                |i: int| 0u8,
            ));
        }
        j = j + 1;
    }
}

} // verus!
