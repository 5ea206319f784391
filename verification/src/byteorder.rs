//! Fixed-width integer encodings used by the container formats.

use vstd::prelude::*;

verus! {

/// Little-endian two bytes of `v mod 2^16`.
pub open spec fn u16_le(v: int) -> Seq<u8> {
    seq![(v % 256) as u8, ((v / 256) % 256) as u8]
}

/// Little-endian four bytes of `v mod 2^32`.
pub open spec fn u32_le(v: int) -> Seq<u8> {
    seq![
        (v % 256) as u8,
        ((v / 0x100) % 256) as u8,
        ((v / 0x1_0000) % 256) as u8,
        ((v / 0x100_0000) % 256) as u8,
    ]
}

/// Little-endian eight bytes of `v mod 2^64`.
pub open spec fn u64_le(v: int) -> Seq<u8> {
    u32_le(v) + u32_le(v / 0x1_0000_0000)
}

/// Big-endian four bytes of `v mod 2^32`.
pub open spec fn u32_be(v: int) -> Seq<u8> {
    seq![
        ((v / 0x100_0000) % 256) as u8,
        ((v / 0x1_0000) % 256) as u8,
        ((v / 0x100) % 256) as u8,
        (v % 256) as u8,
    ]
}

/// Appends `v` as two little-endian bytes.
pub fn push_u16_le(out: &mut Vec<u8>, v: u16)
    ensures
        final(out)@ == old(out)@ + u16_le(v as int),
{
    out.push((v % 256) as u8);
    out.push(((v / 256) % 256) as u8);
    proof {
        assert(final(out)@ =~= old(out)@ + u16_le(v as int));
    }
}

/// Appends `v` as four little-endian bytes.
pub fn push_u32_le(out: &mut Vec<u8>, v: u32)
    ensures
        final(out)@ == old(out)@ + u32_le(v as int),
{
    out.push((v % 256) as u8);
    out.push(((v / 0x100) % 256) as u8);
    out.push(((v / 0x1_0000) % 256) as u8);
    out.push(((v / 0x100_0000) % 256) as u8);
    proof {
        assert(final(out)@ =~= old(out)@ + u32_le(v as int));
    }
}

/// Appends `v` as eight little-endian bytes.
pub fn push_u64_le(out: &mut Vec<u8>, v: u64)
    ensures
        final(out)@ == old(out)@ + u64_le(v as int),
{
    push_u32_le(out, (v % 0x1_0000_0000) as u32);
    push_u32_le(out, (v / 0x1_0000_0000) as u32);
    proof {
        let lo = (v % 0x1_0000_0000) as int;
        assert(v % 0x1_0000_0000 % 256 == v % 256) by (bit_vector);
        assert(v % 0x1_0000_0000 / 0x100 % 256 == v / 0x100 % 256) by (bit_vector);
        assert(v % 0x1_0000_0000 / 0x1_0000 % 256 == v / 0x1_0000 % 256) by (bit_vector);
        assert(v % 0x1_0000_0000 / 0x100_0000 % 256 == v / 0x100_0000 % 256) by (bit_vector);
        assert(u32_le(lo) =~= u32_le(v as int));
        assert(final(out)@ =~= old(out)@ + u64_le(v as int));
    }
}

/// Appends `v` as four big-endian bytes.
pub fn push_u32_be(out: &mut Vec<u8>, v: u32)
    ensures
        final(out)@ == old(out)@ + u32_be(v as int),
{
    out.push(((v / 0x100_0000) % 256) as u8);
    out.push(((v / 0x1_0000) % 256) as u8);
    out.push(((v / 0x100) % 256) as u8);
    out.push((v % 256) as u8);
    proof {
        assert(final(out)@ =~= old(out)@ + u32_be(v as int));
    }
}

/// Appends every byte of `data`.
pub fn push_all(out: &mut Vec<u8>, data: &[u8])
    ensures
        final(out)@ == old(out)@ + data@,
{
    let mut i: usize = 0;
    while i < data.len()
        invariant
            i <= data.len(),
            out@ == old(out)@ + data@.take(i as int),
        decreases data.len() - i,
    {
        out.push(data[i]);
        i += 1;
        proof {
            assert(out@ =~= old(out)@ + data@.take(i as int));
        }
    }
    proof {
        assert(data@.take(data.len() as int) =~= data@);
    }
}

} // verus!
