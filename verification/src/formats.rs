//! The byte framing of the mesh file formats: the binary STL header and its
//! length checks, and the glTF binary (GLB) container.

use crate::byteorder::{push_all, push_u32_le, u32_le};
use crate::json::{dec, push_dec};
use vstd::prelude::*;
use vstd::string::StringSliceAdditionalSpecFns;

verus! {

/// The most triangles a binary STL file may declare.
pub const MAX_STL_TRIANGLES: usize = 5_000_000;

/// The four bytes at `i..i + 4` of `b` read as a little-endian number.
pub open spec fn le_u32_at(b: Seq<u8>, i: int) -> int {
    b[i] as int + b[i + 1] as int * 0x100 + b[i + 2] as int * 0x1_0000 + b[i + 3] as int
        * 0x100_0000
}

/// The triangle count of a binary STL file, or why its bytes cannot be one:
/// shorter than the 80-byte header and 4-byte count, a count over the
/// limit, or a length that is not 50 bytes per declared triangle.
pub open spec fn stl_count_spec(b: Seq<u8>) -> Result<int, Seq<char>> {
    if b.len() < 84 {
        Err(
            "binary STL too short: "@ + dec(b.len()) + " bytes < 84 (80-byte header + 4-byte count)"@,
        )
    } else if le_u32_at(b, 80) > MAX_STL_TRIANGLES {
        Err("binary STL declares "@ + dec(le_u32_at(b, 80) as nat) + " triangles, over the limit "@
            + dec(MAX_STL_TRIANGLES as nat))
    } else if b.len() != 84 + le_u32_at(b, 80) * 50 {
        Err("binary STL length mismatch: got "@ + dec(b.len()) + " bytes, but "@ + dec(
            le_u32_at(b, 80) as nat,
        ) + " triangles need "@ + dec((84 + le_u32_at(b, 80) * 50) as nat)
            + " (ASCII STL is not supported; the file may be ASCII or truncated)"@)
    } else {
        Ok(le_u32_at(b, 80))
    }
}

/// Checks the framing of a binary STL file and gives its triangle count.
pub fn stl_triangle_count(bytes: &[u8]) -> (r: Result<usize, String>)
    ensures
        match stl_count_spec(bytes@) {
            Ok(n) => r == Ok::<usize, String>(n as usize),
            Err(m) => r matches Err(e) && e@ == m,
        },
{
    if bytes.len() < 84 {
        let mut m = String::from_str("binary STL too short: ");
        push_dec(&mut m, bytes.len());
        m.append(" bytes < 84 (80-byte header + 4-byte count)");
        return Err(m);
    }
    let count: usize = (bytes[80] as usize) + (bytes[81] as usize) * 0x100 + (bytes[82] as usize)
        * 0x1_0000 + (bytes[83] as usize) * 0x100_0000;
    if count > MAX_STL_TRIANGLES {
        let mut m = String::from_str("binary STL declares ");
        push_dec(&mut m, count);
        m.append(" triangles, over the limit ");
        push_dec(&mut m, MAX_STL_TRIANGLES);
        return Err(m);
    }
    let expected = 84 + count * 50;
    if bytes.len() != expected {
        let mut m = String::from_str("binary STL length mismatch: got ");
        push_dec(&mut m, bytes.len());
        m.append(" bytes, but ");
        push_dec(&mut m, count);
        m.append(" triangles need ");
        push_dec(&mut m, expected);
        m.append(" (ASCII STL is not supported; the file may be ASCII or truncated)");
        return Err(m);
    }
    Ok(count)
}

/// The tag at the start of the STL header.
pub open spec fn stl_tag() -> Seq<u8> {
    "kado binary stl"@.map_values(|c: char| c as u8)
}

/// The 84 bytes that start a binary STL file: the 80-byte header (the tag,
/// then zeros) and the triangle count, little-endian, modulo 2^32.
pub open spec fn stl_header_spec(count: int) -> Seq<u8> {
    stl_tag() + Seq::new((80 - stl_tag().len()) as nat, |i: int| 0u8) + u32_le(count)
}

/// The header and triangle count of a binary STL file.
pub fn stl_header(count: usize) -> (out: Vec<u8>)
    ensures
        out@ == stl_header_spec(count as int),
        out@.len() == 84,
{
    let tag = "kado binary stl";
    let mut out: Vec<u8> = Vec::new();
    proof {
        reveal_strlit("kado binary stl");
        vstd::string::is_ascii_spec_bytes(tag);
        assert(tag.spec_bytes() =~= stl_tag());
    }
    push_all(&mut out, tag.as_bytes());
    let ghost n = out@.len();
    while out.len() < 80
        invariant
            n == stl_tag().len(),
            n <= out@.len() <= 80,
            out@ == stl_tag() + Seq::new((out@.len() - n) as nat, |i: int| 0u8),
        decreases 80 - out.len(),
    {
        let ghost before = out@;
        out.push(0);
        proof {
            assert(out@ =~= stl_tag() + Seq::new((out@.len() - n) as nat, |i: int| 0u8));
        }
    }
    let c64 = count as u64;
    push_u32_le(&mut out, (c64 % 0x1_0000_0000) as u32);
    proof {
        lemma_u32_le_mod(c64);
        assert(out@ =~= stl_header_spec(count as int));
    }
    out
}

/// How many `fill` bytes bring a length `n` to a multiple of four.
pub open spec fn pad_len(n: int) -> int {
    (4 - n % 4) % 4
}

/// `s` followed by `fill` bytes up to a multiple of four in length.
pub open spec fn pad4(s: Seq<u8>, fill: u8) -> Seq<u8> {
    s + Seq::new(pad_len(s.len() as int) as nat, |i: int| fill)
}

/// The 20 bytes before the JSON chunk's data: "glTF", version 2, the total
/// length modulo 2^32, then the JSON chunk's length and type.
pub open spec fn glb_header(json_len: int, bin_len: int) -> Seq<u8> {
    u32_le(0x4654_6C67) + u32_le(2) + u32_le(28 + json_len + bin_len) + u32_le(json_len) + u32_le(
        0x4E4F_534A,
    )
}

/// The 8 bytes before the binary chunk's data: its length and type.
pub open spec fn bin_header(bin_len: int) -> Seq<u8> {
    u32_le(bin_len) + u32_le(0x004E_4942)
}

/// A GLB file holding the JSON chunk `json` (padded with spaces) and the
/// binary chunk `bin` (padded with zeros): the 12-byte header ("glTF",
/// version 2, total length modulo 2^32), then each chunk as its length, its
/// type and its bytes.
pub open spec fn glb_spec(json: Seq<u8>, bin: Seq<u8>) -> Seq<u8> {
    let j = pad4(json, 0x20);
    let b = pad4(bin, 0);
    glb_header(j.len() as int, b.len() as int) + j + bin_header(b.len() as int) + b
}

/// Appends `fill` bytes to `v` until its length is a multiple of four.
fn pad_in_place(v: &mut Vec<u8>, fill: u8)
    requires
        old(v)@.len() + 3 <= usize::MAX,
    ensures
        final(v)@ == pad4(old(v)@, fill),
{
    let ghost n = v@.len();
    let ghost want = pad_len(n as int);
    while v.len() % 4 != 0
        invariant
            n == old(v)@.len(),
            want == pad_len(n as int),
            n <= v@.len() <= n + want,
            v@ == old(v)@ + Seq::new((v@.len() - n) as nat, |i: int| fill),
            n + 3 <= usize::MAX,
        decreases n + want - v@.len(),
    {
        v.push(fill);
        proof {
            assert(v@ =~= old(v)@ + Seq::new((v@.len() - n) as nat, |i: int| fill));
        }
    }
    proof {
        assert(v@.len() - n == want);
    }
}

/// Packs a glTF JSON document and its binary buffer into a GLB file.
pub fn glb_container(json: &[u8], bin: &[u8]) -> (out: Vec<u8>)
    requires
        json@.len() + bin@.len() + 40 <= usize::MAX,
    ensures
        out@ == glb_spec(json@, bin@),
{
    let mut j: Vec<u8> = Vec::new();
    push_all(&mut j, json);
    pad_in_place(&mut j, 32);
    let mut b: Vec<u8> = Vec::new();
    push_all(&mut b, bin);
    pad_in_place(&mut b, 0);
    proof {
        assert(j@ == pad4(json@, 0x20));
        assert(b@ == pad4(bin@, 0));
    }
    let total = 12 + 8 + j.len() + 8 + b.len();
    let mut out: Vec<u8> = Vec::new();
    push_u32_le(&mut out, 0x4654_6C67);
    push_u32_le(&mut out, 2);
    push_u32_le(&mut out, (total as u64 % 0x1_0000_0000) as u32);
    push_u32_le(&mut out, (j.len() as u64 % 0x1_0000_0000) as u32);
    push_u32_le(&mut out, 0x4E4F_534A);
    push_all(&mut out, j.as_slice());
    push_u32_le(&mut out, (b.len() as u64 % 0x1_0000_0000) as u32);
    push_u32_le(&mut out, 0x004E_4942);
    push_all(&mut out, b.as_slice());
    proof {
        lemma_u32_le_mod(total as u64);
        lemma_u32_le_mod(j.len() as u64);
        lemma_u32_le_mod(b.len() as u64);
        assert(out@ =~= glb_spec(json@, bin@));
    }
    out
}

proof fn lemma_u32_le_mod(x: u64)
    ensures
        u32_le((x % 0x1_0000_0000) as int) == u32_le(x as int),
{
    assert(x % 0x1_0000_0000 % 256 == x % 256) by (bit_vector);
    assert(x % 0x1_0000_0000 / 0x100 % 256 == x / 0x100 % 256) by (bit_vector);
    assert(x % 0x1_0000_0000 / 0x1_0000 % 256 == x / 0x1_0000 % 256) by (bit_vector);
    assert(x % 0x1_0000_0000 / 0x100_0000 % 256 == x / 0x100_0000 % 256) by (bit_vector);
    assert(u32_le((x % 0x1_0000_0000) as int) =~= u32_le(x as int));
}

proof fn lemma_le_u32_roundtrip(n: u32)
    ensures
        le_u32_at(u32_le(n as int), 0) == n,
{
    let b = u32_le(n as int);
    assert(n % 256 + (n / 256 % 256) * 256 + (n / 65536 % 256) * 65536 + (n / 16777216 % 256)
        * 16777216 == n) by (bit_vector);
    assert(b[0] as int == n % 256);
    assert(b[1] as int == n / 256 % 256);
    assert(b[2] as int == n / 65536 % 256);
    assert(b[3] as int == n / 16777216 % 256);
}

/// A file made of the STL header for `n` triangles followed by 50 bytes per
/// triangle passes the length checks with count `n`.
pub proof fn lemma_stl_header_roundtrip(n: int, records: Seq<u8>)
    requires
        0 <= n <= MAX_STL_TRIANGLES,
        records.len() == 50 * n,
    ensures
        stl_count_spec(stl_header_spec(n) + records) == Ok::<int, Seq<char>>(n),
{
    let h = stl_header_spec(n);
    let f = h + records;
    reveal_strlit("kado binary stl");
    assert(stl_tag().len() == 15);
    assert(h.len() == 84);
    lemma_le_u32_roundtrip(n as u32);
    assert(f.subrange(80, 84) =~= u32_le(n));
    assert(le_u32_at(f, 80) == le_u32_at(u32_le(n), 0)) by {
        assert(f[80] == u32_le(n)[0]);
        assert(f[81] == u32_le(n)[1]);
        assert(f[82] == u32_le(n)[2]);
        assert(f[83] == u32_le(n)[3]);
    }
}

/// The layout of a GLB file: both chunks are padded to a multiple of four
/// bytes, the JSON chunk starts at byte 20 and the binary chunk right after
/// it, and the header's length field holds the file's length (modulo 2^32).
proof fn lemma_pad4(s: Seq<u8>, fill: u8)
    ensures
        pad4(s, fill).len() % 4 == 0,
        pad4(s, fill).len() >= s.len(),
        pad4(s, fill).subrange(0, s.len() as int) == s,
{
    assert(pad4(s, fill).subrange(0, s.len() as int) =~= s);
}

/// The layout of a GLB file: both chunks are padded to a multiple of four
/// bytes, the JSON chunk starts at byte 20 and the binary chunk right after
/// it, and the header's length field holds the file's length (modulo 2^32).
pub proof fn lemma_glb_layout(json: Seq<u8>, bin: Seq<u8>)
    ensures
        pad4(json, 0x20).len() % 4 == 0,
        pad4(bin, 0).len() % 4 == 0,
        glb_spec(json, bin).len() == 28 + pad4(json, 0x20).len() + pad4(bin, 0).len(),
        glb_spec(json, bin).subrange(8, 12) == u32_le(glb_spec(json, bin).len() as int),
        glb_spec(json, bin).subrange(20, 20 + json.len() as int) == json,
        glb_spec(json, bin).subrange(
            28 + pad4(json, 0x20).len() as int,
            28 + pad4(json, 0x20).len() as int + bin.len() as int,
        ) == bin,
{
    let j = pad4(json, 0x20);
    let b = pad4(bin, 0);
    let h = glb_header(j.len() as int, b.len() as int);
    let m = bin_header(b.len() as int);
    let g = glb_spec(json, bin);
    lemma_pad4(json, 0x20);
    lemma_pad4(bin, 0);
    assert(h.len() == 20);
    assert(m.len() == 8);
    assert(g.len() == 28 + j.len() + b.len());
    assert(g.subrange(8, 12) =~= u32_le(g.len() as int)) by {
        assert(g.subrange(8, 12) =~= h.subrange(8, 12));
    }
    assert(g.subrange(20, 20 + json.len() as int) =~= json) by {
        assert forall|i: int| 0 <= i < json.len() implies g[20 + i] == json[i] by {
            assert(g[20 + i] == j[i]);
            assert(j.subrange(0, json.len() as int)[i] == j[i]);
        }
    }
    assert(g.subrange(28 + j.len() as int, 28 + j.len() as int + bin.len() as int) =~= bin) by {
        assert forall|i: int| 0 <= i < bin.len() implies g[28 + j.len() + i] == bin[i] by {
            assert(g[28 + j.len() + i] == b[i]);
            assert(b.subrange(0, bin.len() as int)[i] == b[i]);
        }
    }
}

} // verus!
