//! CRC-32 (IEEE 802.3, reflected polynomial 0xEDB88320) and Adler-32.

use vstd::prelude::*;

verus! {

/// One shift-register step of the reflected CRC-32.
pub open spec fn crc_step(c: u32) -> u32 {
    if c & 1 != 0 {
        (c >> 1) ^ 0xEDB8_8320u32
    } else {
        c >> 1
    }
}

/// `n` register steps.
pub open spec fn crc_steps(c: u32, n: nat) -> u32
    decreases n,
{
    if n == 0 {
        c
    } else {
        crc_step(crc_steps(c, (n - 1) as nat))
    }
}

/// The register after absorbing one byte.
pub open spec fn crc_byte(c: u32, b: u8) -> u32 {
    crc_steps(c ^ (b as u32), 8)
}

/// The register after absorbing `s`, starting from `c`.
pub open spec fn crc_update(c: u32, s: Seq<u8>) -> u32
    decreases s.len(),
{
    if s.len() == 0 {
        c
    } else {
        crc_byte(crc_update(c, s.drop_last()), s.last())
    }
}

/// CRC-32 of a byte sequence (initial register all ones, final complement).
pub open spec fn crc32_spec(s: Seq<u8>) -> u32 {
    !crc_update(0xFFFF_FFFFu32, s)
}

/// Absorbing a concatenation is absorbing its parts in turn.
pub proof fn lemma_crc_update_concat(c: u32, a: Seq<u8>, b: Seq<u8>)
    ensures
        crc_update(c, a + b) == crc_update(crc_update(c, a), b),
    decreases b.len(),
{
    if b.len() == 0 {
        assert(a + b =~= a);
    } else {
        lemma_crc_update_concat(c, a, b.drop_last());
        assert((a + b).drop_last() =~= a + b.drop_last());
        assert((a + b).last() == b.last());
    }
}

/// Absorbs `data` into the register `crc` and returns the new register.
pub fn crc_absorb(crc: u32, data: &[u8]) -> (res: u32)
    ensures
        res == crc_update(crc, data@),
{
    let mut c = crc;
    let mut i: usize = 0;
    while i < data.len()
        invariant
            i <= data.len(),
            c == crc_update(crc, data@.take(i as int)),
        decreases data.len() - i,
    {
        let start = c ^ (data[i] as u32);
        let mut r = start;
        let mut k: u32 = 0;
        while k < 8
            invariant
                k <= 8,
                r == crc_steps(start, k as nat),
            decreases 8 - k,
        {
            r = if r & 1 != 0 {
                (r >> 1) ^ 0xEDB8_8320
            } else {
                r >> 1
            };
            k += 1;
        }
        c = r;
        assert(data@.take(i + 1).drop_last() =~= data@.take(i as int));
        i += 1;
    }
    assert(data@.take(data.len() as int) =~= data@);
    c
}

/// Adler-32 modulus.
pub open spec fn adler_mod() -> int {
    65521
}

/// The pair `(s1, s2)` of Adler-32 after `s`.
pub open spec fn adler_spec(s: Seq<u8>) -> (u32, u32)
    decreases s.len(),
{
    if s.len() == 0 {
        (1, 0)
    } else {
        let (a, b) = adler_spec(s.drop_last());
        let a2 = ((a + s.last()) % 65521) as u32;
        (a2, ((b + a2) % 65521) as u32)
    }
}

/// Both halves of Adler-32 stay below the modulus.
pub proof fn lemma_adler_bounded(s: Seq<u8>)
    ensures
        adler_spec(s).0 < 65521,
        adler_spec(s).1 < 65521,
    decreases s.len(),
{
    if s.len() > 0 {
        lemma_adler_bounded(s.drop_last());
    }
}

/// Adler-32 of `data` as the pair `(s1, s2)`; the checksum is `(s2 << 16) | s1`.
pub fn adler32(data: &[u8]) -> (res: (u32, u32))
    ensures
        res == adler_spec(data@),
        res.0 < 65521,
        res.1 < 65521,
{
    let mut s1: u32 = 1;
    let mut s2: u32 = 0;
    let mut i: usize = 0;
    while i < data.len()
        invariant
            i <= data.len(),
            (s1, s2) == adler_spec(data@.take(i as int)),
            s1 < 65521,
            s2 < 65521,
        decreases data.len() - i,
    {
        assert(data@.take(i + 1).drop_last() =~= data@.take(i as int));
        s1 = (s1 + data[i] as u32) % 65521;
        s2 = (s2 + s1) % 65521;
        i += 1;
    }
    assert(data@.take(data.len() as int) =~= data@);
    (s1, s2)
}

/// The 32-bit Adler-32 value `(s2 << 16) | s1`.
pub open spec fn adler32_value(s: Seq<u8>) -> int {
    adler_spec(s).1 * 65536 + adler_spec(s).0
}

} // verus!
