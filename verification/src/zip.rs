//! Minimal ZIP writer (STORED entries, no compression), used as the OPC
//! container of 3MF packages. Deterministic: timestamps fixed at zero, entry
//! order preserved.

use crate::byteorder::{push_all, push_u16_le, push_u32_le, u16_le, u32_le};
use crate::checksum::{crc32_spec, crc_absorb};
use vstd::prelude::*;
use vstd::string::StringSliceAdditionalSpecFns;

verus! {

/// Local file header signature "PK\x03\x04".
pub const SIG_LOCAL: u32 = 0x0403_4b50;

/// Central directory header signature "PK\x01\x02".
pub const SIG_CENTRAL: u32 = 0x0201_4b50;

/// End of central directory signature "PK\x05\x06".
pub const SIG_EOCD: u32 = 0x0605_4b50;

/// Version 2.0 (made by / needed to extract).
pub const VERSION: u16 = 20;

/// `v` modulo 2^32.
pub open spec fn mod32(v: int) -> int {
    v % 0x1_0000_0000
}

/// `v` modulo 2^16.
pub open spec fn mod16(v: int) -> int {
    v % 0x1_0000
}

/// The name bytes of entry `i`.
pub open spec fn entry_name(es: Seq<(&str, &[u8])>, i: int) -> Seq<u8> {
    es[i].0.spec_bytes()
}

/// The data of entry `i`.
pub open spec fn entry_data(es: Seq<(&str, &[u8])>, i: int) -> Seq<u8> {
    es[i].1@
}

/// Local file header followed by the stored data.
#[verifier::opaque]
pub open spec fn local_record(name: Seq<u8>, data: Seq<u8>) -> Seq<u8> {
    u32_le(SIG_LOCAL as int) + u16_le(VERSION as int) + u16_le(0) + u16_le(0) + u16_le(0) + u16_le(0)
        + u32_le(crc32_spec(data) as int) + u32_le(mod32(data.len() as int)) + u32_le(
        mod32(data.len() as int),
    ) + u16_le(mod16(name.len() as int)) + u16_le(0) + name + data
}

/// Local records of the first `k` entries.
pub open spec fn local_section(es: Seq<(&str, &[u8])>, k: int) -> Seq<u8>
    decreases k,
{
    if k <= 0 {
        Seq::empty()
    } else {
        local_section(es, k - 1) + local_record(entry_name(es, k - 1), entry_data(es, k - 1))
    }
}

/// Offset field of entry `i`: where its local record starts (modulo 2^32).
pub open spec fn local_offset(es: Seq<(&str, &[u8])>, i: int) -> int {
    mod32(local_section(es, i).len() as int)
}

/// Central directory header of one entry.
#[verifier::opaque]
pub open spec fn central_record(name: Seq<u8>, data: Seq<u8>, offset: int) -> Seq<u8> {
    u32_le(SIG_CENTRAL as int) + u16_le(VERSION as int) + u16_le(VERSION as int) + u16_le(0) + u16_le(
        0,
    ) + u16_le(0) + u16_le(0) + u32_le(crc32_spec(data) as int) + u32_le(mod32(data.len() as int))
        + u32_le(mod32(data.len() as int)) + u16_le(mod16(name.len() as int)) + u16_le(0) + u16_le(0)
        + u16_le(0) + u16_le(0) + u32_le(0) + u32_le(offset) + name
}

/// Central directory headers of the first `k` entries.
pub open spec fn central_section(es: Seq<(&str, &[u8])>, k: int) -> Seq<u8>
    decreases k,
{
    if k <= 0 {
        Seq::empty()
    } else {
        central_section(es, k - 1) + central_record(
            entry_name(es, k - 1),
            entry_data(es, k - 1),
            local_offset(es, k - 1),
        )
    }
}

/// End of central directory record.
pub open spec fn eocd_record(count: int, cd_size: int, cd_start: int) -> Seq<u8> {
    u32_le(SIG_EOCD as int) + u16_le(0) + u16_le(0) + u16_le(mod16(count)) + u16_le(mod16(count))
        + u32_le(mod32(cd_size)) + u32_le(mod32(cd_start)) + u16_le(0)
}

/// The ZIP archive of `es`.
pub open spec fn zip_spec(es: Seq<(&str, &[u8])>) -> Seq<u8> {
    let n = es.len() as int;
    local_section(es, n) + central_section(es, n) + eocd_record(
        n,
        central_section(es, n).len() as int,
        local_section(es, n).len() as int,
    )
}

/// CRC-32 (IEEE 802.3, polynomial 0xEDB88320) of `data`.
pub fn crc32(data: &[u8]) -> (crc: u32)
    ensures
        crc == crc32_spec(data@),
{
    !crc_absorb(0xFFFF_FFFF, data)
}

/// Assembles `(name, data)` entries into a STORED ZIP archive: local
/// records in entry order, the central directory, the end record.
pub fn build_zip(entries: &[(&str, &[u8])]) -> (out: Vec<u8>)
    ensures
        out@ == zip_spec(entries@),
{
    let ghost es = entries@;
    let n = entries.len();
    let mut crcs: Vec<u32> = Vec::new();
    let mut i: usize = 0;
    while i < n
        invariant
            n == es.len(),
            es == entries@,
            i <= n,
            crcs@.len() == i,
            forall|j: int| 0 <= j < i ==> #[trigger] crcs@[j] == crc32_spec(entry_data(es, j)),
        decreases n - i,
    {
        let (_, data) = entries[i];
        crcs.push(crc32(data));
        i += 1;
    }
    let mut out: Vec<u8> = Vec::new();
    let mut offsets: Vec<u32> = Vec::new();
    let mut i: usize = 0;
    while i < n
        invariant
            n == es.len(),
            es == entries@,
            i <= n,
            crcs@.len() == n,
            forall|j: int| 0 <= j < n ==> #[trigger] crcs@[j] == crc32_spec(entry_data(es, j)),
            out@ == local_section(es, i as int),
            offsets@.len() == i,
            forall|j: int| 0 <= j < i ==> #[trigger] offsets@[j] == local_offset(es, j),
        decreases n - i,
    {
        let (name, data) = entries[i];
        let ghost before = out@;
        offsets.push((out.len() as u64 % 0x1_0000_0000) as u32);
        let crc = crcs[i];
        let name_bytes = name.as_bytes();
        push_u32_le(&mut out, SIG_LOCAL);
        push_u16_le(&mut out, VERSION);
        push_u16_le(&mut out, 0);
        push_u16_le(&mut out, 0);
        push_u16_le(&mut out, 0);
        push_u16_le(&mut out, 0);
        push_u32_le(&mut out, crc);
        push_u32_le(&mut out, (data.len() as u64 % 0x1_0000_0000) as u32);
        push_u32_le(&mut out, (data.len() as u64 % 0x1_0000_0000) as u32);
        push_u16_le(&mut out, (name_bytes.len() as u64 % 0x1_0000) as u16);
        push_u16_le(&mut out, 0);
        push_all(&mut out, name_bytes);
        push_all(&mut out, data);
        proof {
            reveal(local_record);
            assert(out@ =~= before + local_record(entry_name(es, i as int), entry_data(es, i as int)));
        }
        i += 1;
    }
    let cd_start = (out.len() as u64 % 0x1_0000_0000) as u32;
    let ghost locals = out@;
    let mut central: Vec<u8> = Vec::new();
    let mut i: usize = 0;
    while i < n
        invariant
            n == es.len(),
            es == entries@,
            i <= n,
            crcs@.len() == n,
            forall|j: int| 0 <= j < n ==> #[trigger] crcs@[j] == crc32_spec(entry_data(es, j)),
            offsets@.len() == n,
            forall|j: int| 0 <= j < n ==> #[trigger] offsets@[j] == local_offset(es, j),
            central@ == central_section(es, i as int),
        decreases n - i,
    {
        let (name, data) = entries[i];
        let ghost before = central@;
        let crc = crcs[i];
        let name_bytes = name.as_bytes();
        push_u32_le(&mut central, SIG_CENTRAL);
        push_u16_le(&mut central, VERSION);
        push_u16_le(&mut central, VERSION);
        push_u16_le(&mut central, 0);
        push_u16_le(&mut central, 0);
        push_u16_le(&mut central, 0);
        push_u16_le(&mut central, 0);
        push_u32_le(&mut central, crc);
        push_u32_le(&mut central, (data.len() as u64 % 0x1_0000_0000) as u32);
        push_u32_le(&mut central, (data.len() as u64 % 0x1_0000_0000) as u32);
        push_u16_le(&mut central, (name_bytes.len() as u64 % 0x1_0000) as u16);
        push_u16_le(&mut central, 0);
        push_u16_le(&mut central, 0);
        push_u16_le(&mut central, 0);
        push_u16_le(&mut central, 0);
        push_u32_le(&mut central, 0);
        push_u32_le(&mut central, offsets[i]);
        push_all(&mut central, name_bytes);
        proof {
            reveal(central_record);
            assert(central@ =~= before + central_record(
                entry_name(es, i as int),
                entry_data(es, i as int),
                local_offset(es, i as int),
            ));
        }
        i += 1;
    }
    let cd_size = (central.len() as u64 % 0x1_0000_0000) as u32;
    push_all(&mut out, central.as_slice());
    let count = (n as u64 % 0x1_0000) as u16;
    push_u32_le(&mut out, SIG_EOCD);
    push_u16_le(&mut out, 0);
    push_u16_le(&mut out, 0);
    push_u16_le(&mut out, count);
    push_u16_le(&mut out, count);
    push_u32_le(&mut out, cd_size);
    push_u32_le(&mut out, cd_start);
    push_u16_le(&mut out, 0);
    proof {
        assert(out@ =~= zip_spec(es));
    }
    out
}

// ── Laws of the archive layout ───────────────────────────────────────────────

proof fn lemma_local_prefix(es: Seq<(&str, &[u8])>, j: int, k: int)
    requires
        0 <= j <= k,
    ensures
        local_section(es, j).len() <= local_section(es, k).len(),
        local_section(es, k).subrange(0, local_section(es, j).len() as int) == local_section(es, j),
    decreases k - j,
{
    if j < k {
        lemma_local_prefix(es, j, k - 1);
        let a = local_section(es, k - 1);
        let b = local_record(entry_name(es, k - 1), entry_data(es, k - 1));
        assert((a + b).subrange(0, local_section(es, j).len() as int) =~= a.subrange(
            0,
            local_section(es, j).len() as int,
        ));
    } else {
        assert(local_section(es, k).subrange(0, local_section(es, k).len() as int) =~= local_section(
            es,
            k,
        ));
    }
}

proof fn lemma_central_prefix(es: Seq<(&str, &[u8])>, j: int, k: int)
    requires
        0 <= j <= k,
    ensures
        central_section(es, j).len() <= central_section(es, k).len(),
        central_section(es, k).subrange(0, central_section(es, j).len() as int) == central_section(
            es,
            j,
        ),
    decreases k - j,
{
    if j < k {
        lemma_central_prefix(es, j, k - 1);
        let a = central_section(es, k - 1);
        let b = central_record(entry_name(es, k - 1), entry_data(es, k - 1), local_offset(es, k - 1));
        assert((a + b).subrange(0, central_section(es, j).len() as int) =~= a.subrange(
            0,
            central_section(es, j).len() as int,
        ));
    } else {
        assert(central_section(es, k).subrange(0, central_section(es, k).len() as int)
            =~= central_section(es, k));
    }
}

/// Where the central directory header of entry `i` starts.
pub open spec fn central_offset(es: Seq<(&str, &[u8])>, i: int) -> int {
    (local_section(es, es.len() as int).len() + central_section(es, i).len()) as int
}

proof fn lemma_local_record_fields(name: Seq<u8>, data: Seq<u8>)
    ensures
        local_record(name, data).len() == 30 + name.len() + data.len(),
        local_record(name, data).subrange(0, 4) == u32_le(SIG_LOCAL as int),
        local_record(name, data).subrange(14, 18) == u32_le(crc32_spec(data) as int),
        local_record(name, data).subrange(30, 30 + name.len() as int) == name,
        local_record(name, data).subrange(8, 10) == u16_le(0),
        local_record(name, data).subrange(18, 22) == u32_le(mod32(data.len() as int)),
        local_record(name, data).subrange(22, 26) == u32_le(mod32(data.len() as int)),
        local_record(name, data).subrange(26, 28) == u16_le(mod16(name.len() as int)),
        local_record(name, data).subrange(30 + name.len() as int, 30 + name.len() as int + data.len() as int)
            == data,
{
    reveal(local_record);
    let r = local_record(name, data);
    assert(r.subrange(0, 4) =~= u32_le(SIG_LOCAL as int));
    assert(r.subrange(14, 18) =~= u32_le(crc32_spec(data) as int));
    assert(r.subrange(30, 30 + name.len() as int) =~= name);
    assert(r.subrange(8, 10) =~= u16_le(0));
    assert(r.subrange(18, 22) =~= u32_le(mod32(data.len() as int)));
    assert(r.subrange(22, 26) =~= u32_le(mod32(data.len() as int)));
    assert(r.subrange(26, 28) =~= u16_le(mod16(name.len() as int)));
    assert(r.subrange(30 + name.len() as int, 30 + name.len() as int + data.len() as int) =~= data);
}

proof fn lemma_central_record_fields(name: Seq<u8>, data: Seq<u8>, offset: int)
    ensures
        central_record(name, data, offset).len() == 46 + name.len(),
        central_record(name, data, offset).subrange(0, 4) == u32_le(SIG_CENTRAL as int),
        central_record(name, data, offset).subrange(16, 20) == u32_le(crc32_spec(data) as int),
        central_record(name, data, offset).subrange(42, 46) == u32_le(offset),
        central_record(name, data, offset).subrange(10, 12) == u16_le(0),
        central_record(name, data, offset).subrange(20, 24) == u32_le(mod32(data.len() as int)),
        central_record(name, data, offset).subrange(24, 28) == u32_le(mod32(data.len() as int)),
        central_record(name, data, offset).subrange(28, 30) == u16_le(mod16(name.len() as int)),
        central_record(name, data, offset).subrange(46, 46 + name.len() as int) == name,
{
    reveal(central_record);
    let r = central_record(name, data, offset);
    assert(r.subrange(0, 4) =~= u32_le(SIG_CENTRAL as int));
    assert(r.subrange(16, 20) =~= u32_le(crc32_spec(data) as int));
    assert(r.subrange(42, 46) =~= u32_le(offset));
    assert(r.subrange(10, 12) =~= u16_le(0));
    assert(r.subrange(20, 24) =~= u32_le(mod32(data.len() as int)));
    assert(r.subrange(24, 28) =~= u32_le(mod32(data.len() as int)));
    assert(r.subrange(28, 30) =~= u16_le(mod16(name.len() as int)));
    assert(r.subrange(46, 46 + name.len() as int) =~= name);
}

/// A window of `z` that holds `rec` at `at` shows `rec`'s own windows.
proof fn lemma_window(z: Seq<u8>, at: int, rec: Seq<u8>, a: int, b: int)
    requires
        0 <= at,
        at + rec.len() <= z.len(),
        z.subrange(at, at + rec.len()) == rec,
        0 <= a <= b <= rec.len(),
    ensures
        z.subrange(at + a, at + b) == rec.subrange(a, b),
{
    assert(z.subrange(at + a, at + b) =~= z.subrange(at, at + rec.len()).subrange(a, b));
}

/// Entry `i`'s local record stands at its offset in the archive.
proof fn lemma_local_record_at(es: Seq<(&str, &[u8])>, i: int)
    requires
        0 <= i < es.len(),
    ensures
        ({
            let rec = local_record(entry_name(es, i), entry_data(es, i));
            let off = local_section(es, i).len() as int;
            &&& off + rec.len() <= zip_spec(es).len()
            &&& zip_spec(es).subrange(off, off + rec.len()) == rec
        }),
{
    let n = es.len() as int;
    let z = zip_spec(es);
    let locals = local_section(es, n);
    lemma_local_prefix(es, i + 1, n);
    let pre = local_section(es, i);
    let rec = local_record(entry_name(es, i), entry_data(es, i));
    assert(local_section(es, i + 1) == pre + rec);
    let off = pre.len() as int;
    assert(z.subrange(0, locals.len() as int) =~= locals);
    assert(z.subrange(off, off + rec.len()) =~= locals.subrange(0, (off + rec.len()) as int).subrange(off, off + rec.len()));
    assert((pre + rec).subrange(off, off + rec.len()) =~= rec);
}

/// Entry `i`'s central record stands at its offset in the archive.
proof fn lemma_central_record_at(es: Seq<(&str, &[u8])>, i: int)
    requires
        0 <= i < es.len(),
    ensures
        ({
            let rec = central_record(entry_name(es, i), entry_data(es, i), local_offset(es, i));
            let cd = central_offset(es, i);
            &&& cd + rec.len() <= zip_spec(es).len()
            &&& zip_spec(es).subrange(cd, cd + rec.len()) == rec
        }),
{
    let n = es.len() as int;
    let z = zip_spec(es);
    let locals = local_section(es, n);
    let centrals = central_section(es, n);
    lemma_central_prefix(es, i + 1, n);
    let pre = central_section(es, i);
    let rec = central_record(entry_name(es, i), entry_data(es, i), local_offset(es, i));
    assert(central_section(es, i + 1) == pre + rec);
    let cd = central_offset(es, i);
    let lo = locals.len() as int;
    assert(z.subrange(lo, lo + centrals.len()) =~= centrals);
    assert(z.subrange(cd, cd + rec.len()) =~= centrals.subrange(0, (pre.len() + rec.len()) as int).subrange(pre.len() as int, (pre.len() + rec.len()) as int));
    assert((pre + rec).subrange(pre.len() as int, (pre.len() + rec.len()) as int) =~= rec);
}

/// In an archive whose local records fit 32-bit offsets, entry `i`'s local
/// header starts at the offset its central directory header records, both
/// headers carry the CRC-32 of the entry's data, and the local header is
/// followed by the entry's name.
pub proof fn lemma_zip_entry_headers_agree(es: Seq<(&str, &[u8])>, i: int)
    requires
        0 <= i < es.len(),
        local_section(es, es.len() as int).len() < 0x1_0000_0000,
    ensures
        ({
            let z = zip_spec(es);
            let off = local_offset(es, i);
            let cd = central_offset(es, i);
            let name = entry_name(es, i);
            let crc = u32_le(crc32_spec(entry_data(es, i)) as int);
            &&& z.subrange(off, off + 4) == u32_le(SIG_LOCAL as int)
            &&& z.subrange(off + 14, off + 18) == crc
            &&& z.subrange(off + 30, off + 30 + name.len()) == name
            &&& z.subrange(cd, cd + 4) == u32_le(SIG_CENTRAL as int)
            &&& z.subrange(cd + 16, cd + 20) == crc
            &&& z.subrange(cd + 42, cd + 46) == u32_le(off)
        }),
{
    let n = es.len() as int;
    let z = zip_spec(es);
    let name = entry_name(es, i);
    let data = entry_data(es, i);
    let nl = name.len() as int;
    lemma_local_prefix(es, i, n);
    let off = local_section(es, i).len() as int;
    assert(local_offset(es, i) == off);
    let rec = local_record(name, data);
    lemma_local_record_at(es, i);
    lemma_local_record_fields(name, data);
    lemma_window(z, off, rec, 0, 4);
    lemma_window(z, off, rec, 14, 18);
    lemma_window(z, off, rec, 30, 30 + nl);
    let cd = central_offset(es, i);
    let crec = central_record(name, data, local_offset(es, i));
    lemma_central_record_at(es, i);
    lemma_central_record_fields(name, data, local_offset(es, i));
    lemma_window(z, cd, crec, 0, 4);
    lemma_window(z, cd, crec, 16, 20);
    lemma_window(z, cd, crec, 42, 46);
}

/// Both headers of entry `i` describe its data as stored: compression
/// method 0, compressed and uncompressed sizes equal to the data length
/// (modulo 2^32), the name length (modulo 2^16) followed by the name; in
/// the local record the data follows the name unchanged.
pub proof fn lemma_zip_entry_sizes(es: Seq<(&str, &[u8])>, i: int)
    requires
        0 <= i < es.len(),
    ensures
        ({
            let z = zip_spec(es);
            let off = local_section(es, i).len() as int;
            let cd = central_offset(es, i);
            let name = entry_name(es, i);
            let data = entry_data(es, i);
            let size = u32_le(data.len() as int % 0x1_0000_0000);
            let nlen = u16_le(name.len() as int % 0x1_0000);
            &&& z.subrange(off + 8, off + 10) == u16_le(0)
            &&& z.subrange(off + 18, off + 22) == size
            &&& z.subrange(off + 22, off + 26) == size
            &&& z.subrange(off + 26, off + 28) == nlen
            &&& z.subrange(off + 30 + name.len(), off + 30 + name.len() + data.len()) == data
            &&& z.subrange(cd + 10, cd + 12) == u16_le(0)
            &&& z.subrange(cd + 20, cd + 24) == size
            &&& z.subrange(cd + 24, cd + 28) == size
            &&& z.subrange(cd + 28, cd + 30) == nlen
            &&& z.subrange(cd + 46, cd + 46 + name.len()) == name
        }),
{
    let z = zip_spec(es);
    let name = entry_name(es, i);
    let data = entry_data(es, i);
    let nl = name.len() as int;
    let dl = data.len() as int;
    let off = local_section(es, i).len() as int;
    let rec = local_record(name, data);
    lemma_local_record_at(es, i);
    lemma_local_record_fields(name, data);
    lemma_window(z, off, rec, 8, 10);
    lemma_window(z, off, rec, 18, 22);
    lemma_window(z, off, rec, 22, 26);
    lemma_window(z, off, rec, 26, 28);
    lemma_window(z, off, rec, 30 + nl, 30 + nl + dl);
    let cd = central_offset(es, i);
    let crec = central_record(name, data, local_offset(es, i));
    lemma_central_record_at(es, i);
    lemma_central_record_fields(name, data, local_offset(es, i));
    lemma_window(z, cd, crec, 10, 12);
    lemma_window(z, cd, crec, 20, 24);
    lemma_window(z, cd, crec, 24, 28);
    lemma_window(z, cd, crec, 28, 30);
    lemma_window(z, cd, crec, 46, 46 + nl);
}

/// The end record closes the archive and gives the entry count and the
/// central directory's size and start.
pub proof fn lemma_zip_end_record(es: Seq<(&str, &[u8])>)
    ensures
        ({
            let z = zip_spec(es);
            let n = es.len() as int;
            let e = z.len() - 22;
            &&& z.len() >= 22
            &&& z.subrange(e, e + 4) == u32_le(SIG_EOCD as int)
            &&& z.subrange(e + 10, e + 12) == u16_le(mod16(n))
            &&& z.subrange(e + 12, e + 16) == u32_le(mod32(central_section(es, n).len() as int))
            &&& z.subrange(e + 16, e + 20) == u32_le(mod32(local_section(es, n).len() as int))
        }),
{
    let n = es.len() as int;
    let z = zip_spec(es);
    let tail = eocd_record(n, central_section(es, n).len() as int, local_section(es, n).len() as int);
    assert(tail.len() == 22);
    let e: int = z.len() - 22;
    assert(z.subrange(e, e + 22) =~= tail);
    assert(z.subrange(e, e + 4) =~= tail.subrange(0, 4));
    assert(tail.subrange(0, 4) =~= u32_le(SIG_EOCD as int));
    assert(z.subrange(e + 10, e + 12) =~= tail.subrange(10, 12));
    assert(tail.subrange(10, 12) =~= u16_le(mod16(n)));
    assert(z.subrange(e + 12, e + 16) =~= tail.subrange(12, 16));
    assert(tail.subrange(12, 16) =~= u32_le(mod32(central_section(es, n).len() as int)));
    assert(z.subrange(e + 16, e + 20) =~= tail.subrange(16, 20));
    assert(tail.subrange(16, 20) =~= u32_le(mod32(local_section(es, n).len() as int)));
}

} // verus!
