//! Deterministic DEFLATE encoder (RFC 1951) and zlib framing (RFC 1950).
//!
//! Two block kinds are produced: stored blocks (BTYPE=00) and a single
//! fixed-Huffman block (BTYPE=01) whose back-references only use the
//! distances 1 (a run of one byte) and 3 (a run of one RGB pixel).
//! `zlib_compress` keeps whichever body is shorter.

use crate::bitstream::{
    bits_lsb, bits_msb, bytes_bits, lemma_bits_lsb_len, lemma_bytes_bits_injective, lemma_bytes_bits_len,
    zeros, BitWriter,
};
use crate::byteorder::{push_all, push_u16_le, push_u32_be, u16_le, u32_be};
use crate::checksum::{adler32, adler32_value};
use crate::inflate::{inflate, lemma_zlib_stream_roundtrip, zlib_body};
use vstd::prelude::*;

verus! {

// ── The token model ──────────────────────────────────────────────────────────

/// A DEFLATE token: a literal byte, or a back-reference of `len` bytes at
/// distance `dist`.
pub enum Token {
    Literal(u8),
    Match(nat, nat),
}

/// Longest match limit of DEFLATE.
pub open spec fn max_match() -> int {
    258
}

/// Length of the run starting at offset `k` of position `i` that repeats the
/// bytes `d` positions earlier, capped at 258.
pub open spec fn run_from(data: Seq<u8>, i: int, d: int, k: int) -> int
    decreases 258 - k,
{
    if 0 <= k < 258 && i + k < data.len() && data[i + k] == data[i + k - d] {
        run_from(data, i, d, k + 1)
    } else {
        k
    }
}

/// Length of the repetition at position `i` with distance `d`.
pub open spec fn run_len(data: Seq<u8>, i: int, d: int) -> int {
    if i < d {
        0
    } else {
        run_from(data, i, d, 0)
    }
}

/// The back-reference chosen at position `i`, as `(distance, length)`: the
/// longer of the distance-1 and distance-3 runs, distance 1 on a tie, and
/// none when neither reaches three bytes.
pub open spec fn best_match(data: Seq<u8>, i: int) -> Option<(int, int)> {
    let l1 = run_len(data, i, 1);
    let l3 = run_len(data, i, 3);
    if l1 >= 3 {
        if l3 > l1 {
            Some((3, l3))
        } else {
            Some((1, l1))
        }
    } else if l3 >= 3 {
        Some((3, l3))
    } else {
        None
    }
}

/// The greedy token sequence for `data[i..]`.
pub open spec fn greedy_tokens(data: Seq<u8>, i: int) -> Seq<Token>
    decreases data.len() - i,
{
    if i < 0 || i >= data.len() {
        Seq::empty()
    } else {
        match best_match(data, i) {
            Some((d, l)) => if l >= 1 && i + l <= data.len() {
                seq![Token::Match(l as nat, d as nat)] + greedy_tokens(data, i + l)
            } else {
                Seq::empty()
            },
            None => seq![Token::Literal(data[i])] + greedy_tokens(data, i + 1),
        }
    }
}

/// Copies `len` bytes, each from `dist` positions before the end of `out`
/// (an LZ77 back-reference; the source may overlap the bytes being produced).
pub open spec fn lz_copy(out: Seq<u8>, dist: int, len: int) -> Seq<u8>
    decreases len,
{
    if len <= 0 {
        out
    } else {
        lz_copy(out.push(out[out.len() - dist]), dist, len - 1)
    }
}

/// The output after one token.
pub open spec fn tok_apply(out: Seq<u8>, t: Token) -> Seq<u8> {
    match t {
        Token::Literal(b) => out.push(b),
        Token::Match(len, dist) => lz_copy(out, dist as int, len as int),
    }
}

/// A token can be encoded here: a match has length 3..=258, distance 1 or 3,
/// and reaches only bytes already produced.
pub open spec fn tok_ok(out: Seq<u8>, t: Token) -> bool {
    match t {
        Token::Literal(_) => true,
        Token::Match(len, dist) => (dist == 1 || dist == 3) && 3 <= len <= 258 && dist <= out.len(),
    }
}

/// The output after a token sequence.
pub open spec fn lz_expand(out: Seq<u8>, ts: Seq<Token>) -> Seq<u8>
    decreases ts.len(),
{
    if ts.len() == 0 {
        out
    } else {
        lz_expand(tok_apply(out, ts[0]), ts.drop_first())
    }
}

/// Every token of the sequence can be encoded where it stands.
pub open spec fn tokens_ok(out: Seq<u8>, ts: Seq<Token>) -> bool
    decreases ts.len(),
{
    ts.len() == 0 || (tok_ok(out, ts[0]) && tokens_ok(tok_apply(out, ts[0]), ts.drop_first()))
}

proof fn lemma_run_from_matches(data: Seq<u8>, i: int, d: int, k0: int, k: int)
    requires
        0 <= k0 <= k < run_from(data, i, d, k0),
    ensures
        i + k < data.len(),
        data[i + k] == data[i + k - d],
    decreases 258 - k0,
{
    if 0 <= k0 < 258 && i + k0 < data.len() && data[i + k0] == data[i + k0 - d] {
        if k > k0 {
            lemma_run_from_matches(data, i, d, k0 + 1, k);
        }
    }
}

proof fn lemma_lz_copy_run(data: Seq<u8>, m: int, d: int, l: int)
    requires
        1 <= d <= m,
        0 <= l,
        m + l <= data.len(),
        forall|k: int| 0 <= k < l ==> #[trigger] data[m + k] == data[m + k - d],
    ensures
        lz_copy(data.take(m), d, l) == data.take(m + l),
    decreases l,
{
    if l > 0 {
        assert(data[m + 0] == data[m + 0 - d]);
        assert(data.take(m).push(data.take(m)[data.take(m).len() - d]) =~= data.take(m + 1));
        assert forall|k: int| 0 <= k < l - 1 implies #[trigger] data[(m + 1) + k] == data[(m + 1) + k
            - d] by {
            assert(data[m + (k + 1)] == data[m + (k + 1) - d]);
        }
        lemma_lz_copy_run(data, m + 1, d, l - 1);
    }
}

/// The greedy tokens can all be encoded, and expanding them restores `data`.
pub proof fn lemma_greedy_tokens_expand(data: Seq<u8>, i: int)
    requires
        0 <= i <= data.len(),
    ensures
        tokens_ok(data.take(i), greedy_tokens(data, i)),
        lz_expand(data.take(i), greedy_tokens(data, i)) == data,
    decreases data.len() - i,
{
    let ts = greedy_tokens(data, i);
    if i == data.len() {
        assert(data.take(i) =~= data);
    } else {
        match best_match(data, i) {
            Some((d, l)) => {
                lemma_run_len_bounds(data, i, d);
                let t = Token::Match(l as nat, d as nat);
                assert(ts == seq![t] + greedy_tokens(data, i + l));
                assert(ts[0] == t);
                assert(ts.drop_first() =~= greedy_tokens(data, i + l));
                assert forall|k: int| 0 <= k < l implies #[trigger] data[i + k] == data[i + k - d] by {
                    lemma_run_from_matches(data, i, d, 0, k);
                }
                lemma_lz_copy_run(data, i, d, l);
                lemma_greedy_tokens_expand(data, i + l);
            },
            None => {
                let t = Token::Literal(data[i]);
                assert(ts == seq![t] + greedy_tokens(data, i + 1));
                assert(ts[0] == t);
                assert(ts.drop_first() =~= greedy_tokens(data, i + 1));
                assert(data.take(i).push(data[i]) =~= data.take(i + 1));
                lemma_greedy_tokens_expand(data, i + 1);
            },
        }
    }
}

// ── The fixed-Huffman code (RFC 1951 §3.2.6) ─────────────────────────────────

/// Bits of literal/length symbol `sym` (0..=287) in the fixed code.
pub open spec fn enc_symbol(sym: int) -> Seq<bool> {
    if sym <= 143 {
        bits_msb((0x30 + sym) as nat, 8)
    } else if sym <= 255 {
        bits_msb((0x190 + (sym - 144)) as nat, 9)
    } else if sym <= 279 {
        bits_msb((sym - 256) as nat, 7)
    } else {
        bits_msb((0xC0 + (sym - 280)) as nat, 8)
    }
}

/// Base length of length symbol `257 + idx` (RFC 1951 §3.2.5).
pub open spec fn length_base(idx: int) -> int {
    seq![
        3int, 4, 5, 6, 7, 8, 9, 10, 11, 13, 15, 17, 19, 23, 27, 31, 35, 43, 51, 59, 67, 83, 99,
        115, 131, 163, 195, 227, 258,
    ][idx]
}

/// Extra bits of length symbol `257 + idx`.
pub open spec fn length_extra(idx: int) -> int {
    seq![
        0int, 0, 0, 0, 0, 0, 0, 0, 1, 1, 1, 1, 2, 2, 2, 2, 3, 3, 3, 3, 4, 4, 4, 4, 5, 5, 5, 5, 0,
    ][idx]
}

/// The largest table index at or below `idx` whose base does not exceed `len`.
pub open spec fn length_index_from(len: int, idx: int) -> int
    decreases idx,
{
    if idx <= 0 {
        0
    } else if length_base(idx) <= len {
        idx
    } else {
        length_index_from(len, idx - 1)
    }
}

/// Table index of match length `len`.
pub open spec fn length_index(len: int) -> int {
    length_index_from(len, 28)
}

/// Distance code of the two supported distances.
pub open spec fn dist_code(dist: int) -> int {
    if dist == 1 {
        0
    } else {
        2
    }
}

/// Bits of one token.
pub open spec fn enc_token(t: Token) -> Seq<bool> {
    match t {
        Token::Literal(b) => enc_symbol(b as int),
        Token::Match(len, dist) => {
            let idx = length_index(len as int);
            enc_symbol(257 + idx) + bits_lsb((len - length_base(idx)) as nat, length_extra(idx) as nat)
                + bits_msb(dist_code(dist as int) as nat, 5)
        },
    }
}

/// Bits of a token sequence.
pub open spec fn enc_tokens(ts: Seq<Token>) -> Seq<bool>
    decreases ts.len(),
{
    if ts.len() == 0 {
        Seq::empty()
    } else {
        enc_token(ts[0]) + enc_tokens(ts.drop_first())
    }
}

/// The bits of the fixed-Huffman block for `data`: BFINAL=1, BTYPE=01, the
/// greedy tokens, end-of-block.
pub open spec fn rle_bits(data: Seq<u8>) -> Seq<bool> {
    bits_lsb(1, 1) + bits_lsb(1, 2) + enc_tokens(greedy_tokens(data, 0)) + enc_symbol(256)
}

/// `bytes` holds the bits `bits`, zero-padded to a whole byte.
pub open spec fn packs(bytes: Seq<u8>, bits: Seq<bool>) -> bool {
    &&& bits.len() <= 8 * bytes.len() < bits.len() + 8
    &&& bytes_bits(bytes) == bits + zeros((8 * bytes.len() - bits.len()) as nat)
}

// ── The stored encoding (RFC 1951 §3.2.4) ────────────────────────────────────

/// Stored blocks of at most 65535 bytes covering `data[pos..]`.
pub open spec fn stored_blocks(data: Seq<u8>, pos: int) -> Seq<u8>
    decreases data.len() - pos,
{
    let end = if pos + 65535 < data.len() {
        pos + 65535
    } else {
        data.len() as int
    };
    let n = end - pos;
    let last = end == data.len();
    let block = seq![
        if last {
            1u8
        } else {
            0u8
        },
    ] + u16_le(n) + u16_le(65535 - n) + data.subrange(pos, end);
    if last || pos < 0 {
        block
    } else {
        block + stored_blocks(data, end)
    }
}

/// The fixed-Huffman body of `data`: the bytes packing `rle_bits(data)`.
pub open spec fn rle_body(data: Seq<u8>) -> Seq<u8> {
    choose|b: Seq<u8>| packs(b, rle_bits(data))
}

/// Byte packing is unique.
pub proof fn lemma_packs_unique(a: Seq<u8>, b: Seq<u8>, bits: Seq<bool>)
    requires
        packs(a, bits),
        packs(b, bits),
    ensures
        a == b,
{
    assert(a.len() == b.len());
    lemma_bytes_bits_injective(a, b);
}

/// The zlib stream `zlib_compress` produces for `data`.
pub open spec fn zlib_spec(data: Seq<u8>) -> Seq<u8> {
    zlib_stream(data, rle_body(data))
}

/// The zlib stream of `data`: header, the shorter deflate body, Adler-32.
pub open spec fn zlib_stream(data: Seq<u8>, rle_body: Seq<u8>) -> Seq<u8> {
    let stored = stored_blocks(data, 0);
    let body = if rle_body.len() <= stored.len() {
        rle_body
    } else {
        stored
    };
    seq![0x78u8, 0x01u8] + body + u32_be(adler32_value(data))
}

// ── Exec ─────────────────────────────────────────────────────────────────────

/// Compresses `data` into a zlib stream: two header bytes, a deflate body and
/// the big-endian Adler-32 of `data`. The body is the fixed-Huffman RLE
/// encoding or the stored encoding, whichever is shorter (the RLE one on a tie).
pub fn zlib_compress(data: &[u8]) -> (out: Vec<u8>)
    ensures
        out@ == zlib_spec(data@),
        out@.len() <= 2 + stored_blocks(data@, 0).len() + 4,
        out@.len() >= 6,
        out@[0] == 0x78,
        out@[1] == 0x01,
        inflate(zlib_body(out@)) == Some(data@),
        out@.subrange(out@.len() - 4, out@.len() as int) == u32_be(adler32_value(data@)),
{
    let rle_out = deflate_rle(data);
    let stored_body = deflate_stored(data);
    let ghost rle = rle_out@;
    let body = if rle_out.len() <= stored_body.len() {
        rle_out
    } else {
        stored_body
    };
    let mut out: Vec<u8> = Vec::new();
    out.push(0x78);
    out.push(0x01);
    push_all(&mut out, body.as_slice());
    let (s1, s2) = adler32(data);
    let adler = (s2 << 16) | s1;
    proof {
        assert((s2 << 16) | s1 == s2 * 65536 + s1) by (bit_vector)
            requires
                s1 < 65521,
                s2 < 65521,
        ;
    }
    push_u32_be(&mut out, adler);
    proof {
        assert(out@ =~= zlib_stream(data@, rle));
        lemma_zlib_stream_roundtrip(data@, rle);
        lemma_packs_unique(rle, rle_body(data@), rle_bits(data@));
    }
    out
}

/// The stored (BTYPE=00) deflate body of `data`, one block per 65535 bytes.
pub fn deflate_stored(data: &[u8]) -> (out: Vec<u8>)
    ensures
        out@ == stored_blocks(data@, 0),
{
    let mut out: Vec<u8> = Vec::new();
    let mut pos: usize = 0;
    let mut done = false;
    while !done
        invariant
            pos <= data.len(),
            !done ==> out@ + stored_blocks(data@, pos as int) == stored_blocks(data@, 0),
            done ==> out@ == stored_blocks(data@, 0),
        decreases data.len() - pos + (if done { 0int } else { 1int }),
    {
        let end = if data.len() - pos > 65535 {
            pos + 65535
        } else {
            data.len()
        };
        let bfinal: u8 = if end == data.len() {
            1
        } else {
            0
        };
        let len = (end - pos) as u16;
        let ghost before = out@;
        out.push(bfinal);
        push_u16_le(&mut out, len);
        let nlen: u16 = !len;
        proof {
            assert(!len == 65535 - len) by (bit_vector);
        }
        push_u16_le(&mut out, nlen);
        push_all(&mut out, &data[pos..end]);
        proof {
            let blk = stored_blocks(data@, pos as int);
            assert(data@.subrange(pos as int, end as int) == data@.subrange(pos as int, end as int));
            if bfinal == 1 {
                assert(out@ =~= before + blk);
            } else {
                assert(blk =~= out@.subrange(before.len() as int, out@.len() as int)
                    + stored_blocks(data@, end as int));
                assert(out@ + stored_blocks(data@, end as int) =~= before + blk);
            }
        }
        pos = end;
        if bfinal == 1 {
            done = true;
        }
    }
    out
}

/// Length of the run at `i` with distance `dist` (0 when `i < dist`).
fn run_length(data: &[u8], i: usize, dist: usize) -> (len: usize)
    requires
        i < data.len(),
        dist >= 1,
    ensures
        len == run_len(data@, i as int, dist as int),
        len <= 258,
        i + len <= data.len(),
{
    if i < dist {
        return 0;
    }
    let mut len: usize = 0;
    while i + len < data.len() && len < 258 && data[i + len] == data[i + len - dist]
        invariant
            i < data.len(),
            dist <= i,
            len <= 258,
            i + len <= data.len(),
            run_from(data@, i as int, dist as int, len as int) == run_from(
                data@,
                i as int,
                dist as int,
                0,
            ),
        decreases 258 - len,
    {
        len += 1;
    }
    len
}

/// The back-reference chosen at `i` among the candidate distances 1 and 3.
fn find_best_match(data: &[u8], i: usize) -> (res: Option<(usize, usize)>)
    requires
        i < data.len(),
    ensures
        match res {
            Some((d, l)) => best_match(data@, i as int) == Some((d as int, l as int)),
            None => best_match(data@, i as int) is None,
        },
{
    let mut best: Option<(usize, usize)> = None;
    let mut k: usize = 0;
    while k < 2
        invariant
            k <= 2,
            i < data.len(),
            k == 0 ==> best is None,
            k == 1 ==> best == (if run_len(data@, i as int, 1) >= 3 {
                Some((1usize, run_len(data@, i as int, 1) as usize))
            } else {
                None
            }),
            k == 1 ==> run_len(data@, i as int, 1) <= 258,
            k == 2 ==> match best {
                Some((d, l)) => best_match(data@, i as int) == Some((d as int, l as int)),
                None => best_match(data@, i as int) is None,
            },
        decreases 2 - k,
    {
        let dist: usize = if k == 0 {
            1
        } else {
            3
        };
        let len = run_length(data, i, dist);
        if len >= 3 {
            let better = match best {
                None => true,
                Some((_, blen)) => len > blen,
            };
            if better {
                best = Some((dist, len));
            }
        }
        k += 1;
    }
    best
}

/// Writes literal byte `byte`.
fn write_literal(bw: &mut BitWriter, byte: u8)
    requires
        old(bw).wf(),
    ensures
        final(bw).wf(),
        final(bw).bits() == old(bw).bits() + enc_symbol(byte as int),
{
    let sym = byte as u32;
    if sym <= 143 {
        bw.write_huffman((0x30 + sym) as u16, 8);
    } else {
        bw.write_huffman((0x190 + (sym - 144)) as u16, 9);
    }
}

/// Writes the end-of-block symbol 256.
fn write_end_of_block(bw: &mut BitWriter)
    requires
        old(bw).wf(),
    ensures
        final(bw).wf(),
        final(bw).bits() == old(bw).bits() + enc_symbol(256),
{
    write_length_literal_symbol(bw, 256);
}

/// Writes literal/length symbol `symbol` (256..=287).
fn write_length_literal_symbol(bw: &mut BitWriter, symbol: u32)
    requires
        old(bw).wf(),
        256 <= symbol <= 287,
    ensures
        final(bw).wf(),
        final(bw).bits() == old(bw).bits() + enc_symbol(symbol as int),
{
    if symbol <= 279 {
        bw.write_huffman((symbol - 256) as u16, 7);
    } else {
        bw.write_huffman((0xC0 + (symbol - 280)) as u16, 8);
    }
}

/// Row `idx` of the length table: (base length, extra bits).
fn length_table(idx: usize) -> (r: (u16, u8))
    requires
        idx < 29,
    ensures
        r.0 as int == length_base(idx as int),
        r.1 as int == length_extra(idx as int),
{
    match idx {
        0 => (3, 0),
        1 => (4, 0),
        2 => (5, 0),
        3 => (6, 0),
        4 => (7, 0),
        5 => (8, 0),
        6 => (9, 0),
        7 => (10, 0),
        8 => (11, 1),
        9 => (13, 1),
        10 => (15, 1),
        11 => (17, 1),
        12 => (19, 2),
        13 => (23, 2),
        14 => (27, 2),
        15 => (31, 2),
        16 => (35, 3),
        17 => (43, 3),
        18 => (51, 3),
        19 => (59, 3),
        20 => (67, 4),
        21 => (83, 4),
        22 => (99, 4),
        23 => (115, 4),
        24 => (131, 5),
        25 => (163, 5),
        26 => (195, 5),
        27 => (227, 5),
        _ => (258, 0),
    }
}

/// `(symbol, extra_bits, extra_value)` of match length `len` (3..=258).
fn length_code(len: usize) -> (r: (u32, u8, u32))
    requires
        3 <= len <= 258,
    ensures
        r.0 == 257 + length_index(len as int),
        r.1 as int == length_extra(length_index(len as int)),
        r.2 as int == len - length_base(length_index(len as int)),
        r.1 <= 5,
{
    let mut idx: usize = 29;
    while idx > 0
        invariant
            idx <= 29,
            3 <= len <= 258,
            forall|j: int| idx <= j < 29 ==> length_base(j) > len,
            length_index(len as int) == length_index_from(len as int, idx as int - 1) || idx == 29,
        decreases idx,
    {
        idx -= 1;
        let (base, extra) = length_table(idx);
        if len as u16 >= base {
            proof {
                assert(length_index_from(len as int, idx as int) == idx);
            }
            return (257 + idx as u32, extra, (len as u32) - base as u32);
        }
    }
    proof {
        assert(length_base(0) == 3);
    }
    (257, 0, 0)
}

/// Writes a match of length `len` (3..=258) at distance `distance` (1 or 3).
fn write_match(bw: &mut BitWriter, len: usize, distance: usize)
    requires
        old(bw).wf(),
        3 <= len <= 258,
        distance == 1 || distance == 3,
    ensures
        final(bw).wf(),
        final(bw).bits() == old(bw).bits() + enc_token(Token::Match(len as nat, distance as nat)),
{
    let ghost b0 = bw.bits();
    let (symbol, extra_bits, extra_value) = length_code(len);
    proof {
        lemma_length_index_bounds(len as int);
    }
    write_length_literal_symbol(bw, symbol);
    let ghost b1 = bw.bits();
    if extra_bits > 0 {
        bw.write_bits(extra_value, extra_bits);
    } else {
        proof {
            assert(bits_lsb(extra_value as nat, 0) =~= Seq::<bool>::empty());
            assert(bw.bits() =~= b1 + bits_lsb(extra_value as nat, extra_bits as nat));
        }
    }
    let dist_code: u16 = if distance == 1 {
        0
    } else {
        2
    };
    bw.write_huffman(dist_code, 5);
    proof {
        let idx = length_index(len as int);
        assert(enc_token(Token::Match(len as nat, distance as nat)) == enc_symbol(257 + idx)
            + bits_lsb((len - length_base(idx)) as nat, length_extra(idx) as nat) + bits_msb(
            dist_code as nat,
            5,
        ));
        assert(bw.bits() =~= b0 + enc_token(Token::Match(len as nat, distance as nat)));
    }
}

/// Table indices stay within the table.
proof fn lemma_length_index_from_bounds(len: int, idx: int)
    requires
        0 <= idx <= 28,
    ensures
        0 <= length_index_from(len, idx) <= idx,
    decreases idx,
{
    if idx > 0 {
        lemma_length_index_from_bounds(len, idx - 1);
    }
}

proof fn lemma_length_index_bounds(len: int)
    ensures
        0 <= length_index(len) <= 28,
{
    lemma_length_index_from_bounds(len, 28);
}

/// The fixed-Huffman RLE deflate body of `data`.
pub fn deflate_rle(data: &[u8]) -> (out: Vec<u8>)
    ensures
        packs(out@, rle_bits(data@)),
{
    let mut bw = BitWriter::new();
    bw.write_bits(1, 1);
    bw.write_bits(1, 2);
    let ghost header = bits_lsb(1, 1) + bits_lsb(1, 2);
    proof {
        assert(bw.bits() =~= header);
        assert(greedy_tokens(data@, 0) == greedy_tokens(data@, 0));
    }
    let mut i: usize = 0;
    while i < data.len()
        invariant
            i <= data.len(),
            bw.wf(),
            bw.bits() + enc_tokens(greedy_tokens(data@, i as int)) == header + enc_tokens(
                greedy_tokens(data@, 0),
            ),
        decreases data.len() - i,
    {
        let ghost rest = greedy_tokens(data@, i as int);
        match find_best_match(data, i) {
            Some((dist, len)) => {
                proof {
                    lemma_run_len_bounds(data@, i as int, dist as int);
                    let t = Token::Match(len as nat, dist as nat);
                    assert(rest == seq![t] + greedy_tokens(data@, i + len));
                    assert((seq![t] + greedy_tokens(data@, i + len)).drop_first() =~= greedy_tokens(
                        data@,
                        i + len,
                    ));
                }
                write_match(&mut bw, len, dist);
                i += len;
            },
            None => {
                proof {
                    let t = Token::Literal(data@[i as int]);
                    assert(rest == seq![t] + greedy_tokens(data@, i + 1));
                    assert((seq![t] + greedy_tokens(data@, i + 1)).drop_first() =~= greedy_tokens(
                        data@,
                        i + 1,
                    ));
                }
                write_literal(&mut bw, data[i]);
                i += 1;
            },
        }
        proof {
            assert(bw.bits() + enc_tokens(greedy_tokens(data@, i as int)) =~= header + enc_tokens(
                greedy_tokens(data@, 0),
            ));
        }
    }
    proof {
        assert(enc_tokens(greedy_tokens(data@, i as int)) =~= Seq::<bool>::empty());
    }
    write_end_of_block(&mut bw);
    let ghost all = bw.bits();
    let ghost nb = bw.nbits;
    let ghost nbytes = bw.bytes@.len();
    proof {
        assert(all =~= rle_bits(data@));
        lemma_bytes_bits_len(bw.bytes@);
        lemma_bits_lsb_len(bw.acc as nat, bw.nbits as nat);
    }
    let out = bw.finish();
    proof {
        lemma_bytes_bits_len(out@);
        lemma_bits_lsb_len(0, 0);
    }
    out
}

/// A chosen run lies within the data, has a valid length and a reachable distance.
pub proof fn lemma_run_len_bounds(data: Seq<u8>, i: int, d: int)
    requires
        0 <= i < data.len(),
        d >= 1,
        run_len(data, i, d) >= 1,
    ensures
        d <= i,
        run_len(data, i, d) <= 258,
        i + run_len(data, i, d) <= data.len(),
{
    lemma_run_from_bounds(data, i, d, 0);
}

proof fn lemma_run_from_bounds(data: Seq<u8>, i: int, d: int, k: int)
    requires
        0 <= k <= 258,
        i + k <= data.len(),
    ensures
        k <= run_from(data, i, d, k) <= 258,
        i + run_from(data, i, d, k) <= data.len(),
    decreases 258 - k,
{
    if 0 <= k < 258 && i + k < data.len() && data[i + k] == data[i + k - d] {
        lemma_run_from_bounds(data, i, d, k + 1);
    }
}

} // verus!
