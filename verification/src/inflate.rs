//! A reference DEFLATE decoder (RFC 1951, block types 00 and 01) as a
//! specification, and the proof that every stream `zlib_compress` produces
//! decodes back to its input.

use crate::bitstream::{
    bits_lsb, bits_msb, bytes_bits, lemma_bits_lsb_len, lemma_bits_lsb_zero, lemma_bits_lsb_split, lemma_bytes_bits_concat,
    lemma_bytes_bits_len, lemma_lsb_value_bits, lemma_msb_value_bits, lsb_value, msb_value, zeros,
};
use crate::deflate::{
    enc_symbol, enc_token, enc_tokens, greedy_tokens, stored_blocks, zlib_stream, lemma_greedy_tokens_expand, packs, rle_bits, length_base, length_extra, length_index, length_index_from,
    lz_copy, lz_expand, tok_apply, tok_ok, tokens_ok, Token,
};
use vstd::arithmetic::div_mod::{lemma_fundamental_div_mod, lemma_small_mod};
use vstd::arithmetic::power2::{lemma2_to64, lemma_pow2_adds, lemma_pow2_pos, pow2};
use crate::byteorder::{u16_le, u32_be};
use crate::checksum::adler32_value;
use vstd::prelude::*;

verus! {

/// `n` bits at `pos`, least significant first.
pub open spec fn read_lsb(bits: Seq<bool>, pos: int, n: int) -> Option<nat> {
    if 0 <= pos && 0 <= n && pos + n <= bits.len() {
        Some(lsb_value(bits.subrange(pos, pos + n)))
    } else {
        None
    }
}

/// `n` bits at `pos`, most significant first.
pub open spec fn read_msb(bits: Seq<bool>, pos: int, n: int) -> Option<nat> {
    if 0 <= pos && 0 <= n && pos + n <= bits.len() {
        Some(msb_value(bits.subrange(pos, pos + n)))
    } else {
        None
    }
}

/// Decodes one literal/length symbol of the fixed code at `pos`.
pub open spec fn decode_symbol(bits: Seq<bool>, pos: int) -> Option<(int, int)> {
    match read_msb(bits, pos, 7) {
        None => None,
        Some(v7) => if v7 <= 23 {
            Some(((256 + v7) as int, pos + 7))
        } else {
            match read_msb(bits, pos, 8) {
                None => None,
                Some(v8) => if 0x30 <= v8 <= 0xBF {
                    Some(((v8 - 0x30) as int, pos + 8))
                } else if 0xC0 <= v8 <= 0xC7 {
                    Some(((280 + v8 - 0xC0) as int, pos + 8))
                } else {
                    match read_msb(bits, pos, 9) {
                        None => None,
                        Some(v9) => if 0x190 <= v9 <= 0x1FF {
                            Some(((144 + v9 - 0x190) as int, pos + 9))
                        } else {
                            None
                        },
                    }
                },
            }
        },
    }
}

/// Base distance of distance code `c` (RFC 1951 §3.2.5).
pub open spec fn dist_base(c: int) -> int {
    seq![
        1int, 2, 3, 4, 5, 7, 9, 13, 17, 25, 33, 49, 65, 97, 129, 193, 257, 385, 513, 769, 1025,
        1537, 2049, 3073, 4097, 6145, 8193, 12289, 16385, 24577,
    ][c]
}

/// Extra bits of distance code `c`.
pub open spec fn dist_extra(c: int) -> int {
    seq![
        0int, 0, 0, 0, 1, 1, 2, 2, 3, 3, 4, 4, 5, 5, 6, 6, 7, 7, 8, 8, 9, 9, 10, 10, 11, 11, 12,
        12, 13, 13,
    ][c]
}

/// Decodes the symbols of a fixed-Huffman block from `pos` up to and including
/// end-of-block; returns the output and the position after the block.
pub open spec fn decode_fixed(bits: Seq<bool>, pos: int, out: Seq<u8>) -> Option<(Seq<u8>, int)>
    decreases bits.len() - pos,
{
    match decode_symbol(bits, pos) {
        None => None,
        Some((sym, p)) => if !(pos < p <= bits.len()) {
            None
        } else if sym < 256 {
            decode_fixed(bits, p, out.push(sym as u8))
        } else if sym == 256 {
            Some((out, p))
        } else if sym <= 285 {
            let idx = sym - 257;
            match read_lsb(bits, p, length_extra(idx)) {
                None => None,
                Some(e) => {
                    let len = length_base(idx) + e;
                    let p2 = p + length_extra(idx);
                    match read_msb(bits, p2, 5) {
                        None => None,
                        Some(dc) => if dc >= 30 {
                            None
                        } else {
                            match read_lsb(bits, p2 + 5, dist_extra(dc as int)) {
                                None => None,
                                Some(e2) => {
                                    let dist = dist_base(dc as int) + e2;
                                    let p3 = p2 + 5 + dist_extra(dc as int);
                                    if dist > out.len() || !(pos < p3 <= bits.len()) {
                                        None
                                    } else {
                                        decode_fixed(bits, p3, lz_copy(out, dist, len))
                                    }
                                },
                            }
                        },
                    }
                },
            }
        } else {
            None
        },
    }
}

/// `n` whole bytes at `pos`.
pub open spec fn read_bytes(bits: Seq<bool>, pos: int, n: int) -> Option<Seq<u8>>
    decreases n,
{
    if n <= 0 {
        Some(Seq::empty())
    } else {
        match read_lsb(bits, pos, 8) {
            None => None,
            Some(b) => match read_bytes(bits, pos + 8, n - 1) {
                None => None,
                Some(r) => Some(seq![b as u8] + r),
            },
        }
    }
}

/// A stored block whose three header bits end at `pos`.
pub open spec fn decode_stored(bits: Seq<bool>, pos: int, out: Seq<u8>) -> Option<(Seq<u8>, int)> {
    let q = ((pos + 7) / 8) * 8;
    match (read_lsb(bits, q, 16), read_lsb(bits, q + 16, 16)) {
        (Some(len), Some(nlen)) => if nlen != 65535 - len {
            None
        } else {
            match read_bytes(bits, q + 32, len as int) {
                None => None,
                Some(bs) => Some((out + bs, q + 32 + 8 * len)),
            }
        },
        _ => None,
    }
}

/// Decodes blocks from `pos` until the final one.
pub open spec fn inflate_from(bits: Seq<bool>, pos: int, out: Seq<u8>) -> Option<Seq<u8>>
    decreases bits.len() - pos,
{
    match (read_lsb(bits, pos, 1), read_lsb(bits, pos + 1, 2)) {
        (Some(bfinal), Some(btype)) => {
            let blk = if btype == 0 {
                decode_stored(bits, pos + 3, out)
            } else if btype == 1 {
                decode_fixed(bits, pos + 3, out)
            } else {
                None
            };
            match blk {
                None => None,
                Some((out2, p2)) => if bfinal == 1 {
                    Some(out2)
                } else if pos < p2 <= bits.len() {
                    inflate_from(bits, p2, out2)
                } else {
                    None
                },
            }
        },
        _ => None,
    }
}

/// The data a deflate body decodes to, if it decodes.
pub open spec fn inflate(body: Seq<u8>) -> Option<Seq<u8>> {
    inflate_from(bytes_bits(body), 0, Seq::empty())
}


// ── Reading known segments ───────────────────────────────────────────────────

/// The first `k` bits of a most-significant-first code are the code's top bits.
proof fn lemma_msb_prefix(v: nat, n: nat, k: nat)
    requires
        k <= n,
    ensures
        bits_msb(v, n).len() == n,
        bits_msb(v, n).take(k as int) == bits_msb(v / pow2((n - k) as nat), k),
{
    let m = (n - k) as nat;
    lemma_pow2_pos(m);
    lemma_fundamental_div_mod(v as int, pow2(m) as int);
    lemma_bits_lsb_split(v % pow2(m), v / pow2(m), m, k);
    assert(v % pow2(m) + pow2(m) * (v / pow2(m)) == v);
    assert((m + k) as nat == n);
    lemma_bits_lsb_len(v % pow2(m), m);
    lemma_bits_lsb_len(v / pow2(m), k);
    lemma_bits_lsb_len(v, n);
    let x = bits_lsb(v % pow2(m), m);
    let y = bits_lsb(v / pow2(m), k);
    assert((x + y).reverse() =~= y.reverse() + x.reverse());
    assert((y.reverse() + x.reverse()).take(k as int) =~= y.reverse());
}

/// Reading `k` bits of a known most-significant-first code of `len` bits.
proof fn lemma_read_msb_code(bits: Seq<bool>, pos: int, c: nat, len: nat, k: nat)
    requires
        0 <= pos,
        k <= len,
        pos + len <= bits.len(),
        c < pow2(len),
        bits.subrange(pos, pos + len) == bits_msb(c, len),
    ensures
        read_msb(bits, pos, k as int) == Some(c / pow2((len - k) as nat)),
{
    lemma_msb_prefix(c, len, k);
    assert(bits.subrange(pos, pos + k) =~= bits.subrange(pos, pos + len).take(k as int));
    let m = (len - k) as nat;
    lemma_msb_value_bits(c / pow2(m), k);
    lemma_pow2_pos(m);
    lemma_pow2_pos(k);
    lemma_pow2_adds(m, k);
    assert((m + k) as nat == len);
    assert(c / pow2(m) < pow2(k)) by (nonlinear_arith)
        requires
            c < pow2(m) * pow2(k),
            pow2(m) > 0,
            pow2(k) > 0,
    ;
    lemma_small_mod(c / pow2(m), pow2(k));
}

/// Reading a known least-significant-first field.
proof fn lemma_read_lsb_field(bits: Seq<bool>, pos: int, x: nat, n: nat)
    requires
        0 <= pos,
        pos + n <= bits.len(),
        x < pow2(n),
        bits.subrange(pos, pos + n) == bits_lsb(x, n),
    ensures
        read_lsb(bits, pos, n as int) == Some(x),
{
    lemma_lsb_value_bits(x, n);
    lemma_small_mod(x, pow2(n));
}

proof fn lemma_bits_msb_len(v: nat, n: nat)
    ensures
        bits_msb(v, n).len() == n,
{
    lemma_bits_lsb_len(v, n);
}

/// Length in bits of the fixed code of a symbol.
pub open spec fn symbol_len(sym: int) -> int {
    if sym <= 143 {
        8
    } else if sym <= 255 {
        9
    } else if sym <= 279 {
        7
    } else {
        8
    }
}

/// Decoding a symbol written in the fixed code.
proof fn lemma_decode_symbol(bits: Seq<bool>, pos: int, sym: int)
    requires
        0 <= sym <= 287,
        0 <= pos,
        pos + symbol_len(sym) <= bits.len(),
        bits.subrange(pos, pos + symbol_len(sym)) == enc_symbol(sym),
    ensures
        enc_symbol(sym).len() == symbol_len(sym),
        decode_symbol(bits, pos) == Some((sym, pos + symbol_len(sym))),
{
    lemma2_to64();
    if sym <= 143 {
        let c = (0x30 + sym) as nat;
        lemma_bits_msb_len(c, 8);
        lemma_read_msb_code(bits, pos, c, 8, 7);
        lemma_read_msb_code(bits, pos, c, 8, 8);
        assert(c / pow2(1) == c / 2);
        assert(c / pow2(0) == c);
        assert(c / 2 > 23);
        assert(((c - 0x30) as int) == sym);
    } else if sym <= 255 {
        let c = (0x190 + (sym - 144)) as nat;
        lemma_bits_msb_len(c, 9);
        lemma_read_msb_code(bits, pos, c, 9, 7);
        lemma_read_msb_code(bits, pos, c, 9, 8);
        lemma_read_msb_code(bits, pos, c, 9, 9);
        assert(c / pow2(2) == c / 4);
        assert(c / pow2(1) == c / 2);
        assert(c / pow2(0) == c);
        assert(c / 4 > 23);
        assert(c / 2 > 0xC7);
        assert(((144 + c - 0x190) as int) == sym);
    } else if sym <= 279 {
        let c = (sym - 256) as nat;
        lemma_bits_msb_len(c, 7);
        lemma_read_msb_code(bits, pos, c, 7, 7);
        assert(c / pow2(0) == c);
        assert(((256 + c) as int) == sym);
    } else {
        let c = (0xC0 + (sym - 280)) as nat;
        lemma_bits_msb_len(c, 8);
        lemma_read_msb_code(bits, pos, c, 8, 7);
        lemma_read_msb_code(bits, pos, c, 8, 8);
        assert(c / pow2(1) == c / 2);
        assert(c / pow2(0) == c);
        assert(c / 2 > 23);
        assert(((280 + c - 0xC0) as int) == sym);
    }
}

// ── The length table ─────────────────────────────────────────────────────────

proof fn lemma_length_index_from(len: int, idx: int)
    requires
        0 <= idx <= 28,
        3 <= len,
    ensures
        0 <= length_index_from(len, idx) <= idx,
        length_base(length_index_from(len, idx)) <= len,
        length_index_from(len, idx) == idx || length_base(length_index_from(len, idx) + 1) > len,
    decreases idx,
{
    if idx > 0 && length_base(idx) > len {
        lemma_length_index_from(len, idx - 1);
    }
}

/// A match length is a table base plus an extra value that fits its bits.
proof fn lemma_length_code_fits(len: int)
    requires
        3 <= len <= 258,
    ensures
        0 <= length_index(len) <= 28,
        length_base(length_index(len)) <= len,
        len - length_base(length_index(len)) < pow2(length_extra(length_index(len)) as nat),
{
    lemma2_to64();
    lemma_length_index_from(len, 28);
    let idx = length_index(len);
    assert(0 <= idx <= 28);
    if idx < 28 {
        assert(length_base(idx + 1) > len);
    }
    if idx == 0 { } else if idx == 1 { } else if idx == 2 { } else if idx == 3 { }
    else if idx == 4 { } else if idx == 5 { } else if idx == 6 { } else if idx == 7 { }
    else if idx == 8 { } else if idx == 9 { } else if idx == 10 { } else if idx == 11 { }
    else if idx == 12 { } else if idx == 13 { } else if idx == 14 { } else if idx == 15 { }
    else if idx == 16 { } else if idx == 17 { } else if idx == 18 { } else if idx == 19 { }
    else if idx == 20 { } else if idx == 21 { } else if idx == 22 { } else if idx == 23 { }
    else if idx == 24 { } else if idx == 25 { } else if idx == 26 { } else if idx == 27 { }
    else { }
}


// ── Decoding the fixed-Huffman block ─────────────────────────────────────────

proof fn lemma_subrange_split(bits: Seq<bool>, pos: int, a: Seq<bool>, b: Seq<bool>)
    requires
        0 <= pos,
        pos + a.len() + b.len() <= bits.len(),
        bits.subrange(pos, pos + (a + b).len()) == a + b,
    ensures
        bits.subrange(pos, pos + a.len()) == a,
        bits.subrange(pos + a.len(), pos + a.len() + b.len()) == b,
{
    assert(bits.subrange(pos, pos + a.len()) =~= (a + b).subrange(0, a.len() as int));
    assert((a + b).subrange(0, a.len() as int) =~= a);
    assert(bits.subrange(pos + a.len(), pos + a.len() + b.len()) =~= (a + b).subrange(
        a.len() as int,
        (a.len() + b.len()) as int,
    ));
    assert((a + b).subrange(a.len() as int, (a.len() + b.len()) as int) =~= b);
}

proof fn lemma_enc_symbol_len(sym: int)
    requires
        0 <= sym <= 287,
    ensures
        enc_symbol(sym).len() == symbol_len(sym),
{
    if sym <= 143 {
        lemma_bits_msb_len((0x30 + sym) as nat, 8);
    } else if sym <= 255 {
        lemma_bits_msb_len((0x190 + (sym - 144)) as nat, 9);
    } else if sym <= 279 {
        lemma_bits_msb_len((sym - 256) as nat, 7);
    } else {
        lemma_bits_msb_len((0xC0 + (sym - 280)) as nat, 8);
    }
}

/// Decoding one encodable token, followed by anything.
proof fn lemma_decode_token(bits: Seq<bool>, pos: int, out: Seq<u8>, t: Token)
    requires
        tok_ok(out, t),
        0 <= pos,
        pos + enc_token(t).len() <= bits.len(),
        bits.subrange(pos, pos + enc_token(t).len()) == enc_token(t),
    ensures
        enc_token(t).len() > 0,
        decode_fixed(bits, pos, out) == decode_fixed(bits, pos + enc_token(t).len(), tok_apply(out, t)),
{
    lemma2_to64();
    match t {
        Token::Literal(b) => {
            lemma_enc_symbol_len(b as int);
            lemma_decode_symbol(bits, pos, b as int);
            assert(((b as int) as u8) == b);
        },
        Token::Match(l, d) => {
            lemma_length_code_fits(l as int);
            let idx = length_index(l as int);
            let sym = 257 + idx;
            let e = (l - length_base(idx)) as nat;
            let ne = length_extra(idx) as nat;
            let dc = (if d == 1 { 0int } else { 2int }) as nat;
            let sbits = enc_symbol(sym);
            let ebits = bits_lsb(e, ne);
            let dbits = bits_msb(dc, 5);
            lemma_enc_symbol_len(sym);
            lemma_bits_lsb_len(e, ne);
            lemma_bits_msb_len(dc, 5);
            assert(enc_token(t) == sbits + ebits + dbits);
            lemma_subrange_split(bits, pos, sbits + ebits, dbits);
            lemma_subrange_split(bits, pos, sbits, ebits);
            lemma_decode_symbol(bits, pos, sym);
            let p = pos + symbol_len(sym);
            lemma_read_lsb_field(bits, p, e, ne);
            let p2 = p + ne;
            lemma_read_msb_code(bits, p2, dc, 5, 5);
            assert(dc / pow2(0) == dc);
            assert(dist_extra(dc as int) == 0);
            assert(bits.subrange(p2 + 5, p2 + 5 + 0) =~= Seq::<bool>::empty());
            assert(read_lsb(bits, p2 + 5, 0) == Some(0nat));
            assert(dist_base(dc as int) == d);
            assert(length_base(idx) + e == l);
        },
    }
}

/// Decoding the encoding of encodable tokens and end-of-block, followed by
/// anything, expands the tokens.
pub proof fn lemma_decode_tokens(bits: Seq<bool>, pos: int, out: Seq<u8>, ts: Seq<Token>)
    requires
        tokens_ok(out, ts),
        0 <= pos,
        pos + (enc_tokens(ts) + enc_symbol(256)).len() <= bits.len(),
        bits.subrange(pos, pos + (enc_tokens(ts) + enc_symbol(256)).len()) == enc_tokens(ts)
            + enc_symbol(256),
    ensures
        decode_fixed(bits, pos, out) == Some(
            (lz_expand(out, ts), pos + (enc_tokens(ts) + enc_symbol(256)).len()),
        ),
    decreases ts.len(),
{
    lemma_enc_symbol_len(256);
    if ts.len() == 0 {
        assert(enc_tokens(ts) + enc_symbol(256) =~= enc_symbol(256));
        lemma_decode_symbol(bits, pos, 256);
    } else {
        let t = ts[0];
        let rest = ts.drop_first();
        let tail = enc_tokens(rest) + enc_symbol(256);
        assert(enc_tokens(ts) + enc_symbol(256) =~= enc_token(t) + tail);
        lemma_subrange_split(bits, pos, enc_token(t), tail);
        lemma_decode_token(bits, pos, out, t);
        lemma_decode_tokens(bits, pos + enc_token(t).len(), tok_apply(out, t), rest);
    }
}


/// The fixed-Huffman body decodes to the data it encodes.
pub proof fn lemma_rle_body_inflates(data: Seq<u8>, body: Seq<u8>)
    requires
        packs(body, rle_bits(data)),
    ensures
        inflate(body) == Some(data),
{
    let bits = bytes_bits(body);
    let ts = greedy_tokens(data, 0);
    let pad = zeros((8 * body.len() - rle_bits(data).len()) as nat);
    let h1 = bits_lsb(1, 1);
    let h2 = bits_lsb(1, 2);
    assert(bits_lsb(0, 0) =~= Seq::<bool>::empty());
    assert(h1 =~= seq![true]);
    assert(bits_lsb(0, 1) =~= seq![false]);
    assert(h2 =~= seq![true, false]);
    let seg = enc_tokens(ts) + enc_symbol(256);
    assert(rle_bits(data) =~= h1 + h2 + seg);
    assert(bits =~= h1 + h2 + seg + pad);
    assert(bits.subrange(0, 1) =~= seq![true]);
    assert(bits.subrange(1, 3) =~= seq![true, false]);
    assert(lsb_value(seq![true]) == 1) by {
        assert(seq![true].drop_first() =~= Seq::<bool>::empty());
        assert(lsb_value(Seq::<bool>::empty()) == 0);
    }
    assert(lsb_value(seq![true, false]) == 1) by {
        assert(seq![true, false].drop_first() =~= seq![false]);
        assert(seq![false].drop_first() =~= Seq::<bool>::empty());
        assert(lsb_value(Seq::<bool>::empty()) == 0);
        assert(lsb_value(seq![false]) == 0);
    }
    assert(bits.subrange(3, 3 + seg.len() as int) =~= seg);
    lemma_greedy_tokens_expand(data, 0);
    assert(data.take(0) =~= Seq::<u8>::empty());
    lemma_decode_tokens(bits, 3, Seq::empty(), ts);
}


// ── Decoding stored blocks ───────────────────────────────────────────────────

proof fn lemma_bytes_bits_single(b: u8)
    ensures
        bytes_bits(seq![b]) == bits_lsb(b as nat, 8),
{
    assert(seq![b].drop_last() =~= Seq::<u8>::empty());
    assert(bytes_bits(Seq::<u8>::empty()) =~= Seq::<bool>::empty());
    assert(bytes_bits(seq![b]) =~= bits_lsb(b as nat, 8));
}

/// Two little-endian bytes hold the sixteen low bits of the value.
proof fn lemma_bytes_bits_u16(n: int)
    requires
        0 <= n < 65536,
    ensures
        bytes_bits(u16_le(n)) == bits_lsb(n as nat, 16),
{
    lemma2_to64();
    let lo = (n % 256) as u8;
    let hi = ((n / 256) % 256) as u8;
    assert(u16_le(n) =~= seq![lo] + seq![hi]);
    lemma_bytes_bits_concat(seq![lo], seq![hi]);
    lemma_bytes_bits_single(lo);
    lemma_bytes_bits_single(hi);
    assert(n == (n % 256) + 256 * (n / 256));
    lemma_bits_lsb_split((n % 256) as nat, (n / 256) as nat, 8, 8);
}

/// Whole bytes read back from their bits.
proof fn lemma_read_bytes(bits: Seq<bool>, p: int, bs: Seq<u8>)
    requires
        0 <= p,
        p + 8 * bs.len() <= bits.len(),
        bits.subrange(p, p + 8 * bs.len()) == bytes_bits(bs),
    ensures
        read_bytes(bits, p, bs.len() as int) == Some(bs),
    decreases bs.len(),
{
    if bs.len() > 0 {
        lemma2_to64();
        let b = bs[0];
        let r = bs.drop_first();
        assert(bs =~= seq![b] + r);
        lemma_bytes_bits_concat(seq![b], r);
        lemma_bytes_bits_single(b);
        lemma_bits_lsb_len(b as nat, 8);
        lemma_bytes_bits_len(r);
        assert(bits.subrange(p, p + 8) =~= bits_lsb(b as nat, 8));
        lemma_read_lsb_field(bits, p, b as nat, 8);
        let whole = bits.subrange(p, p + 8 * bs.len());
        assert(whole == bits_lsb(b as nat, 8) + bytes_bits(r));
        assert(bits.subrange(p + 8, p + 8 + 8 * r.len()) =~= whole.subrange(8, whole.len() as int));
        assert(whole.subrange(8, whole.len() as int) =~= bytes_bits(r));
        lemma_read_bytes(bits, p + 8, r);
        assert(((b as nat) as u8) == b);
        assert(seq![b] + r =~= bs);
    } else {
        assert(bs =~= Seq::<u8>::empty());
    }
}

/// One stored block at a byte boundary: header, LEN, NLEN and the bytes.
proof fn lemma_decode_stored_block(
    bits: Seq<bool>,
    p0: int,
    bf: u8,
    sub: Seq<u8>,
    out: Seq<u8>,
)
    requires
        0 <= p0,
        p0 % 8 == 0,
        bf == 0 || bf == 1,
        sub.len() < 65536,
        p0 + 40 + 8 * sub.len() <= bits.len(),
        bits.subrange(p0, p0 + 40 + 8 * sub.len()) == bits_lsb(bf as nat, 8) + bits_lsb(
            sub.len(),
            16,
        ) + bits_lsb((65535 - sub.len()) as nat, 16) + bytes_bits(sub),
    ensures
        read_lsb(bits, p0, 1) == Some(bf as nat),
        read_lsb(bits, p0 + 1, 2) == Some(0nat),
        decode_stored(bits, p0 + 3, out) == Some((out + sub, p0 + 40 + 8 * sub.len())),
{
    lemma2_to64();
    let n = sub.len() as int;
    let whole = bits.subrange(p0, p0 + 40 + 8 * n);
    let b0 = bits_lsb(bf as nat, 8);
    let b1 = bits_lsb(n as nat, 16);
    let b2 = bits_lsb((65535 - n) as nat, 16);
    let b3 = bytes_bits(sub);
    lemma_bits_lsb_len(bf as nat, 8);
    lemma_bits_lsb_len(n as nat, 16);
    lemma_bits_lsb_len((65535 - n) as nat, 16);
    lemma_bytes_bits_len(sub);
    lemma_bits_lsb_zero(7);
    assert(b0 == seq![bf == 1u8] + bits_lsb((bf / 2) as nat, 7));
    assert(b0 =~= seq![bf == 1u8] + zeros(7));
    assert(bits.subrange(p0, p0 + 1) =~= whole.subrange(0, 1));
    assert(whole.subrange(0, 1) =~= seq![bf == 1u8]);
    assert(bits.subrange(p0 + 1, p0 + 3) =~= whole.subrange(1, 3));
    assert(whole.subrange(1, 3) =~= seq![false, false]);
    assert(lsb_value(seq![bf == 1u8]) == bf as nat) by {
        assert(seq![bf == 1u8].drop_first() =~= Seq::<bool>::empty());
        assert(lsb_value(Seq::<bool>::empty()) == 0);
    }
    assert(lsb_value(seq![false, false]) == 0) by {
        assert(seq![false, false].drop_first() =~= seq![false]);
        assert(seq![false].drop_first() =~= Seq::<bool>::empty());
        assert(lsb_value(Seq::<bool>::empty()) == 0);
        assert(lsb_value(seq![false]) == 0);
    }
    let q: int = ((p0 + 3 + 7) / 8) * 8;
    assert(q == p0 + 8);
    assert(bits.subrange(q, q + 16) =~= whole.subrange(8, 24));
    assert(whole.subrange(8, 24) =~= b1);
    assert(bits.subrange(q + 16, q + 32) =~= whole.subrange(24, 40));
    assert(whole.subrange(24, 40) =~= b2);
    lemma_read_lsb_field(bits, q, n as nat, 16);
    lemma_read_lsb_field(bits, q + 16, (65535 - n) as nat, 16);
    assert(bits.subrange(q + 32, q + 32 + 8 * n) =~= whole.subrange(40, 40 + 8 * n));
    assert(whole.subrange(40, 40 + 8 * n) =~= b3);
    lemma_read_bytes(bits, q + 32, sub);
}

/// The stored blocks from `pos` on, after any whole bytes, decode to the data.
pub proof fn lemma_stored_inflates_from(data: Seq<u8>, pre: Seq<u8>, pos: int)
    requires
        0 <= pos <= data.len(),
    ensures
        inflate_from(bytes_bits(pre + stored_blocks(data, pos)), 8 * pre.len() as int, data.take(pos))
            == Some(data),
    decreases data.len() - pos,
{
    lemma2_to64();
    let end = if pos + 65535 < data.len() {
        pos + 65535
    } else {
        data.len() as int
    };
    let n = end - pos;
    let last = end == data.len();
    let bf: u8 = if last {
        1u8
    } else {
        0u8
    };
    let sub = data.subrange(pos, end);
    let blk = seq![bf] + u16_le(n) + u16_le(65535 - n) + sub;
    let rest = if last {
        Seq::<u8>::empty()
    } else {
        stored_blocks(data, end)
    };
    assert(stored_blocks(data, pos) =~= blk + rest);
    let all = pre + stored_blocks(data, pos);
    let bits = bytes_bits(all);
    let p0: int = 8 * pre.len() as int;
    assert(bits.len() >= p0 + 40 + 8 * n && bits.subrange(p0, p0 + 40 + 8 * n) == bits_lsb(
        bf as nat,
        8,
    ) + bits_lsb(n as nat, 16) + bits_lsb((65535 - n) as nat, 16) + bytes_bits(sub)) by {
        assert(all =~= pre + (seq![bf] + u16_le(n) + u16_le(65535 - n) + sub + rest));
        lemma_bytes_bits_concat(pre, seq![bf] + u16_le(n) + u16_le(65535 - n) + sub + rest);
        lemma_bytes_bits_concat(seq![bf] + u16_le(n) + u16_le(65535 - n) + sub, rest);
        lemma_bytes_bits_concat(seq![bf] + u16_le(n) + u16_le(65535 - n), sub);
        lemma_bytes_bits_concat(seq![bf] + u16_le(n), u16_le(65535 - n));
        lemma_bytes_bits_concat(seq![bf], u16_le(n));
        lemma_bytes_bits_single(bf);
        lemma_bytes_bits_u16(n);
        lemma_bytes_bits_u16(65535 - n);
        lemma_bytes_bits_len(pre);
        lemma_bytes_bits_len(sub);
        lemma_bytes_bits_len(rest);
        lemma_bits_lsb_len(bf as nat, 8);
        lemma_bits_lsb_len(n as nat, 16);
        lemma_bits_lsb_len((65535 - n) as nat, 16);
        let mid = bits_lsb(bf as nat, 8) + bits_lsb(n as nat, 16) + bits_lsb((65535 - n) as nat, 16)
            + bytes_bits(sub);
        assert(bits == bytes_bits(pre) + (mid + bytes_bits(rest)));
        assert(bits.subrange(p0, p0 + 40 + 8 * n) =~= mid);
    }
    assert(sub.len() == n);
    lemma_decode_stored_block(bits, p0, bf, sub, data.take(pos));
    assert(data.take(pos) + sub =~= data.take(end));
    if last {
        assert(data.take(end) =~= data);
    } else {
        let pre2 = pre + blk;
        assert(all =~= pre2 + stored_blocks(data, end));
        assert(8 * pre2.len() == p0 + 40 + 8 * n);
        lemma_bytes_bits_len(all);
        lemma_stored_inflates_from(data, pre2, end);
    }
}

/// The stored body decodes to the data it holds.
pub proof fn lemma_stored_body_inflates(data: Seq<u8>)
    ensures
        inflate(stored_blocks(data, 0)) == Some(data),
{
    lemma_stored_inflates_from(data, Seq::empty(), 0);
    assert(Seq::<u8>::empty() + stored_blocks(data, 0) =~= stored_blocks(data, 0));
    assert(data.take(0) =~= Seq::<u8>::empty());
}

/// The deflate body of a zlib stream: everything between the two header bytes
/// and the four trailer bytes.
pub open spec fn zlib_body(z: Seq<u8>) -> Seq<u8> {
    z.subrange(2, z.len() - 4)
}

/// A zlib stream of `data` carries the deflate header bytes 0x78 0x01, a body
/// that decodes back to `data`, and the Adler-32 of `data`.
pub proof fn lemma_zlib_stream_roundtrip(data: Seq<u8>, rle: Seq<u8>)
    requires
        packs(rle, rle_bits(data)),
    ensures
        zlib_stream(data, rle).len() >= 6,
        zlib_stream(data, rle)[0] == 0x78,
        zlib_stream(data, rle)[1] == 0x01,
        inflate(zlib_body(zlib_stream(data, rle))) == Some(data),
        zlib_stream(data, rle).subrange(
            zlib_stream(data, rle).len() - 4,
            zlib_stream(data, rle).len() as int,
        ) == u32_be(adler32_value(data)),
{
    let z = zlib_stream(data, rle);
    let stored = stored_blocks(data, 0);
    let body = if rle.len() <= stored.len() {
        rle
    } else {
        stored
    };
    assert(zlib_body(z) =~= body);
    assert(z.subrange(z.len() - 4, z.len() as int) =~= u32_be(adler32_value(data)));
    if rle.len() <= stored.len() {
        lemma_rle_body_inflates(data, rle);
    } else {
        lemma_stored_body_inflates(data);
    }
}

} // verus!
