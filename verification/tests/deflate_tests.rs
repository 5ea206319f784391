use lib::deflate::{deflate_rle, deflate_stored, zlib_compress};

// A small RFC 1951 decoder for block types 0 and 1, used to check round trips.

struct BitReader<'a> {
    data: &'a [u8],
    byte_pos: usize,
    bit_pos: u8,
}

impl<'a> BitReader<'a> {
    fn new(data: &'a [u8]) -> Self {
        BitReader { data, byte_pos: 0, bit_pos: 0 }
    }

    fn read_bit(&mut self) -> u32 {
        let byte = self.data[self.byte_pos];
        let bit = (byte >> self.bit_pos) & 1;
        self.bit_pos += 1;
        if self.bit_pos == 8 {
            self.bit_pos = 0;
            self.byte_pos += 1;
        }
        bit as u32
    }

    fn read_bits(&mut self, n: u8) -> u32 {
        let mut v = 0u32;
        for i in 0..n {
            v |= self.read_bit() << i;
        }
        v
    }

    fn read_huffman_bit_msb(&mut self, code: &mut u32) {
        *code = (*code << 1) | self.read_bit();
    }

    fn align_to_byte(&mut self) {
        if self.bit_pos != 0 {
            self.bit_pos = 0;
            self.byte_pos += 1;
        }
    }
}

fn decode_length_literal_symbol(br: &mut BitReader) -> u32 {
    let mut code = 0u32;
    for len in 1..=9u8 {
        br.read_huffman_bit_msb(&mut code);
        match len {
            7 => {
                if code <= 0b0010111 {
                    return 256 + code;
                }
            }
            8 => {
                if (0x30..=0xBF).contains(&code) {
                    return code - 0x30;
                }
                if (0xC0..=0xC7).contains(&code) {
                    return 280 + (code - 0xC0);
                }
            }
            9 => {
                if (0x190..=0x1FF).contains(&code) {
                    return 144 + (code - 0x190);
                }
            }
            _ => {}
        }
    }
    panic!("invalid fixed-huffman length/literal code");
}

fn decode_distance_symbol(br: &mut BitReader) -> u32 {
    let mut code = 0u32;
    for _ in 0..5 {
        br.read_huffman_bit_msb(&mut code);
    }
    code
}

const LENGTH_TABLE: [(u16, u8); 29] = [
    (3, 0), (4, 0), (5, 0), (6, 0), (7, 0), (8, 0), (9, 0), (10, 0), (11, 1), (13, 1), (15, 1),
    (17, 1), (19, 2), (23, 2), (27, 2), (31, 2), (35, 3), (43, 3), (51, 3), (59, 3), (67, 4),
    (83, 4), (99, 4), (115, 4), (131, 5), (163, 5), (195, 5), (227, 5), (258, 0),
];

const DIST_TABLE: [(u32, u8); 30] = [
    (1, 0), (2, 0), (3, 0), (4, 0), (5, 1), (7, 1), (9, 2), (13, 2), (17, 3), (25, 3), (33, 4),
    (49, 4), (65, 5), (97, 5), (129, 6), (193, 6), (257, 7), (385, 7), (513, 8), (769, 8),
    (1025, 9), (1537, 9), (2049, 10), (3073, 10), (4097, 11), (6145, 11), (8193, 12),
    (12289, 12), (16385, 13), (24577, 13),
];

fn inflate(data: &[u8]) -> Vec<u8> {
    let mut br = BitReader::new(data);
    let mut out: Vec<u8> = Vec::new();
    loop {
        let bfinal = br.read_bits(1);
        let btype = br.read_bits(2);
        match btype {
            0 => {
                br.align_to_byte();
                let len = br.read_bits(16) as usize;
                let _nlen = br.read_bits(16);
                for _ in 0..len {
                    out.push(br.data[br.byte_pos]);
                    br.byte_pos += 1;
                }
            }
            1 => loop {
                let symbol = decode_length_literal_symbol(&mut br);
                if symbol < 256 {
                    out.push(symbol as u8);
                } else if symbol == 256 {
                    break;
                } else {
                    let (base, extra) = LENGTH_TABLE[(symbol - 257) as usize];
                    let len = base as u32 + br.read_bits(extra);
                    let dsym = decode_distance_symbol(&mut br) as usize;
                    let (dbase, dextra) = DIST_TABLE[dsym];
                    let dist = dbase + br.read_bits(dextra);
                    let start = out.len() - dist as usize;
                    for k in 0..len as usize {
                        let b = out[start + k];
                        out.push(b);
                    }
                }
            },
            other => panic!("unsupported BTYPE {other} in test decoder"),
        }
        if bfinal == 1 {
            break;
        }
    }
    out
}

fn zlib_inflate(zlib_bytes: &[u8]) -> Vec<u8> {
    inflate(&zlib_bytes[2..zlib_bytes.len() - 4])
}

#[test]
fn roundtrip_empty() {
    let data: &[u8] = &[];
    let z = zlib_compress(data);
    assert_eq!(zlib_inflate(&z), data);
}

#[test]
fn roundtrip_single_byte() {
    let data: &[u8] = &[42];
    let z = zlib_compress(data);
    assert_eq!(zlib_inflate(&z), data);
}

#[test]
fn roundtrip_short_norun() {
    let data: &[u8] = b"AB";
    let z = zlib_compress(data);
    assert_eq!(zlib_inflate(&z), data);
}

#[test]
fn roundtrip_long_run_of_identical_bytes() {
    let data = vec![0x2Cu8; 10_000];
    let z = zlib_compress(&data);
    assert_eq!(zlib_inflate(&z), data);
    assert!(
        z.len() < 200,
        "10000 identical bytes must compress far below stored size, got {}",
        z.len()
    );
}

#[test]
fn roundtrip_run_exactly_258_and_boundary_lengths() {
    for run_len in [2usize, 3, 4, 257, 258, 259, 258 * 2, 258 * 3 + 5] {
        let data = vec![0x7Bu8; run_len];
        let z = zlib_compress(&data);
        assert_eq!(zlib_inflate(&z), data, "run_len={run_len}");
    }
}

#[test]
fn roundtrip_repeated_rgb_triple_distance_3() {
    let mut data = Vec::new();
    for _ in 0..2000 {
        data.extend_from_slice(&[40u8, 44, 52]);
    }
    let z = zlib_compress(&data);
    assert_eq!(zlib_inflate(&z), data, "round-trip must be correct");
    assert!(
        z.len() < 200,
        "6000 bytes of repeated RGB triple must compress far below raw size, got {}",
        z.len()
    );
}

#[test]
fn distance_3_beats_distance_1_for_rgb_background() {
    let mut data = Vec::new();
    for _ in 0..1000 {
        data.extend_from_slice(&[40u8, 44, 52]);
    }
    let rle = deflate_rle(&data);
    let stored = deflate_stored(&data);
    assert!(
        rle.len() < stored.len(),
        "RLE with distance=3 must beat stored for RGB-triple-repeated data: rle={} stored={}",
        rle.len(),
        stored.len()
    );
}

#[test]
fn roundtrip_mixed_literals_and_runs() {
    let mut data = Vec::new();
    data.extend_from_slice(b"Kado");
    data.extend_from_slice(&[9u8; 5]);
    data.extend_from_slice(b"XY");
    data.extend_from_slice(&[200u8; 1000]);
    data.extend_from_slice(&[1u8, 2, 1, 2, 1]);
    let z = zlib_compress(&data);
    assert_eq!(zlib_inflate(&z), data);
}

#[test]
fn roundtrip_all_256_byte_values_as_literals() {
    let data: Vec<u8> = (0..=255u8).collect();
    let z = zlib_compress(&data);
    assert_eq!(zlib_inflate(&z), data);
}

#[test]
fn compression_is_deterministic() {
    let data = vec![7u8; 5000];
    assert_eq!(zlib_compress(&data), zlib_compress(&data));
}

#[test]
fn falls_back_to_stored_when_rle_would_expand() {
    let data: Vec<u8> = (0..2000u32).map(|i| (144 + (i * 37) % 112) as u8).collect();
    let z = zlib_compress(&data);
    assert_eq!(zlib_inflate(&z), data, "round-trip must still be correct");
    let stored_equivalent = 2 + deflate_stored(&data).len() + 4;
    assert!(
        z.len() <= stored_equivalent,
        "must never exceed the stored-block fallback size: got {}, stored={}",
        z.len(),
        stored_equivalent
    );
}

#[test]
fn zlib_header_bytes_are_valid() {
    let z = zlib_compress(b"test");
    assert_eq!(z[0], 0x78);
    assert_eq!(z[1], 0x01);
    let check = (z[0] as u32) * 256 + z[1] as u32;
    assert_eq!(check % 31, 0, "zlib header FCHECK constraint violated");
}

// ── Further cases ────────────────────────────────────────────────────────────

#[test]
fn stored_blocks_split_at_65535_bytes() {
    // Two blocks: 65535 bytes (BFINAL=0), then 5 bytes (BFINAL=1).
    let data: Vec<u8> = (0..65540u32).map(|i| (i % 251) as u8).collect();
    let s = deflate_stored(&data);
    assert_eq!(s.len(), 65540 + 2 * 5);
    assert_eq!(&s[0..5], &[0, 0xFF, 0xFF, 0x00, 0x00]);
    assert_eq!(&s[5 + 65535..5 + 65535 + 5], &[1, 5, 0, 0xFA, 0xFF]);
    assert_eq!(inflate(&s), data);
}

#[test]
fn stored_body_of_empty_input_is_one_final_empty_block() {
    assert_eq!(deflate_stored(&[]), vec![1, 0, 0, 0xFF, 0xFF]);
}

#[test]
fn rle_body_of_empty_input_is_header_and_end_of_block() {
    // BFINAL=1, BTYPE=01, then the 7-bit end-of-block code 0000000: 0b0000_0011.
    assert_eq!(deflate_rle(&[]), vec![0x03, 0x00]);
}

#[test]
fn adler32_trailer_is_big_endian() {
    let z = zlib_compress(b"123456789");
    assert_eq!(&z[z.len() - 4..], &[0x09, 0x1E, 0x01, 0xDE]);
}

#[test]
fn literal_143_and_144_use_8_and_9_bit_codes() {
    // 143 = 0xBF code (8 bits), 144 = 0x190 code (9 bits): 3 + 8 + 9 + 7 = 27 bits.
    assert_eq!(deflate_rle(&[143, 144]).len(), 4);
    assert_eq!(inflate(&deflate_rle(&[143, 144])), vec![143, 144]);
}
