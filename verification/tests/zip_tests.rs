use lib::zip::{build_zip, crc32};

#[test]
fn zip_has_local_and_eocd_signatures() {
    let z = build_zip(&[("a.txt", b"hello"), ("b/c.txt", b"world")]);
    assert_eq!(&z[0..4], &[0x50, 0x4B, 0x03, 0x04]);
    assert!(
        z.windows(4).any(|w| w == [0x50, 0x4B, 0x05, 0x06]),
        "EOCD signature must be present"
    );
    assert!(z.windows(7).any(|w| w == b"b/c.txt"));
}

#[test]
fn zip_is_deterministic() {
    let e: &[(&str, &[u8])] = &[("x", b"123"), ("y", b"456")];
    assert_eq!(build_zip(e), build_zip(e));
}

#[test]
fn eocd_reports_entry_count() {
    let z = build_zip(&[("a", b"1"), ("b", b"2"), ("c", b"3")]);
    let pos = z.windows(4).position(|w| w == [0x50, 0x4B, 0x05, 0x06]).unwrap();
    let total = u16::from_le_bytes(z[pos + 10..pos + 12].try_into().unwrap());
    assert_eq!(total, 3);
}

#[test]
fn zip_crc32_matches_known_vectors() {
    assert_eq!(crc32(b"123456789"), 0xCBF4_3926);
    assert_eq!(crc32(b""), 0x0000_0000);
}

#[test]
fn local_header_and_central_directory_crc_are_identical() {
    let entries: &[(&str, &[u8])] = &[("a.xml", b"<hello/>"), ("b.bin", b"\x00\x01\x02\x03\xff")];
    let z = build_zip(entries);
    let lfh0_crc = u32::from_le_bytes(z[14..18].try_into().unwrap());
    let lfh0_size = 30 + 5 + 8;
    let lfh1_crc = u32::from_le_bytes(z[lfh0_size + 14..lfh0_size + 18].try_into().unwrap());
    let eocd_pos = z.windows(4).rposition(|w| w == [0x50, 0x4B, 0x05, 0x06]).unwrap();
    let cd_start = u32::from_le_bytes(z[eocd_pos + 16..eocd_pos + 20].try_into().unwrap()) as usize;
    let cd0_crc = u32::from_le_bytes(z[cd_start + 16..cd_start + 20].try_into().unwrap());
    let cd0_size = 46 + 5;
    let cd1_crc = u32::from_le_bytes(
        z[cd_start + cd0_size + 16..cd_start + cd0_size + 20].try_into().unwrap(),
    );
    assert_eq!(lfh0_crc, cd0_crc, "entry 0: local header CRC must match central directory CRC");
    assert_eq!(lfh1_crc, cd1_crc, "entry 1: local header CRC must match central directory CRC");
    assert_eq!(lfh0_crc, crc32(b"<hello/>"));
    assert_eq!(lfh1_crc, crc32(b"\x00\x01\x02\x03\xff"));
}

#[test]
fn central_directory_offsets_point_to_valid_local_headers() {
    let entries: &[(&str, &[u8])] = &[
        ("s.txt", b"hi"),
        ("medium_name.xml", b"<x/>"),
        ("very_long_filename_for_offset_check.bin", b"binarydata"),
    ];
    let z = build_zip(entries);
    let eocd_pos = z.windows(4).rposition(|w| w == [0x50, 0x4B, 0x05, 0x06]).unwrap();
    let cd_count = u16::from_le_bytes(z[eocd_pos + 10..eocd_pos + 12].try_into().unwrap());
    assert_eq!(cd_count as usize, entries.len(), "EOCD entry count must match");
    let cd_start = u32::from_le_bytes(z[eocd_pos + 16..eocd_pos + 20].try_into().unwrap()) as usize;
    let mut cd_pos = cd_start;
    for (i, (name, _)) in entries.iter().enumerate() {
        let cd_sig = u32::from_le_bytes(z[cd_pos..cd_pos + 4].try_into().unwrap());
        assert_eq!(cd_sig, 0x0201_4b50, "entry {i}: central directory signature");
        let lfh_off = u32::from_le_bytes(z[cd_pos + 42..cd_pos + 46].try_into().unwrap()) as usize;
        let lfh_sig = u32::from_le_bytes(z[lfh_off..lfh_off + 4].try_into().unwrap());
        assert_eq!(lfh_sig, 0x0403_4b50, "entry {i}: offset {lfh_off} must point to valid LFH");
        let name_len = u16::from_le_bytes(z[lfh_off + 26..lfh_off + 28].try_into().unwrap()) as usize;
        let lfh_name = std::str::from_utf8(&z[lfh_off + 30..lfh_off + 30 + name_len]).unwrap();
        assert_eq!(lfh_name, *name, "entry {i}: LFH name must match");
        cd_pos += 46 + name.len();
    }
}

// ── Further cases ────────────────────────────────────────────────────────────

#[test]
fn empty_archive_is_only_the_end_record() {
    let z = build_zip(&[]);
    assert_eq!(z, vec![0x50, 0x4B, 0x05, 0x06, 0, 0, 0, 0, 0, 0, 0, 0, 0, 0, 0, 0, 0, 0, 0, 0, 0, 0]);
}

#[test]
fn single_entry_archive_layout() {
    let z = build_zip(&[("n", b"xy")]);
    // local record 30 + 1 + 2, central record 46 + 1, end record 22.
    assert_eq!(z.len(), 33 + 47 + 22);
    assert_eq!(&z[18..22], &[2, 0, 0, 0]);
    assert_eq!(&z[26..28], &[1, 0]);
    assert_eq!(&z[30..33], b"nxy");
    // Central directory starts at 33; the end record gives its size and offset.
    assert_eq!(&z[80 + 12..80 + 16], &[47, 0, 0, 0]);
    assert_eq!(&z[80 + 16..80 + 20], &[33, 0, 0, 0]);
}

#[test]
fn multibyte_names_are_stored_as_utf8() {
    let z = build_zip(&[("é", b"")]);
    assert_eq!(&z[26..28], &[2, 0]);
    assert_eq!(&z[30..32], &[0xC3, 0xA9]);
}
