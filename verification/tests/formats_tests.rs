use lib::formats::{glb_container, stl_header, stl_triangle_count, MAX_STL_TRIANGLES};

#[test]
fn empty_mesh_produces_valid_header_only_stl() {
    let bytes = stl_header(0);
    assert_eq!(bytes.len(), 84, "empty mesh STL must be exactly header+count (84 bytes)");
    assert_eq!(&bytes[..15], b"kado binary stl");
    assert!(bytes[15..80].iter().all(|&b| b == 0));
    let count = u32::from_le_bytes(bytes[80..84].try_into().unwrap());
    assert_eq!(count, 0, "empty mesh triangle count field must be 0");
    assert_eq!(stl_triangle_count(&bytes), Ok(0));
}

#[test]
fn header_and_count_are_correct() {
    let mut bytes = stl_header(3);
    assert_eq!(u32::from_le_bytes(bytes[80..84].try_into().unwrap()), 3);
    bytes.extend_from_slice(&[7u8; 150]);
    assert_eq!(stl_triangle_count(&bytes), Ok(3));
}

#[test]
fn decode_rejects_length_mismatch_and_ascii() {
    let mut bytes = stl_header(2);
    bytes.extend_from_slice(&[0u8; 90]);
    assert_eq!(
        stl_triangle_count(&bytes),
        Err("binary STL length mismatch: got 174 bytes, but 2 triangles need 184 \
             (ASCII STL is not supported; the file may be ASCII or truncated)"
            .to_string())
    );
    let ascii = b"solid teapot\nfacet normal 0 0 0\n".to_vec();
    assert_eq!(
        stl_triangle_count(&ascii),
        Err("binary STL too short: 32 bytes < 84 (80-byte header + 4-byte count)".to_string())
    );
    assert!(stl_triangle_count(&[0u8; 40]).unwrap_err().contains("too short"));
}

#[test]
fn decode_rejects_excessive_triangle_count_before_allocating() {
    let mut header = vec![0u8; 84];
    let huge = (MAX_STL_TRIANGLES as u32).saturating_add(1);
    header[80..84].copy_from_slice(&huge.to_le_bytes());
    assert_eq!(
        stl_triangle_count(&header),
        Err("binary STL declares 5000001 triangles, over the limit 5000000".to_string())
    );
    header[80..84].copy_from_slice(&u32::MAX.to_le_bytes());
    assert!(stl_triangle_count(&header).unwrap_err().contains("over the limit"));
}

#[test]
fn glb_container_layout() {
    let json = b"{\"a\":1}";
    let bin = [1u8, 2, 3, 4, 5];
    let out = glb_container(json, &bin);
    assert_eq!(&out[0..4], b"glTF");
    assert_eq!(u32::from_le_bytes(out[4..8].try_into().unwrap()), 2);
    assert_eq!(u32::from_le_bytes(out[8..12].try_into().unwrap()) as usize, out.len());
    assert_eq!(u32::from_le_bytes(out[12..16].try_into().unwrap()), 8);
    assert_eq!(&out[16..20], b"JSON");
    assert_eq!(&out[20..27], json);
    assert_eq!(out[27], b' ');
    assert_eq!(u32::from_le_bytes(out[28..32].try_into().unwrap()), 8);
    assert_eq!(&out[32..36], b"BIN\0");
    assert_eq!(&out[36..41], &bin);
    assert_eq!(&out[41..44], &[0, 0, 0]);
    assert_eq!(out.len(), 44);
}

#[test]
fn glb_container_of_aligned_chunks_adds_no_padding() {
    let out = glb_container(b"[12]", &[]);
    assert_eq!(out.len(), 12 + 8 + 4 + 8);
    assert_eq!(u32::from_le_bytes(out[8..12].try_into().unwrap()), 32);
    assert_eq!(u32::from_le_bytes(out[24..28].try_into().unwrap()), 0);
}
