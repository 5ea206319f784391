use lib::tools::{base64_encode, sandbox_write_path};

#[test]
fn sandbox_accepts_project_relative_paths() {
    assert!(sandbox_write_path("out.stl").is_ok());
    assert!(sandbox_write_path("sub/dir/out.stl").is_ok());
    assert!(sandbox_write_path("./out.stl").is_ok());
}

#[test]
fn sandbox_rejects_traversal_and_absolute() {
    assert!(sandbox_write_path("../escape.stl").is_err());
    assert!(sandbox_write_path("a/../../escape.stl").is_err());
    assert!(sandbox_write_path("/etc/passwd").is_err());
    assert!(sandbox_write_path("/tmp/x.stl").is_err());
    assert!(sandbox_write_path("").is_err());
    assert!(sandbox_write_path("   ").is_err(), "whitespace-only path must be rejected");
    assert!(sandbox_write_path("\t\n").is_err(), "whitespace-only path must be rejected");
}

#[test]
fn sandbox_applies_uniformly_across_all_export_formats() {
    for ext in ["stl", "glb", "3mf", "html"] {
        assert!(
            sandbox_write_path(&format!("model.{ext}")).is_ok(),
            "valid .{ext} path must be accepted"
        );
        assert!(
            sandbox_write_path(&format!("sub/dir/model.{ext}")).is_ok(),
            "nested .{ext} path must be accepted"
        );
        assert!(
            sandbox_write_path(&format!("../escape.{ext}")).is_err(),
            ".{ext} traversal must be rejected"
        );
        assert!(
            sandbox_write_path(&format!("/tmp/escape.{ext}")).is_err(),
            ".{ext} absolute path must be rejected"
        );
    }
}

#[test]
fn sandbox_backslash_path_is_literal_filename_on_unix_not_traversal() {
    let r = sandbox_write_path("a\\..\\escape.stl");
    assert!(r.is_ok(), "on Unix backslash is a literal filename char, not traversal");
    assert!(sandbox_write_path("a/../escape.stl").is_err());
}

#[test]
fn base64_matches_rfc4648_vectors_including_padding() {
    assert_eq!(base64_encode(b""), "");
    assert_eq!(base64_encode(b"f"), "Zg==");
    assert_eq!(base64_encode(b"fo"), "Zm8=");
    assert_eq!(base64_encode(b"foo"), "Zm9v");
    assert_eq!(base64_encode(b"foob"), "Zm9vYg==");
    assert_eq!(base64_encode(b"fooba"), "Zm9vYmE=");
    assert_eq!(base64_encode(b"foobar"), "Zm9vYmFy");
    assert_eq!(base64_encode(&[0xFF]), "/w==");
    assert_eq!(base64_encode(&[0xFF, 0xFF, 0xFF]), "////");
    assert_eq!(base64_encode(&[0x00]), "AA==");
    for n in 0..20usize {
        let data = vec![0xABu8; n];
        assert_eq!(base64_encode(&data).len() % 4, 0, "base64 length must be a multiple of 4 (n={n})");
    }
}

#[test]
fn base64_encode_long_input_uses_valid_alphabet_and_is_deterministic() {
    let data: Vec<u8> = (0u8..=255).cycle().take(1000).collect();
    let b64 = base64_encode(&data);
    assert_eq!(b64.len() % 4, 0, "length must be multiple of 4 for 1000-byte input");
    assert_eq!(b64.len(), 1336, "expected length 1336 for 1000 bytes");
    for &ch in b64.as_bytes() {
        assert!(
            ch.is_ascii_alphabetic() || ch.is_ascii_digit() || ch == b'+' || ch == b'/' || ch == b'=',
            "invalid Base64 character: {}",
            ch as char
        );
    }
    let trimmed = b64.trim_end_matches('=');
    assert!(!trimmed.contains('='), "padding '=' must only appear at end");
    assert_eq!(base64_encode(&data), b64, "base64 must be deterministic");
}

// ── Further cases ────────────────────────────────────────────────────────────

#[test]
fn sandbox_error_messages_name_the_path() {
    assert_eq!(sandbox_write_path(""), Err("empty output path".to_string()));
    assert_eq!(
        sandbox_write_path("/abs"),
        Err("absolute paths are not permitted (project-dir only): /abs".to_string())
    );
    assert_eq!(
        sandbox_write_path("x/../y"),
        Err("path traversal (\"..\") is not permitted: x/../y".to_string())
    );
    assert_eq!(sandbox_write_path("..hidden/..x"), Ok("..hidden/..x".to_string()));
    assert_eq!(sandbox_write_path("a/.."), Err("path traversal (\"..\") is not permitted: a/..".to_string()));
    assert!(sandbox_write_path("\u{3000}").is_err());
}

#[test]
fn base64_every_alphabet_position() {
    let data: Vec<u8> = vec![0x00, 0x10, 0x83, 0x10, 0x51, 0x87, 0x20, 0x92, 0x8B, 0x30, 0xD3, 0x8F,
        0x41, 0x14, 0x93, 0x51, 0x55, 0x97, 0x61, 0x96, 0x9B, 0x71, 0xD7, 0x9F, 0x82, 0x18, 0xA3,
        0x92, 0x59, 0xA7, 0xA2, 0x9A, 0xAB, 0xB2, 0xDB, 0xAF, 0xC3, 0x1C, 0xB3, 0xD3, 0x5D, 0xB7,
        0xE3, 0x9E, 0xBB, 0xF3, 0xDF, 0xBF];
    assert_eq!(
        base64_encode(&data),
        "ABCDEFGHIJKLMNOPQRSTUVWXYZabcdefghijklmnopqrstuvwxyz0123456789+/"
    );
}
