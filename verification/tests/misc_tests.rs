use lib::checksum::crc_absorb;
use lib::cli::usage_text;
use lib::mesh::{fnv1a, uf_find, uf_union};

#[test]
fn usage_text_lists_every_command() {
    let text = usage_text();
    for cmd in ["version", "selftest", "export", "screenshot", "run", "check", "mcp", "help"] {
        assert!(text.contains(cmd), "usage_text must list command '{cmd}'");
    }
    assert!(text.contains("[resolution]"), "usage_text must document the optional [resolution] arg");
}

#[test]
fn fnv1a_known_vectors() {
    const BASIS: u64 = 0xcbf2_9ce4_8422_2325;
    assert_eq!(fnv1a(BASIS, b""), BASIS);
    assert_eq!(fnv1a(BASIS, b"a"), 0xaf63_dc4c_8601_ec8c);
    assert_eq!(fnv1a(BASIS, b"foobar"), 0x8594_4171_f739_67e8);
    // Folding in two parts equals folding the whole.
    assert_eq!(fnv1a(fnv1a(BASIS, b"foo"), b"bar"), fnv1a(BASIS, b"foobar"));
}

#[test]
fn union_find_merges_to_smallest_root() {
    let mut parent: Vec<u32> = (0..6).collect();
    uf_union(&mut parent, 4, 5);
    uf_union(&mut parent, 1, 5);
    assert_eq!(uf_find(&mut parent, 5), 1);
    assert_eq!(uf_find(&mut parent, 4), 1);
    assert_eq!(uf_find(&mut parent, 0), 0);
    uf_union(&mut parent, 3, 2);
    assert_eq!(uf_find(&mut parent, 3), 2);
    uf_union(&mut parent, 2, 4);
    for x in [1u32, 2, 3, 4, 5] {
        assert_eq!(uf_find(&mut parent, x), 1);
    }
    assert_eq!(uf_find(&mut parent, 0), 0);
}

#[test]
fn union_of_same_set_changes_nothing() {
    let mut parent: Vec<u32> = vec![0, 0, 1];
    let before = parent.clone();
    uf_union(&mut parent, 2, 0);
    assert_eq!(uf_find(&mut parent, 2), 0);
    assert_eq!(uf_find(&mut before.clone(), 2), 0);
}

#[test]
fn crc_register_absorbs_in_order() {
    let whole = crc_absorb(0xFFFF_FFFF, b"123456789");
    let split = crc_absorb(crc_absorb(0xFFFF_FFFF, b"1234"), b"56789");
    assert_eq!(whole, split);
    assert_eq!(!whole, 0xCBF4_3926);
}
