use lib::mesh::{digest, edge_defects, first_defect_edge, fnv1a, is_edge_manifold, EdgeDefect};

const TET: [[u32; 3]; 4] = [[0, 1, 2], [0, 2, 3], [0, 3, 1], [1, 3, 2]];

#[test]
fn edge_defects_single_triangle_has_three_boundary_edges() {
    let tri = [[0u32, 1, 2]];
    assert_eq!(edge_defects(&tri), (3, 0));
    assert!(!is_edge_manifold(&tri), "single open triangle must not be edge-manifold");
}

#[test]
fn closed_tetrahedron_is_edge_manifold() {
    assert_eq!(edge_defects(&TET), (0, 0));
    assert!(is_edge_manifold(&TET));
    assert_eq!(first_defect_edge(&TET, EdgeDefect::Boundary), None);
    assert_eq!(first_defect_edge(&TET, EdgeDefect::NonManifold), None);
}

#[test]
fn empty_mesh_has_no_defects() {
    assert_eq!(edge_defects(&[]), (0, 0));
    assert!(is_edge_manifold(&[]));
    assert_eq!(first_defect_edge(&[], EdgeDefect::Boundary), None);
}

#[test]
fn first_nonmanifold_edge_is_the_smallest_shared_by_three() {
    let tris = [[0u32, 1, 2], [1, 0, 3], [0, 1, 4]];
    assert_eq!(first_defect_edge(&tris, EdgeDefect::NonManifold), Some((0, 1)));
    let (boundary, nonmanifold) = edge_defects(&tris);
    assert_eq!(nonmanifold, 1);
    assert_eq!(boundary, 6);
    assert_eq!(first_defect_edge(&[[0u32, 1, 2]], EdgeDefect::NonManifold), None);
}

#[test]
fn first_boundary_edge_is_the_smallest_open_edge() {
    assert_eq!(first_defect_edge(&[[0u32, 1, 2]], EdgeDefect::Boundary), Some((0, 1)));
    assert_eq!(first_defect_edge(&[[7u32, 5, 9]], EdgeDefect::Boundary), Some((5, 7)));
    // Removing one face of the tetrahedron opens the three edges of that face.
    let open = [[0u32, 1, 2], [0, 2, 3], [0, 3, 1]];
    assert_eq!(edge_defects(&open), (3, 0));
    assert_eq!(first_defect_edge(&open, EdgeDefect::Boundary), Some((1, 2)));
}

#[test]
fn edge_orientation_does_not_matter() {
    let tris = [[0u32, 1, 2], [2, 1, 0]];
    assert_eq!(edge_defects(&tris), (0, 0));
    let huge = [[u32::MAX, 0, 1]];
    assert_eq!(edge_defects(&huge), (3, 0));
    assert_eq!(first_defect_edge(&huge, EdgeDefect::Boundary), Some((0, 1)));
}

fn reference_digest(vertex_bits: &[[u64; 3]], triangles: &[[u32; 3]]) -> u64 {
    let mut bytes = Vec::new();
    for v in vertex_bits {
        for c in v {
            bytes.extend_from_slice(&c.to_le_bytes());
        }
    }
    bytes.extend_from_slice(&(vertex_bits.len() as u64).to_le_bytes());
    for t in triangles {
        for i in t {
            bytes.extend_from_slice(&i.to_le_bytes());
        }
    }
    let mut h: u64 = 0xcbf2_9ce4_8422_2325;
    for b in bytes {
        h ^= b as u64;
        h = h.wrapping_mul(0x0000_0100_0000_01b3);
    }
    h
}

#[test]
fn digest_is_deterministic_and_geometry_sensitive() {
    let verts: Vec<[u64; 3]> = [[0.0f64, 0.0, 0.0], [1.0, 0.0, 0.0], [0.0, 1.0, 0.0]]
        .iter()
        .map(|p| [p[0].to_bits(), p[1].to_bits(), p[2].to_bits()])
        .collect();
    let tris = [[0u32, 1, 2]];
    let d1 = digest(&verts, &tris);
    assert_eq!(d1, digest(&verts, &tris), "same mesh, same digest");
    assert_eq!(d1, reference_digest(&verts, &tris));
    let mut moved = verts.clone();
    moved[1][0] = 2.0f64.to_bits();
    assert_ne!(d1, digest(&moved, &tris), "moving a vertex must change the digest");
    assert_ne!(d1, digest(&verts, &[[0u32, 2, 1]]), "reordering indices must change the digest");
    assert_eq!(digest(&[], &[]), fnv1a(0xcbf2_9ce4_8422_2325, &0u64.to_le_bytes()));
}

fn key(x: f64, y: f64, z: f64) -> [u64; 3] {
    [x.to_bits(), y.to_bits(), z.to_bits()]
}

#[test]
fn from_soup_with_empty_input_returns_empty_mesh() {
    let (verts, tris) = lib::weld::weld(&[]);
    assert!(verts.is_empty());
    assert!(tris.is_empty());
}

#[test]
fn welding_merges_shared_corners_in_order_of_first_appearance() {
    let o = key(0.0, 0.0, 0.0);
    let x = key(1.0, 0.0, 0.0);
    let y = key(0.0, 1.0, 0.0);
    let z = key(0.0, 0.0, 1.0);
    let (verts, tris) = lib::weld::weld(&[[o, x, y], [x, o, z]]);
    assert_eq!(verts, vec![o, x, y, z]);
    assert_eq!(tris, vec![[0, 1, 2], [1, 0, 3]]);
    assert_eq!(edge_defects(&tris), (4, 0));
}

#[test]
fn welding_drops_degenerate_triangles_and_tells_zeros_apart() {
    let o = key(0.0, 0.0, 0.0);
    let neg = key(-0.0, 0.0, 0.0);
    let x = key(1.0, 0.0, 0.0);
    let (verts, tris) = lib::weld::weld(&[[o, o, x], [o, neg, x]]);
    // -0.0 and 0.0 differ in their bit patterns, so they stay two vertices.
    assert_eq!(verts, vec![o, x, neg]);
    assert_eq!(tris, vec![[0, 2, 1]]);
}

#[test]
fn welded_tetrahedron_is_watertight() {
    let p = [
        key(1.0, 1.0, 1.0),
        key(1.0, -1.0, -1.0),
        key(-1.0, 1.0, -1.0),
        key(-1.0, -1.0, 1.0),
    ];
    let soup = [[p[0], p[1], p[2]], [p[0], p[2], p[3]], [p[0], p[3], p[1]], [p[1], p[3], p[2]]];
    let (verts, tris) = lib::weld::weld(&soup);
    assert_eq!(verts.len(), 4);
    assert_eq!(tris.len(), 4);
    assert!(is_edge_manifold(&tris));
    for (t, s) in tris.iter().zip(soup.iter()) {
        for j in 0..3 {
            assert_eq!(verts[t[j] as usize], s[j]);
        }
    }
}

#[test]
fn component_labels_give_each_piece_its_smallest_vertex() {
    let two = [[0u32, 1, 2], [0, 2, 3], [0, 3, 1], [1, 3, 2], [4, 5, 6], [4, 6, 7], [4, 7, 5], [5, 7, 6]];
    assert_eq!(lib::mesh::component_labels(8, &two), vec![0, 0, 0, 0, 4, 4, 4, 4]);
    // Triangles joined only through a later triangle end up in one piece.
    let chain = [[5u32, 6, 7], [1, 2, 3], [3, 4, 5]];
    assert_eq!(lib::mesh::component_labels(8, &chain), vec![1, 1, 1]);
    assert_eq!(lib::mesh::component_labels(3, &[]), Vec::<u32>::new());
}
