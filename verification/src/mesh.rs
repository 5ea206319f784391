//! Integer building blocks of the mesh checks: the FNV-1a digest step and a
//! union-find over vertex indices.

use crate::byteorder::{push_u32_le, push_u64_le, u32_le, u64_le};
use vstd::prelude::*;

verus! {

/// FNV-1a 64-bit prime.
pub const FNV_PRIME: u64 = 0x0000_0100_0000_01b3;

/// The FNV-1a state after folding `bytes` into `h`.
pub open spec fn fnv1a_spec(h: u64, bytes: Seq<u8>) -> u64
    decreases bytes.len(),
{
    if bytes.len() == 0 {
        h
    } else {
        vstd::wrapping::u64_specs::wrapping_mul(
            fnv1a_spec(h, bytes.drop_last()) ^ (bytes.last() as u64),
            FNV_PRIME,
        )
    }
}

/// One FNV-1a 64-bit step per byte: xor the byte in, multiply by the prime
/// modulo 2^64.
pub fn fnv1a(h: u64, bytes: &[u8]) -> (r: u64)
    ensures
        r == fnv1a_spec(h, bytes@),
{
    let mut h = h;
    let ghost h0 = h;
    let mut i: usize = 0;
    while i < bytes.len()
        invariant
            i <= bytes.len(),
            h == fnv1a_spec(h0, bytes@.take(i as int)),
        decreases bytes.len() - i,
    {
        proof {
            assert(bytes@.take(i + 1).drop_last() =~= bytes@.take(i as int));
        }
        h ^= bytes[i] as u64;
        h = h.wrapping_mul(FNV_PRIME);
        i += 1;
    }
    proof {
        assert(bytes@.take(bytes.len() as int) =~= bytes@);
    }
    h
}

/// Folding two byte strings in turn is folding their concatenation, so a
/// digest can be computed piece by piece.
pub proof fn lemma_fnv1a_concat(h: u64, a: Seq<u8>, b: Seq<u8>)
    ensures
        fnv1a_spec(fnv1a_spec(h, a), b) == fnv1a_spec(h, a + b),
    decreases b.len(),
{
    if b.len() == 0 {
        assert(a + b =~= a);
    } else {
        lemma_fnv1a_concat(h, a, b.drop_last());
        assert((a + b).drop_last() =~= a + b.drop_last());
        assert((a + b).last() == b.last());
    }
}

/// A union-find forest: every parent index is in range and not above its node,
/// so following parents always reaches a root (a node that is its own parent).
pub open spec fn forest(parent: Seq<u32>) -> bool {
    forall|i: int| 0 <= i < parent.len() ==> #[trigger] parent[i] <= i
}

/// The root reached from `x`.
pub open spec fn root(parent: Seq<u32>, x: int) -> int
    decreases x,
{
    if 0 <= x < parent.len() && parent[x] < x {
        root(parent, parent[x] as int)
    } else {
        x
    }
}

proof fn lemma_root_props(parent: Seq<u32>, x: int)
    requires
        forest(parent),
        0 <= x < parent.len(),
    ensures
        0 <= root(parent, x) <= x,
        parent[root(parent, x)] == root(parent, x),
    decreases x,
{
    if parent[x] < x {
        lemma_root_props(parent, parent[x] as int);
    }
}

/// Re-pointing `x` to its grandparent keeps every root.
proof fn lemma_halving_keeps_roots(old_p: Seq<u32>, x: int, i: int)
    requires
        forest(old_p),
        0 <= x < old_p.len(),
        0 <= i < old_p.len(),
    ensures
        forest(old_p.update(x, old_p[old_p[x] as int])),
        root(old_p.update(x, old_p[old_p[x] as int]), i) == root(old_p, i),
    decreases i,
{
    let new_p = old_p.update(x, old_p[old_p[x] as int]);
    assert(forest(new_p)) by {
        assert forall|j: int| 0 <= j < new_p.len() implies #[trigger] new_p[j] <= j by {
            if j == x {
                assert(old_p[old_p[x] as int] <= old_p[x]);
            }
        }
    }
    if new_p[i] < i {
        lemma_halving_keeps_roots(old_p, x, new_p[i] as int);
        if i == x {
            let p = old_p[x] as int;
            assert(p < x);
            if old_p[p] < p {
                assert(root(old_p, p) == root(old_p, old_p[p] as int));
            }
        }
    }
}

/// Finds the root of `x`, halving the path on the way.
pub fn uf_find(parent: &mut [u32], x: u32) -> (r: u32)
    requires
        forest(old(parent)@),
        x < old(parent)@.len(),
    ensures
        forest(final(parent)@),
        final(parent)@.len() == old(parent)@.len(),
        r == root(old(parent)@, x as int),
        forall|i: int|
            0 <= i < old(parent)@.len() ==> #[trigger] root(final(parent)@, i) == root(
                old(parent)@,
                i,
            ),
{
    let ghost p0 = parent@;
    let ghost x0 = x as int;
    let mut x = x;
    while parent[x as usize] != x
        invariant
            forest(parent@),
            parent@.len() == p0.len(),
            x < parent@.len(),
            root(p0, x as int) == root(p0, x0),
            forall|i: int| 0 <= i < p0.len() ==> #[trigger] root(parent@, i) == root(p0, i),
        decreases x,
    {
        let ghost before = parent@;
        let px = parent[x as usize];
        let gx = parent[px as usize];
        parent[x as usize] = gx;
        proof {
            assert forall|i: int| 0 <= i < p0.len() implies #[trigger] root(parent@, i) == root(
                p0,
                i,
            ) by {
                lemma_halving_keeps_roots(before, x as int, i);
            }
            lemma_halving_keeps_roots(before, x as int, x as int);
            assert(before[x as int] < x);
            assert(root(before, x as int) == root(before, px as int));
            lemma_halving_keeps_roots(before, x as int, px as int);
            lemma_root_props(before, px as int);
            if before[px as int] < px {
                assert(root(before, px as int) == root(before, gx as int));
                lemma_halving_keeps_roots(before, x as int, gx as int);
            }
        }
        x = parent[x as usize];
    }
    proof {
        assert(root(parent@, x as int) == x);
    }
    x
}

/// Making the root `hi` point at the smaller root `lo` merges their sets.
proof fn lemma_link_roots(old_p: Seq<u32>, hi: int, lo: int, i: int)
    requires
        forest(old_p),
        0 <= lo < hi < old_p.len(),
        old_p[hi] == hi,
        old_p[lo] == lo,
        0 <= i < old_p.len(),
    ensures
        forest(old_p.update(hi, lo as u32)),
        root(old_p.update(hi, lo as u32), i) == (if root(old_p, i) == hi {
            lo
        } else {
            root(old_p, i)
        }),
    decreases i,
{
    let new_p = old_p.update(hi, lo as u32);
    assert(forest(new_p));
    if i == hi {
        assert(root(new_p, lo) == lo);
    } else if old_p[i] < i {
        lemma_link_roots(old_p, hi, lo, old_p[i] as int);
    } else {
        lemma_root_props(old_p, i);
    }
}

/// Merges the sets of `a` and `b`; the larger root is made to point at the
/// smaller one, so the representative of a set is always its smallest root.
pub fn uf_union(parent: &mut [u32], a: u32, b: u32)
    requires
        forest(old(parent)@),
        a < old(parent)@.len(),
        b < old(parent)@.len(),
    ensures
        forest(final(parent)@),
        final(parent)@.len() == old(parent)@.len(),
        root(final(parent)@, a as int) == root(final(parent)@, b as int),
        ({
            let ra = root(old(parent)@, a as int);
            let rb = root(old(parent)@, b as int);
            forall|i: int|
                0 <= i < old(parent)@.len() ==> #[trigger] root(final(parent)@, i) == if ra == rb {
                    root(old(parent)@, i)
                } else if root(old(parent)@, i) == ra || root(old(parent)@, i) == rb {
                    if ra < rb {
                        ra
                    } else {
                        rb
                    }
                } else {
                    root(old(parent)@, i)
                }
        }),
{
    let ghost p0 = parent@;
    let ra = uf_find(parent, a);
    let rb = uf_find(parent, b);
    proof {
        lemma_root_props(p0, a as int);
        lemma_root_props(p0, b as int);
    }
    if ra != rb {
        let (hi, lo) = if ra < rb {
            (rb, ra)
        } else {
            (ra, rb)
        };
        let ghost mid = parent@;
        proof {
            lemma_root_props(mid, hi as int);
            lemma_root_props(mid, lo as int);
            assert(root(mid, hi as int) == hi);
            assert(root(mid, lo as int) == lo);
        }
        parent[hi as usize] = lo;
        proof {
            assert forall|i: int| 0 <= i < p0.len() implies #[trigger] root(parent@, i) == (if root(
                mid,
                i,
            ) == hi {
                lo as int
            } else {
                root(mid, i)
            }) by {
                lemma_link_roots(mid, hi as int, lo as int, i);
            }
            lemma_link_roots(mid, hi as int, lo as int, 0);
        }
    }
}

/// FNV-1a 64-bit offset basis.
pub const FNV_OFFSET: u64 = 0xcbf2_9ce4_8422_2325;

/// Each vertex's three coordinate bit patterns, eight little-endian bytes each.
pub open spec fn vertex_bytes(vb: Seq<[u64; 3]>) -> Seq<u8>
    decreases vb.len(),
{
    if vb.len() == 0 {
        Seq::empty()
    } else {
        vertex_bytes(vb.drop_last()) + u64_le(vb.last()[0] as int) + u64_le(vb.last()[1] as int)
            + u64_le(vb.last()[2] as int)
    }
}

/// Each triangle's three vertex indices, four little-endian bytes each.
pub open spec fn index_bytes(tris: Seq<[u32; 3]>) -> Seq<u8>
    decreases tris.len(),
{
    if tris.len() == 0 {
        Seq::empty()
    } else {
        index_bytes(tris.drop_last()) + u32_le(tris.last()[0] as int) + u32_le(
            tris.last()[1] as int,
        ) + u32_le(tris.last()[2] as int)
    }
}

/// What the mesh fingerprint is taken over: the vertices, the vertex count
/// as eight little-endian bytes, then the triangles.
pub open spec fn digest_bytes(vb: Seq<[u64; 3]>, tris: Seq<[u32; 3]>) -> Seq<u8> {
    vertex_bytes(vb) + u64_le(vb.len() as int) + index_bytes(tris)
}

/// The mesh fingerprint: FNV-1a 64 from the offset basis over the vertex
/// coordinate bit patterns, the vertex count and the triangle indices.
pub fn digest(vertex_bits: &[[u64; 3]], triangles: &[[u32; 3]]) -> (h: u64)
    ensures
        h == fnv1a_spec(FNV_OFFSET, digest_bytes(vertex_bits@, triangles@)),
{
    let mut h: u64 = FNV_OFFSET;
    let mut buf: Vec<u8> = Vec::new();
    let mut i: usize = 0;
    while i < vertex_bits.len()
        invariant
            i <= vertex_bits@.len(),
            h == fnv1a_spec(FNV_OFFSET, vertex_bytes(vertex_bits@.take(i as int))),
        decreases vertex_bits.len() - i,
    {
        let v = vertex_bits[i];
        buf.clear();
        push_u64_le(&mut buf, v[0]);
        push_u64_le(&mut buf, v[1]);
        push_u64_le(&mut buf, v[2]);
        let ghost before = vertex_bytes(vertex_bits@.take(i as int));
        proof {
            assert(vertex_bits@.take(i + 1).drop_last() =~= vertex_bits@.take(i as int));
            assert(buf@ =~= u64_le(v[0] as int) + u64_le(v[1] as int) + u64_le(v[2] as int));
            lemma_fnv1a_concat(FNV_OFFSET, before, buf@);
            assert(before + buf@ =~= vertex_bytes(vertex_bits@.take(i + 1)));
        }
        h = fnv1a(h, buf.as_slice());
        i += 1;
    }
    proof {
        assert(vertex_bits@.take(vertex_bits@.len() as int) =~= vertex_bits@);
    }
    let ghost vb = vertex_bytes(vertex_bits@);
    buf.clear();
    push_u64_le(&mut buf, vertex_bits.len() as u64);
    proof {
        assert(buf@ =~= u64_le(vertex_bits@.len() as int));
        lemma_fnv1a_concat(FNV_OFFSET, vb, buf@);
    }
    h = fnv1a(h, buf.as_slice());
    let ghost head = vb + u64_le(vertex_bits@.len() as int);
    let mut j: usize = 0;
    while j < triangles.len()
        invariant
            j <= triangles@.len(),
            h == fnv1a_spec(FNV_OFFSET, head + index_bytes(triangles@.take(j as int))),
        decreases triangles.len() - j,
    {
        let t = triangles[j];
        buf.clear();
        push_u32_le(&mut buf, t[0]);
        push_u32_le(&mut buf, t[1]);
        push_u32_le(&mut buf, t[2]);
        let ghost before = head + index_bytes(triangles@.take(j as int));
        proof {
            assert(triangles@.take(j + 1).drop_last() =~= triangles@.take(j as int));
            assert(buf@ =~= u32_le(t[0] as int) + u32_le(t[1] as int) + u32_le(t[2] as int));
            lemma_fnv1a_concat(FNV_OFFSET, before, buf@);
            assert(before + buf@ =~= head + index_bytes(triangles@.take(j + 1)));
        }
        h = fnv1a(h, buf.as_slice());
        j += 1;
    }
    proof {
        assert(triangles@.take(triangles@.len() as int) =~= triangles@);
        assert(head + index_bytes(triangles@) =~= digest_bytes(vertex_bits@, triangles@));
    }
    h
}

} // verus!

verus! {

broadcast use vstd::std_specs::hash::group_hash_axioms;

/// The two kinds of edge defect of a triangle mesh.
#[derive(Clone, Copy, Debug, PartialEq, Eq, Structural)]
pub enum EdgeDefect {
    /// An open edge: only one triangle side lies on it.
    Boundary,
    /// A non-manifold junction: three or more triangle sides lie on it.
    NonManifold,
}

/// A use count `c` is a defect of the given kind.
pub open spec fn is_defect(kind: EdgeDefect, c: nat) -> bool {
    match kind {
        EdgeDefect::Boundary => c == 1,
        EdgeDefect::NonManifold => c > 2,
    }
}

/// The undirected edge between vertices `a` and `b`: the smaller index in the
/// high 32 bits, the larger in the low 32 bits.
pub open spec fn edge_key(a: u32, b: u32) -> u64 {
    if a < b {
        (a as int * 0x1_0000_0000 + b as int) as u64
    } else {
        (b as int * 0x1_0000_0000 + a as int) as u64
    }
}

/// The three edges of a triangle, in the order of its sides.
pub open spec fn tri_edges(t: [u32; 3]) -> Seq<u64> {
    seq![edge_key(t[0], t[1]), edge_key(t[1], t[2]), edge_key(t[2], t[0])]
}

/// The edges of all triangle sides, in order.
pub open spec fn edge_seq(tris: Seq<[u32; 3]>) -> Seq<u64>
    decreases tris.len(),
{
    if tris.len() == 0 {
        Seq::empty()
    } else {
        edge_seq(tris.drop_last()) + tri_edges(tris.last())
    }
}

/// How many times `e` occurs in `s`.
pub open spec fn occurrences(s: Seq<u64>, e: u64) -> nat
    decreases s.len(),
{
    if s.len() == 0 {
        0
    } else {
        occurrences(s.drop_last(), e) + (if s.last() == e {
            1nat
        } else {
            0nat
        })
    }
}

/// The distinct elements of `s`, in order of first occurrence.
pub open spec fn distinct<A>(s: Seq<A>) -> Seq<A>
    decreases s.len(),
{
    if s.len() == 0 {
        Seq::empty()
    } else if distinct(s.drop_last()).contains(s.last()) {
        distinct(s.drop_last())
    } else {
        distinct(s.drop_last()).push(s.last())
    }
}

/// How many of the keys `ks` are used, in `s`, a number of times that is a
/// defect of the given kind.
pub open spec fn defect_count(ks: Seq<u64>, s: Seq<u64>, kind: EdgeDefect) -> nat
    decreases ks.len(),
{
    if ks.len() == 0 {
        0
    } else {
        defect_count(ks.drop_last(), s, kind) + (if is_defect(kind, occurrences(s, ks.last())) {
            1nat
        } else {
            0nat
        })
    }
}

proof fn lemma_occurrences_push(s: Seq<u64>, k: u64, e: u64)
    ensures
        occurrences(s.push(k), e) == occurrences(s, e) + (if k == e {
            1nat
        } else {
            0nat
        }),
{
    assert(s.push(k).drop_last() =~= s);
}

proof fn lemma_occurrences_bound(s: Seq<u64>, e: u64)
    ensures
        occurrences(s, e) <= s.len(),
        occurrences(s, e) > 0 <==> s.contains(e),
    decreases s.len(),
{
    if s.len() > 0 {
        lemma_occurrences_bound(s.drop_last(), e);
        if s.drop_last().contains(e) {
            let i = choose|i: int| 0 <= i < s.drop_last().len() && s.drop_last()[i] == e;
            assert(s[i] == e);
        }
        if s.contains(e) && s.last() != e {
            let i = choose|i: int| 0 <= i < s.len() && s[i] == e;
            assert(s.drop_last()[i] == e);
        }
    }
}

pub proof fn lemma_distinct<A>(s: Seq<A>)
    ensures
        forall|e: A| distinct(s).contains(e) <==> s.contains(e),
        distinct(s).no_duplicates(),
    decreases s.len(),
{
    if s.len() > 0 {
        lemma_distinct(s.drop_last());
        let d = distinct(s.drop_last());
        assert forall|e: A| distinct(s).contains(e) <==> s.contains(e) by {
            if s.contains(e) && e != s.last() {
                let i = choose|i: int| 0 <= i < s.len() && s[i] == e;
                assert(s.drop_last()[i] == e);
            }
            if s.drop_last().contains(e) {
                let i = choose|i: int| 0 <= i < s.drop_last().len() && s.drop_last()[i] == e;
                assert(s[i] == e);
            }
            if e == s.last() {
                assert(s[s.len() - 1] == e);
            }
            if !d.contains(s.last()) && distinct(s).contains(e) {
                let i = choose|i: int| 0 <= i < d.push(s.last()).len() && d.push(s.last())[i] == e;
                if i < d.len() {
                    assert(d[i] == e);
                }
            }
            if !d.contains(s.last()) && d.contains(e) {
                let i = choose|i: int| 0 <= i < d.len() && d[i] == e;
                assert(d.push(s.last())[i] == e);
            }
            if !d.contains(s.last()) && e == s.last() {
                assert(d.push(s.last())[d.len() as int] == e);
            }
        }
    }
}

/// The edge table invariant: `keys` lists the distinct edges of `s` and
/// `counts` maps each to its number of uses.
spec fn table_inv(counts: Map<u64, u32>, keys: Seq<u64>, s: Seq<u64>) -> bool {
    &&& keys == distinct(s)
    &&& forall|e: u64| #[trigger] counts.contains_key(e) <==> s.contains(e)
    &&& forall|e: u64| s.contains(e) ==> #[trigger] counts[e] == occurrences(s, e)
}

/// Counts one more use of edge `k`.
fn add_edge(
    counts: &mut std::collections::HashMap<u64, u32>,
    keys: &mut Vec<u64>,
    k: u64,
    Ghost(s): Ghost<Seq<u64>>,
)
    requires
        table_inv(old(counts)@, old(keys)@, s),
        s.len() < u32::MAX,
    ensures
        table_inv(final(counts)@, final(keys)@, s.push(k)),
{
    proof {
        lemma_distinct(s);
        lemma_occurrences_bound(s, k);
        assert forall|e: u64| s.push(k).contains(e) <==> (s.contains(e) || e == k) by {
            if s.push(k).contains(e) && e != k {
                let i = choose|i: int| 0 <= i < s.push(k).len() && s.push(k)[i] == e;
                assert(s[i] == e);
            }
            if s.contains(e) {
                let i = choose|i: int| 0 <= i < s.len() && s[i] == e;
                assert(s.push(k)[i] == e);
            }
            if e == k {
                assert(s.push(k)[s.len() as int] == e);
            }
        }
        assert(s.push(k).drop_last() =~= s);
        assert(s.push(k).last() == k);
    }
    match counts.get(&k) {
        Some(c) => {
            let c = *c;
            counts.insert(k, c + 1);
        },
        None => {
            counts.insert(k, 1);
            keys.push(k);
        },
    }
    proof {
        assert forall|e: u64| s.push(k).contains(e) implies #[trigger] counts@[e] == occurrences(
            s.push(k),
            e,
        ) by {
            lemma_occurrences_push(s, k, e);
            if e != k {
                lemma_occurrences_bound(s, e);
            }
        }
    }
}

/// Every undirected edge of the triangles with its number of uses, and the
/// distinct edges in order of first use.
fn edge_counts(triangles: &[[u32; 3]]) -> (r: (std::collections::HashMap<u64, u32>, Vec<u64>))
    requires
        3 * triangles@.len() < u32::MAX,
    ensures
        table_inv(r.0@, r.1@, edge_seq(triangles@)),
{
    let mut counts: std::collections::HashMap<u64, u32> = std::collections::HashMap::new();
    let mut keys: Vec<u64> = Vec::new();
    let mut i: usize = 0;
    proof {
        assert(edge_seq(triangles@.take(0)) =~= Seq::<u64>::empty());
        assert(table_inv(counts@, keys@, Seq::<u64>::empty())) by {
            assert(keys@ =~= distinct(Seq::<u64>::empty()));
        }
    }
    while i < triangles.len()
        invariant
            i <= triangles@.len(),
            3 * triangles@.len() < u32::MAX,
            table_inv(counts@, keys@, edge_seq(triangles@.take(i as int))),
        decreases triangles.len() - i,
    {
        let t = triangles[i];
        let ghost s0 = edge_seq(triangles@.take(i as int));
        proof {
            lemma_edge_seq_len(triangles@.take(i as int));
            assert(triangles@.take(i + 1).drop_last() =~= triangles@.take(i as int));
            assert(triangles@.take(i + 1).last() == t);
            assert(edge_seq(triangles@.take(i + 1)) =~= s0.push(tri_edges(t)[0]).push(
                tri_edges(t)[1],
            ).push(tri_edges(t)[2]));
        }
        add_edge(&mut counts, &mut keys, key_of(t[0], t[1]), Ghost(s0));
        add_edge(&mut counts, &mut keys, key_of(t[1], t[2]), Ghost(s0.push(tri_edges(t)[0])));
        add_edge(
            &mut counts,
            &mut keys,
            key_of(t[2], t[0]),
            Ghost(s0.push(tri_edges(t)[0]).push(tri_edges(t)[1])),
        );
        i += 1;
    }
    proof {
        assert(triangles@.take(triangles@.len() as int) =~= triangles@);
    }
    (counts, keys)
}

proof fn lemma_edge_seq_len(tris: Seq<[u32; 3]>)
    ensures
        edge_seq(tris).len() == 3 * tris.len(),
    decreases tris.len(),
{
    if tris.len() > 0 {
        lemma_edge_seq_len(tris.drop_last());
    }
}

fn key_of(a: u32, b: u32) -> (k: u64)
    ensures
        k == edge_key(a, b),
{
    if a < b {
        (a as u64) * 0x1_0000_0000 + (b as u64)
    } else {
        (b as u64) * 0x1_0000_0000 + (a as u64)
    }
}

/// The edge defects of a triangle mesh: how many distinct edges are open
/// (one triangle side on them) and how many are non-manifold junctions
/// (three or more).
pub fn edge_defects(triangles: &[[u32; 3]]) -> (r: (usize, usize))
    requires
        3 * triangles@.len() < u32::MAX,
    ensures
        r.0 == defect_count(distinct(edge_seq(triangles@)), edge_seq(triangles@), EdgeDefect::Boundary),
        r.1 == defect_count(
            distinct(edge_seq(triangles@)),
            edge_seq(triangles@),
            EdgeDefect::NonManifold,
        ),
{
    let (counts, keys) = edge_counts(triangles);
    let ghost s = edge_seq(triangles@);
    let mut boundary: usize = 0;
    let mut nonmanifold: usize = 0;
    let mut i: usize = 0;
    while i < keys.len()
        invariant
            table_inv(counts@, keys@, s),
            i <= keys@.len(),
            boundary == defect_count(keys@.take(i as int), s, EdgeDefect::Boundary),
            nonmanifold == defect_count(keys@.take(i as int), s, EdgeDefect::NonManifold),
            boundary <= i,
            nonmanifold <= i,
        decreases keys.len() - i,
    {
        let k = keys[i];
        proof {
            lemma_distinct(s);
            assert(keys@.contains(k)) by {
                assert(keys@[i as int] == k);
            }
            assert(keys@.take(i + 1).drop_last() =~= keys@.take(i as int));
            assert(keys@.take(i + 1).last() == k);
        }
        let c = match counts.get(&k) {
            Some(c) => *c,
            None => 0,
        };
        if c == 1 {
            boundary += 1;
        } else if c > 2 {
            nonmanifold += 1;
        }
        i += 1;
    }
    proof {
        assert(keys@.take(keys@.len() as int) =~= keys@);
    }
    (boundary, nonmanifold)
}

/// Every edge is shared by exactly two triangles (a closed 2-manifold).
pub fn is_edge_manifold(triangles: &[[u32; 3]]) -> (r: bool)
    requires
        3 * triangles@.len() < u32::MAX,
    ensures
        r == (defect_count(distinct(edge_seq(triangles@)), edge_seq(triangles@), EdgeDefect::Boundary)
            == 0 && defect_count(
            distinct(edge_seq(triangles@)),
            edge_seq(triangles@),
            EdgeDefect::NonManifold,
        ) == 0),
{
    let (boundary, nonmanifold) = edge_defects(triangles);
    boundary == 0 && nonmanifold == 0
}

proof fn lemma_edge_key_parts(x: u32, y: u32)
    ensures
        edge_key(x, y) / 0x1_0000_0000 <= edge_key(x, y) % 0x1_0000_0000,
        edge_key(x, y) / 0x1_0000_0000 == (if x < y {
            x
        } else {
            y
        }),
        edge_key(x, y) % 0x1_0000_0000 == (if x < y {
            y
        } else {
            x
        }),
{
    let lo: int = if x < y {
        x as int
    } else {
        y as int
    };
    let hi: int = if x < y {
        y as int
    } else {
        x as int
    };
    assert(0 <= lo * 0x1_0000_0000 + hi < 0x1_0000_0000_0000_0000) by (nonlinear_arith)
        requires
            0 <= lo < 0x1_0000_0000,
            0 <= hi < 0x1_0000_0000,
    ;
    assert((lo * 0x1_0000_0000 + hi) / 0x1_0000_0000 == lo) by (nonlinear_arith)
        requires
            0 <= lo,
            0 <= hi < 0x1_0000_0000,
    ;
    assert((lo * 0x1_0000_0000 + hi) % 0x1_0000_0000 == hi) by (nonlinear_arith)
        requires
            0 <= lo,
            0 <= hi < 0x1_0000_0000,
    ;
}

proof fn lemma_edge_seq_keys(tris: Seq<[u32; 3]>, e: u64)
    requires
        edge_seq(tris).contains(e),
    ensures
        e / 0x1_0000_0000 <= e % 0x1_0000_0000,
    decreases tris.len(),
{
    let rest = edge_seq(tris.drop_last());
    let t = tris.last();
    let i = choose|i: int| 0 <= i < edge_seq(tris).len() && edge_seq(tris)[i] == e;
    if i < rest.len() {
        assert(rest[i] == e);
        lemma_edge_seq_keys(tris.drop_last(), e);
    } else {
        lemma_edge_key_parts(t[0], t[1]);
        lemma_edge_key_parts(t[1], t[2]);
        lemma_edge_key_parts(t[2], t[0]);
    }
}

/// The smallest edge, ordered by lower then higher vertex index, whose
/// number of uses is a defect of the given kind; `None` when there is none.
pub fn first_defect_edge(triangles: &[[u32; 3]], kind: EdgeDefect) -> (r: Option<(u32, u32)>)
    requires
        3 * triangles@.len() < u32::MAX,
    ensures
        match r {
            None => forall|e: u64|
                #[trigger] edge_seq(triangles@).contains(e) ==> !is_defect(
                    kind,
                    occurrences(edge_seq(triangles@), e),
                ),
            Some((a, b)) => {
                &&& a <= b
                &&& edge_seq(triangles@).contains(edge_key(a, b))
                &&& is_defect(kind, occurrences(edge_seq(triangles@), edge_key(a, b)))
                &&& forall|e: u64|
                    #[trigger] edge_seq(triangles@).contains(e) && is_defect(
                        kind,
                        occurrences(edge_seq(triangles@), e),
                    ) ==> edge_key(a, b) <= e
            },
        },
{
    let (counts, keys) = edge_counts(triangles);
    let ghost s = edge_seq(triangles@);
    proof {
        lemma_distinct(s);
    }
    let mut best: Option<u64> = None;
    let mut i: usize = 0;
    while i < keys.len()
        invariant
            table_inv(counts@, keys@, s),
            forall|e: u64| keys@.contains(e) <==> s.contains(e),
            i <= keys@.len(),
            match best {
                None => forall|j: int|
                    0 <= j < i ==> !is_defect(kind, occurrences(s, #[trigger] keys@[j])),
                Some(m) => {
                    &&& s.contains(m)
                    &&& is_defect(kind, occurrences(s, m))
                    &&& forall|j: int|
                        0 <= j < i && is_defect(kind, occurrences(s, #[trigger] keys@[j])) ==> m
                            <= keys@[j]
                },
            },
        decreases keys.len() - i,
    {
        let k = keys[i];
        proof {
            assert(keys@.contains(k)) by {
                assert(keys@[i as int] == k);
            }
        }
        let c = match counts.get(&k) {
            Some(c) => *c,
            None => 0,
        };
        let hit = match kind {
            EdgeDefect::Boundary => c == 1,
            EdgeDefect::NonManifold => c > 2,
        };
        if hit {
            best = match best {
                None => Some(k),
                Some(m) => if k < m {
                    Some(k)
                } else {
                    Some(m)
                },
            };
        }
        i += 1;
    }
    match best {
        None => {
            proof {
                assert forall|e: u64| #[trigger] s.contains(e) implies !is_defect(
                    kind,
                    occurrences(s, e),
                ) by {
                    assert(keys@.contains(e));
                    let j = choose|j: int| 0 <= j < keys@.len() && keys@[j] == e;
                }
            }
            None
        },
        Some(m) => {
            let a = (m / 0x1_0000_0000) as u32;
            let b = (m % 0x1_0000_0000) as u32;
            proof {
                lemma_edge_seq_keys(triangles@, m);
                lemma_edge_key_parts(a, b);
                assert(m == (m / 0x1_0000_0000) * 0x1_0000_0000 + m % 0x1_0000_0000) by (
                nonlinear_arith);
                assert(edge_key(a, b) == m);
                assert forall|e: u64|
                    #[trigger] s.contains(e) && is_defect(kind, occurrences(s, e)) implies m
                    <= e by {
                    assert(keys@.contains(e));
                    let j = choose|j: int| 0 <= j < keys@.len() && keys@[j] == e;
                }
            }
            Some((a, b))
        },
    }
}

proof fn lemma_defect_count_zero(ks: Seq<u64>, s: Seq<u64>, kind: EdgeDefect)
    ensures
        defect_count(ks, s, kind) == 0 <==> forall|j: int|
            0 <= j < ks.len() ==> !is_defect(kind, occurrences(s, #[trigger] ks[j])),
    decreases ks.len(),
{
    if ks.len() > 0 {
        lemma_defect_count_zero(ks.drop_last(), s, kind);
        if defect_count(ks, s, kind) == 0 {
            assert forall|j: int| 0 <= j < ks.len() implies !is_defect(
                kind,
                occurrences(s, #[trigger] ks[j]),
            ) by {
                if j < ks.len() - 1 {
                    assert(ks.drop_last()[j] == ks[j]);
                }
            }
        } else if forall|j: int| 0 <= j < ks.len() ==> !is_defect(kind, occurrences(s, #[trigger] ks[j])) {
            assert forall|j: int| 0 <= j < ks.drop_last().len() implies !is_defect(
                kind,
                occurrences(s, #[trigger] ks.drop_last()[j]),
            ) by {
                assert(ks.drop_last()[j] == ks[j]);
            }
            assert(!is_defect(kind, occurrences(s, ks[ks.len() - 1])));
        }
    }
}

/// A mesh has neither open nor non-manifold edges exactly when every edge
/// of its triangles is shared by exactly two triangle sides.
pub proof fn lemma_manifold_iff_every_edge_twice(tris: Seq<[u32; 3]>)
    ensures
        (defect_count(distinct(edge_seq(tris)), edge_seq(tris), EdgeDefect::Boundary) == 0
            && defect_count(distinct(edge_seq(tris)), edge_seq(tris), EdgeDefect::NonManifold)
            == 0) <==> forall|e: u64|
            #[trigger] edge_seq(tris).contains(e) ==> occurrences(edge_seq(tris), e) == 2,
{
    let s = edge_seq(tris);
    let d = distinct(s);
    lemma_distinct(s);
    lemma_defect_count_zero(d, s, EdgeDefect::Boundary);
    lemma_defect_count_zero(d, s, EdgeDefect::NonManifold);
    if forall|e: u64| #[trigger] s.contains(e) ==> occurrences(s, e) == 2 {
        assert forall|j: int| 0 <= j < d.len() implies occurrences(s, #[trigger] d[j]) == 2 by {
            assert(d.contains(d[j]));
            assert(s.contains(d[j]));
        }
    }
    if defect_count(d, s, EdgeDefect::Boundary) == 0 && defect_count(
        d,
        s,
        EdgeDefect::NonManifold,
    ) == 0 {
        assert forall|e: u64| #[trigger] s.contains(e) implies occurrences(s, e) == 2 by {
            assert(d.contains(e));
            let j = choose|j: int| 0 <= j < d.len() && d[j] == e;
            assert(!is_defect(EdgeDefect::Boundary, occurrences(s, d[j])));
            assert(!is_defect(EdgeDefect::NonManifold, occurrences(s, d[j])));
            lemma_occurrences_bound(s, e);
        }
    }
}

proof fn lemma_defect_count_filter(ks: Seq<u64>, s: Seq<u64>, kind: EdgeDefect)
    ensures
        defect_count(ks, s, kind) == ks.filter(|e: u64| is_defect(kind, occurrences(s, e))).len(),
    decreases ks.len(),
{
    reveal_with_fuel(Seq::filter, 1);
    if ks.len() > 0 {
        lemma_defect_count_filter(ks.drop_last(), s, kind);
    }
}

/// The open-edge count is the number of distinct edges on which exactly one
/// triangle side lies, and the non-manifold count the number of distinct
/// edges on which three or more lie; an edge with two sides is neither.
pub proof fn lemma_edge_defect_counts(tris: Seq<[u32; 3]>)
    ensures
        defect_count(distinct(edge_seq(tris)), edge_seq(tris), EdgeDefect::Boundary)
            == distinct(edge_seq(tris)).filter(|e: u64| occurrences(edge_seq(tris), e) == 1).len(),
        defect_count(distinct(edge_seq(tris)), edge_seq(tris), EdgeDefect::NonManifold)
            == distinct(edge_seq(tris)).filter(|e: u64| occurrences(edge_seq(tris), e) >= 3).len(),
        forall|c: nat| !is_defect(EdgeDefect::Boundary, c) || !is_defect(EdgeDefect::NonManifold, c),
        !is_defect(EdgeDefect::Boundary, 2) && !is_defect(EdgeDefect::NonManifold, 2),
{
    let s = edge_seq(tris);
    let d = distinct(s);
    lemma_defect_count_filter(d, s, EdgeDefect::Boundary);
    lemma_defect_count_filter(d, s, EdgeDefect::NonManifold);
    assert((|e: u64| is_defect(EdgeDefect::Boundary, occurrences(s, e))) =~= (|e: u64|
        occurrences(s, e) == 1));
    assert((|e: u64| is_defect(EdgeDefect::NonManifold, occurrences(s, e))) =~= (|e: u64|
        occurrences(s, e) >= 3));
}

/// The labels after merging the sets of `a` and `b`: both sets take the
/// smaller of their two labels.
pub open spec fn merge(lab: Seq<int>, a: int, b: int) -> Seq<int> {
    let la = lab[a];
    let lb = lab[b];
    let m = if la < lb {
        la
    } else {
        lb
    };
    lab.map_values(|l: int| if l == la || l == lb {
        m
    } else {
        l
    })
}

/// The component label of each of `n` vertices once the triangles have
/// joined their corners: every vertex starts as its own label, and each
/// triangle merges its first corner's set with its second's, then with its
/// third's.
pub open spec fn components(n: nat, tris: Seq<[u32; 3]>) -> Seq<int>
    decreases tris.len(),
{
    if tris.len() == 0 {
        Seq::new(n, |i: int| i)
    } else {
        let t = tris.last();
        let lab = components(n, tris.drop_last());
        merge(merge(lab, t[0] as int, t[1] as int), t[0] as int, t[2] as int)
    }
}

/// Every corner index of every triangle is below `n`.
pub open spec fn indices_below(tris: Seq<[u32; 3]>, n: int) -> bool {
    forall|i: int, j: int| 0 <= i < tris.len() && 0 <= j < 3 ==> (#[trigger] tris[i][j]) < n
}

proof fn lemma_components_len(n: nat, tris: Seq<[u32; 3]>)
    ensures
        components(n, tris).len() == n,
    decreases tris.len(),
{
    if tris.len() > 0 {
        lemma_components_len(n, tris.drop_last());
    }
}

/// The component label of each triangle: the label of its first corner
/// once all triangles have joined their corners (the smallest vertex index
/// of its connected piece).
pub fn component_labels(n: usize, triangles: &[[u32; 3]]) -> (r: Vec<u32>)
    requires
        n <= u32::MAX,
        indices_below(triangles@, n as int),
    ensures
        r@.len() == triangles@.len(),
        forall|i: int|
            0 <= i < triangles@.len() ==> #[trigger] r@[i] as int == components(
                n as nat,
                triangles@,
            )[triangles@[i][0] as int],
{
    let mut parent: Vec<u32> = Vec::new();
    let mut v: usize = 0;
    while v < n
        invariant
            v <= n <= u32::MAX,
            parent@.len() == v,
            forall|i: int| 0 <= i < v ==> parent@[i] == i,
        decreases n - v,
    {
        parent.push(v as u32);
        v += 1;
    }
    proof {
        assert forall|i: int| 0 <= i < n implies #[trigger] root(parent@, i) == components(
            n as nat,
            triangles@.take(0),
        )[i] by {
            assert(triangles@.take(0) =~= Seq::<[u32; 3]>::empty());
        }
    }
    let mut k: usize = 0;
    while k < triangles.len()
        invariant
            k <= triangles@.len(),
            parent@.len() == n,
            n <= u32::MAX,
            forest(parent@),
            indices_below(triangles@, n as int),
            forall|i: int|
                0 <= i < n ==> #[trigger] root(parent@, i) == components(
                    n as nat,
                    triangles@.take(k as int),
                )[i],
        decreases triangles.len() - k,
    {
        let t = triangles[k];
        proof {
            assert(t[0] < n && t[1] < n && t[2] < n) by {
                assert(triangles@[k as int] == t);
                assert(triangles@[k as int][0] < n);
                assert(triangles@[k as int][1] < n);
                assert(triangles@[k as int][2] < n);
            }
            assert(triangles@.take(k + 1).drop_last() =~= triangles@.take(k as int));
            assert(triangles@.take(k + 1).last() == t);
            lemma_components_len(n as nat, triangles@.take(k as int));
        }
        let ghost lab0 = components(n as nat, triangles@.take(k as int));
        let ghost p0 = parent@;
        proof {
            lemma_root_props(p0, t[0] as int);
        }
        let r = uf_find(parent.as_mut_slice(), t[0]);
        proof {
            assert(root(p0, r as int) == r);
            assert(root(parent@, r as int) == r);
        }
        let ghost p1 = parent@;
        uf_union(parent.as_mut_slice(), r, t[1]);
        let ghost lab1 = merge(lab0, t[0] as int, t[1] as int);
        proof {
            assert forall|i: int| 0 <= i < n implies #[trigger] root(parent@, i) == lab1[i] by {
                assert(root(p1, r as int) == r);
            }
        }
        let ghost p2 = parent@;
        uf_union(parent.as_mut_slice(), r, t[2]);
        proof {
            let lab2 = merge(lab1, t[0] as int, t[2] as int);
            assert(lab1[r as int] == lab1[t[0] as int]) by {
                assert(root(p2, r as int) == root(p2, t[0] as int));
            }
            assert forall|i: int| 0 <= i < n implies #[trigger] root(parent@, i) == lab2[i] by {}
            assert(components(n as nat, triangles@.take(k + 1)) == lab2);
        }
        k += 1;
    }
    proof {
        assert(triangles@.take(triangles@.len() as int) =~= triangles@);
    }
    let mut out: Vec<u32> = Vec::new();
    let mut i: usize = 0;
    while i < triangles.len()
        invariant
            i <= triangles@.len(),
            out@.len() == i,
            parent@.len() == n,
            forest(parent@),
            indices_below(triangles@, n as int),
            forall|x: int|
                0 <= x < n ==> #[trigger] root(parent@, x) == components(n as nat, triangles@)[x],
            forall|j: int|
                0 <= j < i ==> #[trigger] out@[j] as int == components(
                    n as nat,
                    triangles@,
                )[triangles@[j][0] as int],
        decreases triangles.len() - i,
    {
        let t0 = triangles[i][0];
        proof {
            assert(triangles@[i as int][0] < n);
        }
        let r = uf_find(parent.as_mut_slice(), t0);
        out.push(r);
        i += 1;
    }
    out
}

/// Once all triangles have joined their corners, the three corners of every
/// triangle carry the same component label, so a triangle never straddles
/// two components.
pub proof fn lemma_triangle_corners_share_label(n: nat, tris: Seq<[u32; 3]>)
    requires
        indices_below(tris, n as int),
    ensures
        forall|i: int|
            0 <= i < tris.len() ==> {
                let lab = components(n, tris);
                &&& lab[#[trigger] tris[i][0] as int] == lab[tris[i][1] as int]
                &&& lab[tris[i][0] as int] == lab[tris[i][2] as int]
            },
    decreases tris.len(),
{
    if tris.len() > 0 {
        let rest = tris.drop_last();
        let t = tris.last();
        assert(indices_below(rest, n as int)) by {
            assert forall|i: int, j: int| 0 <= i < rest.len() && 0 <= j < 3 implies (
            #[trigger] rest[i][j]) < n by {
                assert(rest[i] == tris[i]);
            }
        }
        lemma_triangle_corners_share_label(n, rest);
        lemma_components_len(n, rest);
        let lab0 = components(n, rest);
        let lab1 = merge(lab0, t[0] as int, t[1] as int);
        let lab2 = merge(lab1, t[0] as int, t[2] as int);
        assert(t[0] < n && t[1] < n && t[2] < n) by {
            assert(tris[tris.len() - 1][0] < n);
            assert(tris[tris.len() - 1][1] < n);
            assert(tris[tris.len() - 1][2] < n);
        }
        assert forall|i: int| 0 <= i < tris.len() implies {
            &&& lab2[#[trigger] tris[i][0] as int] == lab2[tris[i][1] as int]
            &&& lab2[tris[i][0] as int] == lab2[tris[i][2] as int]
        } by {
            let u = tris[i];
            assert(u[0] < n && u[1] < n && u[2] < n);
            if i < rest.len() {
                assert(rest[i] == u);
            }
        }
    }
}

} // verus!
