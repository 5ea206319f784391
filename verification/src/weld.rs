//! Welding a triangle soup into an indexed mesh: corners whose coordinates
//! have the same bit patterns become one vertex, numbered in order of first
//! appearance, and triangles with two equal corners are dropped.

use crate::mesh::{distinct, lemma_distinct};
use std::collections::HashMap;
use vstd::prelude::*;

verus! {

broadcast use {vstd::std_specs::hash::group_hash_axioms, vstd::array::group_array_axioms};

/// The corners of a triangle soup, three per triangle, in order.
pub open spec fn corners(soup: Seq<[[u64; 3]; 3]>) -> Seq<[u64; 3]>
    decreases soup.len(),
{
    if soup.len() == 0 {
        Seq::empty()
    } else {
        corners(soup.drop_last()) + seq![soup.last()[0], soup.last()[1], soup.last()[2]]
    }
}

/// The position of the first occurrence of `k` in `s`.
pub open spec fn first_index<A>(s: Seq<A>, k: A) -> int
    decreases s.len(),
{
    if s.len() == 0 {
        0
    } else if s.drop_last().contains(k) {
        first_index(s.drop_last(), k)
    } else {
        s.len() - 1
    }
}

/// A welded triangle: the positions in `d` of the three corners of `t`.
pub open spec fn tri_indices(d: Seq<[u64; 3]>, t: [[u64; 3]; 3]) -> Seq<u32> {
    seq![first_index(d, t[0]) as u32, first_index(d, t[1]) as u32, first_index(d, t[2]) as u32]
}

/// The triangles of `soup` numbered by the vertex list `d`, without those
/// that have two equal corners.
pub open spec fn welded_tris(soup: Seq<[[u64; 3]; 3]>, d: Seq<[u64; 3]>) -> Seq<Seq<u32>>
    decreases soup.len(),
{
    if soup.len() == 0 {
        Seq::empty()
    } else {
        let t = soup.last();
        let rest = welded_tris(soup.drop_last(), d);
        if t[0] != t[1] && t[1] != t[2] && t[0] != t[2] {
            rest.push(tri_indices(d, t))
        } else {
            rest
        }
    }
}

/// The second and third coordinate bits of a corner as one key.
pub open spec fn pack(k: [u64; 3]) -> u128 {
    (k[1] as int * 0x1_0000_0000_0000_0000 + k[2] as int) as u128
}

proof fn lemma_pack(a: [u64; 3], b: [u64; 3])
    ensures
        pack(a) == pack(b) ==> a[1] == b[1] && a[2] == b[2],
{
    let (y1, z1, y2, z2) = (a[1] as int, a[2] as int, b[1] as int, b[2] as int);
    assert(0 <= y1 * 0x1_0000_0000_0000_0000 + z1 < 0x1_0000_0000_0000_0000_0000_0000_0000_0000)
        by (nonlinear_arith)
        requires
            0 <= y1 < 0x1_0000_0000_0000_0000,
            0 <= z1 < 0x1_0000_0000_0000_0000,
    ;
    assert(0 <= y2 * 0x1_0000_0000_0000_0000 + z2 < 0x1_0000_0000_0000_0000_0000_0000_0000_0000)
        by (nonlinear_arith)
        requires
            0 <= y2 < 0x1_0000_0000_0000_0000,
            0 <= z2 < 0x1_0000_0000_0000_0000,
    ;
    if pack(a) == pack(b) {
        assert(y1 * 0x1_0000_0000_0000_0000 + z1 == y2 * 0x1_0000_0000_0000_0000 + z2);
        assert(y1 == y2 && z1 == z2) by (nonlinear_arith)
            requires
                y1 * 0x1_0000_0000_0000_0000 + z1 == y2 * 0x1_0000_0000_0000_0000 + z2,
                0 <= z1 < 0x1_0000_0000_0000_0000,
                0 <= z2 < 0x1_0000_0000_0000_0000,
        ;
    }
}

proof fn lemma_first_index<A>(s: Seq<A>, k: A)
    requires
        s.contains(k),
    ensures
        0 <= first_index(s, k) < s.len(),
        s[first_index(s, k)] == k,
        forall|j: int| 0 <= j < first_index(s, k) ==> s[j] != k,
    decreases s.len(),
{
    if s.drop_last().contains(k) {
        lemma_first_index(s.drop_last(), k);
        assert forall|j: int| 0 <= j < first_index(s, k) implies s[j] != k by {
            assert(s[j] == s.drop_last()[j]);
        }
    } else {
        let j = choose|j: int| 0 <= j < s.len() && s[j] == k;
        if j < s.len() - 1 {
            assert(s.drop_last()[j] == k);
        }
        assert forall|i: int| 0 <= i < s.len() - 1 implies s[i] != k by {
            if s[i] == k {
                assert(s.drop_last()[i] == k);
            }
        }
    }
}

proof fn lemma_first_index_unique<A>(s: Seq<A>, j: int)
    requires
        s.no_duplicates(),
        0 <= j < s.len(),
    ensures
        first_index(s, s[j]) == j,
{
    assert(s.contains(s[j]));
    lemma_first_index(s, s[j]);
}

proof fn lemma_first_index_push<A>(s: Seq<A>, x: A, k: A)
    requires
        s.contains(k),
    ensures
        first_index(s.push(x), k) == first_index(s, k),
{
    assert(s.push(x).drop_last() =~= s);
}

/// The lookup table invariant: `m` maps the first coordinate bits, then the
/// packed other two, of each vertex of `v` to its position, and holds
/// nothing else.
spec fn index_inv(m: Map<u64, HashMap<u128, u32>>, v: Seq<[u64; 3]>) -> bool {
    &&& v.no_duplicates()
    &&& v.len() <= u32::MAX
    &&& forall|x: u64, yz: u128|
        #![trigger m[x]@.contains_key(yz)]
        m.contains_key(x) && m[x]@.contains_key(yz) ==> {
            &&& 0 <= m[x]@[yz] < v.len()
            &&& v[m[x]@[yz] as int][0] == x
            &&& pack(v[m[x]@[yz] as int]) == yz
        }
    &&& forall|j: int|
        0 <= j < v.len() ==> {
            &&& m.contains_key(#[trigger] v[j][0])
            &&& m[v[j][0]]@.contains_key(pack(v[j]))
            &&& m[v[j][0]]@[pack(v[j])] == j
        }
}

/// The vertex number of corner `k`, adding it as a new vertex when it is
/// not known yet.
fn vertex_of(
    index: &mut HashMap<u64, HashMap<u128, u32>>,
    verts: &mut Vec<[u64; 3]>,
    k: [u64; 3],
    Ghost(s): Ghost<Seq<[u64; 3]>>,
) -> (i: u32)
    requires
        index_inv(old(index)@, old(verts)@),
        old(verts)@ == distinct(s),
        s.len() < u32::MAX,
    ensures
        index_inv(final(index)@, final(verts)@),
        final(verts)@ == distinct(s.push(k)),
        i == first_index(final(verts)@, k),
        final(verts)@.contains(k),
{
    proof {
        lemma_distinct(s);
        assert(s.push(k).drop_last() =~= s);
        assert(s.push(k).last() == k);
        lemma_distinct_len(s);
    }
    let x = k[0];
    let yz: u128 = (k[1] as u128) * 0x1_0000_0000_0000_0000 + (k[2] as u128);
    assert(yz == pack(k));
    let ghost m0 = index@;
    let ghost v0 = verts@;
    let mut inner: HashMap<u128, u32> = match index.remove(&x) {
        Some(m) => m,
        None => HashMap::new(),
    };
    let ghost had_x = m0.contains_key(x);
    assert(had_x ==> inner@ == m0[x]@);
    assert(!had_x ==> inner@ == Map::<u128, u32>::empty());
    let i: u32 = match inner.get(&yz) {
        Some(found) => {
            let found = *found;
            proof {
                let j = found as int;
                assert(m0[x]@.contains_key(yz));
                assert(0 <= j < v0.len());
                lemma_pack(v0[j], k);
                assert(v0[j] =~= k);
                assert(v0.contains(k));
                lemma_first_index_unique(v0, j);
            }
            found
        },
        None => {
            proof {
                assert forall|j: int| 0 <= j < v0.len() implies v0[j] != k by {
                    if v0[j] == k {
                        assert(m0.contains_key(v0[j][0]));
                        assert(m0[x]@.contains_key(pack(v0[j])));
                    }
                }
                assert(!v0.contains(k));
            }
            let n = verts.len() as u32;
            inner.insert(yz, n);
            verts.push(k);
            proof {
                assert(verts@ == v0.push(k));
                assert(verts@.no_duplicates()) by {
                    assert forall|a: int, b: int|
                        0 <= a < b < verts@.len() implies verts@[a] != verts@[b] by {
                        if b == v0.len() {
                            assert(verts@[a] == v0[a]);
                        }
                    }
                }
                lemma_first_index_unique(verts@, v0.len() as int);
            }
            n
        },
    };
    index.insert(x, inner);
    proof {
        let m1 = index@;
        let v1 = verts@;
        assert forall|x2: u64, yz2: u128|
            #![trigger m1[x2]@.contains_key(yz2)]
            m1.contains_key(x2) && m1[x2]@.contains_key(yz2) implies {
            &&& 0 <= m1[x2]@[yz2] < v1.len()
            &&& v1[m1[x2]@[yz2] as int][0] == x2
            &&& pack(v1[m1[x2]@[yz2] as int]) == yz2
        } by {
            if x2 != x {
                assert(m0[x2]@.contains_key(yz2));
                assert(v1[m0[x2]@[yz2] as int] == v0[m0[x2]@[yz2] as int]);
            } else if yz2 != yz || had_x && m0[x]@.contains_key(yz) {
                assert(m0[x]@.contains_key(yz2));
                assert(v1[m0[x]@[yz2] as int] == v0[m0[x]@[yz2] as int]);
            }
        }
        assert forall|j: int| 0 <= j < v1.len() implies {
            &&& m1.contains_key(#[trigger] v1[j][0])
            &&& m1[v1[j][0]]@.contains_key(pack(v1[j]))
            &&& m1[v1[j][0]]@[pack(v1[j])] == j
        } by {
            if j < v0.len() {
                assert(v1[j] == v0[j]);
                assert(m0.contains_key(v0[j][0]));
                if v0[j][0] == x {
                    assert(m0[x]@.contains_key(pack(v0[j])));
                    if pack(v0[j]) == yz {
                        lemma_pack(v0[j], k);
                        assert(v0[j] =~= k);
                    }
                }
            }
        }
    }
    i
}

proof fn lemma_distinct_len<A>(s: Seq<A>)
    ensures
        distinct(s).len() <= s.len(),
    decreases s.len(),
{
    if s.len() > 0 {
        lemma_distinct_len(s.drop_last());
    }
}

proof fn lemma_welded_grow(sp: Seq<[[u64; 3]; 3]>, v: Seq<[u64; 3]>, k: [u64; 3])
    requires
        forall|c: [u64; 3]| corners(sp).contains(c) ==> v.contains(c),
    ensures
        welded_tris(sp, v.push(k)) == welded_tris(sp, v),
    decreases sp.len(),
{
    if sp.len() > 0 {
        let t = sp.last();
        let c = corners(sp);
        let rest = corners(sp.drop_last());
        assert(c == rest + seq![t[0], t[1], t[2]]);
        assert forall|e: [u64; 3]| rest.contains(e) implies v.contains(e) by {
            let j = choose|j: int| 0 <= j < rest.len() && rest[j] == e;
            assert(c[j] == e);
        }
        lemma_welded_grow(sp.drop_last(), v, k);
        assert(c[rest.len() as int] == t[0]);
        assert(c[rest.len() as int + 1] == t[1]);
        assert(c[rest.len() as int + 2] == t[2]);
        lemma_first_index_push(v, k, t[0]);
        lemma_first_index_push(v, k, t[1]);
        lemma_first_index_push(v, k, t[2]);
        assert(tri_indices(v.push(k), t) =~= tri_indices(v, t));
    }
}

/// Welds a triangle soup given by the bit patterns of its corner
/// coordinates: the distinct corners in order of first appearance, and each
/// triangle as the numbers of its corners, without triangles that have two
/// equal corners.
pub fn weld(soup: &[[[u64; 3]; 3]]) -> (r: (Vec<[u64; 3]>, Vec<[u32; 3]>))
    requires
        3 * soup@.len() < u32::MAX,
    ensures
        r.0@ == distinct(corners(soup@)),
        r.1@.map_values(|t: [u32; 3]| t@) == welded_tris(soup@, r.0@),
        forall|k: int|
            0 <= k < r.1@.len() ==> {
                let t = #[trigger] r.1@[k];
                &&& t[0] != t[1] && t[1] != t[2] && t[0] != t[2]
                &&& t[0] < r.0@.len() && t[1] < r.0@.len() && t[2] < r.0@.len()
            },
{
    let mut index: HashMap<u64, HashMap<u128, u32>> = HashMap::new();
    let mut verts: Vec<[u64; 3]> = Vec::new();
    let mut tris: Vec<[u32; 3]> = Vec::new();
    let mut i: usize = 0;
    proof {
        assert(soup@.take(0) =~= Seq::<[[u64; 3]; 3]>::empty());
        assert(verts@ =~= distinct(corners(soup@.take(0))));
        assert(tris@.map_values(|t: [u32; 3]| t@) =~= welded_tris(soup@.take(0), verts@));
    }
    while i < soup.len()
        invariant
            i <= soup@.len(),
            3 * soup@.len() < u32::MAX,
            index_inv(index@, verts@),
            verts@ == distinct(corners(soup@.take(i as int))),
            tris@.map_values(|t: [u32; 3]| t@) == welded_tris(soup@.take(i as int), verts@),
        decreases soup.len() - i,
    {
        let t = soup[i];
        let ghost s0 = corners(soup@.take(i as int));
        let ghost v0 = verts@;
        let ghost w0 = welded_tris(soup@.take(i as int), v0);
        proof {
            lemma_corners_len(soup@.take(i as int));
            lemma_distinct(s0);
            assert(soup@.take(i + 1).drop_last() =~= soup@.take(i as int));
            assert(soup@.take(i + 1).last() == t);
            assert(corners(soup@.take(i + 1)) =~= s0.push(t[0]).push(t[1]).push(t[2]));
        }
        let a = vertex_of(&mut index, &mut verts, t[0], Ghost(s0));
        let ghost v1 = verts@;
        proof {
            lemma_distinct(s0.push(t[0]));
            lemma_distinct_step(s0, t[0]);
        }
        let b = vertex_of(&mut index, &mut verts, t[1], Ghost(s0.push(t[0])));
        let ghost v2 = verts@;
        proof {
            lemma_distinct(s0.push(t[0]).push(t[1]));
            lemma_distinct_step(s0.push(t[0]), t[1]);
        }
        let c = vertex_of(&mut index, &mut verts, t[2], Ghost(s0.push(t[0]).push(t[1])));
        let ghost v3 = verts@;
        proof {
            lemma_distinct_step(s0.push(t[0]).push(t[1]), t[2]);
            lemma_distinct(s0.push(t[0]).push(t[1]).push(t[2]));
            // the numbers given out stay valid as the vertex list grows
            lemma_push_keeps(v1, t[1]);
            lemma_push_keeps(v2, t[2]);
            assert(v2.contains(t[0]));
            assert(v3.contains(t[0]));
            assert(v3.contains(t[1]));
            if v2 != v1 {
                lemma_first_index_push(v1, t[1], t[0]);
            }
            if v3 != v2 {
                lemma_first_index_push(v2, t[2], t[0]);
                lemma_first_index_push(v2, t[2], t[1]);
            }
            assert(a == first_index(v3, t[0]));
            assert(b == first_index(v3, t[1]));
            assert(c == first_index(v3, t[2]));
            lemma_first_index(v3, t[0]);
            lemma_first_index(v3, t[1]);
            lemma_first_index(v3, t[2]);
            // numbering the earlier triangles does not change as vertices are added
            assert forall|e: [u64; 3]| corners(soup@.take(i as int)).contains(e) implies v0.contains(
                e,
            ) by {}
            if v1 != v0 {
                lemma_welded_grow(soup@.take(i as int), v0, t[0]);
            }
            lemma_push_keeps(v0, t[0]);
            assert forall|e: [u64; 3]| corners(soup@.take(i as int)).contains(e) implies v1.contains(
                e,
            ) by {}
            if v2 != v1 {
                lemma_welded_grow(soup@.take(i as int), v1, t[1]);
            }
            assert forall|e: [u64; 3]| corners(soup@.take(i as int)).contains(e) implies v2.contains(
                e,
            ) by {}
            if v3 != v2 {
                lemma_welded_grow(soup@.take(i as int), v2, t[2]);
            }
            assert(welded_tris(soup@.take(i as int), v3) == w0);
        }
        if a != b && b != c && a != c {
            let ghost before = tris@;
            tris.push([a, b, c]);
            proof {
                assert(t[0] != t[1] && t[1] != t[2] && t[0] != t[2]);
                assert([a, b, c]@ =~= tri_indices(v3, t));
                assert(tris@.map_values(|u: [u32; 3]| u@) =~= before.map_values(|u: [u32; 3]| u@).push(
                    tri_indices(v3, t),
                ));
            }
        } else {
            proof {
                assert(!(t[0] != t[1] && t[1] != t[2] && t[0] != t[2]));
            }
        }
        i += 1;
    }
    proof {
        assert(soup@.take(soup@.len() as int) =~= soup@);
        lemma_weld_drops_degenerate(soup@);
        assert forall|k: int| 0 <= k < tris@.len() implies {
            let t = #[trigger] tris@[k];
            &&& t[0] != t[1] && t[1] != t[2] && t[0] != t[2]
            &&& t[0] < verts@.len() && t[1] < verts@.len() && t[2] < verts@.len()
        } by {
            assert(tris@.map_values(|u: [u32; 3]| u@)[k] == tris@[k]@);
            assert(tris@[k]@[0] == tris@[k][0]);
            assert(tris@[k]@[1] == tris@[k][1]);
            assert(tris@[k]@[2] == tris@[k][2]);
        }
    }
    (verts, tris)
}

proof fn lemma_push_keeps<A>(s: Seq<A>, x: A)
    ensures
        forall|e: A| s.contains(e) ==> #[trigger] s.push(x).contains(e),
{
    assert forall|e: A| s.contains(e) implies #[trigger] s.push(x).contains(e) by {
        let j = choose|j: int| 0 <= j < s.len() && s[j] == e;
        assert(s.push(x)[j] == e);
    }
}

proof fn lemma_corners_len(sp: Seq<[[u64; 3]; 3]>)
    ensures
        corners(sp).len() == 3 * sp.len(),
    decreases sp.len(),
{
    if sp.len() > 0 {
        lemma_corners_len(sp.drop_last());
    }
}

proof fn lemma_distinct_step<A>(s: Seq<A>, k: A)
    ensures
        distinct(s.push(k)) == (if distinct(s).contains(k) {
            distinct(s)
        } else {
            distinct(s).push(k)
        }),
{
    assert(s.push(k).drop_last() =~= s);
    assert(s.push(k).last() == k);
}

/// Welding merges every repeated corner: the vertex list holds each corner
/// once, and every corner of every triangle is numbered by the vertex equal
/// to it.
pub proof fn lemma_weld_merges(soup: Seq<[[u64; 3]; 3]>)
    ensures
        distinct(corners(soup)).no_duplicates(),
        forall|i: int, j: int|
            0 <= i < soup.len() && 0 <= j < 3 ==> 0 <= #[trigger] first_index(
                distinct(corners(soup)),
                soup[i][j],
            ) < distinct(corners(soup)).len() && distinct(corners(soup))[first_index(
                distinct(corners(soup)),
                soup[i][j],
            )] == soup[i][j],
{
    let c = corners(soup);
    let d = distinct(c);
    lemma_distinct(c);
    assert forall|i: int, j: int| 0 <= i < soup.len() && 0 <= j < 3 implies 0
        <= #[trigger] first_index(d, soup[i][j]) < d.len() && d[first_index(d, soup[i][j])]
        == soup[i][j] by {
        lemma_corners_index(soup, i, j);
        assert(c.contains(soup[i][j]));
        lemma_first_index(d, soup[i][j]);
    }
}

proof fn lemma_welded_tris_proper(soup: Seq<[[u64; 3]; 3]>, d: Seq<[u64; 3]>)
    requires
        d.len() <= u32::MAX,
        forall|i: int, j: int| 0 <= i < soup.len() && 0 <= j < 3 ==> d.contains(#[trigger] soup[i][j]),
    ensures
        forall|k: int|
            0 <= k < welded_tris(soup, d).len() ==> {
                let w = #[trigger] welded_tris(soup, d)[k];
                &&& w.len() == 3
                &&& w[0] != w[1] && w[1] != w[2] && w[0] != w[2]
                &&& w[0] < d.len() && w[1] < d.len() && w[2] < d.len()
            },
        welded_tris(soup, d).len() <= soup.len(),
    decreases soup.len(),
{
    if soup.len() > 0 {
        let rest = soup.drop_last();
        assert forall|i: int, j: int| 0 <= i < rest.len() && 0 <= j < 3 implies d.contains(
            #[trigger] rest[i][j],
        ) by {
            assert(rest[i] == soup[i]);
        }
        lemma_welded_tris_proper(rest, d);
        let t = soup.last();
        assert(d.contains(soup[soup.len() - 1][0]));
        assert(d.contains(soup[soup.len() - 1][1]));
        assert(d.contains(soup[soup.len() - 1][2]));
        lemma_first_index(d, t[0]);
        lemma_first_index(d, t[1]);
        lemma_first_index(d, t[2]);
    }
}

/// Welding keeps no degenerate triangle: every welded triangle has three
/// pairwise distinct vertex numbers, each naming a vertex of the welded
/// vertex list, and there are never more welded triangles than soup ones.
pub proof fn lemma_weld_drops_degenerate(soup: Seq<[[u64; 3]; 3]>)
    requires
        3 * soup.len() < u32::MAX,
    ensures
        forall|k: int|
            0 <= k < welded_tris(soup, distinct(corners(soup))).len() ==> {
                let w = #[trigger] welded_tris(soup, distinct(corners(soup)))[k];
                &&& w.len() == 3
                &&& w[0] != w[1] && w[1] != w[2] && w[0] != w[2]
                &&& w[0] < distinct(corners(soup)).len() && w[1] < distinct(corners(soup)).len()
                    && w[2] < distinct(corners(soup)).len()
            },
        welded_tris(soup, distinct(corners(soup))).len() <= soup.len(),
{
    let c = corners(soup);
    let d = distinct(c);
    lemma_distinct(c);
    lemma_distinct_len(c);
    lemma_corners_len(soup);
    assert forall|i: int, j: int| 0 <= i < soup.len() && 0 <= j < 3 implies d.contains(
        #[trigger] soup[i][j],
    ) by {
        lemma_corners_index(soup, i, j);
        assert(c.contains(soup[i][j]));
    }
    lemma_welded_tris_proper(soup, d);
}

proof fn lemma_corners_index(soup: Seq<[[u64; 3]; 3]>, i: int, j: int)
    requires
        0 <= i < soup.len(),
        0 <= j < 3,
    ensures
        corners(soup).len() == 3 * soup.len(),
        corners(soup)[3 * i + j] == soup[i][j],
    decreases soup.len(),
{
    lemma_corners_len(soup);
    lemma_corners_len(soup.drop_last());
    if i < soup.len() - 1 {
        lemma_corners_index(soup.drop_last(), i, j);
        assert(corners(soup)[3 * i + j] == corners(soup.drop_last())[3 * i + j]);
    }
}

} // verus!
