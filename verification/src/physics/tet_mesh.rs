//! Topology of a tetrahedral soft-body mesh: which nodes carry mass, the
//! unique edge set (distance constraints), and the boundary faces (the
//! rendered surface: faces that belong to exactly one tetrahedron).

use vstd::prelude::*;
use crate::seq_count::count_true;
use std::collections::HashSet;
use crate::seq_count::{occurrences, once_positions, positions_occurring_once, lemma_once_positions_map};
use crate::physics::polytope::lemma_once_positions_bounded;

verus! {

broadcast use vstd::std_specs::hash::group_hash_axioms;

/// Some tetrahedron of `tets` has `v` as a corner.
pub open spec fn touches(tets: Seq<[u32; 4]>, v: int) -> bool {
    exists|t: int, m: int| 0 <= t < tets.len() && 0 <= m < 4 && #[trigger] tets[t]@[m] == v
}

/// Which nodes are a corner of some tetrahedron (only those carry mass), and
/// how many there are, counted as at least one so the mass can always be
/// divided by it.
pub fn used_nodes(node_count: usize, tets: &Vec<[u32; 4]>) -> (r: (Vec<bool>, usize))
    requires
        forall|t: int, m: int| 0 <= t < tets.len() && 0 <= m < 4 ==> #[trigger] tets[t]@[m] < node_count,
    ensures
        r.0@.len() == node_count,
        forall|v: int| 0 <= v < node_count ==> (#[trigger] r.0@[v] <==> touches(tets@, v)),
        r.1 == if count_true(r.0@) == 0 {
            1
        } else {
            count_true(r.0@)
        },
{
    let mut used: Vec<bool> = Vec::with_capacity(node_count);
    let mut v: usize = 0;
    while v < node_count
        invariant
            v <= node_count,
            used@.len() == v,
            forall|w: int| 0 <= w < v ==> !#[trigger] used@[w],
        decreases node_count - v,
    {
        used.push(false);
        v = v + 1;
    }
    let mut t: usize = 0;
    while t < tets.len()
        invariant
            t <= tets.len(),
            used@.len() == node_count,
            forall|a: int, m: int| 0 <= a < tets.len() && 0 <= m < 4 ==> #[trigger] tets[a]@[m] < node_count,
            forall|w: int|
                0 <= w < node_count ==> (#[trigger] used@[w] <==> exists|a: int, m: int|
                    0 <= a < t && 0 <= m < 4 && #[trigger] tets[a]@[m] == w),
        decreases tets.len() - t,
    {
        let tet = tets[t];
        let mut m: usize = 0;
        while m < 4
            invariant
                m <= 4,
                t < tets.len(),
                tet == tets[t as int],
                used@.len() == node_count,
                forall|a: int, q: int| 0 <= a < tets.len() && 0 <= q < 4 ==> #[trigger] tets[a]@[q] < node_count,
                forall|w: int|
                    0 <= w < node_count ==> (#[trigger] used@[w] <==> (exists|a: int, q: int|
                        0 <= a < t && 0 <= q < 4 && #[trigger] tets[a]@[q] == w) || exists|q: int|
                        0 <= q < m && #[trigger] tet@[q] == w),
            decreases 4 - m,
        {
            let node = tet[m] as usize;
            used.set(node, true);
            proof {
                assert(tet@[m as int] == node);
            }
            m = m + 1;
        }
        proof {
            assert forall|w: int| 0 <= w < node_count implies (#[trigger] used@[w] <==> exists|a: int, q: int|
                0 <= a < t + 1 && 0 <= q < 4 && #[trigger] tets[a]@[q] == w) by {
                if exists|q: int| 0 <= q < 4 && #[trigger] tet@[q] == w {
                    let q = choose|q: int| 0 <= q < 4 && #[trigger] tet@[q] == w;
                    assert(tets[t as int]@[q] == w);
                }
                if exists|a: int, q: int| 0 <= a < t + 1 && 0 <= q < 4 && #[trigger] tets[a]@[q] == w {
                    let (a, q) = choose|a: int, q: int| 0 <= a < t + 1 && 0 <= q < 4 && #[trigger] tets[a]@[q] == w;
                    if a == t {
                        assert(tet@[q] == w);
                    }
                }
            }
        }
        t = t + 1;
    }
    let mut count: usize = 0;
    let mut v: usize = 0;
    while v < node_count
        invariant
            v <= node_count,
            used@.len() == node_count,
            count as nat == count_true(used@.take(v as int)),
            count <= v,
        decreases node_count - v,
    {
        proof {
            assert(used@.take(v + 1).drop_last() =~= used@.take(v as int));
        }
        if used[v] {
            count = count + 1;
        }
        v = v + 1;
    }
    proof {
        assert(used@.take(node_count as int) =~= used@);
    }
    (used, if count == 0 { 1 } else { count })
}

/// Edge `e` (0..6) of tetrahedron `t`, smaller node first.
pub open spec fn tet_edge(t: Seq<u32>, e: int) -> (u32, u32) {
    let (a, b) = if e == 0 {
        (t[0], t[1])
    } else if e == 1 {
        (t[0], t[2])
    } else if e == 2 {
        (t[0], t[3])
    } else if e == 3 {
        (t[1], t[2])
    } else if e == 4 {
        (t[1], t[3])
    } else {
        (t[2], t[3])
    };
    if a < b {
        (a, b)
    } else {
        (b, a)
    }
}

/// The six edges of every tetrahedron, tetrahedron after tetrahedron.
pub open spec fn all_tet_edges(tets: Seq<[u32; 4]>) -> Seq<(u32, u32)>
    decreases tets.len(),
{
    if tets.len() == 0 {
        Seq::empty()
    } else {
        all_tet_edges(tets.drop_last()) + Seq::new(6, |e: int| tet_edge(tets.last()@, e))
    }
}

/// `s` with every repeated element dropped, keeping first occurrences.
pub open spec fn dedup<A>(s: Seq<A>) -> Seq<A>
    decreases s.len(),
{
    if s.len() == 0 {
        Seq::empty()
    } else {
        let d = dedup(s.drop_last());
        if d.contains(s.last()) {
            d
        } else {
            d.push(s.last())
        }
    }
}

/// Deduplication keeps exactly the elements of the input, each once.
pub proof fn lemma_dedup<A>(s: Seq<A>)
    ensures
        forall|x: A| dedup(s).contains(x) <==> s.contains(x),
        dedup(s).no_duplicates(),
    decreases s.len(),
{
    if s.len() > 0 {
        let init = s.drop_last();
        lemma_dedup(init);
        let d = dedup(init);
        assert forall|x: A| dedup(s).contains(x) <==> s.contains(x) by {
            assert(d.contains(x) <==> init.contains(x));
            if s.contains(x) {
                let i = choose|i: int| 0 <= i < s.len() && s[i] == x;
                if i < s.len() - 1 {
                    assert(init[i] == x);
                }
                if d.contains(x) {
                    let k = choose|k: int| 0 <= k < d.len() && d[k] == x;
                    assert(dedup(s)[k] == x);
                } else {
                    assert(i == s.len() - 1);
                    assert(dedup(s)[d.len() as int] == x);
                }
            }
            if dedup(s).contains(x) {
                if d.contains(x) {
                    let i = choose|i: int| 0 <= i < init.len() && init[i] == x;
                    assert(s[i] == x);
                } else {
                    let i = choose|i: int| 0 <= i < dedup(s).len() && dedup(s)[i] == x;
                    assert(i == d.len());
                    assert(x == s.last());
                    assert(s[s.len() - 1] == x);
                }
            }
        }
        if !d.contains(s.last()) {
            assert forall|i: int, j: int| 0 <= i < j < dedup(s).len() implies dedup(s)[i] != dedup(s)[j] by {
                if j == d.len() {
                    assert(dedup(s)[i] == d[i]);
                }
            }
        }
    }
}

/// Injective packing of an ordered pair of node indices.
pub open spec fn pack_pair(e: (u32, u32)) -> u64 {
    (e.0 as int * 0x1_0000_0000 + e.1 as int) as u64
}

proof fn lemma_pack_pair_injective(u: (u32, u32), v: (u32, u32))
    ensures
        pack_pair(u) == pack_pair(v) ==> u == v,
{
    let (a, b) = u;
    let (c, d) = v;
    assert(0 <= a as int * 0x1_0000_0000 + b as int <= u64::MAX) by (nonlinear_arith)
        requires a <= u32::MAX, b <= u32::MAX;
    assert(0 <= c as int * 0x1_0000_0000 + d as int <= u64::MAX) by (nonlinear_arith)
        requires c <= u32::MAX, d <= u32::MAX;
    if pack_pair(u) == pack_pair(v) {
        assert(a == c && b == d) by (nonlinear_arith)
            requires
                a as int * 0x1_0000_0000 + b as int == c as int * 0x1_0000_0000 + d as int,
                0 <= b < 0x1_0000_0000,
                0 <= d < 0x1_0000_0000,
                0 <= a,
                0 <= c,
        ;
    }
}

fn pack_pair_exec(e: (u32, u32)) -> (k: u64)
    ensures
        k == pack_pair(e),
{
    assert(e.0 as int * 0x1_0000_0000 + e.1 as int <= u64::MAX) by (nonlinear_arith)
        requires e.0 <= u32::MAX, e.1 <= u32::MAX;
    (e.0 as u64) * 0x1_0000_0000u64 + (e.1 as u64)
}

fn tet_edge_exec(t: [u32; 4], e: usize) -> (r: (u32, u32))
    requires
        e < 6,
    ensures
        r == tet_edge(t@, e as int),
{
    let (a, b) = if e == 0 {
        (t[0], t[1])
    } else if e == 1 {
        (t[0], t[2])
    } else if e == 2 {
        (t[0], t[3])
    } else if e == 3 {
        (t[1], t[2])
    } else if e == 4 {
        (t[1], t[3])
    } else {
        (t[2], t[3])
    };
    if a < b {
        (a, b)
    } else {
        (b, a)
    }
}

/// The unique edges of the tetrahedra (the six of each, smaller node first),
/// in the order they are first met; each becomes one distance constraint.
pub fn unique_edges(tets: &Vec<[u32; 4]>) -> (r: Vec<(u32, u32)>)
    ensures
        r@ == dedup(all_tet_edges(tets@)),
{
    let mut seen: HashSet<u64> = HashSet::new();
    let mut out: Vec<(u32, u32)> = Vec::new();
    let ghost mut all: Seq<(u32, u32)> = Seq::empty();
    let mut t: usize = 0;
    while t < tets.len()
        invariant
            t <= tets.len(),
            all == all_tet_edges(tets@.take(t as int)),
            out@ == dedup(all),
            forall|e: (u32, u32)| #[trigger] seen@.contains(pack_pair(e)) <==> all.contains(e),
            forall|k: u64| #[trigger] seen@.contains(k) ==> exists|e: (u32, u32)| pack_pair(e) == k,
        decreases tets.len() - t,
    {
        let tet = tets[t];
        let ghost start = all;
        let mut e: usize = 0;
        while e < 6
            invariant
                e <= 6,
                t < tets.len(),
                tet == tets@[t as int],
                all == start + Seq::new(e as nat, |q: int| tet_edge(tet@, q)),
                out@ == dedup(all),
                forall|x: (u32, u32)| #[trigger] seen@.contains(pack_pair(x)) <==> all.contains(x),
                forall|k: u64| #[trigger] seen@.contains(k) ==> exists|x: (u32, u32)| pack_pair(x) == k,
            decreases 6 - e,
        {
            let edge = tet_edge_exec(tet, e);
            let key = pack_pair_exec(edge);
            let ghost prev = all;
            proof {
                all = all.push(edge);
                assert(all.drop_last() =~= prev);
                assert(all =~= start + Seq::new((e + 1) as nat, |q: int| tet_edge(tet@, q)));
            }
            if !seen.contains(&key) {
                seen.insert(key);
                out.push(edge);
                proof {
                    assert(!prev.contains(edge));
                    lemma_dedup(prev);
                }
            } else {
                proof {
                    assert(prev.contains(edge));
                    lemma_dedup(prev);
                }
            }
            proof {
                assert forall|x: (u32, u32)| #[trigger] seen@.contains(pack_pair(x)) <==> all.contains(x) by {
                    lemma_pack_pair_injective(x, edge);
                    if all.contains(x) && x != edge {
                        let i = choose|i: int| 0 <= i < all.len() && all[i] == x;
                        assert(prev[i] == x);
                    }
                    if prev.contains(x) {
                        let i = choose|i: int| 0 <= i < prev.len() && prev[i] == x;
                        assert(all[i] == x);
                    }
                    if x == edge {
                        assert(all[all.len() - 1] == x);
                    }
                }
            }
            e = e + 1;
        }
        proof {
            assert(tets@.take(t + 1).drop_last() =~= tets@.take(t as int));
            assert(all =~= all_tet_edges(tets@.take(t + 1)));
        }
        t = t + 1;
    }
    proof {
        assert(tets@.take(tets.len() as int) =~= tets@);
    }
    out
}

/// Face `f` (0..4) of tetrahedron `t` with the corner opposite it: the face
/// omits corner `f`.
pub open spec fn tet_face(t: Seq<u32>, f: int) -> (Seq<u32>, u32) {
    if f == 0 {
        (seq![t[1], t[2], t[3]], t[0])
    } else if f == 1 {
        (seq![t[0], t[2], t[3]], t[1])
    } else if f == 2 {
        (seq![t[0], t[1], t[3]], t[2])
    } else {
        (seq![t[0], t[1], t[2]], t[3])
    }
}

/// The four faces of every tetrahedron, tetrahedron after tetrahedron.
pub open spec fn all_tet_faces(tets: Seq<[u32; 4]>) -> Seq<(Seq<u32>, u32)>
    decreases tets.len(),
{
    if tets.len() == 0 {
        Seq::empty()
    } else {
        all_tet_faces(tets.drop_last()) + Seq::new(4, |f: int| tet_face(tets.last()@, f))
    }
}

/// The three indices in ascending order.
pub open spec fn sort3(a: u32, b: u32, c: u32) -> (u32, u32, u32) {
    if a <= b {
        if b <= c {
            (a, b, c)
        } else if a <= c {
            (a, c, b)
        } else {
            (c, a, b)
        }
    } else {
        if a <= c {
            (b, a, c)
        } else if b <= c {
            (b, c, a)
        } else {
            (c, b, a)
        }
    }
}

/// A face's identity: its vertices in ascending order, so the same triangle
/// met from two tetrahedra (in any winding) has the same key.
pub open spec fn face_key(face: (Seq<u32>, u32)) -> (u32, u32, u32) {
    sort3(face.0[0], face.0[1], face.0[2])
}

/// The boundary of a tetrahedral mesh: every face whose vertex triple occurs
/// in exactly one tetrahedron, with that tetrahedron's winding and its corner
/// opposite the face, in the order the faces are met.
pub open spec fn boundary(tets: Seq<[u32; 4]>) -> Seq<(Seq<u32>, u32)> {
    let faces = all_tet_faces(tets);
    let keys = faces.map_values(|f: (Seq<u32>, u32)| face_key(f));
    once_positions(keys, keys.len()).map_values(|p: usize| faces[p as int])
}

/// Every corner of every tetrahedron is below `n`.
pub open spec fn corners_below(tets: Seq<[u32; 4]>, n: int) -> bool {
    forall|t: int, m: int| 0 <= t < tets.len() && 0 <= m < 4 ==> #[trigger] tets[t]@[m] < n
}

/// The four corners of every tetrahedron are pairwise different.
pub open spec fn corners_distinct(tets: Seq<[u32; 4]>) -> bool {
    forall|t: int, a: int, b: int|
        0 <= t < tets.len() && 0 <= a < b < 4 ==> #[trigger] tets[t]@[a] != #[trigger] tets[t]@[b]
}

/// Each edge of the tetrahedra joins two different nodes below `n`, the
/// smaller first.
proof fn lemma_all_edges_in_range(tets: Seq<[u32; 4]>, n: int)
    requires
        corners_below(tets, n),
        corners_distinct(tets),
    ensures
        forall|k: int| 0 <= k < all_tet_edges(tets).len() ==> {
            let e = #[trigger] all_tet_edges(tets)[k];
            e.0 < e.1 < n
        },
    decreases tets.len(),
{
    if tets.len() > 0 {
        let init = tets.drop_last();
        assert forall|t: int, m: int| 0 <= t < init.len() && 0 <= m < 4 implies #[trigger] init[t]@[m] < n by {
            assert(init[t] == tets[t]);
        }
        assert forall|t: int, a: int, b: int| 0 <= t < init.len() && 0 <= a < b < 4 implies #[trigger] init[t]@[a]
            != #[trigger] init[t]@[b] by {
            assert(init[t] == tets[t]);
        }
        lemma_all_edges_in_range(init, n);
        let before = all_tet_edges(init);
        let last = tets.last()@;
        let t = tets.len() - 1;
        assert(tets[t]@ == last);
        assert forall|k: int| 0 <= k < all_tet_edges(tets).len() implies {
            let e = #[trigger] all_tet_edges(tets)[k];
            e.0 < e.1 < n
        } by {
            if k < before.len() {
                assert(all_tet_edges(tets)[k] == before[k]);
            } else {
                let q = k - before.len();
                assert(all_tet_edges(tets)[k] == tet_edge(last, q));
                assert(tets[t]@[0] != tets[t]@[1] && tets[t]@[0] != tets[t]@[2] && tets[t]@[0] != tets[t]@[3]);
                assert(tets[t]@[1] != tets[t]@[2] && tets[t]@[1] != tets[t]@[3] && tets[t]@[2] != tets[t]@[3]);
                assert(tets[t]@[0] < n && tets[t]@[1] < n && tets[t]@[2] < n && tets[t]@[3] < n);
            }
        }
    }
}

/// The unique edges of tetrahedra with distinct corners below `n` (what
/// [`unique_edges`] returns) each join two different nodes below `n`,
/// smaller first.
pub proof fn lemma_unique_edges_in_range(tets: Seq<[u32; 4]>, n: int)
    requires
        corners_below(tets, n),
        corners_distinct(tets),
    ensures
        forall|k: int| 0 <= k < dedup(all_tet_edges(tets)).len() ==> {
            let e = #[trigger] dedup(all_tet_edges(tets))[k];
            e.0 < e.1 < n
        },
{
    let all = all_tet_edges(tets);
    lemma_all_edges_in_range(tets, n);
    lemma_dedup(all);
    assert forall|k: int| 0 <= k < dedup(all).len() implies {
        let e = #[trigger] dedup(all)[k];
        e.0 < e.1 < n
    } by {
        let e = dedup(all)[k];
        assert(dedup(all).contains(e));
        assert(all.contains(e));
        let i = choose|i: int| 0 <= i < all.len() && all[i] == e;
        assert(all[i] == e);
    }
}

/// Every face of the tetrahedra has three corners below `n`, and so does
/// the corner opposite it.
proof fn lemma_all_faces_in_range(tets: Seq<[u32; 4]>, n: int)
    requires
        corners_below(tets, n),
    ensures
        forall|k: int| 0 <= k < all_tet_faces(tets).len() ==> {
            let f = #[trigger] all_tet_faces(tets)[k];
            &&& f.0.len() == 3
            &&& f.0[0] < n && f.0[1] < n && f.0[2] < n
            &&& f.1 < n
        },
    decreases tets.len(),
{
    if tets.len() > 0 {
        let init = tets.drop_last();
        assert forall|t: int, m: int| 0 <= t < init.len() && 0 <= m < 4 implies #[trigger] init[t]@[m] < n by {
            assert(init[t] == tets[t]);
        }
        lemma_all_faces_in_range(init, n);
        let before = all_tet_faces(init);
        let last = tets.last()@;
        let t = tets.len() - 1;
        assert(tets[t]@ == last);
        assert(tets[t]@[0] < n && tets[t]@[1] < n && tets[t]@[2] < n && tets[t]@[3] < n);
        assert forall|k: int| 0 <= k < all_tet_faces(tets).len() implies {
            let f = #[trigger] all_tet_faces(tets)[k];
            &&& f.0.len() == 3
            &&& f.0[0] < n && f.0[1] < n && f.0[2] < n
            &&& f.1 < n
        } by {
            if k < before.len() {
                assert(all_tet_faces(tets)[k] == before[k]);
            } else {
                assert(all_tet_faces(tets)[k] == tet_face(last, k - before.len()));
            }
        }
    }
}

/// The boundary faces of tetrahedra with corners below `n` (what
/// [`boundary_faces`] returns) have their three corners, and the corner
/// opposite, below `n`.
pub proof fn lemma_boundary_in_range(tets: Seq<[u32; 4]>, n: int)
    requires
        corners_below(tets, n),
    ensures
        forall|k: int| 0 <= k < boundary(tets).len() ==> {
            let f = #[trigger] boundary(tets)[k];
            &&& f.0.len() == 3
            &&& f.0[0] < n && f.0[1] < n && f.0[2] < n
            &&& f.1 < n
        },
{
    let faces = all_tet_faces(tets);
    let keys = faces.map_values(|f: (Seq<u32>, u32)| face_key(f));
    lemma_all_faces_in_range(tets, n);
    assert forall|k: int| 0 <= k < boundary(tets).len() implies {
        let f = #[trigger] boundary(tets)[k];
        &&& f.0.len() == 3
        &&& f.0[0] < n && f.0[1] < n && f.0[2] < n
        &&& f.1 < n
    } by {
        lemma_once_positions_bounded(keys, keys.len(), k);
        let p = once_positions(keys, keys.len())[k];
        assert(boundary(tets)[k] == faces[p as int]);
    }
}

/// Every face of the tetrahedra is one tetrahedron's corners with one corner
/// left out, paired with the corner left out.
proof fn lemma_all_faces_omit_one_corner(tets: Seq<[u32; 4]>)
    ensures
        forall|k: int| 0 <= k < all_tet_faces(tets).len() ==> exists|t: int, o: int|
            0 <= t < tets.len() && 0 <= o < 4 && (#[trigger] all_tet_faces(tets)[k]).0 == tets[t]@.remove(o)
                && all_tet_faces(tets)[k].1 == tets[t]@[o],
    decreases tets.len(),
{
    if tets.len() > 0 {
        let init = tets.drop_last();
        lemma_all_faces_omit_one_corner(init);
        let before = all_tet_faces(init);
        let t = tets.len() - 1;
        let last = tets[t]@;
        assert(tets.last() == tets[t]);
        assert forall|k: int| 0 <= k < all_tet_faces(tets).len() implies exists|u: int, o: int|
            0 <= u < tets.len() && 0 <= o < 4 && (#[trigger] all_tet_faces(tets)[k]).0 == tets[u]@.remove(o)
                && all_tet_faces(tets)[k].1 == tets[u]@[o] by {
            if k < before.len() {
                assert(all_tet_faces(tets)[k] == before[k]);
                let (u, o) = choose|u: int, o: int|
                    0 <= u < init.len() && 0 <= o < 4 && before[k].0 == init[u]@.remove(o) && before[k].1
                        == init[u]@[o];
                assert(init[u] == tets[u]);
            } else {
                let f = k - before.len();
                assert(all_tet_faces(tets)[k] == tet_face(last, f));
                assert(tet_face(last, f).0 =~= last.remove(f));
            }
        }
    }
}

/// Each boundary face is a face of one of the tetrahedra: that
/// tetrahedron's corners with one corner left out, in the tetrahedron's
/// order, paired with exactly the corner left out. So the face's three
/// vertices and the paired corner are the tetrahedron's four corners.
pub proof fn lemma_boundary_faces_pair_face_with_opposite_corner(tets: Seq<[u32; 4]>)
    ensures
        forall|k: int| 0 <= k < boundary(tets).len() ==> exists|t: int, o: int|
            0 <= t < tets.len() && 0 <= o < 4 && (#[trigger] boundary(tets)[k]).0 == tets[t]@.remove(o)
                && boundary(tets)[k].1 == tets[t]@[o],
{
    let faces = all_tet_faces(tets);
    let keys = faces.map_values(|f: (Seq<u32>, u32)| face_key(f));
    lemma_all_faces_omit_one_corner(tets);
    assert forall|k: int| 0 <= k < boundary(tets).len() implies exists|t: int, o: int|
        0 <= t < tets.len() && 0 <= o < 4 && (#[trigger] boundary(tets)[k]).0 == tets[t]@.remove(o)
            && boundary(tets)[k].1 == tets[t]@[o] by {
        lemma_once_positions_bounded(keys, keys.len(), k);
        let p = once_positions(keys, keys.len())[k];
        assert(boundary(tets)[k] == faces[p as int]);
    }
}

/// Every unique edge of the tetrahedra joins the corners at two different
/// positions of one tetrahedron, the smaller node first.
pub proof fn lemma_unique_edges_join_corners(tets: Seq<[u32; 4]>)
    ensures
        forall|k: int| 0 <= k < dedup(all_tet_edges(tets)).len() ==> exists|t: int, x: int, y: int|
            0 <= t < tets.len() && 0 <= x < y < 4 && #[trigger] dedup(all_tet_edges(tets))[k] == (if tets[t]@[x]
                < tets[t]@[y] {
                (tets[t]@[x], tets[t]@[y])
            } else {
                (tets[t]@[y], tets[t]@[x])
            }),
{
    let all = all_tet_edges(tets);
    lemma_all_edges_join_corners(tets);
    lemma_dedup(all);
    assert forall|k: int| 0 <= k < dedup(all).len() implies exists|t: int, x: int, y: int|
        0 <= t < tets.len() && 0 <= x < y < 4 && #[trigger] dedup(all)[k] == (if tets[t]@[x] < tets[t]@[y] {
            (tets[t]@[x], tets[t]@[y])
        } else {
            (tets[t]@[y], tets[t]@[x])
        }) by {
        let e = dedup(all)[k];
        assert(dedup(all).contains(e));
        assert(all.contains(e));
        let i = choose|i: int| 0 <= i < all.len() && all[i] == e;
        assert(all[i] == e);
    }
}

proof fn lemma_all_edges_join_corners(tets: Seq<[u32; 4]>)
    ensures
        forall|k: int| 0 <= k < all_tet_edges(tets).len() ==> exists|t: int, x: int, y: int|
            0 <= t < tets.len() && 0 <= x < y < 4 && #[trigger] all_tet_edges(tets)[k] == (if tets[t]@[x]
                < tets[t]@[y] {
                (tets[t]@[x], tets[t]@[y])
            } else {
                (tets[t]@[y], tets[t]@[x])
            }),
    decreases tets.len(),
{
    if tets.len() > 0 {
        let init = tets.drop_last();
        lemma_all_edges_join_corners(init);
        let before = all_tet_edges(init);
        let t = tets.len() - 1;
        let last = tets[t]@;
        assert(tets.last() == tets[t]);
        assert forall|k: int| 0 <= k < all_tet_edges(tets).len() implies exists|u: int, x: int, y: int|
            0 <= u < tets.len() && 0 <= x < y < 4 && #[trigger] all_tet_edges(tets)[k] == (if tets[u]@[x]
                < tets[u]@[y] {
                (tets[u]@[x], tets[u]@[y])
            } else {
                (tets[u]@[y], tets[u]@[x])
            }) by {
            if k < before.len() {
                assert(all_tet_edges(tets)[k] == before[k]);
                let (u, x, y) = choose|u: int, x: int, y: int|
                    0 <= u < init.len() && 0 <= x < y < 4 && before[k] == (if init[u]@[x] < init[u]@[y] {
                        (init[u]@[x], init[u]@[y])
                    } else {
                        (init[u]@[y], init[u]@[x])
                    });
                assert(init[u] == tets[u]);
            } else {
                let e = k - before.len();
                assert(all_tet_edges(tets)[k] == tet_edge(last, e));
                if e == 0 {
                    assert(tet_edge(last, e) == (if last[0] < last[1] { (last[0], last[1]) } else { (last[1], last[0]) }));
                } else if e == 1 {
                    assert(tet_edge(last, e) == (if last[0] < last[2] { (last[0], last[2]) } else { (last[2], last[0]) }));
                } else if e == 2 {
                    assert(tet_edge(last, e) == (if last[0] < last[3] { (last[0], last[3]) } else { (last[3], last[0]) }));
                } else if e == 3 {
                    assert(tet_edge(last, e) == (if last[1] < last[2] { (last[1], last[2]) } else { (last[2], last[1]) }));
                } else if e == 4 {
                    assert(tet_edge(last, e) == (if last[1] < last[3] { (last[1], last[3]) } else { (last[3], last[1]) }));
                } else {
                    assert(tet_edge(last, e) == (if last[2] < last[3] { (last[2], last[3]) } else { (last[3], last[2]) }));
                }
            }
        }
    }
}

proof fn lemma_all_edges_cover_corners(tets: Seq<[u32; 4]>, t: int, x: int, y: int)
    requires
        0 <= t < tets.len(),
        0 <= x < y < 4,
    ensures
        all_tet_edges(tets).contains(
            if tets[t]@[x] < tets[t]@[y] {
                (tets[t]@[x], tets[t]@[y])
            } else {
                (tets[t]@[y], tets[t]@[x])
            },
        ),
    decreases tets.len(),
{
    let init = tets.drop_last();
    let before = all_tet_edges(init);
    let all = all_tet_edges(tets);
    let e = if tets[t]@[x] < tets[t]@[y] {
        (tets[t]@[x], tets[t]@[y])
    } else {
        (tets[t]@[y], tets[t]@[x])
    };
    if t < tets.len() - 1 {
        assert(init[t] == tets[t]);
        lemma_all_edges_cover_corners(init, t, x, y);
        let i = choose|i: int| 0 <= i < before.len() && before[i] == e;
        assert(all[i] == e);
    } else {
        let last = tets.last()@;
        assert(tets.last() == tets[t]);
        let k = if x == 0 && y == 1 {
            0int
        } else if x == 0 && y == 2 {
            1int
        } else if x == 0 && y == 3 {
            2int
        } else if x == 1 && y == 2 {
            3int
        } else if x == 1 && y == 3 {
            4int
        } else {
            5int
        };
        assert(all[before.len() + k] == tet_edge(last, k));
        assert(tet_edge(last, k) == e);
    }
}

/// Every pair of corners of every tetrahedron is a unique edge, smaller node
/// first: no edge of the mesh is left without its distance constraint, and
/// none appears twice.
pub proof fn lemma_unique_edges_cover_every_corner_pair(tets: Seq<[u32; 4]>)
    ensures
        forall|t: int, x: int, y: int|
            #![trigger tets[t]@[x], tets[t]@[y]]
            0 <= t < tets.len() && 0 <= x < y < 4 ==> dedup(all_tet_edges(tets)).contains(
                if tets[t]@[x] < tets[t]@[y] {
                    (tets[t]@[x], tets[t]@[y])
                } else {
                    (tets[t]@[y], tets[t]@[x])
                },
            ),
        dedup(all_tet_edges(tets)).no_duplicates(),
{
    lemma_dedup(all_tet_edges(tets));
    assert forall|t: int, x: int, y: int|
        #![trigger tets[t]@[x], tets[t]@[y]]
        0 <= t < tets.len() && 0 <= x < y < 4 implies dedup(all_tet_edges(tets)).contains(
        if tets[t]@[x] < tets[t]@[y] {
            (tets[t]@[x], tets[t]@[y])
        } else {
            (tets[t]@[y], tets[t]@[x])
        },
    ) by {
        lemma_all_edges_cover_corners(tets, t, x, y);
    }
}

/// Injective packing of a sorted vertex triple.
pub open spec fn pack_triple(k: (u32, u32, u32)) -> u128 {
    (k.0 as int * 0x1_0000_0000_0000_0000 + k.1 as int * 0x1_0000_0000 + k.2 as int) as u128
}

proof fn lemma_pack_triple_injective()
    ensures
        forall|u: (u32, u32, u32), v: (u32, u32, u32)| #[trigger] pack_triple(u) == #[trigger] pack_triple(v) ==> u == v,
{
    assert forall|u: (u32, u32, u32), v: (u32, u32, u32)| #[trigger] pack_triple(u) == #[trigger] pack_triple(v) implies u == v by {
        let (a, b, c) = u;
        let (d, e, f) = v;
        let x = b as int * 0x1_0000_0000 + c as int;
        let y = e as int * 0x1_0000_0000 + f as int;
        assert(0 <= x < 0x1_0000_0000_0000_0000) by (nonlinear_arith)
            requires x == b as int * 0x1_0000_0000 + c as int, b <= u32::MAX, c <= u32::MAX;
        assert(0 <= y < 0x1_0000_0000_0000_0000) by (nonlinear_arith)
            requires y == e as int * 0x1_0000_0000 + f as int, e <= u32::MAX, f <= u32::MAX;
        assert(0 <= a as int * 0x1_0000_0000_0000_0000 + x <= u128::MAX) by (nonlinear_arith)
            requires a <= u32::MAX, 0 <= x < 0x1_0000_0000_0000_0000;
        assert(0 <= d as int * 0x1_0000_0000_0000_0000 + y <= u128::MAX) by (nonlinear_arith)
            requires d <= u32::MAX, 0 <= y < 0x1_0000_0000_0000_0000;
        assert(a == d && x == y) by (nonlinear_arith)
            requires
                a as int * 0x1_0000_0000_0000_0000 + x == d as int * 0x1_0000_0000_0000_0000 + y,
                0 <= x < 0x1_0000_0000_0000_0000,
                0 <= y < 0x1_0000_0000_0000_0000,
                0 <= a,
                0 <= d,
        ;
        assert(b == e && c == f) by (nonlinear_arith)
            requires
                b as int * 0x1_0000_0000 + c as int == e as int * 0x1_0000_0000 + f as int,
                0 <= c < 0x1_0000_0000,
                0 <= f < 0x1_0000_0000,
                0 <= b,
                0 <= e,
        ;
    }
}

fn face_key_packed(tri: [u32; 3]) -> (k: u128)
    ensures
        k == pack_triple(sort3(tri[0], tri[1], tri[2])),
{
    let (a, b, c) = (tri[0], tri[1], tri[2]);
    let (x, y, z) = if a <= b {
        if b <= c {
            (a, b, c)
        } else if a <= c {
            (a, c, b)
        } else {
            (c, a, b)
        }
    } else {
        if a <= c {
            (b, a, c)
        } else if b <= c {
            (b, c, a)
        } else {
            (c, b, a)
        }
    };
    assert(x as int * 0x1_0000_0000_0000_0000 + y as int * 0x1_0000_0000 + z as int <= u128::MAX) by (nonlinear_arith)
        requires x <= u32::MAX, y <= u32::MAX, z <= u32::MAX;
    (x as u128) * 0x1_0000_0000_0000_0000u128 + (y as u128) * 0x1_0000_0000u128 + (z as u128)
}

fn tet_face_exec(t: [u32; 4], f: usize) -> (r: ([u32; 3], u32))
    requires
        f < 4,
    ensures
        (r.0@, r.1) == tet_face(t@, f as int),
{
    let r = if f == 0 {
        ([t[1], t[2], t[3]], t[0])
    } else if f == 1 {
        ([t[0], t[2], t[3]], t[1])
    } else if f == 2 {
        ([t[0], t[1], t[3]], t[2])
    } else {
        ([t[0], t[1], t[2]], t[3])
    };
    assert(r.0@ =~= tet_face(t@, f as int).0);
    r
}

/// The boundary triangles of a tetrahedral mesh: faces that belong to a
/// single tetrahedron, each with that tetrahedron's winding and its corner
/// opposite the face (used to orient the triangle outward), in the order the
/// faces are met.
pub fn boundary_faces(tets: &Vec<[u32; 4]>) -> (r: Vec<([u32; 3], u32)>)
    ensures
        r@.map_values(|f: ([u32; 3], u32)| (f.0@, f.1)) == boundary(tets@),
{
    let mut faces: Vec<([u32; 3], u32)> = Vec::new();
    let mut keys: Vec<u128> = Vec::new();
    let mut t: usize = 0;
    while t < tets.len()
        invariant
            t <= tets.len(),
            faces@.map_values(|f: ([u32; 3], u32)| (f.0@, f.1)) == all_tet_faces(tets@.take(t as int)),
            keys@.len() == faces@.len(),
            forall|p: int| 0 <= p < keys@.len() ==> #[trigger] keys@[p] == pack_triple(
                sort3(faces@[p].0[0], faces@[p].0[1], faces@[p].0[2]),
            ),
        decreases tets.len() - t,
    {
        let tet = tets[t];
        let ghost start = faces@;
        let mut f: usize = 0;
        while f < 4
            invariant
                f <= 4,
                t < tets.len(),
                tet == tets@[t as int],
                faces@.len() == start.len() + f,
                forall|p: int| 0 <= p < start.len() ==> #[trigger] faces@[p] == start[p],
                forall|q: int| 0 <= q < f ==> (#[trigger] faces@[start.len() + q].0@, faces@[start.len() + q].1) == tet_face(tet@, q),
                keys@.len() == faces@.len(),
                forall|p: int| 0 <= p < keys@.len() ==> #[trigger] keys@[p] == pack_triple(
                    sort3(faces@[p].0[0], faces@[p].0[1], faces@[p].0[2]),
                ),
            decreases 4 - f,
        {
            let face = tet_face_exec(tet, f);
            keys.push(face_key_packed(face.0));
            faces.push(face);
            f = f + 1;
        }
        proof {
            assert(tets@.take(t + 1).drop_last() =~= tets@.take(t as int));
            let lhs = faces@.map_values(|f: ([u32; 3], u32)| (f.0@, f.1));
            let rhs = all_tet_faces(tets@.take(t + 1));
            assert(rhs =~= start.map_values(|f: ([u32; 3], u32)| (f.0@, f.1)) + Seq::new(4, |f: int| tet_face(tet@, f)));
            assert forall|p: int| 0 <= p < lhs.len() implies lhs[p] == rhs[p] by {
                if p >= start.len() {
                    let q = p - start.len();
                    assert((faces@[start.len() + q].0@, faces@[start.len() + q].1) == tet_face(tet@, q));
                }
            }
            assert(lhs =~= rhs);
        }
        t = t + 1;
    }
    let ghost fs = all_tet_faces(tets@);
    let ghost fkeys = fs.map_values(|f: (Seq<u32>, u32)| face_key(f));
    proof {
        assert(tets@.take(tets.len() as int) =~= tets@);
        assert forall|p: int| 0 <= p < keys@.len() implies #[trigger] keys@[p] == pack_triple(fkeys[p]) by {
            assert(fs[p] == (faces@[p].0@, faces@[p].1));
        }
        assert(keys@ =~= fkeys.map_values(|k: (u32, u32, u32)| pack_triple(k)));
        lemma_pack_triple_injective();
        lemma_once_positions_map(fkeys, |k: (u32, u32, u32)| pack_triple(k), fkeys.len());
    }
    let once = positions_occurring_once(&keys);
    let mut out: Vec<([u32; 3], u32)> = Vec::new();
    let mut j: usize = 0;
    while j < once.len()
        invariant
            j <= once.len(),
            once@ == once_positions(fkeys, fkeys.len()),
            fkeys.len() == faces@.len(),
            fs == faces@.map_values(|f: ([u32; 3], u32)| (f.0@, f.1)),
            out@.map_values(|f: ([u32; 3], u32)| (f.0@, f.1)) == once@.take(j as int).map_values(|p: usize| fs[p as int]),
        decreases once.len() - j,
    {
        let p = once[j];
        proof {
            lemma_once_positions_bounded(fkeys, fkeys.len(), j as int);
        }
        let ghost before = out@;
        out.push(faces[p]);
        proof {
            assert(once@.take(j + 1) =~= once@.take(j as int).push(p));
            assert(out@ =~= before.push(faces@[p as int]));
            assert(out@.map_values(|f: ([u32; 3], u32)| (f.0@, f.1)) =~= before.map_values(|f: ([u32; 3], u32)| (f.0@, f.1)).push(fs[p as int]));
        }
        j = j + 1;
    }
    proof {
        assert(once@.take(once.len() as int) =~= once@);
    }
    out
}

} // verus!
