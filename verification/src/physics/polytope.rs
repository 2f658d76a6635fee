//! The combinatorial side of EPA polytope expansion: face identities and the
//! horizon left behind when the faces visible from a new support point are
//! removed.

use vstd::prelude::*;
use crate::seq_count::{occurrences, once_positions, positions_occurring_once, lemma_once_positions_map};

verus! {

/// `v` is in ascending order.
pub open spec fn ascending3(v: Seq<usize>) -> bool {
    v.len() == 3 && v[0] <= v[1] && v[1] <= v[2]
}

/// Sorted vertex triple: a stable identity for a face across expansions.
/// The result is ascending and holds the same vertices with the same
/// multiplicities.
pub fn sorted_tri(v: [usize; 3]) -> (t: [usize; 3])
    ensures
        ascending3(t@),
        forall|x: usize| occurrences(t@, x) == occurrences(v@, x),
{
    let (mut a, mut b, mut c) = (v[0], v[1], v[2]);
    if a > b {
        let s = a;
        a = b;
        b = s;
    }
    if b > c {
        let s = b;
        b = c;
        c = s;
    }
    if a > b {
        let s = a;
        a = b;
        b = s;
    }
    let t = [a, b, c];
    proof {
        assert forall|x: usize| occurrences(t@, x) == occurrences(v@, x) by {
            reveal_with_fuel(occurrences, 4);
            assert(t@.drop_last().drop_last().drop_last() =~= Seq::<usize>::empty());
            assert(v@.drop_last().drop_last().drop_last() =~= Seq::<usize>::empty());
            assert(t@.drop_last().drop_last() =~= seq![a]);
            assert(t@.drop_last() =~= seq![a, b]);
            assert(v@.drop_last().drop_last() =~= seq![v[0]]);
            assert(v@.drop_last() =~= seq![v[0], v[1]]);
        }
    }
    t
}

/// Unordered edge key: the two endpoints, smaller first.
pub open spec fn spec_edge_key(p: usize, q: usize) -> (usize, usize) {
    if p < q {
        (p, q)
    } else {
        (q, p)
    }
}

/// Unordered edge key.
pub fn edge_key(p: usize, q: usize) -> (k: (usize, usize))
    ensures
        k == spec_edge_key(p, q),
{
    if p < q {
        (p, q)
    } else {
        (q, p)
    }
}

/// The three edges of face `f`, in winding order, each as an unordered key.
pub open spec fn face_edge_keys(f: [usize; 3]) -> Seq<(usize, usize)> {
    seq![spec_edge_key(f[0], f[1]), spec_edge_key(f[1], f[2]), spec_edge_key(f[2], f[0])]
}

/// The edges of all `faces`, face after face.
pub open spec fn all_edge_keys(faces: Seq<[usize; 3]>) -> Seq<(usize, usize)>
    decreases faces.len(),
{
    if faces.len() == 0 {
        Seq::empty()
    } else {
        all_edge_keys(faces.drop_last()) + face_edge_keys(faces.last())
    }
}

/// The horizon of a set of removed faces: the edges that belong to exactly
/// one of them, in the order they are first met.
pub open spec fn horizon(faces: Seq<[usize; 3]>) -> Seq<(usize, usize)> {
    let edges = all_edge_keys(faces);
    once_positions(edges, edges.len()).map_values(|p: usize| edges[p as int])
}

/// Injective packing of an edge key into one integer.
pub open spec fn pack_edge(e: (usize, usize)) -> u128 {
    (e.0 as int * 0x1_0000_0000_0000_0000 + e.1 as int) as u128
}

proof fn lemma_pack_edge_injective()
    ensures
        forall|u: (usize, usize), v: (usize, usize)| #[trigger] pack_edge(u) == #[trigger] pack_edge(v) ==> u == v,
{
    assert forall|u: (usize, usize), v: (usize, usize)| #[trigger] pack_edge(u) == #[trigger] pack_edge(v) implies u == v by {
        let (a, b) = u;
        let (c, d) = v;
        assert(0 <= a as int * 0x1_0000_0000_0000_0000 + b as int <= u128::MAX) by (nonlinear_arith)
            requires a <= usize::MAX, b <= usize::MAX, usize::MAX <= 0xffff_ffff_ffff_ffff;
        assert(0 <= c as int * 0x1_0000_0000_0000_0000 + d as int <= u128::MAX) by (nonlinear_arith)
            requires c <= usize::MAX, d <= usize::MAX, usize::MAX <= 0xffff_ffff_ffff_ffff;
        assert(a == c && b == d) by (nonlinear_arith)
            requires
                a as int * 0x1_0000_0000_0000_0000 + b as int == c as int * 0x1_0000_0000_0000_0000 + d as int,
                0 <= b < 0x1_0000_0000_0000_0000,
                0 <= d < 0x1_0000_0000_0000_0000,
                0 <= a,
                0 <= c,
        ;
    }
}

fn pack_edge_exec(e: (usize, usize)) -> (k: u128)
    ensures
        k == pack_edge(e),
{
    assert(e.0 as int * 0x1_0000_0000_0000_0000 + e.1 as int <= u128::MAX) by (nonlinear_arith)
        requires e.0 <= usize::MAX, e.1 <= usize::MAX, usize::MAX <= 0xffff_ffff_ffff_ffff;
    (e.0 as u128) * 0x1_0000_0000_0000_0000u128 + (e.1 as u128)
}

/// The horizon of the faces that a new support point can see: the edges on
/// exactly one of those faces, each as an unordered key, in the order they
/// are first met. Each is stitched to the new point to close the polytope.
pub fn horizon_edges(faces: &Vec<[usize; 3]>) -> (r: Vec<(usize, usize)>)
    ensures
        r@ == horizon(faces@),
{
    let mut edges: Vec<(usize, usize)> = Vec::new();
    let mut keys: Vec<u128> = Vec::new();
    let mut i: usize = 0;
    while i < faces.len()
        invariant
            i <= faces.len(),
            edges@ == all_edge_keys(faces@.take(i as int)),
            keys@ == edges@.map_values(|e: (usize, usize)| pack_edge(e)),
        decreases faces.len() - i,
    {
        let f = faces[i];
        let e0 = edge_key(f[0], f[1]);
        let e1 = edge_key(f[1], f[2]);
        let e2 = edge_key(f[2], f[0]);
        let ghost before = edges@;
        edges.push(e0);
        edges.push(e1);
        edges.push(e2);
        keys.push(pack_edge_exec(e0));
        keys.push(pack_edge_exec(e1));
        keys.push(pack_edge_exec(e2));
        proof {
            assert(faces@.take(i + 1).drop_last() =~= faces@.take(i as int));
            assert(edges@ =~= before + face_edge_keys(f));
            assert(keys@ =~= edges@.map_values(|e: (usize, usize)| pack_edge(e)));
        }
        i = i + 1;
    }
    proof {
        assert(faces@.take(faces.len() as int) =~= faces@);
    }
    let once = positions_occurring_once(&keys);
    proof {
        lemma_pack_edge_injective();
        lemma_once_positions_map(edges@, |e: (usize, usize)| pack_edge(e), edges@.len());
    }
    let mut out: Vec<(usize, usize)> = Vec::new();
    let mut j: usize = 0;
    while j < once.len()
        invariant
            j <= once.len(),
            once@ == once_positions(edges@, edges@.len()),
            edges@ == all_edge_keys(faces@),
            out@ == once@.take(j as int).map_values(|p: usize| edges@[p as int]),
        decreases once.len() - j,
    {
        let p = once[j];
        proof {
            lemma_once_positions_bounded(edges@, edges@.len(), j as int);
        }
        out.push(edges[p]);
        proof {
            assert(once@.take(j + 1) =~= once@.take(j as int).push(p));
            assert(out@ =~= once@.take(j + 1).map_values(|p: usize| edges@[p as int]));
        }
        j = j + 1;
    }
    proof {
        assert(once@.take(once.len() as int) =~= once@);
    }
    out
}

/// `e` is the side of face `f` between two corners adjacent in its winding,
/// smaller vertex first.
pub open spec fn is_side_of(e: (usize, usize), f: [usize; 3]) -> bool {
    ||| e == (if f[0] < f[1] { (f[0], f[1]) } else { (f[1], f[0]) })
    ||| e == (if f[1] < f[2] { (f[1], f[2]) } else { (f[2], f[1]) })
    ||| e == (if f[2] < f[0] { (f[2], f[0]) } else { (f[0], f[2]) })
}

proof fn lemma_all_edge_keys_from_faces(faces: Seq<[usize; 3]>)
    ensures
        forall|k: int| 0 <= k < all_edge_keys(faces).len() ==> exists|f: int|
            0 <= f < faces.len() && is_side_of(#[trigger] all_edge_keys(faces)[k], faces[f]),
    decreases faces.len(),
{
    if faces.len() > 0 {
        let init = faces.drop_last();
        lemma_all_edge_keys_from_faces(init);
        let before = all_edge_keys(init);
        let f = faces.len() - 1;
        assert(faces.last() == faces[f]);
        assert forall|k: int| 0 <= k < all_edge_keys(faces).len() implies exists|g: int|
            0 <= g < faces.len() && is_side_of(#[trigger] all_edge_keys(faces)[k], faces[g]) by {
            if k < before.len() {
                assert(all_edge_keys(faces)[k] == before[k]);
                let g = choose|g: int| 0 <= g < init.len() && is_side_of(before[k], init[g]);
                assert(init[g] == faces[g]);
            } else {
                assert(all_edge_keys(faces)[k] == face_edge_keys(faces[f])[k - before.len()]);
                assert(is_side_of(all_edge_keys(faces)[k], faces[f]));
            }
        }
    }
}

/// Every horizon edge is a side of one of the removed faces (two corners
/// adjacent in the face's winding), smaller vertex first.
pub proof fn lemma_horizon_edges_are_face_sides(faces: Seq<[usize; 3]>)
    ensures
        forall|k: int| 0 <= k < horizon(faces).len() ==> exists|f: int|
            0 <= f < faces.len() && is_side_of(#[trigger] horizon(faces)[k], faces[f]),
{
    let edges = all_edge_keys(faces);
    lemma_all_edge_keys_from_faces(faces);
    assert forall|k: int| 0 <= k < horizon(faces).len() implies exists|f: int|
        0 <= f < faces.len() && is_side_of(#[trigger] horizon(faces)[k], faces[f]) by {
        lemma_once_positions_bounded(edges, edges.len(), k);
        let p = once_positions(edges, edges.len())[k];
        assert(horizon(faces)[k] == edges[p as int]);
    }
}

/// Every position listed by `once_positions` is below `n`.
pub proof fn lemma_once_positions_bounded<A>(keys: Seq<A>, n: nat, j: int)
    requires
        0 <= j < once_positions(keys, n).len(),
    ensures
        once_positions(keys, n)[j] < n,
        n <= keys.len(),
    decreases n,
{
    if n > 0 && n <= keys.len() {
        let before = once_positions(keys, (n - 1) as nat);
        if j < before.len() {
            lemma_once_positions_bounded(keys, (n - 1) as nat, j);
        }
    }
}

} // verus!
