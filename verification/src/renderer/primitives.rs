//! Index topology of the procedural primitive meshes (cube, UV sphere,
//! ground plane). Vertex positions, normals and texture coordinates are
//! computed alongside by the caller; the indices here say how the vertices
//! are joined into triangles.

use vstd::prelude::*;

verus! {

/// The two triangles of the quad whose four corners start at vertex `base`.
pub open spec fn quad_fan(base: int) -> Seq<u32> {
    seq![base as u32, (base + 1) as u32, (base + 2) as u32, base as u32, (base + 2) as u32, (base + 3) as u32]
}

/// The triangles of the first `n` cube faces.
pub open spec fn cube_upto(n: nat) -> Seq<u32>
    decreases n,
{
    if n == 0 {
        Seq::empty()
    } else {
        cube_upto((n - 1) as nat) + quad_fan(4 * (n - 1))
    }
}

proof fn lemma_cube_upto_wound(n: nat)
    requires
        n <= 6,
    ensures
        cube_upto(n).len() == 6 * n,
        forall|i: int|
            0 <= i < 6 * n && i % 3 == 0 ==> {
                let a = #[trigger] cube_upto(n)[i] as int;
                &&& a % 4 == 0
                &&& a < 4 * n
                &&& ((cube_upto(n)[i + 1] == a + 1 && cube_upto(n)[i + 2] == a + 2) || (cube_upto(n)[i + 1] == a + 2
                    && cube_upto(n)[i + 2] == a + 3))
            },
    decreases n,
{
    if n > 0 {
        lemma_cube_upto_wound((n - 1) as nat);
        let before = cube_upto((n - 1) as nat);
        let all = cube_upto(n);
        let extra = quad_fan(4 * (n - 1));
        assert(all == before + extra);
        assert forall|i: int|
            0 <= i < 6 * n && i % 3 == 0 implies {
                let a = #[trigger] all[i] as int;
                &&& a % 4 == 0
                &&& a < 4 * n
                &&& ((all[i + 1] == a + 1 && all[i + 2] == a + 2) || (all[i + 1] == a + 2 && all[i + 2] == a + 3))
            } by {
            if i < 6 * (n - 1) {
                assert(before[i] == all[i]);
                assert(all[i + 1] == before[i + 1]);
                assert(all[i + 2] == before[i + 2]);
            } else {
                let o = i - 6 * (n - 1);
                assert(o == 0 || o == 3);
                assert(all[i] == extra[o]);
                assert(all[i + 1] == extra[o + 1]);
                assert(all[i + 2] == extra[o + 2]);
            }
        }
    }
}

/// The cube's triangles all share one winding: each face owns four
/// consecutive vertices starting at a multiple of four and is split along
/// the same diagonal into (a, a + 1, a + 2) and (a, a + 2, a + 3).
pub proof fn lemma_cube_triangles_share_winding()
    ensures
        cube_upto(6).len() == 36,
        forall|i: int|
            0 <= i < 36 && i % 3 == 0 ==> {
                let a = #[trigger] cube_upto(6)[i] as int;
                &&& a % 4 == 0
                &&& a < 24
                &&& ((cube_upto(6)[i + 1] == a + 1 && cube_upto(6)[i + 2] == a + 2) || (cube_upto(6)[i + 1] == a + 2
                    && cube_upto(6)[i + 2] == a + 3))
            },
{
    lemma_cube_upto_wound(6);
}

/// Number of vertices of the cube: four per face, six faces.
pub const CUBE_VERTEX_COUNT: usize = 24;

/// Triangle indices of the cube: each of the six faces owns four
/// consecutive vertices and is split into two triangles.
pub fn cube_indices() -> (r: Vec<u32>)
    ensures
        r@ == cube_upto(6),
        r@.len() == 36,
        forall|i: int| 0 <= i < r@.len() ==> #[trigger] r@[i] < CUBE_VERTEX_COUNT,
{
    let mut out: Vec<u32> = Vec::new();
    let mut f: u32 = 0;
    while f < 6
        invariant
            f <= 6,
            out@ == cube_upto(f as nat),
            out@.len() == 6 * f,
            forall|i: int| 0 <= i < out@.len() ==> #[trigger] out@[i] < 4 * f,
        decreases 6 - f,
    {
        let base = 4 * f;
        let ghost before = out@;
        out.push(base);
        out.push(base + 1);
        out.push(base + 2);
        out.push(base);
        out.push(base + 2);
        out.push(base + 3);
        proof {
            assert(out@ =~= before + quad_fan(4 * f as int));
        }
        f = f + 1;
    }
    out
}

/// Triangle indices of the ground plane's single quad.
pub fn plane_indices() -> (r: Vec<u32>)
    ensures
        r@ == quad_fan(0),
{
    let r = vec![0, 1, 2, 0, 2, 3];
    assert(r@ =~= quad_fan(0));
    r
}

/// The sector and stack counts of a UV sphere after clamping: at least three
/// sectors and two stacks.
pub open spec fn clamp_sectors(sectors: u32) -> int {
    if sectors < 3 {
        3
    } else {
        sectors as int
    }
}

/// See [`clamp_sectors`].
pub open spec fn clamp_stacks(stacks: u32) -> int {
    if stacks < 2 {
        2
    } else {
        stacks as int
    }
}

/// The triangles of quad `q` of a UV sphere (stack `q / sectors`, sector
/// `q % sectors`): rings of `sectors + 1` vertices from the north pole down.
/// The top and bottom rings contribute one triangle per quad, since their far
/// edge collapses to the pole.
pub open spec fn sphere_quad(sectors: int, stacks: int, q: int) -> Seq<u32> {
    let i = q / sectors;
    let j = q % sectors;
    let row = sectors + 1;
    let a = i * row + j;
    let b = a + row;
    (if i != 0 {
        seq![a as u32, b as u32, (a + 1) as u32]
    } else {
        Seq::empty()
    }) + (if i != stacks - 1 {
        seq![(a + 1) as u32, b as u32, (b + 1) as u32]
    } else {
        Seq::empty()
    })
}

/// The triangles of the first `n` quads of a UV sphere.
pub open spec fn sphere_upto(sectors: int, stacks: int, n: nat) -> Seq<u32>
    decreases n,
{
    if n == 0 {
        Seq::empty()
    } else {
        sphere_upto(sectors, stacks, (n - 1) as nat) + sphere_quad(sectors, stacks, n - 1)
    }
}

/// Triangle `k` of `s` (entries `3k..3k+3`) is wound like every triangle of
/// a UV-sphere quad: either (a, a + row, a + 1) or (a + 1, a + row, a + row + 1).
spec fn wound_like_quad(s: Seq<u32>, row: int, k: int) -> bool {
    (s[3 * k + 1] == s[3 * k] + row && s[3 * k + 2] == s[3 * k] + 1) || (s[3 * k + 1] == s[3 * k] + row - 1
        && s[3 * k + 2] == s[3 * k + 1] + 1)
}

proof fn lemma_sphere_upto_wound(sectors: int, stacks: int, n: nat)
    requires
        sectors >= 3,
        stacks >= 2,
        n <= sectors * stacks,
        (sectors + 1) * (stacks + 1) <= u32::MAX,
    ensures
        sphere_upto(sectors, stacks, n).len() % 3 == 0,
        forall|k: int|
            0 <= k < sphere_upto(sectors, stacks, n).len() / 3 ==> #[trigger] wound_like_quad(
                sphere_upto(sectors, stacks, n),
                sectors + 1,
                k,
            ),
    decreases n,
{
    if n > 0 {
        let q = n - 1;
        lemma_sphere_upto_wound(sectors, stacks, (n - 1) as nat);
        let before = sphere_upto(sectors, stacks, (n - 1) as nat);
        let extra = sphere_quad(sectors, stacks, q);
        let all = sphere_upto(sectors, stacks, n);
        assert(all == before + extra);
        let row = sectors + 1;
        let i = q / sectors;
        let j = q % sectors;
        let a = i * row + j;
        let b = a + row;
        assert(q == i * sectors + j) by (nonlinear_arith) requires sectors >= 3, i == q / sectors, j == q % sectors;
        assert(0 <= j < sectors);
        assert(0 <= i < stacks) by (nonlinear_arith)
            requires q == i * sectors + j, 0 <= j < sectors, 0 <= q < sectors * stacks, sectors >= 3;
        assert(0 <= a && b + 1 < row * (stacks + 1)) by (nonlinear_arith)
            requires a == i * row + j, b == a + row, 0 <= i < stacks, 0 <= j < sectors, row == sectors + 1;
        let bl = before.len();
        assert(bl % 3 == 0);
        assert forall|k: int| 0 <= k < all.len() / 3 implies #[trigger] wound_like_quad(all, row, k) by {
            if 3 * k + 2 < bl {
                assert(k < before.len() / 3);
                assert(wound_like_quad(before, row, k));
                assert(all[3 * k] == before[3 * k]);
                assert(all[3 * k + 1] == before[3 * k + 1]);
                assert(all[3 * k + 2] == before[3 * k + 2]);
            } else {
                let o = 3 * k - bl;
                assert(o >= 0);
                assert(all[3 * k] == extra[o]);
                assert(all[3 * k + 1] == extra[o + 1]);
                assert(all[3 * k + 2] == extra[o + 2]);
            }
        }
    }
}

/// Every triangle of a UV sphere has the same winding, counter-clockwise
/// seen from outside: each is either (a, a + row, a + 1), the upper
/// triangle of a quad whose top-left vertex is `a`, or
/// (a + 1, a + row, a + row + 1), its lower triangle, where `row` is the
/// `sectors + 1` vertices of a ring. The list holds whole triangles.
pub proof fn lemma_sphere_triangles_share_winding(sectors: int, stacks: int)
    requires
        sectors >= 3,
        stacks >= 2,
        (sectors + 1) * (stacks + 1) <= u32::MAX,
    ensures
        ({
            let s = sphere_upto(sectors, stacks, (sectors * stacks) as nat);
            let row = sectors + 1;
            &&& s.len() % 3 == 0
            &&& forall|k: int|
                0 <= k < s.len() / 3 ==> (#[trigger] s[3 * k + 1] == s[3 * k] + row && s[3 * k + 2] == s[3 * k] + 1)
                    || (s[3 * k + 1] == s[3 * k] + row - 1 && s[3 * k + 2] == s[3 * k + 1] + 1)
        }),
{
    assert(sectors * stacks >= 0) by (nonlinear_arith) requires sectors >= 3, stacks >= 2;
    lemma_sphere_upto_wound(sectors, stacks, (sectors * stacks) as nat);
    let s = sphere_upto(sectors, stacks, (sectors * stacks) as nat);
    assert forall|k: int| 0 <= k < s.len() / 3 implies (#[trigger] s[3 * k + 1] == s[3 * k] + (sectors + 1) && s[3
        * k + 2] == s[3 * k] + 1) || (s[3 * k + 1] == s[3 * k] + (sectors + 1) - 1 && s[3 * k + 2] == s[3 * k + 1]
        + 1) by {
        assert(wound_like_quad(s, sectors + 1, k));
    }
}

proof fn lemma_sphere_upto_len(sectors: int, stacks: int, n: nat)
    requires
        sectors >= 3,
        stacks >= 2,
        n <= sectors * stacks,
    ensures
        sphere_upto(sectors, stacks, n).len() == 6 * n - 3 * (if n < sectors { n as int } else { sectors }) - 3 * (
        if n > (stacks - 1) * sectors {
            n - (stacks - 1) * sectors
        } else {
            0
        }),
    decreases n,
{
    if n > 0 {
        let q = n - 1;
        lemma_sphere_upto_len(sectors, stacks, (n - 1) as nat);
        let i = q / sectors;
        let j = q % sectors;
        assert(q == i * sectors + j) by (nonlinear_arith) requires sectors >= 3, i == q / sectors, j == q % sectors;
        assert(0 <= j < sectors);
        assert((i == 0) == (q < sectors)) by (nonlinear_arith)
            requires q == i * sectors + j, 0 <= j < sectors, sectors >= 3, q >= 0;
        assert((i == stacks - 1) == (q >= (stacks - 1) * sectors)) by (nonlinear_arith)
            requires q == i * sectors + j, 0 <= j < sectors, sectors >= 3, 0 <= q < sectors * stacks;
        assert((stacks - 1) * sectors >= sectors) by (nonlinear_arith) requires stacks >= 2, sectors >= 3;
    }
}

/// A UV sphere has two triangles per quad, except on the two polar rings,
/// where each quad has one: `2 * sectors * (stacks - 1)` triangles in all.
pub proof fn lemma_sphere_triangle_count(sectors: int, stacks: int)
    requires
        sectors >= 3,
        stacks >= 2,
    ensures
        sphere_upto(sectors, stacks, (sectors * stacks) as nat).len() == 3 * (2 * sectors * (stacks - 1)),
{
    assert(sectors * stacks >= 0) by (nonlinear_arith) requires sectors >= 3, stacks >= 2;
    assert(sectors * stacks > (stacks - 1) * sectors) by (nonlinear_arith) requires sectors >= 3, stacks >= 2;
    assert(sectors * stacks >= sectors) by (nonlinear_arith) requires sectors >= 3, stacks >= 2;
    lemma_sphere_upto_len(sectors, stacks, (sectors * stacks) as nat);
    assert(6 * (sectors * stacks) - 3 * sectors - 3 * (sectors * stacks - (stacks - 1) * sectors) == 3 * (2 * sectors
        * (stacks - 1))) by (nonlinear_arith);
}

/// The topology of a UV sphere of `sectors` longitude and `stacks` latitude
/// divisions (clamped to at least three and two): the clamped counts, and the
/// triangle indices into the `(sectors + 1) * (stacks + 1)` vertices (rings
/// from the north pole down, each with a seam vertex). Every index is in
/// range and the list holds whole triangles.
pub fn sphere_topology(sectors: u32, stacks: u32) -> (r: (u32, u32, Vec<u32>))
    requires
        (clamp_sectors(sectors) + 1) * (clamp_stacks(stacks) + 1) <= u32::MAX,
    ensures
        r.0 == clamp_sectors(sectors),
        r.1 == clamp_stacks(stacks),
        r.2@ == sphere_upto(r.0 as int, r.1 as int, (r.0 * r.1) as nat),
        r.2@.len() % 3 == 0,
        forall|i: int| 0 <= i < r.2@.len() ==> #[trigger] r.2@[i] < (r.0 + 1) * (r.1 + 1),
{
    let sectors: u32 = if sectors < 3 { 3 } else { sectors };
    let stacks: u32 = if stacks < 2 { 2 } else { stacks };
    proof {
        assert((sectors as int + 1) <= (sectors as int + 1) * (stacks as int + 1)) by (nonlinear_arith)
            requires stacks >= 2;
    }
    let row: u32 = sectors + 1;
    let ghost (gs, gt, gr) = (sectors as int, stacks as int, row as int);
    proof {
        assert(gs * gt <= gr * (gt + 1)) by (nonlinear_arith) requires gr == gs + 1, gs >= 3, gt >= 2;
    }
    let quads: u32 = sectors * stacks;
    let mut out: Vec<u32> = Vec::new();
    let mut q: u32 = 0;
    while q < quads
        invariant
            q <= quads,
            quads as int == gs * gt,
            gs == sectors as int,
            gt == stacks as int,
            gr == row as int,
            gr == gs + 1,
            gs >= 3,
            gt >= 2,
            gr * (gt + 1) <= u32::MAX,
            out@ == sphere_upto(gs, gt, q as nat),
            out@.len() % 3 == 0,
            forall|k: int| 0 <= k < out@.len() ==> #[trigger] out@[k] < gr * (gt + 1),
        decreases quads - q,
    {
        let i = q / sectors;
        let j = q % sectors;
        let ghost (gq, gi, gj) = (q as int, i as int, j as int);
        proof {
            assert(gq == gi * gs + gj) by (nonlinear_arith) requires gs >= 1, gi == gq / gs, gj == gq % gs;
            assert(gi < gt) by (nonlinear_arith) requires gq == gi * gs + gj, 0 <= gj < gs, gq < gs * gt;
            assert(gi * gr + gj + gr + 1 < gr * (gt + 1)) by (nonlinear_arith)
                requires gi < gt, 0 <= gj < gs, gr == gs + 1, gi >= 0;
            assert(0 <= gi * gr) by (nonlinear_arith) requires gi >= 0, gr >= 0;
        }
        let a = i * row + j;
        let b = a + row;
        let ghost before = out@;
        if i != 0 {
            out.push(a);
            out.push(b);
            out.push(a + 1);
        }
        if i != stacks - 1 {
            out.push(a + 1);
            out.push(b);
            out.push(b + 1);
        }
        proof {
            assert(out@ =~= before + sphere_quad(gs, gt, gq));
        }
        q = q + 1;
    }
    (sectors, stacks, out)
}

} // verus!
