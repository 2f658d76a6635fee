//! Tetrahedral lattices for soft bodies: a regular grid of nodes, each kept
//! cell split into Kuhn's six tetrahedra sharing the cell's main diagonal.

use vstd::prelude::*;
use crate::physics::tet_mesh::{
    all_tet_edges, boundary, corners_below, corners_distinct, dedup, lemma_boundary_in_range,
    lemma_unique_edges_in_range,
};

verus! {

/// A cell count clamped to at least one.
pub open spec fn at_least_one(n: u32) -> int {
    if n == 0 {
        1
    } else {
        n as int
    }
}

/// Number of lattice nodes for `cells`: one more than the cells on each axis.
pub open spec fn node_count(cells: [u32; 3]) -> int {
    (at_least_one(cells[0]) + 1) * (at_least_one(cells[1]) + 1) * (at_least_one(cells[2]) + 1)
}

/// Number of lattice cells for `cells`.
pub open spec fn cell_count(cells: [u32; 3]) -> int {
    at_least_one(cells[0]) * at_least_one(cells[1]) * at_least_one(cells[2])
}

/// Index of node `(i, j, k)` in the dense node grid (x fastest).
pub open spec fn lattice_node(nx: int, ny: int, i: int, j: int, k: int) -> int {
    (k * (ny + 1) + j) * (nx + 1) + i
}

/// Kuhn's six tetrahedra of a cell, by corner bit pattern
/// (corner = x + 2y + 4z); all share the 0-7 main diagonal.
pub open spec fn kuhn(t: int) -> Seq<int> {
    if t == 0 {
        seq![0, 1, 3, 7]
    } else if t == 1 {
        seq![0, 1, 5, 7]
    } else if t == 2 {
        seq![0, 2, 3, 7]
    } else if t == 3 {
        seq![0, 2, 6, 7]
    } else if t == 4 {
        seq![0, 4, 5, 7]
    } else {
        seq![0, 4, 6, 7]
    }
}

/// Node at corner `bits` of the cell whose low corner is `(i, j, k)`.
pub open spec fn corner_node(nx: int, ny: int, i: int, j: int, k: int, bits: int) -> int {
    lattice_node(nx, ny, i + bits % 2, j + (bits / 2) % 2, k + bits / 4)
}

/// Tetrahedron `t` of cell `c`, where cells are numbered x fastest, then y,
/// then z.
pub open spec fn cell_tet(nx: int, ny: int, c: int, t: int) -> Seq<u32> {
    let i = c % nx;
    let j = (c / nx) % ny;
    let k = c / (nx * ny);
    kuhn(t).map_values(|b: int| corner_node(nx, ny, i, j, k, b) as u32)
}

/// The six tetrahedra of cell `c`.
pub open spec fn cell_tets(nx: int, ny: int, c: int) -> Seq<Seq<u32>> {
    Seq::new(6, |t: int| cell_tet(nx, ny, c, t))
}

/// The tetrahedra of the first `n` cells, skipping cells that are not kept.
pub open spec fn lattice_tets(nx: int, ny: int, keep: Seq<bool>, n: nat) -> Seq<Seq<u32>>
    decreases n,
{
    if n == 0 || n > keep.len() {
        Seq::empty()
    } else {
        let before = lattice_tets(nx, ny, keep, (n - 1) as nat);
        if keep[n - 1] {
            before + cell_tets(nx, ny, n - 1)
        } else {
            before
        }
    }
}

/// Number of kept cells among the first `n`.
pub open spec fn kept(keep: Seq<bool>, n: nat) -> nat
    decreases n,
{
    if n == 0 || n > keep.len() {
        0
    } else {
        kept(keep, (n - 1) as nat) + if keep[n - 1] {
            1nat
        } else {
            0nat
        }
    }
}

proof fn lemma_node_bound(nx: int, ny: int, nz: int, i: int, j: int, k: int)
    requires
        0 <= i <= nx,
        0 <= j <= ny,
        0 <= k <= nz,
        nx >= 1,
        ny >= 1,
        nz >= 1,
    ensures
        0 <= lattice_node(nx, ny, i, j, k) < (nx + 1) * (ny + 1) * (nz + 1),
{
    assert(0 <= k * (ny + 1) + j <= nz * (ny + 1) + ny) by (nonlinear_arith)
        requires 0 <= j <= ny, 0 <= k <= nz, ny >= 1;
    let row = k * (ny + 1) + j;
    assert(0 <= row * (nx + 1) + i <= (nz * (ny + 1) + ny) * (nx + 1) + nx) by (nonlinear_arith)
        requires 0 <= row <= nz * (ny + 1) + ny, 0 <= i <= nx, nx >= 1;
    assert((nz * (ny + 1) + ny) * (nx + 1) + nx == (nx + 1) * (ny + 1) * (nz + 1) - 1) by (nonlinear_arith);
}

proof fn lemma_cell_coords(nx: int, ny: int, nz: int, c: int)
    requires
        nx >= 1,
        ny >= 1,
        nz >= 1,
        0 <= c < nx * ny * nz,
    ensures
        0 <= c % nx < nx,
        0 <= (c / nx) % ny < ny,
        0 <= c / (nx * ny) < nz,
{
    assert(nx * ny >= 1) by (nonlinear_arith) requires nx >= 1, ny >= 1;
    assert(c / (nx * ny) < nz) by (nonlinear_arith)
        requires 0 <= c < nx * ny * nz, nx * ny >= 1, nx * ny * nz == (nx * ny) * nz;
    assert(c / (nx * ny) >= 0) by (nonlinear_arith) requires c >= 0, nx * ny >= 1;
}

/// A tetrahedron: four node indices, each below `nodes`.
pub open spec fn tet_in_range(t: Seq<u32>, nodes: int) -> bool {
    t.len() == 4 && forall|m: int| 0 <= m < 4 ==> t[m] < nodes
}

/// Every kept cell contributes exactly six tetrahedra.
pub proof fn lemma_lattice_tet_count(nx: int, ny: int, keep: Seq<bool>, n: nat)
    ensures
        lattice_tets(nx, ny, keep, n).len() == 6 * kept(keep, n),
    decreases n,
{
    if n > 0 && n <= keep.len() {
        lemma_lattice_tet_count(nx, ny, keep, (n - 1) as nat);
    }
}

/// Every tetrahedron of a lattice has four corners, each a valid node index.
pub proof fn lemma_lattice_nodes_in_range(cells: [u32; 3], keep: Seq<bool>, n: nat)
    requires
        keep.len() == cell_count(cells),
        node_count(cells) <= u32::MAX,
    ensures
        forall|p: int|
            0 <= p < lattice_tets(at_least_one(cells[0]), at_least_one(cells[1]), keep, n).len()
                ==> tet_in_range(#[trigger] lattice_tets(at_least_one(cells[0]), at_least_one(cells[1]), keep, n)[p], node_count(cells)),
    decreases n,
{
    let nx = at_least_one(cells[0]);
    let ny = at_least_one(cells[1]);
    let nz = at_least_one(cells[2]);
    if n > 0 && n <= keep.len() {
        lemma_lattice_nodes_in_range(cells, keep, (n - 1) as nat);
        let before = lattice_tets(nx, ny, keep, (n - 1) as nat);
        if keep[n - 1] {
            let c = n - 1;
            lemma_cell_coords(nx, ny, nz, c);
            let all = lattice_tets(nx, ny, keep, n);
            assert forall|p: int| 0 <= p < all.len() implies tet_in_range(#[trigger] all[p], node_count(cells)) by {
                if p >= before.len() {
                  assert forall|m: int| 0 <= m < 4 implies all[p][m] < node_count(cells) by {
                    let q = p - before.len();
                    let i = c % nx;
                    let j = (c / nx) % ny;
                    let k = c / (nx * ny);
                    let b = kuhn(q)[m];
                    assert(0 <= b < 8);
                    lemma_node_bound(nx, ny, nz, i + b % 2, j + (b / 2) % 2, k + b / 4);
                    assert(all[p] == cell_tet(nx, ny, c, q));
                  }
                } else {
                    assert(all[p] == before[p]);
                }
            }
        }
    }
}

/// The six tetrahedra of a cell are Kuhn's: each runs from the cell's low
/// corner (0) to its high corner (7) along the cell's edges, one axis at a
/// time (corner bits 1, 2, 4 for x, y, z), and no two take the same route,
/// so together they are all six routes and fill the cell.
pub proof fn lemma_kuhn_tets_are_the_six_monotone_paths()
    ensures
        forall|t: int| 0 <= t < 6 ==> {
            let s = #[trigger] kuhn(t);
            &&& s.len() == 4
            &&& s[0] == 0 && s[3] == 7
            &&& (s[1] == 1 || s[1] == 2 || s[1] == 4)
            &&& (s[2] == 3 || s[2] == 5 || s[2] == 6)
            &&& (s[2] - s[1] == 1 || s[2] - s[1] == 2 || s[2] - s[1] == 4)
            &&& (s[3] - s[2] == 1 || s[3] - s[2] == 2 || s[3] - s[2] == 4)
        },
        forall|t: int, u: int| 0 <= t < u < 6 ==> #[trigger] kuhn(t) != #[trigger] kuhn(u),
{
    assert forall|t: int, u: int| 0 <= t < u < 6 implies #[trigger] kuhn(t) != #[trigger] kuhn(u) by {
        if t == 0 {
            assert(kuhn(u)[1] != 1 || kuhn(u)[2] != 3);
        } else if t == 1 {
            assert(kuhn(u)[1] != 1 || kuhn(u)[2] != 5);
        } else if t == 2 {
            assert(kuhn(u)[1] != 2 || kuhn(u)[2] != 3);
        } else if t == 3 {
            assert(kuhn(u)[1] != 2 || kuhn(u)[2] != 6);
        } else {
            assert(kuhn(u)[2] != 5);
        }
    }
}

/// The eight corners of a cell, as offsets from its low corner: one step in
/// x adds one, in y a row (`nx + 1`), in z a layer (`(nx + 1)(ny + 1)`).
proof fn lemma_corner_offsets(nx: int, ny: int, i: int, j: int, k: int)
    ensures
        ({
            let l = lattice_node(nx, ny, i, j, k);
            let x = nx + 1;
            let y = (nx + 1) * (ny + 1);
            &&& corner_node(nx, ny, i, j, k, 0) == l
            &&& corner_node(nx, ny, i, j, k, 1) == l + 1
            &&& corner_node(nx, ny, i, j, k, 2) == l + x
            &&& corner_node(nx, ny, i, j, k, 3) == l + x + 1
            &&& corner_node(nx, ny, i, j, k, 4) == l + y
            &&& corner_node(nx, ny, i, j, k, 5) == l + y + 1
            &&& corner_node(nx, ny, i, j, k, 6) == l + y + x
            &&& corner_node(nx, ny, i, j, k, 7) == l + y + x + 1
        }),
{
    assert(lattice_node(nx, ny, i, j + 1, k) == lattice_node(nx, ny, i, j, k) + (nx + 1)) by (nonlinear_arith);
    assert(lattice_node(nx, ny, i, j, k + 1) == lattice_node(nx, ny, i, j, k) + (nx + 1) * (ny + 1)) by (nonlinear_arith);
    assert(lattice_node(nx, ny, i, j + 1, k + 1) == lattice_node(nx, ny, i, j, k) + (nx + 1) * (ny + 1) + (nx + 1))
        by (nonlinear_arith);
    assert(lattice_node(nx, ny, i + 1, j + 1, k) == lattice_node(nx, ny, i, j, k) + (nx + 1) + 1) by (nonlinear_arith);
    assert(lattice_node(nx, ny, i + 1, j, k + 1) == lattice_node(nx, ny, i, j, k) + (nx + 1) * (ny + 1) + 1)
        by (nonlinear_arith);
    assert(lattice_node(nx, ny, i + 1, j + 1, k + 1) == lattice_node(nx, ny, i, j, k) + (nx + 1) * (ny + 1) + (nx + 1)
        + 1) by (nonlinear_arith);
}

/// The corners of every lattice tetrahedron are listed in increasing order,
/// so no two of them coincide.
proof fn lemma_lattice_corners_increasing(cells: [u32; 3], keep: Seq<bool>, n: nat)
    requires
        keep.len() == cell_count(cells),
        node_count(cells) <= u32::MAX,
    ensures
        forall|p: int| 0 <= p < lattice_tets(at_least_one(cells[0]), at_least_one(cells[1]), keep, n).len() ==> {
            let t = #[trigger] lattice_tets(at_least_one(cells[0]), at_least_one(cells[1]), keep, n)[p];
            t[0] < t[1] < t[2] < t[3]
        },
    decreases n,
{
    let nx = at_least_one(cells[0]);
    let ny = at_least_one(cells[1]);
    let nz = at_least_one(cells[2]);
    if n > 0 && n <= keep.len() {
        lemma_lattice_corners_increasing(cells, keep, (n - 1) as nat);
        let before = lattice_tets(nx, ny, keep, (n - 1) as nat);
        if keep[n - 1] {
            let c = n - 1;
            lemma_cell_coords(nx, ny, nz, c);
            let all = lattice_tets(nx, ny, keep, n);
            assert forall|p: int| 0 <= p < all.len() implies {
                let t = #[trigger] all[p];
                t[0] < t[1] < t[2] < t[3]
            } by {
                if p >= before.len() {
                    let q = p - before.len();
                    let i = c % nx;
                    let j = (c / nx) % ny;
                    let k = c / (nx * ny);
                    lemma_corner_offsets(nx, ny, i, j, k);
                    lemma_node_bound(nx, ny, nz, i + 1, j + 1, k + 1);
                    lemma_node_bound(nx, ny, nz, i, j, k);
                    assert((nx + 1) * (ny + 1) >= (nx + 1) + 2) by (nonlinear_arith) requires nx >= 1, ny >= 1;
                    assert((nx + 1) * (ny + 1) * (nz + 1) == node_count(cells));
                    assert(all[p] == cell_tet(nx, ny, c, q));
                } else {
                    assert(all[p] == before[p]);
                }
            }
        }
    }
}

/// A lattice's distance constraints and surface stay inside it: every
/// unique edge of its tetrahedra (what `unique_edges` returns for the
/// result `r` of [`lattice_tetrahedra`]) joins two different nodes, smaller
/// first, both below the node count, and every boundary face (what
/// `boundary_faces` returns) has its three corners and its opposite corner
/// below the node count.
pub proof fn lemma_lattice_edges_and_faces_in_range(cells: [u32; 3], keep: Seq<bool>, r: Seq<[u32; 4]>)
    requires
        keep.len() == cell_count(cells),
        node_count(cells) <= u32::MAX,
        r.map_values(|t: [u32; 4]| t@) == lattice_tets(at_least_one(cells[0]), at_least_one(cells[1]), keep, keep.len()),
    ensures
        forall|k: int| 0 <= k < dedup(all_tet_edges(r)).len() ==> {
            let e = #[trigger] dedup(all_tet_edges(r))[k];
            e.0 < e.1 < node_count(cells)
        },
        forall|k: int| 0 <= k < boundary(r).len() ==> {
            let f = #[trigger] boundary(r)[k];
            &&& f.0.len() == 3
            &&& f.0[0] < node_count(cells) && f.0[1] < node_count(cells) && f.0[2] < node_count(cells)
            &&& f.1 < node_count(cells)
        },
{
    let tets = lattice_tets(at_least_one(cells[0]), at_least_one(cells[1]), keep, keep.len());
    lemma_lattice_nodes_in_range(cells, keep, keep.len());
    lemma_lattice_corners_increasing(cells, keep, keep.len());
    let n = node_count(cells);
    assert forall|t: int, m: int| 0 <= t < r.len() && 0 <= m < 4 implies #[trigger] r[t]@[m] < n by {
        assert(r.map_values(|t: [u32; 4]| t@)[t] == r[t]@);
        assert(tet_in_range(tets[t], n));
    }
    assert forall|t: int, a: int, b: int| 0 <= t < r.len() && 0 <= a < b < 4 implies #[trigger] r[t]@[a]
        != #[trigger] r[t]@[b] by {
        assert(r.map_values(|t: [u32; 4]| t@)[t] == r[t]@);
        let x = tets[t];
        assert(x[0] < x[1] < x[2] < x[3]);
    }
    assert(corners_below(r, n));
    assert(corners_distinct(r));
    lemma_unique_edges_in_range(r, n);
    lemma_boundary_in_range(r, n);
}

/// Corner `m` (0..4) of Kuhn tetrahedron `t` (0..6), as a corner bit pattern.
fn kuhn_corner(t: usize, m: usize) -> (b: usize)
    requires
        t < 6,
        m < 4,
    ensures
        b as int == kuhn(t as int)[m as int],
        b < 8,
{
    if m == 0 {
        0
    } else if m == 3 {
        7
    } else if t == 0 {
        if m == 1 { 1 } else { 3 }
    } else if t == 1 {
        if m == 1 { 1 } else { 5 }
    } else if t == 2 {
        if m == 1 { 2 } else { 3 }
    } else if t == 3 {
        if m == 1 { 2 } else { 6 }
    } else if t == 4 {
        if m == 1 { 4 } else { 5 }
    } else {
        if m == 1 { 4 } else { 6 }
    }
}

/// The tetrahedra of a lattice of `cells` (each axis clamped to at least one
/// cell): cell by cell (x fastest, then y, then z), the six Kuhn
/// tetrahedra of every cell whose entry in `keep` is true, as node indices
/// into the dense `(nx+1)(ny+1)(nz+1)` node grid.
pub fn lattice_tetrahedra(cells: [u32; 3], keep: &Vec<bool>) -> (r: Vec<[u32; 4]>)
    requires
        keep@.len() == cell_count(cells),
        node_count(cells) <= u32::MAX,
    ensures
        r@.map_values(|t: [u32; 4]| t@) == lattice_tets(
            at_least_one(cells[0]),
            at_least_one(cells[1]),
            keep@,
            keep@.len(),
        ),
{
    let nx: u32 = if cells[0] == 0 { 1 } else { cells[0] };
    let ny: u32 = if cells[1] == 0 { 1 } else { cells[1] };
    let nz: u32 = if cells[2] == 0 { 1 } else { cells[2] };
    let ghost gx = nx as int;
    let ghost gy = ny as int;
    let ghost gz = nz as int;
    proof {
        assert(gx * gy * gz <= (gx + 1) * (gy + 1) * (gz + 1)) by (nonlinear_arith)
            requires gx >= 1, gy >= 1, gz >= 1;
        assert(gx * gy <= gx * gy * gz) by (nonlinear_arith) requires gx >= 1, gy >= 1, gz >= 1;
    }
    let plane: u32 = nx * ny;
    let total = keep.len();
    let mut out: Vec<[u32; 4]> = Vec::new();
    let mut c: usize = 0;
    while c < total
        invariant
            c <= total,
            total == keep@.len(),
            total as int == gx * gy * gz,
            plane as int == gx * gy,
            gx == nx as int,
            gy == ny as int,
            gz == nz as int,
            gx >= 1,
            gy >= 1,
            gz >= 1,
            gx == at_least_one(cells[0]),
            gy == at_least_one(cells[1]),
            (gx + 1) * (gy + 1) * (gz + 1) <= u32::MAX,
            out@.map_values(|t: [u32; 4]| t@) == lattice_tets(gx, gy, keep@, c as nat),
        decreases total - c,
    {
        let ghost before = out@;
        if keep[c] {
            proof {
                lemma_cell_coords(gx, gy, gz, c as int);
            }
            let i: u32 = (c % (nx as usize)) as u32;
            let j: u32 = ((c / (nx as usize)) % (ny as usize)) as u32;
            let k: u32 = (c / (plane as usize)) as u32;
            let mut t: usize = 0;
            while t < 6
                invariant
                    t <= 6,
                    0 <= i < gx,
                    0 <= j < gy,
                    0 <= k < gz,
                    i as int == (c as int) % gx,
                    j as int == ((c as int) / gx) % gy,
                    k as int == (c as int) / (gx * gy),
                    gx == nx as int,
                    gy == ny as int,
                    gz == nz as int,
                    gx >= 1,
                    gy >= 1,
                    gz >= 1,
                    (gx + 1) * (gy + 1) * (gz + 1) <= u32::MAX,
                    out@.len() == before.len() + t,
                    forall|p: int| 0 <= p < before.len() ==> #[trigger] out@[p] == before[p],
                    forall|p: int| 0 <= p < t ==> (#[trigger] out@[before.len() + p])@ == cell_tet(gx, gy, c as int, p),
                decreases 6 - t,
            {
                let mut corners: [u32; 4] = [0, 0, 0, 0];
                let mut m: usize = 0;
                while m < 4
                    invariant
                        m <= 4,
                        t < 6,
                        0 <= i < gx,
                        0 <= j < gy,
                        0 <= k < gz,
                        i as int == (c as int) % gx,
                        j as int == ((c as int) / gx) % gy,
                        k as int == (c as int) / (gx * gy),
                        gx == nx as int,
                        gy == ny as int,
                        gz == nz as int,
                        gx >= 1,
                        gy >= 1,
                        gz >= 1,
                        (gx + 1) * (gy + 1) * (gz + 1) <= u32::MAX,
                        forall|q: int| 0 <= q < m ==> #[trigger] corners@[q] == cell_tet(gx, gy, c as int, t as int)[q],
                    decreases 4 - m,
                {
                    let b = kuhn_corner(t, m);
                    let dx: u32 = (b % 2) as u32;
                    let dy: u32 = ((b / 2) % 2) as u32;
                    let dz: u32 = (b / 4) as u32;
                    proof {
                        assert(dx <= 1 && dy <= 1 && dz <= 1);
                        assert(gx + 1 <= u32::MAX && gy + 1 <= u32::MAX) by (nonlinear_arith)
                            requires gx >= 1, gy >= 1, gz >= 1, (gx + 1) * (gy + 1) * (gz + 1) <= u32::MAX;
                        let ii = (i + dx) as int;
                        let jj = (j + dy) as int;
                        let kk = (k + dz) as int;
                        lemma_node_bound(gx, gy, gz, ii, jj, kk);
                        let lim = (gx + 1) * (gy + 1) * (gz + 1);
                        assert(kk * (gy + 1) + jj <= u32::MAX) by (nonlinear_arith)
                            requires 0 <= kk <= gz, 0 <= jj <= gy, lim == (gx + 1) * (gy + 1) * (gz + 1), lim <= u32::MAX, gx >= 1, gy >= 1;
                        assert((kk * (gy + 1) + jj) * (gx + 1) <= u32::MAX) by (nonlinear_arith)
                            requires (kk * (gy + 1) + jj) * (gx + 1) + ii < lim, lim <= u32::MAX, 0 <= ii;
                        assert(kk * (gy + 1) <= u32::MAX) by (nonlinear_arith)
                            requires kk * (gy + 1) + jj <= u32::MAX, 0 <= jj;
                    }
                    let node: u32 = ((k + dz) * (ny + 1) + (j + dy)) * (nx + 1) + (i + dx);
                    corners[m] = node;
                    proof {
                        assert(corners@[m as int] == cell_tet(gx, gy, c as int, t as int)[m as int]);
                    }
                    m = m + 1;
                }
                proof {
                    assert(corners@ =~= cell_tet(gx, gy, c as int, t as int));
                }
                out.push(corners);
                t = t + 1;
            }
            proof {
                let lhs = out@.map_values(|t: [u32; 4]| t@);
                let rhs = before.map_values(|t: [u32; 4]| t@) + cell_tets(gx, gy, c as int);
                assert(lhs.len() == rhs.len());
                assert forall|p: int| 0 <= p < lhs.len() implies lhs[p] == rhs[p] by {
                    if p < before.len() {
                        assert(out@[p] == before[p]);
                    } else {
                        let q = p - before.len();
                        assert(out@[before.len() + q]@ == cell_tet(gx, gy, c as int, q));
                    }
                }
                assert(lhs =~= rhs);
            }
        }
        c = c + 1;
    }
    out
}

} // verus!
