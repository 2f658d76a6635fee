//! Cloth and soft-body topology: the constraint wiring of a cloth grid, the
//! triangle list that renders it, and the bookkeeping of where soft bodies
//! and cloths live in the world's flat particle array.

use vstd::prelude::*;
use crate::seq_count::count_true;

verus! {

/// A grid dimension clamped to at least two particles.
pub open spec fn at_least_two(n: usize) -> int {
    if n < 2 {
        2
    } else {
        n as int
    }
}

/// Structural constraints of grid particle `p` (row-major, `cols` wide):
/// to its right neighbour and to the one below.
pub open spec fn structural_at(cols: int, rows: int, p: int) -> Seq<(u32, u32)> {
    let c = p % cols;
    let r = p / cols;
    (if c + 1 < cols {
        seq![(p as u32, (p + 1) as u32)]
    } else {
        Seq::empty()
    }) + (if r + 1 < rows {
        seq![(p as u32, (p + cols) as u32)]
    } else {
        Seq::empty()
    })
}

/// Shear constraints of grid particle `p`: both diagonals of the quad to its
/// lower right.
pub open spec fn shear_at(cols: int, rows: int, p: int) -> Seq<(u32, u32)> {
    let c = p % cols;
    let r = p / cols;
    if c + 1 < cols && r + 1 < rows {
        seq![(p as u32, (p + cols + 1) as u32), ((p + 1) as u32, (p + cols) as u32)]
    } else {
        Seq::empty()
    }
}

/// Bending constraints of grid particle `p`: to the particle two to the
/// right and the one two below.
pub open spec fn bending_at(cols: int, rows: int, p: int) -> Seq<(u32, u32)> {
    let c = p % cols;
    let r = p / cols;
    (if c + 2 < cols {
        seq![(p as u32, (p + 2) as u32)]
    } else {
        Seq::empty()
    }) + (if r + 2 < rows {
        seq![(p as u32, (p + 2 * cols) as u32)]
    } else {
        Seq::empty()
    })
}

/// The constraints of the first `n` particles, particle after particle, where
/// `at` is one of the three families above (0 structural, 1 shear, 2 bending).
pub open spec fn family_upto(cols: int, rows: int, family: int, n: nat) -> Seq<(u32, u32)>
    decreases n,
{
    if n == 0 {
        Seq::empty()
    } else {
        let p = n - 1;
        family_upto(cols, rows, family, (n - 1) as nat) + if family == 0 {
            structural_at(cols, rows, p)
        } else if family == 1 {
            shear_at(cols, rows, p)
        } else {
            bending_at(cols, rows, p)
        }
    }
}

/// The constraint wiring of a `cols x rows` cloth grid (each dimension
/// clamped to at least two). Particle `(c, r)` has index `r * cols + c`.
pub struct ClothTopology {
    /// Particles across the width.
    pub cols: usize,
    /// Particles down the height.
    pub rows: usize,
    /// Orthogonal neighbours.
    pub structural: Vec<(u32, u32)>,
    /// Diagonal neighbours.
    pub shear: Vec<(u32, u32)>,
    /// Every-other-particle neighbours along each axis.
    pub bending: Vec<(u32, u32)>,
}

/// Every constraint links two distinct particles of the grid, lower index
/// first.
pub open spec fn pairs_in_grid(pairs: Seq<(u32, u32)>, n: int) -> bool {
    forall|i: int| 0 <= i < pairs.len() ==> #[trigger] pairs[i].0 < pairs[i].1 && pairs[i].1 < n
}

proof fn lemma_family_in_grid(cols: int, rows: int, family: int, n: nat)
    requires
        cols >= 2,
        rows >= 2,
        n <= cols * rows,
        cols * rows <= u32::MAX,
    ensures
        pairs_in_grid(family_upto(cols, rows, family, n), cols * rows),
    decreases n,
{
    if n > 0 {
        lemma_family_in_grid(cols, rows, family, (n - 1) as nat);
        let p = n - 1;
        let c = p % cols;
        let r = p / cols;
        assert(p == r * cols + c) by (nonlinear_arith) requires cols >= 2, c == p % cols, r == p / cols;
        assert(0 <= c < cols);
        assert(r + 1 < rows ==> p + cols < cols * rows) by (nonlinear_arith)
            requires p == r * cols + c, 0 <= c < cols, cols >= 2;
        assert(r + 2 < rows ==> p + 2 * cols < cols * rows) by (nonlinear_arith)
            requires p == r * cols + c, 0 <= c < cols, cols >= 2;
        assert(r + 1 < rows && c + 1 < cols ==> p + cols + 1 < cols * rows) by (nonlinear_arith)
            requires p == r * cols + c, 0 <= c < cols, cols >= 2;
        assert(c + 2 < cols ==> p + 2 < cols * rows) by (nonlinear_arith)
            requires p == r * cols + c, 0 <= c < cols, cols >= 2, 0 <= p < cols * rows;
        let before = family_upto(cols, rows, family, (n - 1) as nat);
        let all = family_upto(cols, rows, family, n);
        let extra = if family == 0 {
            structural_at(cols, rows, p)
        } else if family == 1 {
            shear_at(cols, rows, p)
        } else {
            bending_at(cols, rows, p)
        };
        assert(all == before + extra);
        assert(p + 2 * cols <= u32::MAX ==> ((p + 2 * cols) as u32) as int == p + 2 * cols);
        assert(c + 1 < cols ==> p + 1 < cols * rows) by (nonlinear_arith)
            requires p == r * cols + c, 0 <= c < cols, cols >= 2, 0 <= p < cols * rows;
        assert((p as u32) as int == p);
        assert(c + 1 < cols ==> ((p + 1) as u32) as int == p + 1);
        assert(c + 2 < cols ==> ((p + 2) as u32) as int == p + 2);
        assert(r + 1 < rows ==> ((p + cols) as u32) as int == p + cols);
        assert(r + 2 < rows ==> ((p + 2 * cols) as u32) as int == p + 2 * cols);
        assert(r + 1 < rows && c + 1 < cols ==> ((p + cols + 1) as u32) as int == p + cols + 1);
        let h = if c + 1 < cols { seq![(p as u32, (p + 1) as u32)] } else { Seq::<(u32, u32)>::empty() };
        let v = if r + 1 < rows { seq![(p as u32, (p + cols) as u32)] } else { Seq::<(u32, u32)>::empty() };
        let h2 = if c + 2 < cols { seq![(p as u32, (p + 2) as u32)] } else { Seq::<(u32, u32)>::empty() };
        let v2 = if r + 2 < rows { seq![(p as u32, (p + 2 * cols) as u32)] } else { Seq::<(u32, u32)>::empty() };
        assert(pairs_in_grid(h, cols * rows));
        assert(pairs_in_grid(v, cols * rows));
        assert(pairs_in_grid(h2, cols * rows));
        assert(pairs_in_grid(v2, cols * rows));
        assert(pairs_in_grid(shear_at(cols, rows, p), cols * rows));
        assert forall|x: Seq<(u32, u32)>, y: Seq<(u32, u32)>| pairs_in_grid(x, cols * rows) && pairs_in_grid(y, cols * rows)
            implies #[trigger] pairs_in_grid(x + y, cols * rows) by {
            assert forall|i: int| 0 <= i < (x + y).len() implies #[trigger] (x + y)[i].0 < (x + y)[i].1 && (x + y)[i].1 < cols * rows by {
                if i < x.len() {
                    assert((x + y)[i] == x[i]);
                } else {
                    assert((x + y)[i] == y[i - x.len()]);
                }
            }
        }
        assert(structural_at(cols, rows, p) == h + v);
        assert(bending_at(cols, rows, p) == h2 + v2);
        assert(pairs_in_grid(extra, cols * rows));
        assert(pairs_in_grid(before + extra, cols * rows));
    }
}

/// What each family's links look like, particle by particle.
proof fn lemma_family_shape(cols: int, rows: int, family: int, n: nat)
    requires
        cols >= 2,
        rows >= 2,
        n <= cols * rows,
        cols * rows <= u32::MAX,
    ensures
        forall|k: int| 0 <= k < family_upto(cols, rows, family, n).len() ==> {
            let e = #[trigger] family_upto(cols, rows, family, n)[k];
            let a = e.0 as int;
            let b = e.1 as int;
            &&& family == 0 ==> ((b == a + 1 && a % cols + 1 < cols) || (b == a + cols && a / cols + 1 < rows))
            &&& family == 1 ==> ((b == a + cols + 1 && a % cols + 1 < cols && a / cols + 1 < rows) || (b
                == a + cols - 1 && 1 <= a % cols && a / cols + 1 < rows))
            &&& (family != 0 && family != 1) ==> ((b == a + 2 && a % cols + 2 < cols) || (b == a + 2 * cols
                && a / cols + 2 < rows))
        },
    decreases n,
{
    if n > 0 {
        lemma_family_shape(cols, rows, family, (n - 1) as nat);
        let p = n - 1;
        let c = p % cols;
        let r = p / cols;
        assert(p == r * cols + c) by (nonlinear_arith) requires cols >= 2, c == p % cols, r == p / cols;
        assert(0 <= c < cols);
        assert(r + 1 < rows ==> p + cols + 1 <= cols * rows) by (nonlinear_arith)
            requires p == r * cols + c, 0 <= c < cols, cols >= 2;
        assert(r + 2 < rows ==> p + 2 * cols < cols * rows) by (nonlinear_arith)
            requires p == r * cols + c, 0 <= c < cols, cols >= 2;
        assert(c + 2 < cols ==> p + 2 < cols * rows) by (nonlinear_arith)
            requires p == r * cols + c, 0 <= c < cols, cols >= 2, 0 <= p < cols * rows;
        assert(c + 1 < cols ==> p + 1 < cols * rows) by (nonlinear_arith)
            requires p == r * cols + c, 0 <= c < cols, cols >= 2, 0 <= p < cols * rows;
        if c + 1 < cols {
            vstd::arithmetic::div_mod::lemma_fundamental_div_mod_converse(p + 1, cols, r, c + 1);
        }
        let before = family_upto(cols, rows, family, (n - 1) as nat);
        let all = family_upto(cols, rows, family, n);
        let extra = if family == 0 {
            structural_at(cols, rows, p)
        } else if family == 1 {
            shear_at(cols, rows, p)
        } else {
            bending_at(cols, rows, p)
        };
        assert(all == before + extra);
        assert forall|k: int| 0 <= k < all.len() implies {
            let e = #[trigger] all[k];
            let a = e.0 as int;
            let b = e.1 as int;
            &&& family == 0 ==> ((b == a + 1 && a % cols + 1 < cols) || (b == a + cols && a / cols + 1 < rows))
            &&& family == 1 ==> ((b == a + cols + 1 && a % cols + 1 < cols && a / cols + 1 < rows) || (b
                == a + cols - 1 && 1 <= a % cols && a / cols + 1 < rows))
            &&& (family != 0 && family != 1) ==> ((b == a + 2 && a % cols + 2 < cols) || (b == a + 2 * cols
                && a / cols + 2 < rows))
        } by {
            if k < before.len() {
                assert(all[k] == before[k]);
            } else {
                assert(all[k] == extra[k - before.len()]);
            }
        }
    }
}

/// The links of the first `n` particles include every link of each of them.
proof fn lemma_family_contains(cols: int, rows: int, family: int, n: nat, p: int, x: (u32, u32))
    requires
        0 <= p < n,
        (if family == 0 {
            structural_at(cols, rows, p)
        } else if family == 1 {
            shear_at(cols, rows, p)
        } else {
            bending_at(cols, rows, p)
        }).contains(x),
    ensures
        family_upto(cols, rows, family, n).contains(x),
    decreases n,
{
    let before = family_upto(cols, rows, family, (n - 1) as nat);
    let extra = if family == 0 {
        structural_at(cols, rows, n - 1)
    } else if family == 1 {
        shear_at(cols, rows, n - 1)
    } else {
        bending_at(cols, rows, n - 1)
    };
    let all = family_upto(cols, rows, family, n);
    assert(all == before + extra);
    if p == n - 1 {
        let i = choose|i: int| 0 <= i < extra.len() && extra[i] == x;
        assert(all[before.len() + i] == x);
    } else {
        lemma_family_contains(cols, rows, family, (n - 1) as nat, p, x);
        let i = choose|i: int| 0 <= i < before.len() && before[i] == x;
        assert(all[i] == x);
    }
}

/// Every structural constraint of a cloth grid joins a particle to its
/// right neighbour in the same row, or to the particle directly below it.
pub proof fn lemma_structural_links_orthogonal_neighbours(cols: int, rows: int)
    requires
        cols >= 2,
        rows >= 2,
        cols * rows <= u32::MAX,
    ensures
        forall|k: int| 0 <= k < family_upto(cols, rows, 0, (cols * rows) as nat).len() ==> {
            let e = #[trigger] family_upto(cols, rows, 0, (cols * rows) as nat)[k];
            let a = e.0 as int;
            let b = e.1 as int;
            (b == a + 1 && a % cols + 1 < cols) || (b == a + cols && a / cols + 1 < rows)
        },
        forall|p: int| 0 <= p < cols * rows ==> {
            &&& (p % cols + 1 < cols ==> #[trigger] family_upto(cols, rows, 0, (cols * rows) as nat).contains(
                (p as u32, (p + 1) as u32),
            ))
            &&& (p / cols + 1 < rows ==> family_upto(cols, rows, 0, (cols * rows) as nat).contains(
                (p as u32, (p + cols) as u32),
            ))
        },
{
    lemma_family_shape(cols, rows, 0, (cols * rows) as nat);
    assert forall|p: int| 0 <= p < cols * rows implies {
        &&& (p % cols + 1 < cols ==> #[trigger] family_upto(cols, rows, 0, (cols * rows) as nat).contains(
            (p as u32, (p + 1) as u32),
        ))
        &&& (p / cols + 1 < rows ==> family_upto(cols, rows, 0, (cols * rows) as nat).contains(
            (p as u32, (p + cols) as u32),
        ))
    } by {
        let e = structural_at(cols, rows, p);
        if p % cols + 1 < cols {
            assert(e[0] == (p as u32, (p + 1) as u32));
            lemma_family_contains(cols, rows, 0, (cols * rows) as nat, p, (p as u32, (p + 1) as u32));
        }
        if p / cols + 1 < rows {
            assert(e[e.len() - 1] == (p as u32, (p + cols) as u32));
            lemma_family_contains(cols, rows, 0, (cols * rows) as nat, p, (p as u32, (p + cols) as u32));
        }
    }
}

/// Every shear constraint of a cloth grid is a diagonal of one grid quad:
/// down and to the right, or down and to the left.
pub proof fn lemma_shear_links_diagonals(cols: int, rows: int)
    requires
        cols >= 2,
        rows >= 2,
        cols * rows <= u32::MAX,
    ensures
        forall|k: int| 0 <= k < family_upto(cols, rows, 1, (cols * rows) as nat).len() ==> {
            let e = #[trigger] family_upto(cols, rows, 1, (cols * rows) as nat)[k];
            let a = e.0 as int;
            let b = e.1 as int;
            (b == a + cols + 1 && a % cols + 1 < cols && a / cols + 1 < rows) || (b == a + cols - 1 && 1 <= a
                % cols && a / cols + 1 < rows)
        },
        forall|p: int|
            0 <= p < cols * rows && p % cols + 1 < cols && p / cols + 1 < rows ==> {
                &&& #[trigger] family_upto(cols, rows, 1, (cols * rows) as nat).contains(
                    (p as u32, (p + cols + 1) as u32),
                )
                &&& family_upto(cols, rows, 1, (cols * rows) as nat).contains(((p + 1) as u32, (p + cols) as u32))
            },
{
    lemma_family_shape(cols, rows, 1, (cols * rows) as nat);
    assert forall|p: int|
        0 <= p < cols * rows && p % cols + 1 < cols && p / cols + 1 < rows implies {
            &&& #[trigger] family_upto(cols, rows, 1, (cols * rows) as nat).contains(
                (p as u32, (p + cols + 1) as u32),
            )
            &&& family_upto(cols, rows, 1, (cols * rows) as nat).contains(((p + 1) as u32, (p + cols) as u32))
        } by {
        let e = shear_at(cols, rows, p);
        assert(e[0] == (p as u32, (p + cols + 1) as u32));
        assert(e[1] == ((p + 1) as u32, (p + cols) as u32));
        lemma_family_contains(cols, rows, 1, (cols * rows) as nat, p, e[0]);
        lemma_family_contains(cols, rows, 1, (cols * rows) as nat, p, e[1]);
    }
}

/// Every bending constraint of a cloth grid skips one particle: it joins two
/// particles of the same row two columns apart, or of the same column two
/// rows apart.
pub proof fn lemma_bending_links_skip_one(cols: int, rows: int)
    requires
        cols >= 2,
        rows >= 2,
        cols * rows <= u32::MAX,
    ensures
        forall|k: int| 0 <= k < family_upto(cols, rows, 2, (cols * rows) as nat).len() ==> {
            let e = #[trigger] family_upto(cols, rows, 2, (cols * rows) as nat)[k];
            let a = e.0 as int;
            let b = e.1 as int;
            (b == a + 2 && a % cols + 2 < cols) || (b == a + 2 * cols && a / cols + 2 < rows)
        },
        forall|p: int| 0 <= p < cols * rows ==> {
            &&& (p % cols + 2 < cols ==> #[trigger] family_upto(cols, rows, 2, (cols * rows) as nat).contains(
                (p as u32, (p + 2) as u32),
            ))
            &&& (p / cols + 2 < rows ==> family_upto(cols, rows, 2, (cols * rows) as nat).contains(
                (p as u32, (p + 2 * cols) as u32),
            ))
        },
{
    lemma_family_shape(cols, rows, 2, (cols * rows) as nat);
    assert forall|p: int| 0 <= p < cols * rows implies {
        &&& (p % cols + 2 < cols ==> #[trigger] family_upto(cols, rows, 2, (cols * rows) as nat).contains(
            (p as u32, (p + 2) as u32),
        ))
        &&& (p / cols + 2 < rows ==> family_upto(cols, rows, 2, (cols * rows) as nat).contains(
            (p as u32, (p + 2 * cols) as u32),
        ))
    } by {
        let e = bending_at(cols, rows, p);
        if p % cols + 2 < cols {
            assert(e[0] == (p as u32, (p + 2) as u32));
            lemma_family_contains(cols, rows, 2, (cols * rows) as nat, p, (p as u32, (p + 2) as u32));
        }
        if p / cols + 2 < rows {
            assert(e[e.len() - 1] == (p as u32, (p + 2 * cols) as u32));
            lemma_family_contains(cols, rows, 2, (cols * rows) as nat, p, (p as u32, (p + 2 * cols) as u32));
        }
    }
}

impl ClothTopology {
    /// Wire a `cols x rows` cloth (each dimension clamped to at least two):
    /// particle by particle in row-major order, its structural, shear and
    /// bending constraints (see [`structural_at`], [`shear_at`],
    /// [`bending_at`]). Every constraint links two distinct particles of the
    /// grid, lower index first.
    pub fn grid(cols: usize, rows: usize) -> (g: Self)
        requires
            at_least_two(cols) * at_least_two(rows) <= u32::MAX,
        ensures
            g.cols == at_least_two(cols),
            g.rows == at_least_two(rows),
            g.structural@ == family_upto(g.cols as int, g.rows as int, 0, (g.cols * g.rows) as nat),
            g.shear@ == family_upto(g.cols as int, g.rows as int, 1, (g.cols * g.rows) as nat),
            g.bending@ == family_upto(g.cols as int, g.rows as int, 2, (g.cols * g.rows) as nat),
            pairs_in_grid(g.structural@, g.cols * g.rows),
            pairs_in_grid(g.shear@, g.cols * g.rows),
            pairs_in_grid(g.bending@, g.cols * g.rows),
    {
        let cols: usize = if cols < 2 { 2 } else { cols };
        let rows: usize = if rows < 2 { 2 } else { rows };
        proof {
            assert(2 * cols <= cols * rows && 2 * rows <= cols * rows) by (nonlinear_arith)
                requires cols >= 2, rows >= 2;
        }
        let n: usize = cols * rows;
        let mut structural: Vec<(u32, u32)> = Vec::new();
        let mut shear: Vec<(u32, u32)> = Vec::new();
        let mut bending: Vec<(u32, u32)> = Vec::new();
        let mut p: usize = 0;
        while p < n
            invariant
                p <= n,
                n == cols * rows,
                cols >= 2,
                rows >= 2,
                2 * cols <= n,
                2 * rows <= n,
                n <= u32::MAX,
                structural@ == family_upto(cols as int, rows as int, 0, p as nat),
                shear@ == family_upto(cols as int, rows as int, 1, p as nat),
                bending@ == family_upto(cols as int, rows as int, 2, p as nat),
            decreases n - p,
        {
            let c = p % cols;
            let r = p / cols;
            let ghost (gp, gc, gr, gcols) = (p as int, c as int, r as int, cols as int);
            proof {
                assert(gp == gr * gcols + gc) by (nonlinear_arith)
                    requires gcols >= 2, gc == gp % gcols, gr == gp / gcols;
                assert(gr + 2 < rows ==> gp + 2 * gcols < n) by (nonlinear_arith)
                    requires gp == gr * gcols + gc, 0 <= gc < gcols, n == gcols * rows;
                assert(gr + 1 < rows ==> gp + gcols + 1 <= n) by (nonlinear_arith)
                    requires gp == gr * gcols + gc, 0 <= gc < gcols, n == gcols * rows;
                assert(gc + 2 < gcols ==> gp + 2 < n) by (nonlinear_arith)
                    requires gp == gr * gcols + gc, 0 <= gc < gcols, n == gcols * rows, gp < n;
                assert(gr < rows) by (nonlinear_arith)
                    requires gp == gr * gcols + gc, 0 <= gc < gcols, n == gcols * rows, gp < n, gcols >= 2;
            }
            let a = p as u32;
            let ghost s0 = structural@;
            let ghost h0 = shear@;
            let ghost b0 = bending@;
            if c + 1 < cols {
                structural.push((a, (p + 1) as u32));
            }
            if r + 1 < rows {
                structural.push((a, (p + cols) as u32));
            }
            if c + 1 < cols && r + 1 < rows {
                shear.push((a, (p + cols + 1) as u32));
                shear.push(((p + 1) as u32, (p + cols) as u32));
            }
            if c + 2 < cols {
                bending.push((a, (p + 2) as u32));
            }
            if r + 2 < rows {
                bending.push((a, (p + 2 * cols) as u32));
            }
            proof {
                assert(structural@ =~= s0 + structural_at(cols as int, rows as int, p as int));
                assert(shear@ =~= h0 + shear_at(cols as int, rows as int, p as int));
                assert(bending@ =~= b0 + bending_at(cols as int, rows as int, p as int));
            }
            p = p + 1;
        }
        proof {
            lemma_family_in_grid(cols as int, rows as int, 0, n as nat);
            lemma_family_in_grid(cols as int, rows as int, 1, n as nat);
            lemma_family_in_grid(cols as int, rows as int, 2, n as nat);
        }
        ClothTopology { cols, rows, structural, shear, bending }
    }

    /// Total particle count (`cols * rows`).
    pub fn particle_count(&self) -> (n: usize)
        requires
            self.cols * self.rows <= usize::MAX,
        ensures
            n == self.cols * self.rows,
    {
        self.cols * self.rows
    }
}

/// Number of particles that are not pinned, counted as at least one so the
/// cloth's mass can always be divided by it.
pub fn free_particle_count(pinned: &Vec<bool>) -> (n: usize)
    ensures
        n == if count_true(pinned@.map_values(|p: bool| !p)) == 0 {
            1
        } else {
            count_true(pinned@.map_values(|p: bool| !p))
        },
{
    let mut count: usize = 0;
    let mut i: usize = 0;
    while i < pinned.len()
        invariant
            i <= pinned.len(),
            count as nat == count_true(pinned@.take(i as int).map_values(|p: bool| !p)),
            count <= i,
        decreases pinned.len() - i,
    {
        proof {
            assert(pinned@.take(i + 1).map_values(|p: bool| !p).drop_last() =~= pinned@.take(
                i as int,
            ).map_values(|p: bool| !p));
        }
        if !pinned[i] {
            count = count + 1;
        }
        i = i + 1;
    }
    proof {
        assert(pinned@.take(pinned.len() as int) =~= pinned@);
    }
    if count == 0 {
        1
    } else {
        count
    }
}

/// The two triangles of quad `q` of a `cols x rows` particle grid (quads
/// numbered row-major, `cols - 1` per row): top-left, bottom-left,
/// bottom-right, then top-left, bottom-right, top-right.
pub open spec fn quad_indices(cols: int, q: int) -> Seq<u32> {
    let c = q % (cols - 1);
    let r = q / (cols - 1);
    let tl = r * cols + c;
    let tr = tl + 1;
    let bl = tl + cols;
    let br = bl + 1;
    seq![tl as u32, bl as u32, br as u32, tl as u32, br as u32, tr as u32]
}

/// The triangles of the first `n` quads.
pub open spec fn quads_upto(cols: int, n: nat) -> Seq<u32>
    decreases n,
{
    if n == 0 {
        Seq::empty()
    } else {
        quads_upto(cols, (n - 1) as nat) + quad_indices(cols, n - 1)
    }
}

proof fn lemma_quads_upto_wound(cols: int, rows: int, n: nat)
    requires
        cols >= 2,
        rows >= 2,
        n <= (cols - 1) * (rows - 1),
        cols * rows <= u32::MAX,
    ensures
        quads_upto(cols, n).len() == 6 * n,
        forall|i: int|
            0 <= i < 6 * n && i % 3 == 0 ==> {
                let a = #[trigger] quads_upto(cols, n)[i] as int;
                &&& a % cols + 1 < cols
                &&& a / cols + 1 < rows
                &&& ((quads_upto(cols, n)[i + 1] == a + cols && quads_upto(cols, n)[i + 2] == a + cols + 1) || (
                quads_upto(cols, n)[i + 1] == a + cols + 1 && quads_upto(cols, n)[i + 2] == a + 1))
            },
    decreases n,
{
    if n > 0 {
        let q = n - 1;
        lemma_quads_upto_wound(cols, rows, (n - 1) as nat);
        let before = quads_upto(cols, (n - 1) as nat);
        let all = quads_upto(cols, n);
        let extra = quad_indices(cols, q);
        assert(all == before + extra);
        let w = cols - 1;
        let c = q % w;
        let r = q / w;
        assert(q == r * w + c) by (nonlinear_arith) requires w >= 1, c == q % w, r == q / w;
        assert(0 <= c < w);
        assert(0 <= r < rows - 1) by (nonlinear_arith)
            requires q == r * w + c, 0 <= c < w, 0 <= q < w * (rows - 1), w >= 1;
        let tl = r * cols + c;
        assert(tl + cols + 1 < cols * rows) by (nonlinear_arith)
            requires tl == r * cols + c, 0 <= c < cols - 1, 0 <= r < rows - 1, cols >= 2;
        assert(tl >= 0) by (nonlinear_arith) requires tl == r * cols + c, c >= 0, r >= 0, cols >= 2;
        vstd::arithmetic::div_mod::lemma_fundamental_div_mod_converse(tl, cols, r, c);
        assert forall|i: int|
            0 <= i < 6 * n && i % 3 == 0 implies {
                let a = #[trigger] all[i] as int;
                &&& a % cols + 1 < cols
                &&& a / cols + 1 < rows
                &&& ((all[i + 1] == a + cols && all[i + 2] == a + cols + 1) || (all[i + 1] == a + cols + 1 && all[i
                    + 2] == a + 1))
            } by {
            if i < 6 * (n - 1) {
                assert(before[i] == all[i]);
                assert(all[i + 1] == before[i + 1]);
                assert(all[i + 2] == before[i + 2]);
            } else {
                let o = i - 6 * (n - 1);
                assert(o == 0 || o == 3);
                assert(all[i] == extra[o]);
                assert(all[i + 1] == extra[o + 1]);
                assert(all[i + 2] == extra[o + 2]);
            }
        }
    }
}

/// The cloth's render triangles all share one winding: each triangle
/// (entries `i, i + 1, i + 2` for `i` a multiple of three) is either
/// (top-left, bottom-left, bottom-right) or (top-left, bottom-right,
/// top-right) of a grid quad, whose top-left particle `a` is in neither the
/// last column nor the last row; two triangles per quad.
pub proof fn lemma_cloth_triangles_share_winding(cols: int, rows: int)
    requires
        cols >= 2,
        rows >= 2,
        cols * rows <= u32::MAX,
    ensures
        quads_upto(cols, ((cols - 1) * (rows - 1)) as nat).len() == 6 * (cols - 1) * (rows - 1),
        forall|i: int|
            0 <= i < quads_upto(cols, ((cols - 1) * (rows - 1)) as nat).len() && i % 3 == 0 ==> {
                let s = quads_upto(cols, ((cols - 1) * (rows - 1)) as nat);
                let a = #[trigger] quads_upto(cols, ((cols - 1) * (rows - 1)) as nat)[i] as int;
                &&& a % cols + 1 < cols
                &&& a / cols + 1 < rows
                &&& ((s[i + 1] == a + cols && s[i + 2] == a + cols + 1) || (s[i + 1] == a + cols + 1 && s[i + 2] == a
                    + 1))
            },
{
    let n = (cols - 1) * (rows - 1);
    assert(n >= 1) by (nonlinear_arith) requires cols >= 2, rows >= 2, n == (cols - 1) * (rows - 1);
    lemma_quads_upto_wound(cols, rows, n as nat);
    assert(6 * n == 6 * (cols - 1) * (rows - 1)) by (nonlinear_arith) requires n == (cols - 1) * (rows - 1);
}

/// A cloth resident in the world: where its grid of particles starts in the
/// world's particle array and how big the grid is.
#[derive(Debug)]
pub struct Cloth {
    base: usize,
    cols: usize,
    rows: usize,
}

/// Handle to a cloth stored in the world: its position in the world's list.
#[derive(Debug, Clone, Copy, PartialEq, Eq)]
pub struct ClothHandle(pub usize);

impl Cloth {
    /// First particle index.
    pub closed spec fn spec_base(&self) -> usize {
        self.base
    }

    /// Particles across.
    pub closed spec fn spec_cols(&self) -> usize {
        self.cols
    }

    /// Particles down.
    pub closed spec fn spec_rows(&self) -> usize {
        self.rows
    }

    /// A cloth whose `cols x rows` grid starts at particle `base`.
    pub fn new(base: usize, cols: usize, rows: usize) -> (c: Self)
        ensures
            c.spec_base() == base,
            c.spec_cols() == cols,
            c.spec_rows() == rows,
    {
        Cloth { base, cols, rows }
    }

    /// Index of this cloth's first particle in the world's particle array.
    pub fn base(&self) -> (b: usize)
        ensures
            b == self.spec_base(),
    {
        self.base
    }

    /// Grid dimensions: `(cols, rows)`.
    pub fn dims(&self) -> (d: (usize, usize))
        ensures
            d == (self.spec_cols(), self.spec_rows()),
    {
        (self.cols, self.rows)
    }

    /// Number of particles (`cols * rows`).
    pub fn particle_count(&self) -> (n: usize)
        requires
            self.spec_cols() * self.spec_rows() <= usize::MAX,
        ensures
            n == self.spec_cols() * self.spec_rows(),
    {
        self.cols * self.rows
    }

    /// Triangle indices, two triangles per quad in row-major order, into the
    /// cloth's local particle grid. Every index is below `cols * rows`.
    pub fn indices(&self) -> (r: Vec<u32>)
        requires
            self.spec_cols() >= 1,
            self.spec_rows() >= 1,
            self.spec_cols() * self.spec_rows() <= u32::MAX,
        ensures
            r@ == quads_upto(
                self.spec_cols() as int,
                ((self.spec_cols() - 1) * (self.spec_rows() - 1)) as nat,
            ),
            r@.len() == 6 * (self.spec_cols() - 1) * (self.spec_rows() - 1),
            forall|i: int| 0 <= i < r@.len() ==> #[trigger] r@[i] < self.spec_cols() * self.spec_rows(),
    {
        let cols = self.cols;
        let rows = self.rows;
        let w = cols - 1;
        let h = rows - 1;
        let ghost (gw, gh, gc) = (w as int, h as int, cols as int);
        proof {
            assert(gw * gh <= gc * (rows as int)) by (nonlinear_arith)
                requires gw == gc - 1, gh == rows - 1, gc >= 1, rows >= 1;
        }
        proof {
            assert(0 <= gw * gh <= u32::MAX) by (nonlinear_arith)
                requires gw * gh <= gc * (rows as int), gc * (rows as int) <= u32::MAX, gw >= 0, gh >= 0;
        }
        let quads = w * h;
        let mut out: Vec<u32> = Vec::new();
        let mut q: usize = 0;
        while q < quads
            invariant
                q <= quads,
                quads as int == gw * gh,
                gw == cols - 1,
                gh == rows - 1,
                gc == cols as int,
                w as int == gw,
                cols >= 1,
                rows >= 1,
                cols * rows <= u32::MAX,
                out@ == quads_upto(gc, q as nat),
                out@.len() == 6 * q,
                forall|i: int| 0 <= i < out@.len() ==> #[trigger] out@[i] < cols * rows,
            decreases quads - q,
        {
            let c = q % w;
            let r = q / w;
            let ghost (gq, gcc, gr) = (q as int, c as int, r as int);
            proof {
                assert(gw >= 1) by (nonlinear_arith) requires gq < gw * gh, gq >= 0, gh >= 0;
                assert(gq == gr * gw + gcc) by (nonlinear_arith) requires gw >= 1, gcc == gq % gw, gr == gq / gw;
                assert(gr < gh) by (nonlinear_arith) requires gq == gr * gw + gcc, 0 <= gcc < gw, gq < gw * gh;
                assert((gr + 1) * gc + gcc + 1 < gc * (rows as int)) by (nonlinear_arith)
                    requires gr + 1 <= gh, gh == rows - 1, gcc + 1 < gc, gc >= 2, gcc >= 0;
                assert(gr * gc + gcc + 1 <= (gr + 1) * gc + gcc + 1) by (nonlinear_arith) requires gc >= 0;
                assert((gr + 1) * gc == gr * gc + gc) by (nonlinear_arith);
                assert(0 <= gr * gc) by (nonlinear_arith) requires gr >= 0, gc >= 0;
            }
            let tl = r * cols + c;
            let tr = tl + 1;
            let bl = tl + cols;
            let br = bl + 1;
            let ghost before = out@;
            out.push(tl as u32);
            out.push(bl as u32);
            out.push(br as u32);
            out.push(tl as u32);
            out.push(br as u32);
            out.push(tr as u32);
            proof {
                assert(out@ =~= before + quad_indices(gc, q as int));
            }
            q = q + 1;
        }
        proof {
            assert(6 * (gw * gh) == 6 * gw * gh) by (nonlinear_arith);
        }
        out
    }
}

/// Every index of every surface triangle is below `count`.
pub open spec fn surface_in_range(surface: Seq<[u32; 3]>, count: int) -> bool {
    forall|t: int, m: int| 0 <= t < surface.len() && 0 <= m < 3 ==> #[trigger] surface[t]@[m] < count
}

/// A soft body resident in the world: the contiguous run of particles it
/// owns and its boundary triangles, indexed locally (`0..count`).
#[derive(Debug)]
pub struct SoftBody {
    base: usize,
    count: usize,
    surface: Vec<[u32; 3]>,
}

/// Handle to a soft body stored in the world: its position in the world's
/// list.
#[derive(Debug, Clone, Copy, PartialEq, Eq)]
pub struct SoftBodyHandle(pub usize);

impl SoftBody {
    /// First particle index.
    pub closed spec fn spec_base(&self) -> usize {
        self.base
    }

    /// Number of particles owned.
    pub closed spec fn spec_count(&self) -> usize {
        self.count
    }

    /// Boundary triangles.
    pub closed spec fn spec_surface(&self) -> Seq<[u32; 3]> {
        self.surface@
    }

    /// Its surface only names its own particles.
    #[verifier::type_invariant]
    spec fn surface_fits(self) -> bool {
        surface_in_range(self.surface@, self.count as int)
    }

    /// A soft body owning `count` particles from `base`, drawn with `surface`
    /// (whose indices are local, below `count`).
    pub fn new(base: usize, count: usize, surface: Vec<[u32; 3]>) -> (s: Self)
        requires
            surface_in_range(surface@, count as int),
        ensures
            s.spec_base() == base,
            s.spec_count() == count,
            s.spec_surface() == surface@,
    {
        SoftBody { base, count, surface }
    }

    /// First particle index in the world's particle array.
    pub fn base(&self) -> (b: usize)
        ensures
            b == self.spec_base(),
    {
        self.base
    }

    /// Number of particles owned by this body.
    pub fn particle_count(&self) -> (n: usize)
        ensures
            n == self.spec_count(),
    {
        self.count
    }

    /// Surface triangles as local particle indices, wound outward; every
    /// index is below [`particle_count`](Self::particle_count).
    pub fn surface(&self) -> (s: &[[u32; 3]])
        ensures
            s@ == self.spec_surface(),
            surface_in_range(s@, self.spec_count() as int),
    {
        proof {
            use_type_invariant(self);
        }
        self.surface.as_slice()
    }
}

impl Clone for Cloth {
    /// A copy of the same grid placement.
    fn clone(&self) -> (c: Self)
        ensures
            c.spec_base() == self.spec_base(),
            c.spec_cols() == self.spec_cols(),
            c.spec_rows() == self.spec_rows(),
    {
        Cloth { base: self.base, cols: self.cols, rows: self.rows }
    }
}

impl Clone for SoftBody {
    /// A copy of the same particle run and surface.
    fn clone(&self) -> (s: Self)
        ensures
            s.spec_base() == self.spec_base(),
            s.spec_count() == self.spec_count(),
            s.spec_surface() == self.spec_surface(),
    {
        proof {
            use_type_invariant(self);
        }
        let mut surface: Vec<[u32; 3]> = Vec::with_capacity(self.surface.len());
        let mut i: usize = 0;
        while i < self.surface.len()
            invariant
                i <= self.surface@.len(),
                surface@ == self.surface@.take(i as int),
            decreases self.surface@.len() - i,
        {
            surface.push(self.surface[i]);
            proof {
                assert(surface@ =~= self.surface@.take(i + 1));
            }
            i = i + 1;
        }
        proof {
            assert(surface@ =~= self.surface@);
        }
        SoftBody { base: self.base, count: self.count, surface }
    }
}

} // verus!
