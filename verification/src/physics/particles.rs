//! Where soft bodies and cloths live in the world's flat particle array.
//! Each one owns a contiguous run of particles, appended at the end of the
//! array when it is added, so no two runs ever overlap and every run lies
//! inside the array.

use vstd::prelude::*;
use crate::physics::soft::{surface_in_range, Cloth, ClothHandle, SoftBody, SoftBodyHandle};

verus! {

/// The particle run `[start, start + len)` lies inside `0..total`.
pub open spec fn run_within(start: int, len: int, total: int) -> bool {
    0 <= start && 0 <= len && start + len <= total
}

/// The runs `[a, a + la)` and `[b, b + lb)` share no particle.
pub open spec fn runs_disjoint(a: int, la: int, b: int, lb: int) -> bool {
    la == 0 || lb == 0 || a + la <= b || b + lb <= a
}

/// Particle count of a cloth's grid.
pub open spec fn cloth_len(c: Cloth) -> int {
    c.spec_cols() * c.spec_rows()
}

/// The soft bodies and cloths of a world, and the length of its particle
/// array.
pub struct ParticleRegistry {
    total: usize,
    soft_bodies: Vec<SoftBody>,
    cloths: Vec<Cloth>,
}

impl ParticleRegistry {
    /// Length of the particle array.
    pub closed spec fn spec_total(&self) -> usize {
        self.total
    }

    /// The resident soft bodies, by handle.
    pub closed spec fn spec_soft_bodies(&self) -> Seq<SoftBody> {
        self.soft_bodies@
    }

    /// The resident cloths, by handle.
    pub closed spec fn spec_cloths(&self) -> Seq<Cloth> {
        self.cloths@
    }

    /// Every run lies inside the particle array, and no two runs overlap.
    pub open spec fn wf(&self) -> bool {
        let s = self.spec_soft_bodies();
        let c = self.spec_cloths();
        let t = self.spec_total() as int;
        &&& forall|i: int| 0 <= i < s.len() ==> run_within(#[trigger] s[i].spec_base() as int, s[i].spec_count() as int, t)
        &&& forall|i: int| 0 <= i < c.len() ==> run_within(#[trigger] c[i].spec_base() as int, cloth_len(c[i]), t)
        &&& forall|i: int, j: int| 0 <= i < s.len() && 0 <= j < s.len() && i != j ==> runs_disjoint(
            #[trigger] s[i].spec_base() as int,
            s[i].spec_count() as int,
            #[trigger] s[j].spec_base() as int,
            s[j].spec_count() as int,
        )
        &&& forall|i: int, j: int| 0 <= i < c.len() && 0 <= j < c.len() && i != j ==> runs_disjoint(
            #[trigger] c[i].spec_base() as int,
            cloth_len(c[i]),
            #[trigger] c[j].spec_base() as int,
            cloth_len(c[j]),
        )
        &&& forall|i: int, j: int| 0 <= i < s.len() && 0 <= j < c.len() ==> runs_disjoint(
            #[trigger] s[i].spec_base() as int,
            s[i].spec_count() as int,
            #[trigger] c[j].spec_base() as int,
            cloth_len(c[j]),
        )
    }

    /// No particles, no soft bodies, no cloths.
    pub fn new() -> (r: Self)
        ensures
            r.wf(),
            r.spec_total() == 0,
            r.spec_soft_bodies().len() == 0,
            r.spec_cloths().len() == 0,
    {
        ParticleRegistry { total: 0, soft_bodies: Vec::new(), cloths: Vec::new() }
    }

    /// Register a soft body of `count` particles just appended to the
    /// particle array: it owns the run that starts at the old array length.
    /// Its surface names its particles locally, so every index is below
    /// `count`.
    pub fn add_soft_body(&mut self, count: usize, surface: Vec<[u32; 3]>) -> (h: SoftBodyHandle)
        requires
            old(self).wf(),
            surface_in_range(surface@, count as int),
            old(self).spec_total() + count <= usize::MAX,
        ensures
            final(self).wf(),
            h.0 == old(self).spec_soft_bodies().len(),
            final(self).spec_total() == old(self).spec_total() + count,
            final(self).spec_cloths() == old(self).spec_cloths(),
            final(self).spec_soft_bodies().len() == old(self).spec_soft_bodies().len() + 1,
            forall|i: int| 0 <= i < old(self).spec_soft_bodies().len() ==> #[trigger] final(self).spec_soft_bodies()[i]
                == old(self).spec_soft_bodies()[i],
            final(self).spec_soft_bodies()[h.0 as int].spec_base() == old(self).spec_total(),
            final(self).spec_soft_bodies()[h.0 as int].spec_count() == count,
            final(self).spec_soft_bodies()[h.0 as int].spec_surface() == surface@,
    {
        let base = self.total;
        let handle = SoftBodyHandle(self.soft_bodies.len());
        let ghost old_s = self.soft_bodies@;
        self.soft_bodies.push(SoftBody::new(base, count, surface));
        self.total = base + count;
        proof {
            let s = self.soft_bodies@;
            let c = self.cloths@;
            let n = old_s.len() as int;
            assert(c == old(self).spec_cloths());
            assert forall|i: int| 0 <= i < c.len() implies run_within(#[trigger] c[i].spec_base() as int, cloth_len(c[i]), self.total as int) by {
                assert(run_within(old(self).spec_cloths()[i].spec_base() as int, cloth_len(old(self).spec_cloths()[i]), base as int));
            }
            assert forall|i: int, j: int| 0 <= i < c.len() && 0 <= j < c.len() && i != j implies runs_disjoint(
                #[trigger] c[i].spec_base() as int,
                cloth_len(c[i]),
                #[trigger] c[j].spec_base() as int,
                cloth_len(c[j]),
            ) by {
                assert(runs_disjoint(
                    old(self).spec_cloths()[i].spec_base() as int,
                    cloth_len(old(self).spec_cloths()[i]),
                    old(self).spec_cloths()[j].spec_base() as int,
                    cloth_len(old(self).spec_cloths()[j]),
                ));
            }
            assert forall|i: int| 0 <= i < s.len() implies run_within(#[trigger] s[i].spec_base() as int, s[i].spec_count() as int, self.total as int) by {
                if i < n {
                    assert(s[i] == old_s[i]);
                }
            }
            assert forall|i: int, j: int| 0 <= i < s.len() && 0 <= j < s.len() && i != j implies runs_disjoint(
                #[trigger] s[i].spec_base() as int,
                s[i].spec_count() as int,
                #[trigger] s[j].spec_base() as int,
                s[j].spec_count() as int,
            ) by {
                if i < n {
                    assert(s[i] == old_s[i]);
                }
                if j < n {
                    assert(s[j] == old_s[j]);
                }
            }
            assert forall|i: int, j: int| 0 <= i < s.len() && 0 <= j < c.len() implies runs_disjoint(
                #[trigger] s[i].spec_base() as int,
                s[i].spec_count() as int,
                #[trigger] c[j].spec_base() as int,
                cloth_len(c[j]),
            ) by {
                assert(c[j] == old(self).spec_cloths()[j]);
                assert(run_within(old(self).spec_cloths()[j].spec_base() as int, cloth_len(old(self).spec_cloths()[j]), base as int));
                if i < n {
                    assert(s[i] == old(self).spec_soft_bodies()[i]);
                    assert(runs_disjoint(
                        old(self).spec_soft_bodies()[i].spec_base() as int,
                        old(self).spec_soft_bodies()[i].spec_count() as int,
                        old(self).spec_cloths()[j].spec_base() as int,
                        cloth_len(old(self).spec_cloths()[j]),
                    ));
                }
            }
        }
        handle
    }

    /// Register a `cols x rows` cloth just appended to the particle array: it
    /// owns the run that starts at the old array length.
    pub fn add_cloth(&mut self, cols: usize, rows: usize) -> (h: ClothHandle)
        requires
            old(self).wf(),
            old(self).spec_total() + cols * rows <= usize::MAX,
        ensures
            final(self).wf(),
            h.0 == old(self).spec_cloths().len(),
            final(self).spec_total() == old(self).spec_total() + cols * rows,
            final(self).spec_soft_bodies() == old(self).spec_soft_bodies(),
            final(self).spec_cloths().len() == old(self).spec_cloths().len() + 1,
            forall|i: int| 0 <= i < old(self).spec_cloths().len() ==> #[trigger] final(self).spec_cloths()[i]
                == old(self).spec_cloths()[i],
            final(self).spec_cloths()[h.0 as int].spec_base() == old(self).spec_total(),
            final(self).spec_cloths()[h.0 as int].spec_cols() == cols,
            final(self).spec_cloths()[h.0 as int].spec_rows() == rows,
    {
        proof {
            assert(0 <= cols * rows) by (nonlinear_arith);
        }
        let base = self.total;
        let handle = ClothHandle(self.cloths.len());
        let ghost old_c = self.cloths@;
        self.cloths.push(Cloth::new(base, cols, rows));
        self.total = base + cols * rows;
        proof {
            let s = self.soft_bodies@;
            let c = self.cloths@;
            let n = old_c.len() as int;
            assert(s == old(self).spec_soft_bodies());
            assert forall|i: int| 0 <= i < s.len() implies run_within(#[trigger] s[i].spec_base() as int, s[i].spec_count() as int, self.total as int) by {
                assert(run_within(old(self).spec_soft_bodies()[i].spec_base() as int, old(self).spec_soft_bodies()[i].spec_count() as int, base as int));
            }
            assert forall|i: int, j: int| 0 <= i < s.len() && 0 <= j < s.len() && i != j implies runs_disjoint(
                #[trigger] s[i].spec_base() as int,
                s[i].spec_count() as int,
                #[trigger] s[j].spec_base() as int,
                s[j].spec_count() as int,
            ) by {
                assert(runs_disjoint(
                    old(self).spec_soft_bodies()[i].spec_base() as int,
                    old(self).spec_soft_bodies()[i].spec_count() as int,
                    old(self).spec_soft_bodies()[j].spec_base() as int,
                    old(self).spec_soft_bodies()[j].spec_count() as int,
                ));
            }
            assert forall|i: int| 0 <= i < c.len() implies run_within(#[trigger] c[i].spec_base() as int, cloth_len(c[i]), self.total as int) by {
                if i < n {
                    assert(c[i] == old_c[i]);
                }
            }
            assert forall|i: int, j: int| 0 <= i < c.len() && 0 <= j < c.len() && i != j implies runs_disjoint(
                #[trigger] c[i].spec_base() as int,
                cloth_len(c[i]),
                #[trigger] c[j].spec_base() as int,
                cloth_len(c[j]),
            ) by {
                if i < n {
                    assert(c[i] == old_c[i]);
                }
                if j < n {
                    assert(c[j] == old_c[j]);
                }
            }
            assert forall|i: int, j: int| 0 <= i < s.len() && 0 <= j < c.len() implies runs_disjoint(
                #[trigger] s[i].spec_base() as int,
                s[i].spec_count() as int,
                #[trigger] c[j].spec_base() as int,
                cloth_len(c[j]),
            ) by {
                assert(s[i] == old(self).spec_soft_bodies()[i]);
                assert(run_within(old(self).spec_soft_bodies()[i].spec_base() as int, old(self).spec_soft_bodies()[i].spec_count() as int, base as int));
                if j < n {
                    assert(c[j] == old(self).spec_cloths()[j]);
                    assert(runs_disjoint(
                        old(self).spec_soft_bodies()[i].spec_base() as int,
                        old(self).spec_soft_bodies()[i].spec_count() as int,
                        old(self).spec_cloths()[j].spec_base() as int,
                        cloth_len(old(self).spec_cloths()[j]),
                    ));
                }
            }
        }
        handle
    }

    /// Total particle count across all soft bodies and cloths.
    pub fn particle_count(&self) -> (n: usize)
        ensures
            n == self.spec_total(),
    {
        self.total
    }

    /// Resident soft bodies.
    pub fn soft_bodies(&self) -> (s: &[SoftBody])
        ensures
            s@ == self.spec_soft_bodies(),
    {
        self.soft_bodies.as_slice()
    }

    /// Resident cloths.
    pub fn cloths(&self) -> (c: &[Cloth])
        ensures
            c@ == self.spec_cloths(),
    {
        self.cloths.as_slice()
    }

    /// A soft body by handle, or `None` for a handle of no soft body.
    pub fn soft_body(&self, h: SoftBodyHandle) -> (r: Option<&SoftBody>)
        ensures
            r is Some <==> h.0 < self.spec_soft_bodies().len(),
            r matches Some(s) ==> *s == self.spec_soft_bodies()[h.0 as int],
    {
        if h.0 < self.soft_bodies.len() {
            Some(&self.soft_bodies[h.0])
        } else {
            None
        }
    }

    /// A cloth by handle, or `None` for a handle of no cloth.
    pub fn cloth(&self, h: ClothHandle) -> (r: Option<&Cloth>)
        ensures
            r is Some <==> h.0 < self.spec_cloths().len(),
            r matches Some(c) ==> *c == self.spec_cloths()[h.0 as int],
    {
        if h.0 < self.cloths.len() {
            Some(&self.cloths[h.0])
        } else {
            None
        }
    }

    /// The particle range `start..end` a soft body owns, or `None` for a
    /// handle of no soft body. The range always lies inside the array.
    pub fn soft_body_range(&self, h: SoftBodyHandle) -> (r: Option<(usize, usize)>)
        requires
            self.wf(),
        ensures
            r is Some <==> h.0 < self.spec_soft_bodies().len(),
            r matches Some((a, b)) ==> {
                &&& a == self.spec_soft_bodies()[h.0 as int].spec_base()
                &&& b == a + self.spec_soft_bodies()[h.0 as int].spec_count()
                &&& b <= self.spec_total()
            },
    {
        if h.0 < self.soft_bodies.len() {
            let s = &self.soft_bodies[h.0];
            let base = s.base();
            Some((base, base + s.particle_count()))
        } else {
            None
        }
    }

    /// The particle range `start..end` a cloth owns, or `None` for a handle
    /// of no cloth. The range always lies inside the array.
    pub fn cloth_range(&self, h: ClothHandle) -> (r: Option<(usize, usize)>)
        requires
            self.wf(),
        ensures
            r is Some <==> h.0 < self.spec_cloths().len(),
            r matches Some((a, b)) ==> {
                &&& a == self.spec_cloths()[h.0 as int].spec_base()
                &&& b == a + cloth_len(self.spec_cloths()[h.0 as int])
                &&& b <= self.spec_total()
            },
    {
        if h.0 < self.cloths.len() {
            let c = &self.cloths[h.0];
            proof {
                assert(run_within(c.spec_base() as int, cloth_len(*c), self.total as int));
                assert(0 <= c.spec_cols() * c.spec_rows()) by (nonlinear_arith);
            }
            let base = c.base();
            Some((base, base + c.particle_count()))
        } else {
            None
        }
    }
}

/// A cloth just registered with [`ParticleRegistry::add_cloth`] owns the
/// tail of the particle array: its dimensions are the requested grid, it
/// owns `cols * rows` particles starting at the old array length, the array
/// now ends where its run ends, and every soft body and cloth registered
/// before is unchanged.
pub proof fn lemma_new_cloth_owns_the_tail(
    before: ParticleRegistry,
    after: ParticleRegistry,
    h: ClothHandle,
    cols: usize,
    rows: usize,
)
    requires
        after.wf(),
        h.0 == before.spec_cloths().len(),
        after.spec_total() == before.spec_total() + cols * rows,
        after.spec_soft_bodies() == before.spec_soft_bodies(),
        after.spec_cloths().len() == before.spec_cloths().len() + 1,
        forall|i: int| 0 <= i < before.spec_cloths().len() ==> #[trigger] after.spec_cloths()[i]
            == before.spec_cloths()[i],
        after.spec_cloths()[h.0 as int].spec_base() == before.spec_total(),
        after.spec_cloths()[h.0 as int].spec_cols() == cols,
        after.spec_cloths()[h.0 as int].spec_rows() == rows,
    ensures
        ({
            let c = after.spec_cloths()[h.0 as int];
            &&& c.spec_cols() == cols && c.spec_rows() == rows
            &&& cloth_len(c) == cols * rows
            &&& c.spec_base() == before.spec_total()
            &&& after.spec_total() == c.spec_base() + cloth_len(c)
            &&& forall|i: int| 0 <= i < h.0 ==> #[trigger] after.spec_cloths()[i] == before.spec_cloths()[i]
            &&& after.spec_soft_bodies() == before.spec_soft_bodies()
        }),
{
}

/// A soft body just registered with [`ParticleRegistry::add_soft_body`]
/// owns the tail of the particle array: `count` particles starting at the
/// old array length, with the surface it was given, and every soft body and
/// cloth registered before is unchanged.
pub proof fn lemma_new_soft_body_owns_the_tail(
    before: ParticleRegistry,
    after: ParticleRegistry,
    h: SoftBodyHandle,
    count: usize,
    surface: Seq<[u32; 3]>,
)
    requires
        after.wf(),
        h.0 == before.spec_soft_bodies().len(),
        after.spec_total() == before.spec_total() + count,
        after.spec_cloths() == before.spec_cloths(),
        after.spec_soft_bodies().len() == before.spec_soft_bodies().len() + 1,
        forall|i: int| 0 <= i < before.spec_soft_bodies().len() ==> #[trigger] after.spec_soft_bodies()[i]
            == before.spec_soft_bodies()[i],
        after.spec_soft_bodies()[h.0 as int].spec_base() == before.spec_total(),
        after.spec_soft_bodies()[h.0 as int].spec_count() == count,
        after.spec_soft_bodies()[h.0 as int].spec_surface() == surface,
    ensures
        ({
            let b = after.spec_soft_bodies()[h.0 as int];
            &&& b.spec_base() == before.spec_total()
            &&& b.spec_count() == count
            &&& b.spec_surface() == surface
            &&& after.spec_total() == b.spec_base() + b.spec_count()
            &&& forall|i: int| 0 <= i < h.0 ==> #[trigger] after.spec_soft_bodies()[i] == before.spec_soft_bodies()[i]
            &&& after.spec_cloths() == before.spec_cloths()
        }),
{
}

/// Shift local particle-index pairs by `base` into the world's particle array.
pub fn offset_pairs(base: usize, pairs: &Vec<(u32, u32)>) -> (r: Vec<(usize, usize)>)
    requires
        base + u32::MAX <= usize::MAX,
    ensures
        r@.len() == pairs@.len(),
        forall|i: int| 0 <= i < pairs@.len() ==> #[trigger] r@[i] == ((base + pairs@[i].0) as usize, (base + pairs@[i].1) as usize),
{
    let mut out: Vec<(usize, usize)> = Vec::with_capacity(pairs.len());
    let mut i: usize = 0;
    while i < pairs.len()
        invariant
            i <= pairs@.len(),
            base + u32::MAX <= usize::MAX,
            out@.len() == i,
            forall|k: int| 0 <= k < i ==> #[trigger] out@[k] == ((base + pairs@[k].0) as usize, (base + pairs@[k].1) as usize),
        decreases pairs@.len() - i,
    {
        let (a, b) = pairs[i];
        out.push((base + a as usize, base + b as usize));
        i = i + 1;
    }
    out
}

/// Shift local tetrahedra by `base` into the world's particle array.
pub fn offset_tets(base: usize, tets: &Vec<[u32; 4]>) -> (r: Vec<[usize; 4]>)
    requires
        base + u32::MAX <= usize::MAX,
    ensures
        r@.len() == tets@.len(),
        forall|i: int, m: int| 0 <= i < tets@.len() && 0 <= m < 4 ==> #[trigger] r@[i]@[m] == base + #[trigger] tets@[i]@[m],
{
    let mut out: Vec<[usize; 4]> = Vec::with_capacity(tets.len());
    let mut i: usize = 0;
    while i < tets.len()
        invariant
            i <= tets@.len(),
            base + u32::MAX <= usize::MAX,
            out@.len() == i,
            forall|k: int, m: int| 0 <= k < i && 0 <= m < 4 ==> #[trigger] out@[k]@[m] == base + #[trigger] tets@[k]@[m],
        decreases tets@.len() - i,
    {
        let t = tets[i];
        out.push([base + t[0] as usize, base + t[1] as usize, base + t[2] as usize, base + t[3] as usize]);
        i = i + 1;
    }
    out
}

} // verus!
