//! Generational body storage of the physics world. Bodies live in slots
//! addressed by handles; removing a body bumps its slot's generation, which
//! makes every handle made before the removal stale, and tombstones the slot
//! so the solver skips it. Slots are never reused, so a handle's index keeps
//! lining up with its body (serialization depends on this).

use vstd::prelude::*;
use crate::handle::BodyHandle;
use crate::physics::kinds::PhysicsError;

verus! {

/// Body slots with generations and tombstones, generic over the body type.
pub struct BodyStore<T> {
    bodies: Vec<T>,
    generations: Vec<u32>,
    removed: Vec<bool>,
}

impl<T> BodyStore<T> {
    /// The bodies, one per slot, in handle-index order.
    pub closed spec fn spec_bodies(&self) -> Seq<T> {
        self.bodies@
    }

    /// Each slot's current generation.
    pub closed spec fn spec_generations(&self) -> Seq<u32> {
        self.generations@
    }

    /// Each slot's tombstone.
    pub closed spec fn spec_removed(&self) -> Seq<bool> {
        self.removed@
    }

    /// The three per-slot sequences have one entry per slot.
    pub closed spec fn wf(&self) -> bool {
        self.bodies@.len() == self.generations@.len() && self.bodies@.len() == self.removed@.len()
    }

    /// Number of slots.
    pub open spec fn spec_len(&self) -> nat {
        self.spec_bodies().len()
    }

    /// `h` names a slot at that slot's current generation.
    pub open spec fn is_live(&self, h: BodyHandle) -> bool {
        &&& (h.spec_index() as int) < self.spec_len()
        &&& self.spec_generations()[h.spec_index() as int] == h.spec_generation()
    }

    /// An empty store.
    pub fn new() -> (s: Self)
        ensures
            s.wf(),
            s.spec_len() == 0,
    {
        BodyStore { bodies: Vec::new(), generations: Vec::new(), removed: Vec::new() }
    }

    /// Append `body` in a fresh slot at generation zero and return its handle.
    pub fn add_rigid_body(&mut self, body: T) -> (h: BodyHandle)
        requires
            old(self).wf(),
            old(self).spec_len() < u32::MAX,
        ensures
            final(self).wf(),
            h.spec_index() == old(self).spec_len(),
            h.spec_generation() == 0,
            final(self).spec_bodies() == old(self).spec_bodies().push(body),
            final(self).spec_generations() == old(self).spec_generations().push(0),
            final(self).spec_removed() == old(self).spec_removed().push(false),
    {
        let index = self.bodies.len() as u32;
        self.bodies.push(body);
        self.generations.push(0);
        self.removed.push(false);
        BodyHandle::new(index, 0)
    }

    /// Invalidate `h` by bumping its slot's generation and tombstone the
    /// body. Fails, changing nothing, when the handle is not live.
    pub fn remove_rigid_body(&mut self, h: BodyHandle) -> (r: Result<(), PhysicsError>)
        requires
            old(self).wf(),
            old(self).is_live(h) ==> old(self).spec_generations()[h.spec_index() as int] < u32::MAX,
        ensures
            final(self).wf(),
            r is Ok <==> old(self).is_live(h),
            r is Err ==> r == Err::<(), PhysicsError>(PhysicsError::InvalidHandle),
            final(self).spec_bodies() == old(self).spec_bodies(),
            old(self).is_live(h) ==> final(self).spec_generations() == old(self).spec_generations().update(
                h.spec_index() as int,
                (h.spec_generation() + 1) as u32,
            ),
            old(self).is_live(h) ==> final(self).spec_removed() == old(self).spec_removed().update(
                h.spec_index() as int,
                true,
            ),
            !old(self).is_live(h) ==> final(self).spec_generations() == old(self).spec_generations(),
            !old(self).is_live(h) ==> final(self).spec_removed() == old(self).spec_removed(),
    {
        let i = h.index() as usize;
        if i >= self.generations.len() {
            return Err(PhysicsError::InvalidHandle);
        }
        let g = self.generations[i];
        if g != h.generation() {
            return Err(PhysicsError::InvalidHandle);
        }
        self.generations.set(i, g + 1);
        self.removed.set(i, true);
        Ok(())
    }

    /// The body `h` names, or `None` for a stale or out-of-range handle.
    pub fn body(&self, h: BodyHandle) -> (r: Option<&T>)
        requires
            self.wf(),
        ensures
            r is Some <==> self.is_live(h),
            r matches Some(b) ==> *b == self.spec_bodies()[h.spec_index() as int],
    {
        let i = h.index() as usize;
        if i >= self.generations.len() || self.generations[i] != h.generation() {
            return None;
        }
        Some(&self.bodies[i])
    }

    /// Mutable access to the body `h` names, or `None` for a stale or
    /// out-of-range handle.
    pub fn body_mut(&mut self, h: BodyHandle) -> (r: Option<&mut T>)
        requires
            old(self).wf(),
        ensures
            r is Some <==> old(self).is_live(h),
            r is None ==> *final(self) == *old(self),
            r matches Some(b) ==> {
                &&& *b == old(self).spec_bodies()[h.spec_index() as int]
                &&& final(self).wf()
                &&& final(self).spec_bodies() == old(self).spec_bodies().update(h.spec_index() as int, *final(b))
                &&& final(self).spec_generations() == old(self).spec_generations()
                &&& final(self).spec_removed() == old(self).spec_removed()
            },
    {
        let i = h.index() as usize;
        if i >= self.generations.len() || self.generations[i] != h.generation() {
            return None;
        }
        Some(&mut self.bodies[i])
    }

    /// Index of the body `h` names, if the handle is live.
    pub fn index_of(&self, h: BodyHandle) -> (r: Option<usize>)
        requires
            self.wf(),
        ensures
            r is Some <==> self.is_live(h),
            r matches Some(i) ==> i == h.spec_index(),
    {
        let i = h.index() as usize;
        if i >= self.generations.len() || self.generations[i] != h.generation() {
            return None;
        }
        Some(i)
    }

    /// Number of slots, including removed ones.
    pub fn body_count(&self) -> (n: usize)
        requires
            self.wf(),
        ensures
            n == self.spec_len(),
    {
        self.bodies.len()
    }

    /// Every body slot in handle-index order, removed slots included.
    pub fn bodies(&self) -> (b: &[T])
        ensures
            b@ == self.spec_bodies(),
    {
        self.bodies.as_slice()
    }

    /// Every body slot, mutably, for the solver's passes over all bodies.
    /// The slots themselves, their generations and tombstones stay as they
    /// are; only the bodies in them change.
    pub fn bodies_mut(&mut self) -> (b: &mut [T])
        requires
            old(self).wf(),
        ensures
            b@ == old(self).spec_bodies(),
            final(self).spec_bodies() == final(b)@,
            final(self).spec_generations() == old(self).spec_generations(),
            final(self).spec_removed() == old(self).spec_removed(),
    {
        self.bodies.as_mut_slice()
    }

    /// Slot generation for each body, parallel to [`bodies`](Self::bodies).
    pub fn generations(&self) -> (g: &[u32])
        ensures
            g@ == self.spec_generations(),
            self.wf() ==> g@.len() == self.spec_len(),
    {
        self.generations.as_slice()
    }

    /// Whether slot `i` has been removed.
    pub fn is_removed(&self, i: usize) -> (b: bool)
        requires
            self.wf(),
            i < self.spec_len(),
        ensures
            b == self.spec_removed()[i as int],
    {
        self.removed[i]
    }
}

/// A well-formed store has one generation and one tombstone per slot.
pub proof fn lemma_one_generation_per_slot<T>(s: BodyStore<T>)
    requires
        s.wf(),
    ensures
        s.spec_generations().len() == s.spec_len(),
        s.spec_removed().len() == s.spec_len(),
{
}

/// Adding a body gives back a handle that is live and names exactly that
/// body, and every handle that was live before stays live and keeps naming
/// the same body.
pub proof fn lemma_add_then_lookup<T>(before: BodyStore<T>, after: BodyStore<T>, body: T, h: BodyHandle)
    requires
        before.wf(),
        h.spec_index() == before.spec_len(),
        h.spec_generation() == 0,
        after.spec_bodies() == before.spec_bodies().push(body),
        after.spec_generations() == before.spec_generations().push(0),
    ensures
        after.is_live(h),
        after.spec_bodies()[h.spec_index() as int] == body,
        forall|g: BodyHandle| #[trigger] before.is_live(g) ==> after.is_live(g)
            && after.spec_bodies()[g.spec_index() as int] == before.spec_bodies()[g.spec_index() as int],
{
}

/// Removing through a live handle makes that handle stale for good (a second
/// removal fails), while every handle to another slot keeps its liveness.
pub proof fn lemma_remove_makes_stale<T>(before: BodyStore<T>, after: BodyStore<T>, h: BodyHandle)
    requires
        before.wf(),
        before.is_live(h),
        before.spec_generations()[h.spec_index() as int] < u32::MAX,
        after.spec_bodies() == before.spec_bodies(),
        after.spec_generations() == before.spec_generations().update(
            h.spec_index() as int,
            (h.spec_generation() + 1) as u32,
        ),
    ensures
        !after.is_live(h),
        forall|g: BodyHandle| g.spec_index() != h.spec_index() ==> (#[trigger] after.is_live(g) == before.is_live(g)),
{
}

} // verus!
