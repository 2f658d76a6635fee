//! The resource cache: every GPU resource is owned here and referenced by
//! handle. Handles from the `insert_*` methods come from one counter shared
//! by all three kinds, so no two of them ever share an index.

use vstd::prelude::*;
use std::collections::HashMap;
use crate::handle::{Handle, MeshHandle, TextureHandle, MaterialHandle};

verus! {

broadcast use vstd::std_specs::hash::group_hash_axioms;

/// Injective packing of a handle into a map key.
pub open spec fn handle_key(h: Handle) -> u64 {
    (h.spec_index() as int * 0x1_0000_0000 + h.spec_generation() as int) as u64
}

proof fn lemma_handle_key_injective(a: Handle, b: Handle)
    ensures
        handle_key(a) == handle_key(b) ==> a == b,
{
    let (i, g, j, k) = (a.spec_index(), a.spec_generation(), b.spec_index(), b.spec_generation());
    assert(0 <= i as int * 0x1_0000_0000 + g as int <= u64::MAX) by (nonlinear_arith)
        requires i <= u32::MAX, g <= u32::MAX;
    assert(0 <= j as int * 0x1_0000_0000 + k as int <= u64::MAX) by (nonlinear_arith)
        requires j <= u32::MAX, k <= u32::MAX;
    if handle_key(a) == handle_key(b) {
        assert(i == j && g == k) by (nonlinear_arith)
            requires
                i as int * 0x1_0000_0000 + g as int == j as int * 0x1_0000_0000 + k as int,
                0 <= g < 0x1_0000_0000,
                0 <= k < 0x1_0000_0000,
                0 <= i,
                0 <= j,
        ;
        Handle::lemma_fields_determine(a, b);
    }
}

fn key_of(h: Handle) -> (k: u64)
    ensures
        k == handle_key(h),
{
    let (i, g) = (h.index(), h.generation());
    assert(i as int * 0x1_0000_0000 + g as int <= u64::MAX) by (nonlinear_arith)
        requires i <= u32::MAX, g <= u32::MAX;
    (i as u64) * 0x1_0000_0000u64 + (g as u64)
}

/// The entries of a key-packed map, seen as a map from handles.
pub open spec fn by_handle<V>(m: Map<u64, V>) -> Map<Handle, V> {
    Map::new(|h: Handle| m.contains_key(handle_key(h)), |h: Handle| m[handle_key(h)])
}

proof fn lemma_by_handle_insert<V>(m: Map<u64, V>, h: Handle, v: V)
    ensures
        by_handle(m.insert(handle_key(h), v)) == by_handle(m).insert(h, v),
{
    assert forall|g: Handle| #[trigger] by_handle(m.insert(handle_key(h), v)).contains_key(g)
        == by_handle(m).insert(h, v).contains_key(g) by {
        lemma_handle_key_injective(g, h);
    }
    assert forall|g: Handle| #[trigger] by_handle(m.insert(handle_key(h), v)).contains_key(g)
        implies by_handle(m.insert(handle_key(h), v))[g] == by_handle(m).insert(h, v)[g] by {
        lemma_handle_key_injective(g, h);
    }
    assert(by_handle(m.insert(handle_key(h), v)) =~= by_handle(m).insert(h, v));
}

/// Meshes, textures and materials, each addressed by handle.
pub struct ResourceCache<M, T, A> {
    meshes: HashMap<u64, M>,
    textures: HashMap<u64, T>,
    materials: HashMap<u64, A>,
    next_index: u32,
}

impl<M, T, A> ResourceCache<M, T, A> {
    /// The stored meshes.
    pub closed spec fn spec_meshes(&self) -> Map<MeshHandle, M> {
        by_handle(self.meshes@)
    }

    /// The stored textures.
    pub closed spec fn spec_textures(&self) -> Map<TextureHandle, T> {
        by_handle(self.textures@)
    }

    /// The stored materials.
    pub closed spec fn spec_materials(&self) -> Map<MaterialHandle, A> {
        by_handle(self.materials@)
    }

    /// The index the next `insert_*` hands out.
    pub closed spec fn spec_next_index(&self) -> u32 {
        self.next_index
    }

    /// An empty cache.
    pub fn new() -> (c: Self)
        ensures
            c.spec_meshes() == Map::<MeshHandle, M>::empty(),
            c.spec_textures() == Map::<TextureHandle, T>::empty(),
            c.spec_materials() == Map::<MaterialHandle, A>::empty(),
            c.spec_next_index() == 0,
    {
        let c = ResourceCache {
            meshes: HashMap::new(),
            textures: HashMap::new(),
            materials: HashMap::new(),
            next_index: 0,
        };
        assert(c.spec_meshes() =~= Map::<MeshHandle, M>::empty());
        assert(c.spec_textures() =~= Map::<TextureHandle, T>::empty());
        assert(c.spec_materials() =~= Map::<MaterialHandle, A>::empty());
        c
    }

    fn next_index(&mut self) -> (i: u32)
        requires
            old(self).spec_next_index() < u32::MAX,
        ensures
            i == old(self).spec_next_index(),
            final(self).spec_next_index() == i + 1,
            final(self).meshes@ == old(self).meshes@,
            final(self).textures@ == old(self).textures@,
            final(self).materials@ == old(self).materials@,
    {
        let index = self.next_index;
        self.next_index = self.next_index + 1;
        index
    }

    /// Store `mesh` under a fresh handle (the next index, generation zero).
    pub fn insert_mesh(&mut self, mesh: M) -> (h: MeshHandle)
        requires
            old(self).spec_next_index() < u32::MAX,
        ensures
            h.spec_index() == old(self).spec_next_index(),
            h.spec_generation() == 0,
            final(self).spec_next_index() == old(self).spec_next_index() + 1,
            final(self).spec_meshes() == old(self).spec_meshes().insert(h, mesh),
            final(self).spec_textures() == old(self).spec_textures(),
            final(self).spec_materials() == old(self).spec_materials(),
    {
        let h = Handle::new(self.next_index(), 0);
        let k = key_of(h);
        proof {
            lemma_by_handle_insert(self.meshes@, h, mesh);
        }
        self.meshes.insert(k, mesh);
        h
    }

    /// Store `texture` under a fresh handle (the next index, generation zero).
    pub fn insert_texture(&mut self, texture: T) -> (h: TextureHandle)
        requires
            old(self).spec_next_index() < u32::MAX,
        ensures
            h.spec_index() == old(self).spec_next_index(),
            h.spec_generation() == 0,
            final(self).spec_next_index() == old(self).spec_next_index() + 1,
            final(self).spec_textures() == old(self).spec_textures().insert(h, texture),
            final(self).spec_meshes() == old(self).spec_meshes(),
            final(self).spec_materials() == old(self).spec_materials(),
    {
        let h = Handle::new(self.next_index(), 0);
        let k = key_of(h);
        proof {
            lemma_by_handle_insert(self.textures@, h, texture);
        }
        self.textures.insert(k, texture);
        h
    }

    /// Store `material` under a fresh handle (the next index, generation zero).
    pub fn insert_material(&mut self, material: A) -> (h: MaterialHandle)
        requires
            old(self).spec_next_index() < u32::MAX,
        ensures
            h.spec_index() == old(self).spec_next_index(),
            h.spec_generation() == 0,
            final(self).spec_next_index() == old(self).spec_next_index() + 1,
            final(self).spec_materials() == old(self).spec_materials().insert(h, material),
            final(self).spec_meshes() == old(self).spec_meshes(),
            final(self).spec_textures() == old(self).spec_textures(),
    {
        let h = Handle::new(self.next_index(), 0);
        let k = key_of(h);
        proof {
            lemma_by_handle_insert(self.materials@, h, material);
        }
        self.materials.insert(k, material);
        h
    }

    /// Store a mesh at a caller-chosen handle, replacing any existing entry.
    /// Used when the handle authority lives elsewhere (a loaded scene's asset
    /// table), so that handle resolves here without a remap.
    pub fn insert_mesh_at(&mut self, h: MeshHandle, mesh: M)
        ensures
            final(self).spec_meshes() == old(self).spec_meshes().insert(h, mesh),
            final(self).spec_textures() == old(self).spec_textures(),
            final(self).spec_materials() == old(self).spec_materials(),
            final(self).spec_next_index() == old(self).spec_next_index(),
    {
        let k = key_of(h);
        proof {
            lemma_by_handle_insert(self.meshes@, h, mesh);
        }
        self.meshes.insert(k, mesh);
    }

    /// Store a texture at a caller-chosen handle, replacing any existing entry.
    pub fn insert_texture_at(&mut self, h: TextureHandle, texture: T)
        ensures
            final(self).spec_textures() == old(self).spec_textures().insert(h, texture),
            final(self).spec_meshes() == old(self).spec_meshes(),
            final(self).spec_materials() == old(self).spec_materials(),
            final(self).spec_next_index() == old(self).spec_next_index(),
    {
        let k = key_of(h);
        proof {
            lemma_by_handle_insert(self.textures@, h, texture);
        }
        self.textures.insert(k, texture);
    }

    /// Store a material at a caller-chosen handle, replacing any existing entry.
    pub fn insert_material_at(&mut self, h: MaterialHandle, material: A)
        ensures
            final(self).spec_materials() == old(self).spec_materials().insert(h, material),
            final(self).spec_meshes() == old(self).spec_meshes(),
            final(self).spec_textures() == old(self).spec_textures(),
            final(self).spec_next_index() == old(self).spec_next_index(),
    {
        let k = key_of(h);
        proof {
            lemma_by_handle_insert(self.materials@, h, material);
        }
        self.materials.insert(k, material);
    }

    /// The mesh stored under `h`, if any.
    pub fn mesh(&self, h: MeshHandle) -> (r: Option<&M>)
        ensures
            r is Some <==> self.spec_meshes().contains_key(h),
            r matches Some(m) ==> *m == self.spec_meshes()[h],
    {
        let k = key_of(h);
        self.meshes.get(&k)
    }

    /// The texture stored under `h`, if any.
    pub fn texture(&self, h: TextureHandle) -> (r: Option<&T>)
        ensures
            r is Some <==> self.spec_textures().contains_key(h),
            r matches Some(t) ==> *t == self.spec_textures()[h],
    {
        let k = key_of(h);
        self.textures.get(&k)
    }

    /// The material stored under `h`, if any.
    pub fn material(&self, h: MaterialHandle) -> (r: Option<&A>)
        ensures
            r is Some <==> self.spec_materials().contains_key(h),
            r matches Some(m) ==> *m == self.spec_materials()[h],
    {
        let k = key_of(h);
        self.materials.get(&k)
    }
}

impl<M, T, A> Default for ResourceCache<M, T, A> {
    /// An empty cache.
    fn default() -> (c: Self)
        ensures
            c.spec_meshes() == Map::<MeshHandle, M>::empty(),
            c.spec_textures() == Map::<TextureHandle, T>::empty(),
            c.spec_materials() == Map::<MaterialHandle, A>::empty(),
            c.spec_next_index() == 0,
    {
        Self::new()
    }
}

/// A stored mesh reads back unchanged: after storing `mesh` under `h`, the
/// lookup of `h` finds exactly `mesh` and every other handle finds what it
/// found before.
pub proof fn lemma_mesh_read_after_write<M, T, A>(
    before: ResourceCache<M, T, A>,
    after: ResourceCache<M, T, A>,
    h: MeshHandle,
    mesh: M,
)
    requires
        after.spec_meshes() == before.spec_meshes().insert(h, mesh),
    ensures
        after.spec_meshes().contains_key(h),
        after.spec_meshes()[h] == mesh,
        forall|g: MeshHandle| g != h ==> (#[trigger] after.spec_meshes().contains_key(g)
            == before.spec_meshes().contains_key(g)),
        forall|g: MeshHandle| g != h && #[trigger] before.spec_meshes().contains_key(g)
            ==> after.spec_meshes()[g] == before.spec_meshes()[g],
{
}

/// Handles handed out by consecutive `insert_*` calls never collide: each
/// call takes the next index of the shared counter, so a handle from an
/// earlier call has a smaller index than every later one.
pub proof fn lemma_fresh_handles_differ(first: Handle, second: Handle, next_before: u32, next_between: u32)
    requires
        first.spec_index() == next_before,
        next_between == next_before + 1,
        second.spec_index() >= next_between,
    ensures
        first != second,
{
}

} // verus!
