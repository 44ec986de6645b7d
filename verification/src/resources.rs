use vstd::prelude::*;
use std::collections::HashMap;
use crate::entity::Entity;

verus! {

broadcast use vstd::std_specs::hash::group_hash_axioms;

/// The size of the drawing surface, in pixels.
#[derive(Debug, Clone, Copy)]
pub struct Viewport {
    pub width: u32,
    pub height: u32,
}

impl Viewport {
    /// A viewport of the given size.
    pub fn new(width: u32, height: u32) -> (v: Self)
        ensures
            v.width == width,
            v.height == height,
    {
        Self { width, height }
    }
}

/// The handle of a mesh in a [`MeshStore`].
#[derive(Debug, Clone, Copy, PartialEq, Eq, Structural, Hash)]
pub struct MeshId(pub u32);

/// The handle of a shader program in a [`ShaderStore`].
#[derive(Debug, Clone, Copy, PartialEq, Eq, Structural, Hash)]
pub struct ShaderId(pub u32);

/// The handle of a material in a [`MaterialStore`].
#[derive(Debug, Clone, Copy, PartialEq, Eq, Structural, Hash)]
pub struct MaterialId(pub u32);

// =========================== MESH STORE ============================ //

/// The single number under which a sphere of `stacks` by `slices` is cached.
pub open spec fn sphere_key(stacks: u32, slices: u32) -> u64 {
    (stacks as int * 0x1_0000_0000 + slices as int) as u64
}

fn sphere_key_exec(stacks: u32, slices: u32) -> (k: u64)
    ensures
        k == sphere_key(stacks, slices),
        k as int == stacks as int * 0x1_0000_0000 + slices as int,
{
    (stacks as u64) * 0x1_0000_0000u64 + (slices as u64)
}

proof fn lemma_sphere_key_injective(a: u32, b: u32, c: u32, d: u32)
    requires
        sphere_key(a, b) == sphere_key(c, d),
    ensures
        a == c && b == d,
{
    assert(a as int * 0x1_0000_0000 + b as int == c as int * 0x1_0000_0000 + d as int);
    if a < c {
        assert(a as int * 0x1_0000_0000 + 0x1_0000_0000 <= c as int * 0x1_0000_0000);
    } else if a > c {
        assert(c as int * 0x1_0000_0000 + 0x1_0000_0000 <= a as int * 0x1_0000_0000);
    }
}

/// Meshes handed out under consecutive ids, and the spheres already built, by size.
pub struct MeshStore<M> {
    meshes: HashMap<u32, M>,
    sphere_cache: HashMap<u64, MeshId>,
    next_id: u32,
}

/// What a request for the sphere of `stacks` by `slices` does to a store:
/// a sphere built before is handed out again and nothing changes; else a
/// new mesh is stored under the next id, which is remembered for that size.
pub open spec fn sphere_served<M>(before: MeshStore<M>, after: MeshStore<M>, stacks: u32, slices: u32, id: MeshId) -> bool {
    if before.spheres().contains_key((stacks, slices)) {
        &&& id.0 == before.spheres()[(stacks, slices)]
        &&& after.meshes() == before.meshes()
        &&& after.spheres() == before.spheres()
        &&& after.spec_next_id() == before.spec_next_id()
    } else {
        &&& id.0 == before.spec_next_id()
        &&& after.spec_next_id() == before.spec_next_id() + 1
        &&& after.meshes().dom() == before.meshes().dom().insert(id.0)
        &&& after.meshes().remove(id.0) == before.meshes()
        &&& after.spheres() == before.spheres().insert((stacks, slices), id.0)
    }
}

impl<M> MeshStore<M> {
    /// The mesh of each id.
    pub closed spec fn meshes(&self) -> Map<u32, M> {
        self.meshes@
    }

    /// The id of each sphere built so far, by (stacks, slices).
    pub closed spec fn spheres(&self) -> Map<(u32, u32), u32> {
        Map::new(
            |p: (u32, u32)| self.sphere_cache@.contains_key(sphere_key(p.0, p.1)),
            |p: (u32, u32)| self.sphere_cache@[sphere_key(p.0, p.1)].0,
        )
    }

    /// The id that the next mesh gets.
    pub closed spec fn spec_next_id(&self) -> u32 {
        self.next_id
    }

    /// The ids handed out are those below the next id, each with its mesh,
    /// and cached spheres name stored meshes.
    pub closed spec fn wf(&self) -> bool {
        &&& forall|k: u32| #[trigger] self.meshes@.contains_key(k) <==> k < self.next_id
        &&& forall|k: u64| #[trigger] self.sphere_cache@.contains_key(k) ==> self.sphere_cache@[k].0 < self.next_id
    }

    /// In a consistent store the ids with a mesh are exactly those handed
    /// out so far.
    pub proof fn lemma_ids_have_meshes(&self)
        requires
            self.wf(),
        ensures
            forall|k: u32| #[trigger] self.meshes().contains_key(k) <==> k < self.spec_next_id(),
    {
    }

    /// An empty store.
    pub fn new() -> (s: Self)
        ensures
            s.wf(),
            s.meshes() == Map::<u32, M>::empty(),
            s.spheres() == Map::<(u32, u32), u32>::empty(),
            s.spec_next_id() == 0,
    {
        let s = Self { meshes: HashMap::new(), sphere_cache: HashMap::new(), next_id: 0 };
        assert(s.spheres() =~= Map::<(u32, u32), u32>::empty());
        s
    }

    /// Stores the mesh under the next id.
    pub fn insert(&mut self, mesh: M) -> (id: MeshId)
        requires
            old(self).wf(),
            old(self).spec_next_id() < u32::MAX,
        ensures
            final(self).wf(),
            id.0 == old(self).spec_next_id(),
            final(self).spec_next_id() == old(self).spec_next_id() + 1,
            !old(self).meshes().contains_key(id.0),
            final(self).meshes() == old(self).meshes().insert(id.0, mesh),
            final(self).spheres() == old(self).spheres(),
    {
        let id = MeshId(self.next_id);
        self.meshes.insert(self.next_id, mesh);
        self.next_id = self.next_id + 1;
        assert(self.spheres() =~= old(self).spheres());
        id
    }

    /// The id that the next mesh gets.
    pub fn next_id(&self) -> (r: u32)
        ensures
            r == self.spec_next_id(),
    {
        self.next_id
    }

    /// The id of the sphere of `stacks` by `slices`, if one was built.
    pub fn cached_sphere(&self, stacks: u32, slices: u32) -> (r: Option<MeshId>)
        requires
            self.wf(),
        ensures
            match r {
                Some(id) => self.spheres().contains_key((stacks, slices)) && id.0 == self.spheres()[(stacks, slices)],
                None => !self.spheres().contains_key((stacks, slices)),
            },
    {
        let key = sphere_key_exec(stacks, slices);
        match self.sphere_cache.get(&key) {
            Some(id) => Some(*id),
            None => None,
        }
    }

    /// The mesh with the given id, if there is one.
    pub fn get(&self, id: MeshId) -> (r: Option<&M>)
        requires
            self.wf(),
        ensures
            match r {
                Some(m) => self.meshes().contains_key(id.0) && *m == self.meshes()[id.0],
                None => !self.meshes().contains_key(id.0),
            },
    {
        self.meshes.get(&id.0)
    }

    /// The id of the sphere of `stacks` by `slices`: the one built before if
    /// there is one, else a new mesh made by `load`, stored and remembered.
    pub fn get_or_create_sphere<F: FnOnce(u32, u32) -> M>(&mut self, stacks: u32, slices: u32, load: F) -> (id: MeshId)
        requires
            old(self).wf(),
            load.requires((stacks, slices)),
            !old(self).spheres().contains_key((stacks, slices)) ==> old(self).spec_next_id() < u32::MAX,
        ensures
            final(self).wf(),
            sphere_served(*old(self), *final(self), stacks, slices, id),
            !old(self).spheres().contains_key((stacks, slices)) ==> load.ensures(
                (stacks, slices),
                final(self).meshes()[id.0],
            ),
    {
        let key = sphere_key_exec(stacks, slices);
        match self.sphere_cache.get(&key) {
            Some(id) => {
                return *id;
            },
            None => {},
        }
        let mesh = load(stacks, slices);
        let id = self.insert(mesh);
        self.sphere_cache.insert(key, id);
        assert forall|p: (u32, u32)| #[trigger] self.spheres().contains_key(p) <==> old(self).spheres().insert(
            (stacks, slices),
            id.0,
        ).contains_key(p) by {
            if sphere_key(p.0, p.1) == key {
                lemma_sphere_key_injective(p.0, p.1, stacks, slices);
            }
        }
        assert forall|p: (u32, u32)| #[trigger] self.spheres().contains_key(p) implies self.spheres()[p] == old(
            self,
        ).spheres().insert((stacks, slices), id.0)[p] by {
            if sphere_key(p.0, p.1) == key {
                lemma_sphere_key_injective(p.0, p.1, stacks, slices);
            }
        }
        assert(self.spheres() =~= old(self).spheres().insert((stacks, slices), id.0));
        assert(self.meshes().remove(id.0) =~= old(self).meshes());
        id
    }
}

/// Asking twice for a sphere of one size gives one id and builds one mesh:
/// the second request finds the sphere of the first.
pub proof fn law_sphere_built_once<M>(
    s0: MeshStore<M>,
    s1: MeshStore<M>,
    s2: MeshStore<M>,
    stacks: u32,
    slices: u32,
    id1: MeshId,
    id2: MeshId,
)
    requires
        sphere_served(s0, s1, stacks, slices, id1),
        sphere_served(s1, s2, stacks, slices, id2),
    ensures
        id1 == id2,
        s2.meshes() == s1.meshes(),
        s2.spec_next_id() == s1.spec_next_id(),
{
    assert(s1.spheres().contains_key((stacks, slices)));
}

/// Whether `after` is what a call on `before` made: either a call that
/// leaves the remembered spheres as they were (such as `insert`), or a
/// request for a sphere.
pub open spec fn store_step<M>(before: MeshStore<M>, after: MeshStore<M>) -> bool {
    ||| after.spheres() == before.spheres()
    ||| exists|stacks: u32, slices: u32, id: MeshId| #[trigger] sphere_served(before, after, stacks, slices, id)
}

/// A sphere once built is remembered for good: along any run of calls on a
/// store, a size remembered at one point keeps its id at every later point,
/// so a later request for it hands out that id and leaves the store as it was.
pub proof fn law_sphere_remembered<M>(stores: Seq<MeshStore<M>>, a: int, b: int, stacks: u32, slices: u32)
    requires
        forall|k: int| 0 <= k < stores.len() - 1 ==> store_step(#[trigger] stores[k], stores[k + 1]),
        0 <= a <= b < stores.len(),
        stores[a].spheres().contains_key((stacks, slices)),
    ensures
        stores[b].spheres().contains_key((stacks, slices)),
        stores[b].spheres()[(stacks, slices)] == stores[a].spheres()[(stacks, slices)],
    decreases b - a,
{
    if a < b {
        law_sphere_remembered(stores, a, b - 1, stacks, slices);
        let s0 = stores[b - 1];
        let s1 = stores[b];
        assert(store_step(s0, s1));
        if s1.spheres() != s0.spheres() {
            let (st, sl, id) = choose|st: u32, sl: u32, id: MeshId| #[trigger] sphere_served(s0, s1, st, sl, id);
            if !s0.spheres().contains_key((st, sl)) {
                assert((st, sl) != (stacks, slices));
            }
        }
    }
}

/// Ids of meshes stored one after the other are consecutive, and each id
/// reads back its own mesh.
pub proof fn law_mesh_ids_consecutive<M>(
    s0: MeshStore<M>,
    s1: MeshStore<M>,
    s2: MeshStore<M>,
    m1: M,
    m2: M,
    id1: MeshId,
    id2: MeshId,
)
    requires
        id1.0 == s0.spec_next_id(),
        s1.spec_next_id() == s0.spec_next_id() + 1,
        s1.meshes() == s0.meshes().insert(id1.0, m1),
        id2.0 == s1.spec_next_id(),
        s2.meshes() == s1.meshes().insert(id2.0, m2),
    ensures
        id2.0 == id1.0 + 1,
        s2.meshes().contains_key(id1.0) && s2.meshes()[id1.0] == m1,
        s2.meshes().contains_key(id2.0) && s2.meshes()[id2.0] == m2,
{
}

// ========================= MATERIAL STORE ========================== //

/// Materials handed out under consecutive ids.
pub struct MaterialStore<D> {
    materials: Vec<D>,
    next_id: u32,
}

impl<D> MaterialStore<D> {
    /// The material of each id: the material with id `i` is at index `i`.
    pub closed spec fn materials(&self) -> Seq<D> {
        self.materials@
    }

    /// The id that the next material gets.
    pub closed spec fn spec_next_id(&self) -> u32 {
        self.next_id
    }

    /// Ids are the indices of the materials.
    pub closed spec fn wf(&self) -> bool {
        self.materials@.len() == self.next_id
    }

    /// In a consistent store the ids handed out so far are exactly the
    /// indices of the stored materials.
    pub proof fn lemma_ids_index_materials(&self)
        requires
            self.wf(),
        ensures
            self.materials().len() == self.spec_next_id(),
    {
    }

    /// An empty store.
    pub fn new() -> (s: Self)
        ensures
            s.wf(),
            s.materials() == Seq::<D>::empty(),
            s.spec_next_id() == 0,
    {
        Self { materials: Vec::new(), next_id: 0 }
    }

    /// Stores the material under the next id.
    pub fn insert(&mut self, data: D) -> (id: MaterialId)
        requires
            old(self).wf(),
            old(self).spec_next_id() < u32::MAX,
        ensures
            final(self).wf(),
            id.0 == old(self).spec_next_id(),
            final(self).spec_next_id() == old(self).spec_next_id() + 1,
            final(self).materials() == old(self).materials().push(data),
            final(self).materials()[id.0 as int] == data,
    {
        let id = MaterialId(self.next_id);
        self.next_id = self.next_id + 1;
        self.materials.push(data);
        id
    }

    /// The id that the next material gets.
    pub fn next_id(&self) -> (r: u32)
        ensures
            r == self.spec_next_id(),
    {
        self.next_id
    }

    /// The material with the given id, if there is one.
    pub fn get(&self, id: MaterialId) -> (r: Option<&D>)
        requires
            self.wf(),
        ensures
            match r {
                Some(d) => id.0 < self.materials().len() && *d == self.materials()[id.0 as int],
                None => id.0 >= self.materials().len(),
            },
    {
        let i = id.0 as usize;
        if i < self.materials.len() {
            Some(&self.materials[i])
        } else {
            None
        }
    }

    /// The material with the given id, if there is one, to be changed in place.
    pub fn get_mut(&mut self, id: MaterialId) -> (r: Option<&mut D>)
        requires
            old(self).wf(),
        ensures
            final(self).wf(),
            final(self).spec_next_id() == old(self).spec_next_id(),
            match r {
                Some(d) => {
                    &&& id.0 < old(self).materials().len()
                    &&& *d == old(self).materials()[id.0 as int]
                    &&& final(self).materials() == old(self).materials().update(id.0 as int, *final(d))
                },
                None => {
                    &&& id.0 >= old(self).materials().len()
                    &&& final(self).materials() == old(self).materials()
                },
            },
    {
        let i = id.0 as usize;
        if i < self.materials.len() {
            Some(&mut self.materials[i])
        } else {
            None
        }
    }
}

// =========================== SHADER STORE ========================== //

/// Linked shader programs handed out under consecutive ids, and which of them
/// is the default lambertian one.
pub struct ShaderStore<P> {
    lambertian_id: Option<ShaderId>,
    shaders: HashMap<u32, P>,
    next_id: u32,
}

impl<P> ShaderStore<P> {
    /// The program of each id.
    pub closed spec fn shaders(&self) -> Map<u32, P> {
        self.shaders@
    }

    /// The id that the next program gets.
    pub closed spec fn spec_next_id(&self) -> u32 {
        self.next_id
    }

    /// The id of the default lambertian program, once it is loaded.
    pub closed spec fn spec_lambertian_id(&self) -> Option<ShaderId> {
        self.lambertian_id
    }

    /// The ids handed out are those below the next id, each with its
    /// program, and the lambertian id names one.
    pub closed spec fn wf(&self) -> bool {
        &&& forall|k: u32| #[trigger] self.shaders@.contains_key(k) <==> k < self.next_id
        &&& self.lambertian_id matches Some(id) ==> id.0 < self.next_id
    }

    /// In a consistent store the ids with a program are exactly those
    /// handed out so far.
    pub proof fn lemma_ids_have_shaders(&self)
        requires
            self.wf(),
        ensures
            forall|k: u32| #[trigger] self.shaders().contains_key(k) <==> k < self.spec_next_id(),
    {
    }

    /// An empty store.
    pub fn new() -> (s: Self)
        ensures
            s.wf(),
            s.shaders() == Map::<u32, P>::empty(),
            s.spec_next_id() == 0,
            s.spec_lambertian_id() == None::<ShaderId>,
    {
        Self { lambertian_id: None, shaders: HashMap::new(), next_id: 0 }
    }

    /// Registers the outcome of linking a program: the program is stored
    /// under the next id, and a link error is handed back unchanged.
    pub fn compile(&mut self, linked: Result<P, String>) -> (r: Result<ShaderId, String>)
        requires
            old(self).wf(),
            linked is Ok ==> old(self).spec_next_id() < u32::MAX,
        ensures
            final(self).wf(),
            final(self).spec_lambertian_id() == old(self).spec_lambertian_id(),
            match linked {
                Ok(program) => {
                    &&& r == Ok::<ShaderId, String>(ShaderId(old(self).spec_next_id()))
                    &&& final(self).spec_next_id() == old(self).spec_next_id() + 1
                    &&& !old(self).shaders().contains_key(old(self).spec_next_id())
                    &&& final(self).shaders() == old(self).shaders().insert(old(self).spec_next_id(), program)
                },
                Err(e) => {
                    &&& r == Err::<ShaderId, String>(e)
                    &&& final(self).spec_next_id() == old(self).spec_next_id()
                    &&& final(self).shaders() == old(self).shaders()
                },
            },
    {
        match linked {
            Ok(program) => {
                let id = ShaderId(self.next_id);
                self.shaders.insert(self.next_id, program);
                self.next_id = self.next_id + 1;
                Ok(id)
            },
            Err(e) => Err(e),
        }
    }

    /// Registers the linked default lambertian program and remembers its id.
    pub fn load_defaults(&mut self, linked: Result<P, String>)
        requires
            old(self).wf(),
            linked is Ok,
            old(self).spec_next_id() < u32::MAX,
        ensures
            final(self).wf(),
            final(self).spec_lambertian_id() == Some(ShaderId(old(self).spec_next_id())),
            final(self).spec_next_id() == old(self).spec_next_id() + 1,
            final(self).shaders() == old(self).shaders().insert(old(self).spec_next_id(), linked->Ok_0),
    {
        match self.compile(linked) {
            Ok(id) => {
                self.lambertian_id = Some(id);
            },
            Err(_) => {},
        }
    }

    /// The id that the next program gets.
    pub fn next_id(&self) -> (r: u32)
        ensures
            r == self.spec_next_id(),
    {
        self.next_id
    }

    /// The program with the given id, if there is one.
    pub fn get(&self, id: ShaderId) -> (r: Option<&P>)
        requires
            self.wf(),
        ensures
            match r {
                Some(p) => self.shaders().contains_key(id.0) && *p == self.shaders()[id.0],
                None => !self.shaders().contains_key(id.0),
            },
    {
        self.shaders.get(&id.0)
    }

    /// The id of the default lambertian program, once it is loaded.
    pub fn lambertian_id(&self) -> (r: Option<ShaderId>)
        ensures
            r == self.spec_lambertian_id(),
    {
        self.lambertian_id
    }

    /// The default lambertian program, once it is loaded.
    pub fn lambertian(&self) -> (r: Option<&P>)
        requires
            self.wf(),
        ensures
            match self.spec_lambertian_id() {
                None => r is None,
                Some(id) => r matches Some(p) && *p == self.shaders()[id.0],
            },
    {
        match self.lambertian_id {
            None => None,
            Some(id) => self.get(id),
        }
    }
}

// ========================= COLLISION EVENTS ======================== //

/// Two colliders found touching in one step.
#[derive(Debug, Clone, Copy)]
pub struct CollisionEvent {
    pub entity_a: Entity,
    pub entity_b: Entity,
    pub is_trigger: bool,
}

/// The collisions found in the last step.
pub struct CollisionEvents {
    pub events: Vec<CollisionEvent>,
}

impl CollisionEvents {
    /// The ids of the colliding entities, two per event and in order: the
    /// first entity, then the second.
    pub fn pair_ids(&self) -> (r: Vec<u32>)
        ensures
            r@.len() == 2 * self.events@.len(),
            forall|i: int|
                0 <= i < self.events@.len() ==> r@[2 * i] == (#[trigger] self.events@[i]).entity_a.spec_id()
                    && r@[2 * i + 1] == self.events@[i].entity_b.spec_id(),
    {
        let mut r: Vec<u32> = Vec::new();
        let mut i: usize = 0;
        while i < self.events.len()
            invariant
                i <= self.events@.len(),
                r@.len() == 2 * i,
                forall|j: int|
                    0 <= j < i ==> r@[2 * j] == (#[trigger] self.events@[j]).entity_a.spec_id()
                        && r@[2 * j + 1] == self.events@[j].entity_b.spec_id(),
            decreases self.events@.len() - i,
        {
            let e = &self.events[i];
            r.push(e.entity_a.id());
            r.push(e.entity_b.id());
            i = i + 1;
        }
        r
    }
}

/// The callbacks of the entities to tell when they collide, by entity id.
pub struct CollisionCallbacks<C> {
    callbacks: HashMap<u32, C>,
}

/// For each event in order: the callback of the first party, if it has one,
/// with the id of the second; then the callback of the second party, if it
/// has one, with the id of the first; each with whether a trigger was involved.
pub open spec fn fires_of<C>(callbacks: Map<u32, C>, events: Seq<CollisionEvent>) -> Seq<(C, u32, bool)>
    decreases events.len(),
{
    if events.len() == 0 {
        Seq::empty()
    } else {
        let ev = events.last();
        let a = ev.entity_a.spec_id();
        let b = ev.entity_b.spec_id();
        let first: Seq<(C, u32, bool)> = if callbacks.contains_key(a) {
            seq![(callbacks[a], b, ev.is_trigger)]
        } else {
            Seq::empty()
        };
        let second: Seq<(C, u32, bool)> = if callbacks.contains_key(b) {
            seq![(callbacks[b], a, ev.is_trigger)]
        } else {
            Seq::empty()
        };
        fires_of(callbacks, events.drop_last()) + first + second
    }
}

/// The fires of one event: the callback of each party that has one, with the
/// id of the other party and the event's trigger flag, whatever the other
/// party has registered; the first party's comes first.
pub proof fn law_fires_of_one_event<C>(callbacks: Map<u32, C>, ev: CollisionEvent)
    ensures
        ({
            let a = ev.entity_a.spec_id();
            let b = ev.entity_b.spec_id();
            let f = fires_of(callbacks, seq![ev]);
            &&& f.len() == (if callbacks.contains_key(a) { 1int } else { 0 }) + (if callbacks.contains_key(b) {
                1int
            } else {
                0
            })
            &&& callbacks.contains_key(a) ==> f[0] == (callbacks[a], b, ev.is_trigger)
            &&& callbacks.contains_key(b) ==> f[f.len() - 1] == (callbacks[b], a, ev.is_trigger)
        }),
{
    let e = seq![ev];
    assert(e.drop_last() =~= Seq::<CollisionEvent>::empty());
    assert(e.last() == ev);
    let a = ev.entity_a.spec_id();
    let b = ev.entity_b.spec_id();
    let first: Seq<(C, u32, bool)> = if callbacks.contains_key(a) {
        seq![(callbacks[a], b, ev.is_trigger)]
    } else {
        Seq::empty()
    };
    let second: Seq<(C, u32, bool)> = if callbacks.contains_key(b) {
        seq![(callbacks[b], a, ev.is_trigger)]
    } else {
        Seq::empty()
    };
    let f = fires_of(callbacks, e);
    assert(fires_of(callbacks, Seq::<CollisionEvent>::empty()) == Seq::<(C, u32, bool)>::empty());
    assert(f == fires_of(callbacks, e.drop_last()) + first + second);
    assert(f =~= first + second);
}

/// The fires of a list of events are those of its parts, one after the other.
pub proof fn law_fires_of_concat<C>(callbacks: Map<u32, C>, e1: Seq<CollisionEvent>, e2: Seq<CollisionEvent>)
    ensures
        fires_of(callbacks, e1 + e2) == fires_of(callbacks, e1) + fires_of(callbacks, e2),
    decreases e2.len(),
{
    if e2.len() == 0 {
        assert(e1 + e2 =~= e1);
        assert(fires_of(callbacks, e1) + fires_of(callbacks, e2) =~= fires_of(callbacks, e1));
    } else {
        law_fires_of_concat(callbacks, e1, e2.drop_last());
        assert((e1 + e2).drop_last() =~= e1 + e2.drop_last());
        assert((e1 + e2).last() == e2.last());
        let ev = e2.last();
        let a = ev.entity_a.spec_id();
        let b = ev.entity_b.spec_id();
        let first: Seq<(C, u32, bool)> = if callbacks.contains_key(a) {
            seq![(callbacks[a], b, ev.is_trigger)]
        } else {
            Seq::empty()
        };
        let second: Seq<(C, u32, bool)> = if callbacks.contains_key(b) {
            seq![(callbacks[b], a, ev.is_trigger)]
        } else {
            Seq::empty()
        };
        assert(fires_of(callbacks, e1 + e2) == fires_of(callbacks, e1 + e2.drop_last()) + first + second);
        assert(fires_of(callbacks, e2) == fires_of(callbacks, e2.drop_last()) + first + second);
        assert(fires_of(callbacks, e1 + e2) =~= fires_of(callbacks, e1) + fires_of(callbacks, e2));
    }
}

impl<C> CollisionCallbacks<C> {
    /// The callback of each entity that has one.
    pub closed spec fn view(&self) -> Map<u32, C> {
        self.callbacks@
    }

    /// No callbacks.
    pub fn new() -> (s: Self)
        ensures
            s@ == Map::<u32, C>::empty(),
    {
        Self { callbacks: HashMap::new() }
    }

    /// Sets the callback of the entity, replacing the one it had.
    pub fn insert_callback(&mut self, entity_id: u32, callback: C)
        ensures
            final(self)@ == old(self)@.insert(entity_id, callback),
    {
        self.callbacks.insert(entity_id, callback);
    }

    /// The callbacks to call for the events, as [`fires_of`] lists them.
    pub fn collect_fires(&self, events: &CollisionEvents) -> (r: Vec<(&C, u32, bool)>)
        ensures
            r@.len() == fires_of(self@, events.events@).len(),
            forall|k: int| 0 <= k < r@.len() ==> {
                &&& *(#[trigger] r@[k]).0 == fires_of(self@, events.events@)[k].0
                &&& r@[k].1 == fires_of(self@, events.events@)[k].1
                &&& r@[k].2 == fires_of(self@, events.events@)[k].2
            },
    {
        let mut r: Vec<(&C, u32, bool)> = Vec::new();
        let mut i: usize = 0;
        while i < events.events.len()
            invariant
                i <= events.events@.len(),
                r@.len() == fires_of(self@, events.events@.take(i as int)).len(),
                forall|k: int| 0 <= k < r@.len() ==> {
                    &&& *(#[trigger] r@[k]).0 == fires_of(self@, events.events@.take(i as int))[k].0
                    &&& r@[k].1 == fires_of(self@, events.events@.take(i as int))[k].1
                    &&& r@[k].2 == fires_of(self@, events.events@.take(i as int))[k].2
                },
            decreases events.events@.len() - i,
        {
            let ev = &events.events[i];
            let a = ev.entity_a.id();
            let b = ev.entity_b.id();
            let ghost prev = fires_of(self@, events.events@.take(i as int));
            let ghost old_r = r@;
            proof {
                let t = events.events@.take(i + 1);
                assert(t.drop_last() =~= events.events@.take(i as int));
                assert(t.last() == *ev);
            }
            match self.callbacks.get(&a) {
                Some(cb) => {
                    r.push((cb, b, ev.is_trigger));
                },
                None => {},
            }
            match self.callbacks.get(&b) {
                Some(cb) => {
                    r.push((cb, a, ev.is_trigger));
                },
                None => {},
            }
            proof {
                let next = fires_of(self@, events.events@.take(i + 1));
                assert(r@.len() == next.len());
                assert forall|k: int| 0 <= k < r@.len() implies {
                    &&& *(#[trigger] r@[k]).0 == next[k].0
                    &&& r@[k].1 == next[k].1
                    &&& r@[k].2 == next[k].2
                } by {
                    if k < old_r.len() {
                        assert(r@[k] == old_r[k]);
                        assert(next[k] == prev[k]);
                    }
                }
            }
            i = i + 1;
        }
        assert(events.events@.take(i as int) =~= events.events@);
        r
    }
}

} // verus!
