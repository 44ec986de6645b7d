use vstd::prelude::*;
use crate::entity::Entity;
use crate::storage::{ComponentStorage, ResourceStorage, swap_removed};

verus! {

broadcast use crate::entity::Entity::lemma_id_determines;

/// A value that can be attached to an entity. Components are told apart by
/// their kind, a number that stands for the component's type: each kind has a
/// storage of its own, and an entity has at most one component of each kind.
pub trait Component {
}

/// The map `m` without the components of entity `id`.
pub open spec fn without_entity<T>(m: Map<(u64, u32), T>, id: u32) -> Map<(u64, u32), T> {
    Map::new(|p: (u64, u32)| m.contains_key(p) && p.1 != id, |p: (u64, u32)| m[p])
}

/// The entities of a world and their components, one storage per kind.
pub struct World<T> {
    next_id: u32,
    entities: Vec<Entity>,
    storages: Vec<ComponentStorage<T>>,
    resources: ResourceStorage<T>,
}

impl<T: Component> World<T> {
    /// The id that the next spawned entity gets.
    pub closed spec fn spec_next_id(&self) -> u32 {
        self.next_id
    }

    /// The live entities, in the order they were spawned.
    pub closed spec fn spec_entities(&self) -> Seq<Entity> {
        self.entities@
    }

    /// The singleton value of each resource kind that has one.
    pub closed spec fn resources(&self) -> Map<u64, T> {
        self.resources@
    }

    /// Whether a storage for `kind` exists.
    closed spec fn has_storage(&self, kind: u64) -> bool {
        exists|i: int| 0 <= i < self.storages@.len() && #[trigger] self.storages@[i].spec_kind() == kind
    }

    /// The slot of the storage for `kind`.
    closed spec fn slot(&self, kind: u64) -> int {
        choose|i: int| 0 <= i < self.storages@.len() && #[trigger] self.storages@[i].spec_kind() == kind
    }

    /// Every component of the world, by kind and entity id.
    pub closed spec fn components(&self) -> Map<(u64, u32), T> {
        Map::new(
            |p: (u64, u32)| self.has_storage(p.0) && self.storages@[self.slot(p.0)]@.contains_key(p.1),
            |p: (u64, u32)| self.storages@[self.slot(p.0)]@[p.1],
        )
    }

    /// The ids of the entities that have a component of `kind`, in the order
    /// a query lists them: the order of that kind's dense storage.
    pub closed spec fn query_order(&self, kind: u64) -> Seq<u32> {
        if self.has_storage(kind) {
            self.storages@[self.slot(kind)].dense_ids()
        } else {
            Seq::empty()
        }
    }

    /// Where the entity `id` stands in the query order of `kind`.
    pub closed spec fn query_slot(&self, kind: u64, id: u32) -> int {
        self.storages@[self.slot(kind)].slot_of(id)
    }

    /// The internal consistency of the world.
    pub closed spec fn wf(&self) -> bool {
        &&& forall|i: int| 0 <= i < self.storages@.len() ==> #[trigger] self.storages@[i].wf()
        &&& forall|i: int, j: int|
            0 <= i < self.storages@.len() && 0 <= j < self.storages@.len() && i != j
                ==> #[trigger] self.storages@[i].spec_kind() != #[trigger] self.storages@[j].spec_kind()
        &&& forall|i: int| 0 <= i < self.entities@.len() ==> #[trigger] self.entities@[i].spec_id() < self.next_id
        &&& self.entities@.no_duplicates()
        &&& self.resources.wf()
    }

    proof fn lemma_slot(&self, i: int)
        requires
            self.wf(),
            0 <= i < self.storages@.len(),
        ensures
            self.has_storage(self.storages@[i].spec_kind()),
            self.slot(self.storages@[i].spec_kind()) == i,
    {
        let k = self.storages@[i].spec_kind();
        assert(self.storages@[i].spec_kind() == k);
        let j = self.slot(k);
        assert(0 <= j < self.storages@.len() && self.storages@[j].spec_kind() == k);
    }

    /// The query order of a kind lists each entity with such a component
    /// once, and the query slot of such an entity is where it stands.
    pub proof fn lemma_query_order(&self, kind: u64)
        requires
            self.wf(),
        ensures
            self.query_order(kind).no_duplicates(),
            forall|id: u32| #[trigger] self.query_order(kind).contains(id) <==> self.components().contains_key((kind, id)),
            forall|id: u32| #[trigger] self.components().contains_key((kind, id)) ==> 0 <= self.query_slot(kind, id)
                < self.query_order(kind).len() && self.query_order(kind)[self.query_slot(kind, id)] == id,
    {
        if self.has_storage(kind) {
            let st = self.storages@[self.slot(kind)];
            assert(self.storages@[self.slot(kind)].wf());
            st.lemma_dense_ids();
        }
    }

    /// An empty world.
    pub fn new() -> (w: Self)
        ensures
            w.wf(),
            w.spec_next_id() == 0,
            w.spec_entities() == Seq::<Entity>::empty(),
            w.components() == Map::<(u64, u32), T>::empty(),
            w.resources() == Map::<u64, T>::empty(),
            forall|kind: u64| #[trigger] w.query_order(kind) == Seq::<u32>::empty(),
    {
        let w = Self { next_id: 0, entities: Vec::new(), storages: Vec::new(), resources: ResourceStorage::new() };
        assert(w.components() =~= Map::<(u64, u32), T>::empty());
        w
    }

    /// The slot of the storage for `kind`, if there is one.
    fn find_storage(&self, kind: u64) -> (r: Option<usize>)
        requires
            self.wf(),
        ensures
            match r {
                Some(i) => i < self.storages@.len() && self.storages@[i as int].spec_kind() == kind
                    && self.slot(kind) == i && self.has_storage(kind),
                None => !self.has_storage(kind),
            },
    {
        let mut i: usize = 0;
        while i < self.storages.len()
            invariant
                self.wf(),
                i <= self.storages@.len(),
                forall|j: int| 0 <= j < i ==> #[trigger] self.storages@[j].spec_kind() != kind,
            decreases self.storages@.len() - i,
        {
            if self.storages[i].kind() == kind {
                proof {
                    self.lemma_slot(i as int);
                }
                return Some(i);
            }
            i = i + 1;
        }
        None
    }

    /// The id that the next spawned entity gets.
    pub fn next_id(&self) -> (r: u32)
        ensures
            r == self.spec_next_id(),
    {
        self.next_id
    }

    /// Creates a new entity with the next id.
    pub fn spawn(&mut self) -> (e: Entity)
        requires
            old(self).wf(),
            old(self).spec_next_id() < u32::MAX,
        ensures
            final(self).wf(),
            e.spec_id() == old(self).spec_next_id(),
            final(self).spec_next_id() == old(self).spec_next_id() + 1,
            final(self).spec_entities() == old(self).spec_entities().push(e),
            final(self).components() == old(self).components(),
            final(self).resources() == old(self).resources(),
    {
        let entity = Entity::new(self.next_id);
        self.next_id = self.next_id + 1;
        self.entities.push(entity);
        assert forall|i: int, j: int|
            0 <= i < self.entities@.len() && 0 <= j < self.entities@.len() && i != j implies self.entities@[i]
            != self.entities@[j] by {
            if i < old(self).entities@.len() && j < old(self).entities@.len() {
                assert(old(self).entities@[i] != old(self).entities@[j]);
            } else if i < old(self).entities@.len() {
                assert(old(self).entities@[i].spec_id() < old(self).next_id);
            } else {
                assert(old(self).entities@[j].spec_id() < old(self).next_id);
            }
        }
        assert(self.components() =~= old(self).components());
        entity
    }

    /// Removes the entity from the world, with all of its components.
    pub fn despawn(&mut self, entity: Entity)
        requires
            old(self).wf(),
        ensures
            final(self).wf(),
            final(self).spec_next_id() == old(self).spec_next_id(),
            final(self).spec_entities() == old(self).spec_entities().filter(
                |e: Entity| e.spec_id() != entity.spec_id(),
            ),
            final(self).components() == without_entity(old(self).components(), entity.spec_id()),
            final(self).resources() == old(self).resources(),
            forall|k: u64| #[trigger] final(self).query_order(k) == if old(self).components().contains_key(
                (k, entity.spec_id()),
            ) {
                swap_removed(old(self).query_order(k), old(self).query_slot(k, entity.spec_id()))
            } else {
                old(self).query_order(k)
            },
    {
        let ghost pred = |e: Entity| e.spec_id() != entity.spec_id();
        let mut kept: Vec<Entity> = Vec::new();
        let mut i: usize = 0;
        while i < self.entities.len()
            invariant
                i <= self.entities@.len(),
                self.entities@ == old(self).entities@,
                pred == (|e: Entity| e.spec_id() != entity.spec_id()),
                kept@ == self.entities@.take(i as int).filter(pred),
            decreases self.entities@.len() - i,
        {
            let e = self.entities[i];
            let ghost before = kept@;
            if e.id() != entity.id() {
                kept.push(e);
            }
            proof {
                let t = self.entities@.take(i + 1);
                assert(t.drop_last() =~= self.entities@.take(i as int));
                assert(t.last() == e);
                assert(t.len() > 0);
                reveal(Seq::filter);
                assert(t.filter(pred) == (if pred(t.last()) { t.drop_last().filter(pred).push(t.last()) } else { t.drop_last().filter(pred) }));
                assert(kept@ == t.filter(pred));
            }
            i = i + 1;
        }
        assert(self.entities@.take(i as int) =~= self.entities@);
        proof {
            broadcast use vstd::seq_lib::group_filter_ensures;

            let s = old(self).entities@;
            let f = s.filter(pred);
            assert forall|a: int, b: int| 0 <= a < f.len() && 0 <= b < f.len() && a != b implies f[a]
                != f[b] by {
                lemma_filter_no_duplicates(s, pred);
            }
            assert forall|a: int| 0 <= a < f.len() implies #[trigger] f[a].spec_id() < self.next_id by {
                lemma_filter_subset(s, pred);
                assert(s.contains(f[a]));
            }
        }
        self.entities = kept;
        let mut k: usize = 0;
        while k < self.storages.len()
            invariant
                k <= self.storages@.len(),
                self.storages@.len() == old(self).storages@.len(),
                self.next_id == old(self).next_id,
                self.resources == old(self).resources,
                self.entities@ == old(self).entities@.filter(pred),
                forall|i: int, j: int|
                    0 <= i < self.storages@.len() && 0 <= j < self.storages@.len() && i != j
                        ==> #[trigger] self.storages@[i].spec_kind() != #[trigger] self.storages@[j].spec_kind(),
                forall|j: int| 0 <= j < self.storages@.len() ==> #[trigger] self.storages@[j].wf(),
                forall|j: int|
                    0 <= j < self.storages@.len() ==> #[trigger] self.storages@[j].spec_kind()
                        == old(self).storages@[j].spec_kind(),
                forall|j: int| 0 <= j < k ==> #[trigger] self.storages@[j]@ == old(self).storages@[j]@.remove(entity.spec_id()),
                forall|j: int| k <= j < self.storages@.len() ==> #[trigger] self.storages@[j]@ == old(self).storages@[j]@,
                forall|j: int| 0 <= j < k ==> #[trigger] self.storages@[j].dense_ids() == if old(self).storages@[j]@.contains_key(
                    entity.spec_id(),
                ) {
                    swap_removed(old(self).storages@[j].dense_ids(), old(self).storages@[j].slot_of(entity.spec_id()))
                } else {
                    old(self).storages@[j].dense_ids()
                },
                forall|j: int| k <= j < self.storages@.len() ==> #[trigger] self.storages@[j] == old(self).storages@[j],
            decreases self.storages@.len() - k,
        {
            self.storages[k].remove(entity);
            k = k + 1;
        }
        assert forall|p: (u64, u32)| #[trigger] self.components().contains_key(p) <==> without_entity(
            old(self).components(),
            entity.spec_id(),
        ).contains_key(p) by {
            if self.has_storage(p.0) {
                let i = self.slot(p.0);
                old(self).lemma_slot(i);
            }
            if old(self).has_storage(p.0) {
                let i = old(self).slot(p.0);
                self.lemma_slot(i);
            }
        }
        assert forall|p: (u64, u32)| #[trigger] self.components().contains_key(p) implies self.components()[p]
            == old(self).components()[p] by {
            let i = self.slot(p.0);
            old(self).lemma_slot(i);
        }
        assert(self.components() =~= without_entity(old(self).components(), entity.spec_id()));
        assert forall|k: u64| #[trigger] self.query_order(k) == if old(self).components().contains_key(
            (k, entity.spec_id()),
        ) {
            swap_removed(old(self).query_order(k), old(self).query_slot(k, entity.spec_id()))
        } else {
            old(self).query_order(k)
        } by {
            if self.has_storage(k) {
                let j = self.slot(k);
                old(self).lemma_slot(j);
            }
            if old(self).has_storage(k) {
                let j = old(self).slot(k);
                self.lemma_slot(j);
            }
        }
    }

    /// The live entities, in the order they were spawned.
    pub fn entities(&self) -> (r: &[Entity])
        ensures
            r@ == self.spec_entities(),
    {
        self.entities.as_slice()
    }

    /// Attaches `component` of `kind` to the entity, replacing the one of that kind it had.
    pub fn add_component(&mut self, entity: Entity, kind: u64, component: T)
        requires
            old(self).wf(),
        ensures
            final(self).wf(),
            final(self).spec_next_id() == old(self).spec_next_id(),
            final(self).spec_entities() == old(self).spec_entities(),
            final(self).components() == old(self).components().insert((kind, entity.spec_id()), component),
            final(self).resources() == old(self).resources(),
            forall|k: u64| #[trigger] final(self).query_order(k) == if k == kind && !old(self).components().contains_key(
                (kind, entity.spec_id()),
            ) {
                old(self).query_order(k).push(entity.spec_id())
            } else {
                old(self).query_order(k)
            },
    {
        match self.find_storage(kind) {
            Some(i) => {
                self.storages[i].insert(entity, component);
                assert forall|k: u64| #[trigger] self.query_order(k) == if k == kind && !old(self).components().contains_key(
                    (kind, entity.spec_id()),
                ) {
                    old(self).query_order(k).push(entity.spec_id())
                } else {
                    old(self).query_order(k)
                } by {
                    if self.has_storage(k) {
                        let j = self.slot(k);
                        old(self).lemma_slot(j);
                    }
                    if old(self).has_storage(k) {
                        let j = old(self).slot(k);
                        self.lemma_slot(j);
                    }
                }
                assert forall|p: (u64, u32)| #[trigger] self.components().contains_key(p) <==> old(
                    self,
                ).components().insert((kind, entity.spec_id()), component).contains_key(p) by {
                    if self.has_storage(p.0) {
                        let j = self.slot(p.0);
                        old(self).lemma_slot(j);
                    }
                    if old(self).has_storage(p.0) {
                        let j = old(self).slot(p.0);
                        self.lemma_slot(j);
                    }
                }
                assert forall|p: (u64, u32)| #[trigger] self.components().contains_key(p) implies self.components()[p]
                    == old(self).components().insert((kind, entity.spec_id()), component)[p] by {
                    let j = self.slot(p.0);
                    old(self).lemma_slot(j);
                }
            },
            None => {
                let mut storage = ComponentStorage::new(kind);
                storage.insert(entity, component);
                self.storages.push(storage);
                let n = self.storages.len() - 1;
                assert forall|k: u64| #[trigger] self.query_order(k) == if k == kind && !old(self).components().contains_key(
                    (kind, entity.spec_id()),
                ) {
                    old(self).query_order(k).push(entity.spec_id())
                } else {
                    old(self).query_order(k)
                } by {
                    if self.has_storage(k) {
                        let j = self.slot(k);
                        if j < n {
                            old(self).lemma_slot(j);
                        }
                    }
                    if old(self).has_storage(k) {
                        let j = old(self).slot(k);
                        self.lemma_slot(j);
                    }
                    if k == kind {
                        self.lemma_slot(n as int);
                    }
                }
                assert forall|p: (u64, u32)| #[trigger] self.components().contains_key(p) <==> old(
                    self,
                ).components().insert((kind, entity.spec_id()), component).contains_key(p) by {
                    if self.has_storage(p.0) {
                        let j = self.slot(p.0);
                        if j < n {
                            old(self).lemma_slot(j);
                        }
                    }
                    if old(self).has_storage(p.0) {
                        let j = old(self).slot(p.0);
                        self.lemma_slot(j);
                    }
                    if p.0 == kind {
                        self.lemma_slot(n as int);
                    }
                }
                assert forall|p: (u64, u32)| #[trigger] self.components().contains_key(p) implies self.components()[p]
                    == old(self).components().insert((kind, entity.spec_id()), component)[p] by {
                    let j = self.slot(p.0);
                    if j < n {
                        old(self).lemma_slot(j);
                    }
                }
            },
        }
        assert(self.components() =~= old(self).components().insert((kind, entity.spec_id()), component));
    }

    /// Detaches the component of `kind` from the entity, if it has one.
    pub fn remove_component(&mut self, entity: Entity, kind: u64)
        requires
            old(self).wf(),
        ensures
            final(self).wf(),
            final(self).spec_next_id() == old(self).spec_next_id(),
            final(self).spec_entities() == old(self).spec_entities(),
            final(self).components() == old(self).components().remove((kind, entity.spec_id())),
            final(self).resources() == old(self).resources(),
            forall|k: u64| #[trigger] final(self).query_order(k) == if k == kind && old(self).components().contains_key(
                (kind, entity.spec_id()),
            ) {
                swap_removed(old(self).query_order(k), old(self).query_slot(k, entity.spec_id()))
            } else {
                old(self).query_order(k)
            },
    {
        if let Some(i) = self.find_storage(kind) {
            self.storages[i].remove(entity);
            assert forall|k: u64| #[trigger] self.query_order(k) == if k == kind && old(self).components().contains_key(
                (kind, entity.spec_id()),
            ) {
                swap_removed(old(self).query_order(k), old(self).query_slot(k, entity.spec_id()))
            } else {
                old(self).query_order(k)
            } by {
                if self.has_storage(k) {
                    let j = self.slot(k);
                    old(self).lemma_slot(j);
                }
                if old(self).has_storage(k) {
                    let j = old(self).slot(k);
                    self.lemma_slot(j);
                }
            }
            assert forall|p: (u64, u32)| #[trigger] self.components().contains_key(p) <==> old(
                self,
            ).components().remove((kind, entity.spec_id())).contains_key(p) by {
                if self.has_storage(p.0) {
                    let j = self.slot(p.0);
                    old(self).lemma_slot(j);
                }
                if old(self).has_storage(p.0) {
                    let j = old(self).slot(p.0);
                    self.lemma_slot(j);
                }
            }
            assert forall|p: (u64, u32)| #[trigger] self.components().contains_key(p) implies self.components()[p]
                == old(self).components()[p] by {
                let j = self.slot(p.0);
                old(self).lemma_slot(j);
            }
        }
        assert(self.components() =~= old(self).components().remove((kind, entity.spec_id())));
    }

    /// The component of `kind` attached to the entity, if there is one.
    pub fn get_component(&self, entity: Entity, kind: u64) -> (r: Option<&T>)
        requires
            self.wf(),
        ensures
            match r {
                Some(c) => self.components().contains_key((kind, entity.spec_id()))
                    && *c == self.components()[(kind, entity.spec_id())],
                None => !self.components().contains_key((kind, entity.spec_id())),
            },
    {
        match self.find_storage(kind) {
            Some(i) => self.storages[i].get(entity),
            None => None,
        }
    }

    /// The component of `kind` attached to the entity, if there is one, to be changed in place.
    pub fn get_component_mut(&mut self, entity: Entity, kind: u64) -> (r: Option<&mut T>)
        requires
            old(self).wf(),
        ensures
            match r {
                Some(c) => {
                    &&& old(self).components().contains_key((kind, entity.spec_id()))
                    &&& *c == old(self).components()[(kind, entity.spec_id())]
                    &&& final(self).wf()
                    &&& final(self).spec_next_id() == old(self).spec_next_id()
                    &&& final(self).spec_entities() == old(self).spec_entities()
                    &&& final(self).components() == old(self).components().insert(
                        (kind, entity.spec_id()),
                        *final(c),
                    )
                    &&& final(self).resources() == old(self).resources()
                },
                None => {
                    &&& !old(self).components().contains_key((kind, entity.spec_id()))
                    &&& final(self).wf()
                    &&& final(self).spec_next_id() == old(self).spec_next_id()
                    &&& final(self).spec_entities() == old(self).spec_entities()
                    &&& final(self).components() == old(self).components()
                    &&& final(self).resources() == old(self).resources()
                },
            },
    {
        match self.find_storage(kind) {
            Some(i) => {
                proof {
                    let w1 = *self;
                    assert forall|w2: World<T>|
                        #![trigger w2.components()]
                        #![trigger w2.wf()]
                        w2.storages@.len() == w1.storages@.len()
                            && (forall|j: int| 0 <= j < w1.storages@.len() && j != i ==> w2.storages@[j] == w1.storages@[j])
                            && w2.storages@[i as int].wf()
                            && w2.storages@[i as int].spec_kind() == kind
                            && w2.next_id == w1.next_id
                            && w2.entities@ == w1.entities@
                            && w2.resources == w1.resources
                        implies w2.wf() && w2.components() == with_kind(w1.components(), kind, w2.storages@[i as int]@)
                    by {
                        lemma_storage_replaced(w1, w2, i as int);
                    }
                    assert forall|m: Map<u32, T>, c: T|
                        #![trigger with_kind(w1.components(), kind, m.insert(entity.spec_id(), c))]
                        m == w1.storages@[i as int]@
                        implies with_kind(w1.components(), kind, m.insert(entity.spec_id(), c))
                            == w1.components().insert((kind, entity.spec_id()), c)
                    by {
                        w1.lemma_slot(i as int);
                        assert(with_kind(w1.components(), kind, m.insert(entity.spec_id(), c))
                            =~= w1.components().insert((kind, entity.spec_id()), c));
                    }
                    w1.lemma_slot(i as int);
                    assert(with_kind(w1.components(), kind, w1.storages@[i as int]@) =~= w1.components());
                }
                self.storages[i].get_mut(entity)
            },
            None => None,
        }
    }

    /// Whether the entity has a component of `kind`.
    pub fn has_component(&self, entity: Entity, kind: u64) -> (r: bool)
        requires
            self.wf(),
        ensures
            r == self.components().contains_key((kind, entity.spec_id())),
    {
        match self.find_storage(kind) {
            Some(i) => self.storages[i].has(entity),
            None => false,
        }
    }

    /// Sets the singleton value of resource `kind`, replacing the one it had.
    pub fn insert_resource(&mut self, kind: u64, resource: T)
        requires
            old(self).wf(),
        ensures
            final(self).wf(),
            final(self).spec_next_id() == old(self).spec_next_id(),
            final(self).spec_entities() == old(self).spec_entities(),
            final(self).components() == old(self).components(),
            final(self).resources() == old(self).resources().insert(kind, resource),
    {
        self.resources.insert(kind, resource);
        proof {
            self.lemma_same_storages(*old(self));
        }
    }

    /// The singleton value of resource `kind`, if there is one.
    pub fn get_resource(&self, kind: u64) -> (r: Option<&T>)
        requires
            self.wf(),
        ensures
            match r {
                Some(v) => self.resources().contains_key(kind) && *v == self.resources()[kind],
                None => !self.resources().contains_key(kind),
            },
    {
        self.resources.get(kind)
    }

    /// The singleton value of resource `kind`, if there is one, to be changed in place.
    pub fn get_resource_mut(&mut self, kind: u64) -> (r: Option<&mut T>)
        requires
            old(self).wf(),
        ensures
            match r {
                Some(v) => {
                    &&& old(self).resources().contains_key(kind)
                    &&& *v == old(self).resources()[kind]
                    &&& final(self).wf()
                    &&& final(self).spec_next_id() == old(self).spec_next_id()
                    &&& final(self).spec_entities() == old(self).spec_entities()
                    &&& final(self).components() == old(self).components()
                    &&& final(self).resources() == old(self).resources().insert(kind, *final(v))
                },
                None => {
                    &&& !old(self).resources().contains_key(kind)
                    &&& final(self).wf()
                    &&& final(self).spec_next_id() == old(self).spec_next_id()
                    &&& final(self).spec_entities() == old(self).spec_entities()
                    &&& final(self).components() == old(self).components()
                    &&& final(self).resources() == old(self).resources()
                },
            },
    {
        proof {
            let w1 = *self;
            assert forall|w2: World<T>|
                #![trigger w2.components()]
                #![trigger w2.wf()]
                w2.storages == w1.storages && w2.next_id == w1.next_id && w2.entities == w1.entities && w2.resources.wf()
                implies w2.wf() && w2.components() == w1.components()
            by {
                w2.lemma_same_storages(w1);
            }
        }
        self.resources.get_mut(kind)
    }

    proof fn lemma_same_storages(&self, other: World<T>)
        requires
            other.wf(),
            self.storages == other.storages,
            self.next_id == other.next_id,
            self.entities == other.entities,
            self.resources.wf(),
        ensures
            self.wf(),
            self.components() == other.components(),
    {
        assert(self.components() =~= other.components());
    }

    /// The entities that have a component of `kind`, each once.
    pub fn query(&self, kind: u64) -> (r: Vec<Entity>)
        requires
            self.wf(),
        ensures
            r@.no_duplicates(),
            forall|e: Entity| #[trigger] r@.contains(e) <==> self.components().contains_key((kind, e.spec_id())),
            r@.len() == self.query_order(kind).len(),
            forall|i: int| 0 <= i < r@.len() ==> #[trigger] r@[i].spec_id() == self.query_order(kind)[i],
    {
        match self.find_storage(kind) {
            Some(i) => {
                let r = self.storages[i].entity_list();
                proof {
                    let st = self.storages@[i as int];
                    st.lemma_dense_ids();
                    assert forall|a: int, b: int| 0 <= a < r@.len() && 0 <= b < r@.len() && a != b implies r@[a]
                        != r@[b] by {
                        assert(r@[a].spec_id() == st.dense_ids()[a]);
                        assert(r@[b].spec_id() == st.dense_ids()[b]);
                    }
                    assert forall|e: Entity| #[trigger] r@.contains(e) <==> self.components().contains_key(
                        (kind, e.spec_id()),
                    ) by {
                        if r@.contains(e) {
                            let a = choose|a: int| 0 <= a < r@.len() && r@[a] == e;
                            assert(r@[a].spec_id() == st.dense_ids()[a]);
                            assert(st.dense_ids().contains(e.spec_id()));
                        }
                        if self.components().contains_key((kind, e.spec_id())) {
                            assert(st.dense_ids().contains(e.spec_id()));
                            let a = choose|a: int| 0 <= a < st.dense_ids().len() && st.dense_ids()[a] == e.spec_id();
                            assert(r@[a].spec_id() == e.spec_id());
                            assert(r@[a] == e);
                        }
                    }
                }
                r
            },
            None => {
                let r: Vec<Entity> = Vec::new();
                assert forall|e: Entity| #[trigger] r@.contains(e) <==> self.components().contains_key(
                    (kind, e.spec_id()),
                ) by {}
                r
            },
        }
    }
}

/// The live entities of a world have distinct ids, all below the next id.
pub proof fn lemma_live_ids_distinct<T: Component>(w: World<T>)
    requires
        w.wf(),
    ensures
        forall|i: int, j: int|
            0 <= i < w.spec_entities().len() && 0 <= j < w.spec_entities().len() && i != j
                ==> #[trigger] w.spec_entities()[i].spec_id() != #[trigger] w.spec_entities()[j].spec_id(),
        forall|i: int| 0 <= i < w.spec_entities().len() ==> #[trigger] w.spec_entities()[i].spec_id() < w.spec_next_id(),
{
    assert forall|i: int, j: int|
        0 <= i < w.spec_entities().len() && 0 <= j < w.spec_entities().len() && i != j
            implies #[trigger] w.spec_entities()[i].spec_id() != #[trigger] w.spec_entities()[j].spec_id() by {
        assert(w.entities@[i] != w.entities@[j]);
    }
}

/// A spawned entity is new: no live entity had its id, even after despawns.
pub proof fn law_spawn_not_live<T: Component>(w: World<T>, e: Entity)
    requires
        w.wf(),
        e.spec_id() == w.spec_next_id(),
    ensures
        forall|i: int| 0 <= i < w.spec_entities().len() ==> #[trigger] w.spec_entities()[i].spec_id() != e.spec_id(),
{
    lemma_live_ids_distinct(w);
}

/// Two entities spawned one after the other are different, and both are live.
pub proof fn law_spawn_fresh<T: Component>(w0: World<T>, w1: World<T>, w2: World<T>, e1: Entity, e2: Entity)
    requires
        w0.wf(),
        e1.spec_id() == w0.spec_next_id(),
        w1.spec_next_id() == w0.spec_next_id() + 1,
        w1.spec_entities() == w0.spec_entities().push(e1),
        e2.spec_id() == w1.spec_next_id(),
        w2.spec_entities() == w1.spec_entities().push(e2),
    ensures
        e1 != e2,
        w2.spec_entities().contains(e1),
        w2.spec_entities().contains(e2),
{
    assert(w2.spec_entities()[w0.spec_entities().len() as int] == e1);
    assert(w2.spec_entities()[w1.spec_entities().len() as int] == e2);
}

/// What was attached is what is read back: after attaching `c` of `kind` to
/// an entity, the entity has a component of that kind and it is `c`, and
/// every other component is as it was.
pub proof fn law_add_then_get<T>(before: Map<(u64, u32), T>, after: Map<(u64, u32), T>, kind: u64, id: u32, c: T)
    requires
        after == before.insert((kind, id), c),
    ensures
        after.contains_key((kind, id)),
        after[(kind, id)] == c,
        forall|p: (u64, u32)| p != (kind, id) ==> (#[trigger] after.contains_key(p) <==> before.contains_key(p)),
        forall|p: (u64, u32)| p != (kind, id) && #[trigger] after.contains_key(p) ==> after[p] == before[p],
{
}

/// Detaching undoes attaching: attaching a component of a kind the entity did
/// not have and then detaching it gives back the components of before.
pub proof fn law_remove_undoes_add<T>(
    before: Map<(u64, u32), T>,
    added: Map<(u64, u32), T>,
    removed: Map<(u64, u32), T>,
    kind: u64,
    id: u32,
    c: T,
)
    requires
        !before.contains_key((kind, id)),
        added == before.insert((kind, id), c),
        removed == added.remove((kind, id)),
    ensures
        removed == before,
        !removed.contains_key((kind, id)),
{
    assert(removed =~= before);
}

/// A despawned entity is gone: it is no longer live and has no component of
/// any kind; every other entity keeps its components.
pub proof fn law_despawn_clears<T: Component>(w0: World<T>, w1: World<T>, e: Entity)
    requires
        w0.wf(),
        w1.spec_entities() == w0.spec_entities().filter(|x: Entity| x.spec_id() != e.spec_id()),
        w1.components() == without_entity(w0.components(), e.spec_id()),
    ensures
        !w1.spec_entities().contains(e),
        forall|kind: u64| !(#[trigger] w1.components().contains_key((kind, e.spec_id()))),
        forall|p: (u64, u32)| p.1 != e.spec_id() ==> (#[trigger] w1.components().contains_key(p) <==> w0.components().contains_key(p)),
{
    broadcast use vstd::seq_lib::group_filter_ensures;

    if w1.spec_entities().contains(e) {
        let i = choose|i: int| 0 <= i < w1.spec_entities().len() && w1.spec_entities()[i] == e;
        assert((|x: Entity| x.spec_id() != e.spec_id())(w1.spec_entities()[i]));
    }
}

impl<T: Component> Default for World<T> {
    /// An empty world.
    fn default() -> (w: Self)
        ensures
            w.wf(),
            w.spec_next_id() == 0,
            w.spec_entities() == Seq::<Entity>::empty(),
            w.components() == Map::<(u64, u32), T>::empty(),
            w.resources() == Map::<u64, T>::empty(),
    {
        Self::new()
    }
}

/// The map `m` with the components of `kind` replaced by those of `s`.
pub open spec fn with_kind<T>(m: Map<(u64, u32), T>, kind: u64, s: Map<u32, T>) -> Map<(u64, u32), T> {
    Map::new(
        |p: (u64, u32)| if p.0 == kind { s.contains_key(p.1) } else { m.contains_key(p) },
        |p: (u64, u32)| if p.0 == kind { s[p.1] } else { m[p] },
    )
}

/// Changing one storage of a world changes only the components of its kind.
proof fn lemma_storage_replaced<T: Component>(w1: World<T>, w2: World<T>, i: int)
    requires
        w1.wf(),
        0 <= i < w1.storages@.len(),
        w2.storages@.len() == w1.storages@.len(),
        forall|j: int| 0 <= j < w1.storages@.len() && j != i ==> w2.storages@[j] == w1.storages@[j],
        w2.storages@[i].wf(),
        w2.storages@[i].spec_kind() == w1.storages@[i].spec_kind(),
        w2.next_id == w1.next_id,
        w2.entities@ == w1.entities@,
        w2.resources == w1.resources,
    ensures
        w2.wf(),
        w2.components() == with_kind(w1.components(), w1.storages@[i].spec_kind(), w2.storages@[i]@),
{
    let kind = w1.storages@[i].spec_kind();
    assert forall|j: int| 0 <= j < w2.storages@.len() implies #[trigger] w2.storages@[j].wf() by {
        if j != i {
            assert(w1.storages@[j].wf());
        }
    }
    assert forall|a: int, b: int|
        0 <= a < w2.storages@.len() && 0 <= b < w2.storages@.len() && a != b
            implies #[trigger] w2.storages@[a].spec_kind() != #[trigger] w2.storages@[b].spec_kind() by {
        assert(w1.storages@[a].spec_kind() != w1.storages@[b].spec_kind());
    }
    let target = with_kind(w1.components(), kind, w2.storages@[i]@);
    assert forall|p: (u64, u32)| #[trigger] w2.components().contains_key(p) <==> target.contains_key(p) by {
        if w2.has_storage(p.0) {
            let j = w2.slot(p.0);
            w1.lemma_slot(j);
        }
        if w1.has_storage(p.0) {
            let j = w1.slot(p.0);
            w2.lemma_slot(j);
        }
        w1.lemma_slot(i);
        w2.lemma_slot(i);
    }
    assert forall|p: (u64, u32)| #[trigger] w2.components().contains_key(p) implies w2.components()[p]
        == target[p] by {
        let j = w2.slot(p.0);
        w1.lemma_slot(j);
        w2.lemma_slot(i);
    }
    assert(w2.components() =~= target);
}

pub(crate) proof fn lemma_filter_subset<A>(s: Seq<A>, pred: spec_fn(A) -> bool)
    ensures
        forall|a: int| 0 <= a < s.filter(pred).len() ==> s.contains(#[trigger] s.filter(pred)[a]),
    decreases s.len(),
{
    reveal(Seq::filter);
    if s.len() > 0 {
        lemma_filter_subset(s.drop_last(), pred);
        let f = s.drop_last().filter(pred);
        assert forall|a: int| 0 <= a < s.filter(pred).len() implies s.contains(
            #[trigger] s.filter(pred)[a],
        ) by {
            if a < f.len() {
                assert(s.drop_last().contains(f[a]));
                let j = choose|j: int| 0 <= j < s.drop_last().len() && s.drop_last()[j] == f[a];
                assert(s[j] == f[a]);
            } else {
                assert(s[s.len() - 1] == s.filter(pred)[a]);
            }
        }
    }
}

pub(crate) proof fn lemma_filter_no_duplicates<A>(s: Seq<A>, pred: spec_fn(A) -> bool)
    requires
        s.no_duplicates(),
    ensures
        s.filter(pred).no_duplicates(),
    decreases s.len(),
{
    reveal(Seq::filter);
    if s.len() > 0 {
        broadcast use vstd::seq_lib::group_filter_ensures;

        lemma_filter_no_duplicates(s.drop_last(), pred);
        let f = s.drop_last().filter(pred);
        if pred(s.last()) {
            assert forall|a: int| 0 <= a < f.len() implies f[a] != s.last() by {
                lemma_filter_subset(s.drop_last(), pred);
                assert(s.drop_last().contains(f[a]));
            }
        }
    }
}

} // verus!
