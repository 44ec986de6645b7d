use vstd::prelude::*;
use std::collections::HashMap;
use crate::entity::Entity;

verus! {

broadcast use vstd::std_specs::hash::group_hash_axioms;

/// The sequence `s` after its element at `i` is taken out and its last
/// element moved into the gap.
pub open spec fn swap_removed(s: Seq<u32>, i: int) -> Seq<u32> {
    s.update(i, s.last()).drop_last()
}

/// A sparse set of the components of one kind: `sparse` maps an entity id to
/// the slot in the dense arrays `entities` and `data` that holds it.
pub struct ComponentStorage<T> {
    kind: u64,
    sparse: HashMap<u32, usize>,
    entities: Vec<u32>,
    data: Vec<T>,
}

impl<T> ComponentStorage<T> {
    /// The component of each entity that has one of this kind.
    pub closed spec fn view(&self) -> Map<u32, T> {
        Map::new(
            |id: u32| self.sparse@.contains_key(id),
            |id: u32| self.data@[self.sparse@[id] as int],
        )
    }

    /// The ids in the order of the dense arrays.
    pub closed spec fn dense_ids(&self) -> Seq<u32> {
        self.entities@
    }

    /// The slot of the dense arrays that holds the component of `id`.
    pub closed spec fn slot_of(&self, id: u32) -> int {
        self.sparse@[id] as int
    }

    /// The kind of component kept here.
    pub closed spec fn spec_kind(&self) -> u64 {
        self.kind
    }

    /// The sparse index and the dense arrays describe each other.
    pub closed spec fn wf(&self) -> bool {
        &&& self.data@.len() == self.entities@.len()
        &&& forall|i: int|
            0 <= i < self.entities@.len() ==> {
                &&& #[trigger] self.sparse@.contains_key(self.entities@[i])
                &&& self.sparse@[self.entities@[i]] == i
            }
        &&& forall|id: u32|
            #[trigger] self.sparse@.contains_key(id) ==> {
                &&& self.sparse@[id] < self.entities@.len()
                &&& self.entities@[self.sparse@[id] as int] == id
            }
    }

    /// The dense ids are exactly the ids that have a component, each once.
    pub proof fn lemma_dense_ids(&self)
        requires
            self.wf(),
        ensures
            self.dense_ids().no_duplicates(),
            forall|id: u32| self@.contains_key(id) <==> #[trigger] self.dense_ids().contains(id),
            self.dense_ids().len() == self@.dom().len(),
            forall|id: u32| #[trigger] self@.contains_key(id) ==> 0 <= self.slot_of(id) < self.dense_ids().len()
                && self.dense_ids()[self.slot_of(id)] == id,
    {
        let s = self.entities@;
        assert forall|i: int, j: int| 0 <= i < s.len() && 0 <= j < s.len() && i != j implies s[i]
            != s[j] by {
            assert(self.sparse@.contains_key(self.entities@[i]));
            assert(self.sparse@.contains_key(self.entities@[j]));
        }
        assert forall|id: u32| self@.contains_key(id) <==> #[trigger] s.contains(id) by {
            if self@.contains_key(id) {
                assert(s[self.sparse@[id] as int] == id);
            }
            if s.contains(id) {
                let i = choose|i: int| 0 <= i < s.len() && s[i] == id;
                assert(self.sparse@.contains_key(s[i]));
            }
        }
        s.unique_seq_to_set();
        assert(s.to_set() =~= self@.dom());
    }

    /// An empty storage for components of `kind`.
    pub fn new(kind: u64) -> (s: Self)
        ensures
            s.wf(),
            s@ == Map::<u32, T>::empty(),
            s.dense_ids() == Seq::<u32>::empty(),
            s.spec_kind() == kind,
    {
        let s = Self { kind, sparse: HashMap::new(), entities: Vec::new(), data: Vec::new() };
        assert(s@ =~= Map::<u32, T>::empty());
        s
    }

    /// Gives `entity` the component, replacing the one it had of this kind.
    pub fn insert(&mut self, entity: Entity, component: T)
        requires
            old(self).wf(),
        ensures
            final(self).wf(),
            final(self)@ == old(self)@.insert(entity.spec_id(), component),
            final(self).spec_kind() == old(self).spec_kind(),
            old(self)@.contains_key(entity.spec_id()) ==> final(self).dense_ids() == old(self).dense_ids(),
            !old(self)@.contains_key(entity.spec_id()) ==> final(self).dense_ids() == old(self).dense_ids().push(
                entity.spec_id(),
            ),
    {
        let id = entity.id();
        match self.sparse.get(&id) {
            Some(dense_idx) => {
                let dense_idx = *dense_idx;
                self.data.set(dense_idx, component);
                assert(self@ =~= old(self)@.insert(id, component));
            },
            None => {
                let dense_idx = self.data.len();
                self.sparse.insert(id, dense_idx);
                self.entities.push(id);
                self.data.push(component);
                assert forall|i: int| 0 <= i < self.entities@.len() implies {
                    &&& #[trigger] self.sparse@.contains_key(self.entities@[i])
                    &&& self.sparse@[self.entities@[i]] == i
                } by {
                    if i < dense_idx {
                        assert(self.entities@[i] == old(self).entities@[i]);
                        assert(old(self).sparse@.contains_key(old(self).entities@[i]));
                    }
                }
                assert forall|k: u32| #[trigger] self@.contains_key(k) implies self@[k] == old(
                    self,
                )@.insert(id, component)[k] by {
                    if k != id {
                        assert(old(self).sparse@[k] < dense_idx);
                    }
                }
                assert(self@ =~= old(self)@.insert(id, component));
            },
        }
    }

    /// The component of `entity`, if it has one of this kind.
    pub fn get(&self, entity: Entity) -> (r: Option<&T>)
        requires
            self.wf(),
        ensures
            match r {
                Some(c) => self@.contains_key(entity.spec_id()) && *c == self@[entity.spec_id()],
                None => !self@.contains_key(entity.spec_id()),
            },
    {
        match self.sparse.get(&entity.id()) {
            Some(dense_idx) => Some(&self.data[*dense_idx]),
            None => None,
        }
    }

    /// The component of `entity`, if it has one of this kind, to be changed in place.
    pub fn get_mut(&mut self, entity: Entity) -> (r: Option<&mut T>)
        requires
            old(self).wf(),
        ensures
            match r {
                Some(c) => {
                    &&& old(self)@.contains_key(entity.spec_id())
                    &&& *c == old(self)@[entity.spec_id()]
                    &&& final(self).wf()
                    &&& final(self)@ == old(self)@.insert(entity.spec_id(), *final(c))
                    &&& final(self).dense_ids() == old(self).dense_ids()
                    &&& final(self).spec_kind() == old(self).spec_kind()
                },
                None => {
                    &&& !old(self)@.contains_key(entity.spec_id())
                    &&& *final(self) == *old(self)
                },
            },
    {
        match self.sparse.get(&entity.id()) {
            Some(dense_idx) => {
                let dense_idx = *dense_idx;
                Some(&mut self.data[dense_idx])
            },
            None => None,
        }
    }

    /// Takes the component of `entity` away; the last slot moves into its place.
    pub fn remove(&mut self, entity: Entity)
        requires
            old(self).wf(),
        ensures
            final(self).wf(),
            final(self)@ == old(self)@.remove(entity.spec_id()),
            final(self).spec_kind() == old(self).spec_kind(),
            !old(self)@.contains_key(entity.spec_id()) ==> final(self).dense_ids() == old(self).dense_ids(),
            old(self)@.contains_key(entity.spec_id()) ==> final(self).dense_ids() == swap_removed(
                old(self).dense_ids(),
                old(self).slot_of(entity.spec_id()),
            ),
    {
        let id = entity.id();
        if let Some(dense_idx) = self.sparse.remove(&id) {
            let last = self.entities.len() - 1;
            let last_entity = self.entities[last];
            self.entities.swap_remove(dense_idx);
            self.data.swap_remove(dense_idx);
            if dense_idx < self.entities.len() {
                self.sparse.insert(last_entity, dense_idx);
            }
            assert forall|i: int| 0 <= i < self.entities@.len() implies {
                &&& #[trigger] self.sparse@.contains_key(self.entities@[i])
                &&& self.sparse@[self.entities@[i]] == i
            } by {
                assert(old(self).sparse@.contains_key(old(self).entities@[i]));
                if i != dense_idx {
                    assert(self.entities@[i] == old(self).entities@[i]);
                    assert(old(self).entities@[i] != id);
                } else {
                    assert(self.entities@[i] == last_entity);
                }
            }
            assert forall|k: u32| #[trigger] self.sparse@.contains_key(k) implies {
                &&& self.sparse@[k] < self.entities@.len()
                &&& self.entities@[self.sparse@[k] as int] == k
            } by {
                assert(old(self).sparse@.contains_key(k));
                if k != last_entity {
                    assert(old(self).sparse@[k] != last);
                }
            }
            assert forall|k: u32| #[trigger] self@.contains_key(k) implies self@[k] == old(
                self,
            )@[k] by {
                assert(old(self).sparse@.contains_key(k));
                if k != last_entity {
                    assert(old(self).sparse@[k] != last);
                }
            }
            assert(self@ =~= old(self)@.remove(id));
            assert(self.entities@ =~= old(self).entities@.update(dense_idx as int, last_entity).drop_last());
        } else {
            assert(self@ =~= old(self)@.remove(id));
        }
    }

    /// The entities that have a component here, in dense order.
    pub fn entity_list(&self) -> (r: Vec<Entity>)
        requires
            self.wf(),
        ensures
            r@.len() == self.dense_ids().len(),
            forall|i: int| 0 <= i < r@.len() ==> #[trigger] r@[i].spec_id() == self.dense_ids()[i],
    {
        let mut r: Vec<Entity> = Vec::new();
        let mut i: usize = 0;
        while i < self.entities.len()
            invariant
                i <= self.entities@.len(),
                r@.len() == i,
                forall|j: int| 0 <= j < i ==> #[trigger] r@[j].spec_id() == self.entities@[j],
            decreases self.entities@.len() - i,
        {
            r.push(Entity::new(self.entities[i]));
            i = i + 1;
        }
        r
    }

    /// The kind of component kept here.
    pub fn kind(&self) -> (r: u64)
        ensures
            r == self.spec_kind(),
    {
        self.kind
    }

    /// Whether `entity` has a component of this kind.
    pub fn has(&self, entity: Entity) -> (r: bool)
        requires
            self.wf(),
        ensures
            r == self@.contains_key(entity.spec_id()),
    {
        self.sparse.contains_key(&entity.id())
    }
}

/// At most one value of each kind: the singletons of a world.
pub struct ResourceStorage<T> {
    kinds: Vec<u64>,
    values: Vec<T>,
}

impl<T> ResourceStorage<T> {
    /// The value of each kind that has one.
    pub closed spec fn view(&self) -> Map<u64, T> {
        Map::new(
            |k: u64| exists|i: int| 0 <= i < self.kinds@.len() && self.kinds@[i] == k,
            |k: u64| self.values@[self.index_of(k)],
        )
    }

    /// Where the value of kind `k` is kept.
    pub closed spec fn index_of(&self, k: u64) -> int {
        choose|i: int| 0 <= i < self.kinds@.len() && self.kinds@[i] == k
    }

    /// One slot per kind, a value per slot.
    pub closed spec fn wf(&self) -> bool {
        &&& self.kinds@.len() == self.values@.len()
        &&& self.kinds@.no_duplicates()
    }

    proof fn lemma_index_of(&self, i: int)
        requires
            self.wf(),
            0 <= i < self.kinds@.len(),
        ensures
            self@.contains_key(self.kinds@[i]),
            self.index_of(self.kinds@[i]) == i,
            self@[self.kinds@[i]] == self.values@[i],
    {
        let k = self.kinds@[i];
        assert(0 <= i < self.kinds@.len() && self.kinds@[i] == k);
        let j = self.index_of(k);
        assert(self.kinds@[j] == k);
    }

    /// No values.
    pub fn new() -> (s: Self)
        ensures
            s.wf(),
            s@ == Map::<u64, T>::empty(),
    {
        let s = Self { kinds: Vec::new(), values: Vec::new() };
        assert(s@ =~= Map::<u64, T>::empty());
        s
    }

    fn find(&self, kind: u64) -> (r: Option<usize>)
        requires
            self.wf(),
        ensures
            match r {
                Some(i) => i < self.kinds@.len() && self.kinds@[i as int] == kind && self.index_of(kind) == i
                    && self@.contains_key(kind),
                None => !self@.contains_key(kind),
            },
    {
        let mut i: usize = 0;
        while i < self.kinds.len()
            invariant
                self.wf(),
                i <= self.kinds@.len(),
                forall|j: int| 0 <= j < i ==> self.kinds@[j] != kind,
            decreases self.kinds@.len() - i,
        {
            if self.kinds[i] == kind {
                proof {
                    self.lemma_index_of(i as int);
                }
                return Some(i);
            }
            i = i + 1;
        }
        None
    }

    /// Sets the value of `kind`, replacing the one it had.
    pub fn insert(&mut self, kind: u64, value: T)
        requires
            old(self).wf(),
        ensures
            final(self).wf(),
            final(self)@ == old(self)@.insert(kind, value),
    {
        match self.find(kind) {
            Some(i) => {
                self.values.set(i, value);
                assert forall|k: u64| #[trigger] self@.contains_key(k) implies self@[k] == old(self)@.insert(
                    kind,
                    value,
                )[k] by {
                    let j = self.index_of(k);
                    old(self).lemma_index_of(j);
                    self.lemma_index_of(j);
                }
            },
            None => {
                self.kinds.push(kind);
                self.values.push(value);
                let n = self.kinds.len() - 1;
                assert forall|a: int, b: int| 0 <= a < self.kinds@.len() && 0 <= b < self.kinds@.len() && a != b
                    implies self.kinds@[a] != self.kinds@[b] by {
                    if a < n && b < n {
                        assert(old(self).kinds@[a] != old(self).kinds@[b]);
                    } else if a < n {
                        assert(old(self).kinds@[a] != kind);
                    } else {
                        assert(old(self).kinds@[b] != kind);
                    }
                }
                assert forall|k: u64| #[trigger] self@.contains_key(k) <==> old(self)@.insert(kind, value).contains_key(
                    k,
                ) by {
                    if self@.contains_key(k) && k != kind {
                        let j = self.index_of(k);
                        assert(old(self).kinds@[j] == k);
                    }
                    if old(self)@.contains_key(k) {
                        let j = old(self).index_of(k);
                        assert(self.kinds@[j] == k);
                    }
                    if k == kind {
                        assert(self.kinds@[n as int] == k);
                    }
                }
                assert forall|k: u64| #[trigger] self@.contains_key(k) implies self@[k] == old(self)@.insert(
                    kind,
                    value,
                )[k] by {
                    let j = self.index_of(k);
                    self.lemma_index_of(j);
                    if j < n {
                        old(self).lemma_index_of(j);
                    }
                }
            },
        }
        assert(self@ =~= old(self)@.insert(kind, value));
    }

    /// The value of `kind`, if there is one.
    pub fn get(&self, kind: u64) -> (r: Option<&T>)
        requires
            self.wf(),
        ensures
            match r {
                Some(v) => self@.contains_key(kind) && *v == self@[kind],
                None => !self@.contains_key(kind),
            },
    {
        match self.find(kind) {
            Some(i) => {
                proof {
                    self.lemma_index_of(i as int);
                }
                Some(&self.values[i])
            },
            None => None,
        }
    }

    /// The value of `kind`, if there is one, to be changed in place.
    pub fn get_mut(&mut self, kind: u64) -> (r: Option<&mut T>)
        requires
            old(self).wf(),
        ensures
            final(self).wf(),
            match r {
                Some(v) => {
                    &&& old(self)@.contains_key(kind)
                    &&& *v == old(self)@[kind]
                    &&& final(self)@ == old(self)@.insert(kind, *final(v))
                },
                None => {
                    &&& !old(self)@.contains_key(kind)
                    &&& final(self)@ == old(self)@
                },
            },
    {
        match self.find(kind) {
            Some(i) => {
                proof {
                    let s1 = *self;
                    s1.lemma_index_of(i as int);
                    assert forall|s2: ResourceStorage<T>|
                        #![trigger s2.view()]
                        s2.kinds@ == s1.kinds@ && s2.values@ == s1.values@.update(i as int, s2.values@[i as int])
                        implies s2.wf() && s2@ == s1@.insert(kind, s2.values@[i as int])
                    by {
                        assert forall|k: u64| #[trigger] s2@.contains_key(k) implies s2@[k] == s1@.insert(
                            kind,
                            s2.values@[i as int],
                        )[k] by {
                            let j = s2.index_of(k);
                            s1.lemma_index_of(j);
                            s2.lemma_index_of(j);
                        }
                        assert(s2@ =~= s1@.insert(kind, s2.values@[i as int]));
                    }
                }
                Some(&mut self.values[i])
            },
            None => None,
        }
    }
}

} // verus!
