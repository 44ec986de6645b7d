use vstd::prelude::*;
use vstd::multiset::Multiset;
use crate::entity::Entity;

verus! {

broadcast use vstd::multiset::group_multiset_axioms;

/// The entities of a list of entities with their positions, counted with multiplicity.
pub open spec fn bag<P>(s: Seq<(Entity, P)>) -> Multiset<Entity>
    decreases s.len(),
{
    if s.len() == 0 {
        Multiset::empty()
    } else {
        bag(s.drop_last()).insert(s.last().0)
    }
}

/// The entries of a list of entities with their positions, counted with multiplicity.
pub open spec fn pair_bag<P>(s: Seq<(Entity, P)>) -> Multiset<(Entity, P)>
    decreases s.len(),
{
    if s.len() == 0 {
        Multiset::empty()
    } else {
        pair_bag(s.drop_last()).insert(s.last())
    }
}

/// The entities of a list, counted with multiplicity.
pub open spec fn seq_bag(s: Seq<Entity>) -> Multiset<Entity>
    decreases s.len(),
{
    if s.len() == 0 {
        Multiset::empty()
    } else {
        seq_bag(s.drop_last()).insert(s.last())
    }
}

proof fn lemma_seq_bag_concat(a: Seq<Entity>, b: Seq<Entity>)
    ensures
        seq_bag(a + b) == seq_bag(a).add(seq_bag(b)),
    decreases b.len(),
{
    if b.len() == 0 {
        assert(a + b =~= a);
        assert(seq_bag(b) =~= Multiset::empty());
        assert(seq_bag(a).add(Multiset::empty()) =~= seq_bag(a));
    } else {
        lemma_seq_bag_concat(a, b.drop_last());
        assert((a + b).drop_last() =~= a + b.drop_last());
        assert(seq_bag(a + b) =~= seq_bag(a).add(seq_bag(b)));
    }
}

/// An entity of a list is counted in the list's entities.
pub proof fn lemma_bag_has<P>(s: Seq<(Entity, P)>, k: int)
    requires
        0 <= k < s.len(),
    ensures
        bag(s).count(s[k].0) > 0,
    decreases s.len(),
{
    if k < s.len() - 1 {
        lemma_bag_has(s.drop_last(), k);
    }
}

/// An entity counted in a list is in the list.
pub proof fn lemma_seq_bag_has(s: Seq<Entity>, x: Entity)
    requires
        seq_bag(s).count(x) > 0,
    ensures
        s.contains(x),
    decreases s.len(),
{
    if s.last() != x {
        lemma_seq_bag_has(s.drop_last(), x);
        let k = choose|k: int| 0 <= k < s.drop_last().len() && s.drop_last()[k] == x;
        assert(s[k] == x);
    } else {
        assert(s[s.len() - 1] == x);
    }
}

/// An entity in a list is counted in it.
pub proof fn lemma_seq_bag_counts(s: Seq<Entity>, x: Entity)
    requires
        s.contains(x),
    ensures
        seq_bag(s).count(x) > 0,
    decreases s.len(),
{
    if s.last() != x {
        let k = choose|k: int| 0 <= k < s.len() && s[k] == x;
        assert(s.drop_last()[k] == x);
        lemma_seq_bag_counts(s.drop_last(), x);
    }
}

/// A list without repeats counts each entity at most once, and a list that
/// counts each entity at most once has no repeats.
pub proof fn lemma_seq_bag_unique(s: Seq<Entity>)
    ensures
        s.no_duplicates() <==> forall|x: Entity| #[trigger] seq_bag(s).count(x) <= 1,
    decreases s.len(),
{
    if s.len() > 0 {
        let d = s.drop_last();
        lemma_seq_bag_unique(d);
        if s.no_duplicates() {
            assert(d.no_duplicates()) by {
                assert forall|a: int, b: int| 0 <= a < d.len() && 0 <= b < d.len() && a != b implies d[a] != d[b] by {
                    assert(s[a] == d[a] && s[b] == d[b]);
                }
            }
            assert forall|x: Entity| #[trigger] seq_bag(s).count(x) <= 1 by {
                if x == s.last() && seq_bag(d).count(x) > 0 {
                    lemma_seq_bag_has(d, x);
                    let k = choose|k: int| 0 <= k < d.len() && d[k] == x;
                    assert(s[k] == s[s.len() - 1]);
                }
            }
        }
        if forall|x: Entity| #[trigger] seq_bag(s).count(x) <= 1 {
            assert forall|x: Entity| #[trigger] seq_bag(d).count(x) <= 1 by {
                assert(seq_bag(s).count(x) <= 1);
            }
            assert forall|a: int, b: int| 0 <= a < s.len() && 0 <= b < s.len() && a != b implies s[a] != s[b] by {
                if a < s.len() - 1 && b < s.len() - 1 {
                    assert(d[a] == s[a] && d[b] == s[b]);
                } else {
                    let k = if a < s.len() - 1 { a } else { b };
                    if s[a] == s[b] {
                        assert(d[k] == s.last());
                        lemma_seq_bag_counts(d, s.last());
                        assert(seq_bag(s).count(s.last()) <= 1);
                    }
                }
            }
        }
    }
}

/// A node of an octree: a region of space, and either the entities placed in
/// it or eight child nodes that split it.
pub struct OctreeNode<B, P> {
    bounds: B,
    children: Option<Vec<OctreeNode<B, P>>>,
    entities: Vec<(Entity, P)>,
}

/// Whether the octant function always names one of the eight children.
pub open spec fn octant_in_range<B, P, F: Fn(&B, &P) -> usize>(octant: &F) -> bool {
    &&& forall|b: &B, p: &P| #[trigger] octant.requires((b, p))
    &&& forall|b: &B, p: &P, r: usize| #[trigger] octant.ensures((b, p), r) ==> r < 8
}

/// Whether the region test can always be called.
pub open spec fn always_callable<B, G: Fn(&B, &B) -> bool>(intersects: &G) -> bool {
    forall|a: &B, b: &B| #[trigger] intersects.requires((a, b))
}

/// Whether the region test gives one answer for each pair of regions.
pub open spec fn deterministic<B, G: Fn(&B, &B) -> bool>(intersects: &G) -> bool {
    forall|a: &B, b: &B, r1: bool, r2: bool|
        #[trigger] intersects.ensures((a, b), r1) && #[trigger] intersects.ensures((a, b), r2) ==> r1 == r2
}

/// The entities of a list of entries, in order.
pub open spec fn ids<P>(s: Seq<(Entity, P)>) -> Seq<Entity> {
    s.map_values(|x: (Entity, P)| x.0)
}

impl<B, P> OctreeNode<B, P> {
    /// The region of space of this node.
    pub closed spec fn spec_bounds(self) -> B {
        self.bounds
    }

    /// Every entity placed in this node or below, with multiplicity.
    pub closed spec fn contents(self) -> Multiset<Entity>
        decreases self, 0nat,
    {
        bag(self.entities@).add(
            match self.children {
                None => Multiset::empty(),
                Some(cs) => Self::sum(cs@, cs@.len()),
            },
        )
    }

    /// The contents of the first `k` nodes of `cs`.
    pub closed spec fn sum(cs: Seq<OctreeNode<B, P>>, k: nat) -> Multiset<Entity>
        decreases cs, k,
    {
        if k == 0 || k > cs.len() {
            Multiset::empty()
        } else {
            Self::sum(cs, (k - 1) as nat).add(cs[k - 1].contents())
        }
    }

    /// Every entity placed in this node or below, together with the position
    /// it was placed at, with multiplicity.
    pub closed spec fn pairs(self) -> Multiset<(Entity, P)>
        decreases self, 0nat,
    {
        pair_bag(self.entities@).add(
            match self.children {
                None => Multiset::empty(),
                Some(cs) => Self::pair_sum(cs@, cs@.len()),
            },
        )
    }

    /// The entries of the first `k` nodes of `cs`.
    pub closed spec fn pair_sum(cs: Seq<OctreeNode<B, P>>, k: nat) -> Multiset<(Entity, P)>
        decreases cs, k,
    {
        if k == 0 || k > cs.len() {
            Multiset::empty()
        } else {
            Self::pair_sum(cs, (k - 1) as nat).add(cs[k - 1].pairs())
        }
    }

    /// Whether this node has no children.
    pub closed spec fn is_leaf(self) -> bool {
        self.children is None
    }

    /// The entries held by this node itself, in the order they came.
    pub closed spec fn own_entries(self) -> Seq<(Entity, P)> {
        self.entities@
    }

    /// The shape of a node at `depth`: a leaf holds at most `max_per` entities
    /// unless it is at `max_depth`; a split node has eight children and no
    /// entities of its own, and only nodes above `max_depth` split.
    pub closed spec fn wf(self, depth: nat, max_depth: nat, max_per: nat) -> bool
        decreases self,
    {
        match self.children {
            None => depth <= max_depth && (depth < max_depth ==> self.entities@.len() <= max_per),
            Some(cs) => {
                &&& depth < max_depth
                &&& cs@.len() == 8
                &&& self.entities@.len() == 0
                &&& forall|i: int| #![trigger cs@[i]] 0 <= i < 8 ==> cs@[i].wf(depth + 1, max_depth, max_per)
            },
        }
    }

    /// Whether `child` is filed as child `i` of a node over the region
    /// `bounds`: its region is the one `child_bounds` gives for `i`, and every
    /// entry below it has a position that `octant` puts in octant `i`.
    pub open spec fn filed_under<F: Fn(&B, &P) -> usize, G: Fn(&B, usize) -> B>(
        bounds: B,
        i: int,
        child: OctreeNode<B, P>,
        octant: &F,
        child_bounds: &G,
    ) -> bool {
        &&& child_bounds.ensures((&bounds, i as usize), child.spec_bounds())
        &&& forall|x: (Entity, P)| #[trigger] child.pairs().count(x) > 0 ==> octant.ensures((&bounds, &x.1), i as usize)
    }

    /// Whether every child in this subtree is filed under its parent as
    /// `octant` and `child_bounds` say.
    pub closed spec fn placed<F: Fn(&B, &P) -> usize, G: Fn(&B, usize) -> B>(self, octant: &F, child_bounds: &G) -> bool
        decreases self,
    {
        match self.children {
            None => true,
            Some(cs) => forall|i: int|
                #![trigger cs@[i]]
                0 <= i < cs@.len() ==> Self::filed_under(self.bounds, i, cs@[i], octant, child_bounds)
                    && cs@[i].placed(octant, child_bounds),
        }
    }

    /// The children of this node, in order; none for a leaf.
    pub closed spec fn kids(self) -> Seq<OctreeNode<B, P>> {
        match self.children {
            Some(cs) => cs@,
            None => Seq::empty(),
        }
    }

    /// What the shape of a node at `depth` says: a leaf has no children,
    /// lies at most at the deepest level and, above it, holds at most
    /// `max_per` entries; a split node lies above the deepest level, holds no
    /// entries of its own and has eight children of the shape of the next
    /// level.
    pub proof fn lemma_wf_shape(self, depth: nat, max_depth: nat, max_per: nat)
        requires
            self.wf(depth, max_depth, max_per),
        ensures
            self.is_leaf() ==> {
                &&& self.kids().len() == 0
                &&& depth <= max_depth
                &&& depth < max_depth ==> self.own_entries().len() <= max_per
            },
            !self.is_leaf() ==> {
                &&& depth < max_depth
                &&& self.own_entries().len() == 0
                &&& self.kids().len() == 8
                &&& forall|i: int| 0 <= i < 8 ==> (#[trigger] self.kids()[i]).wf(depth + 1, max_depth, max_per)
            },
    {
    }

    /// What placement says: each child is filed under this node as
    /// [`OctreeNode::filed_under`] says, and is placed itself.
    pub proof fn lemma_placed_kids<F: Fn(&B, &P) -> usize, G: Fn(&B, usize) -> B>(self, octant: &F, child_bounds: &G)
        requires
            self.placed(octant, child_bounds),
        ensures
            forall|i: int|
                0 <= i < self.kids().len() ==> Self::filed_under(self.spec_bounds(), i, #[trigger] self.kids()[i], octant, child_bounds)
                    && self.kids()[i].placed(octant, child_bounds),
    {
    }

    /// A leaf is placed whatever the octant and region functions.
    pub proof fn lemma_leaf_placed<F: Fn(&B, &P) -> usize, G: Fn(&B, usize) -> B>(self, octant: &F, child_bounds: &G)
        requires
            self.is_leaf(),
        ensures
            self.placed(octant, child_bounds),
    {
    }

    /// A leaf that the region test surely accepts must give all its entries.
    pub proof fn lemma_leaf_hits<G: Fn(&B, &B) -> bool>(self, q: B, intersects: &G)
        requires
            self.is_leaf(),
            forall|r: bool| #[trigger] intersects.ensures((&self.spec_bounds(), &q), r) ==> r,
        ensures
            self.hit_contents(q, intersects) == bag(self.own_entries()),
    {
        assert(self.surely_hits(q, intersects));
        assert(bag(self.own_entries()).add(Multiset::empty()) =~= bag(self.own_entries()));
    }

    /// Whether the region test, asked about this node and `q`, can only say yes.
    pub closed spec fn surely_hits<G: Fn(&B, &B) -> bool>(self, q: B, intersects: &G) -> bool {
        forall|r: bool| #[trigger] intersects.ensures((&self.bounds, &q), r) ==> r
    }

    /// The entities that a search for `q` must find: those of every node
    /// that the region test surely accepts along with all of its ancestors.
    pub closed spec fn hit_contents<G: Fn(&B, &B) -> bool>(self, q: B, intersects: &G) -> Multiset<Entity>
        decreases self, 0nat,
    {
        if self.surely_hits(q, intersects) {
            bag(self.entities@).add(
                match self.children {
                    None => Multiset::empty(),
                    Some(cs) => Self::hit_sum(cs@, cs@.len(), q, intersects),
                },
            )
        } else {
            Multiset::empty()
        }
    }

    /// The entities that a search for `q` must find below the first `k` nodes of `cs`.
    pub closed spec fn hit_sum<G: Fn(&B, &B) -> bool>(cs: Seq<OctreeNode<B, P>>, k: nat, q: B, intersects: &G) -> Multiset<Entity>
        decreases cs, k,
    {
        if k == 0 || k > cs.len() {
            Multiset::empty()
        } else {
            Self::hit_sum(cs, (k - 1) as nat, q, intersects).add(cs[k - 1].hit_contents(q, intersects))
        }
    }

    /// The entities that a search for `q` may find: those of every node that
    /// the region test can accept along with all of its ancestors.
    pub closed spec fn may_contents<G: Fn(&B, &B) -> bool>(self, q: B, intersects: &G) -> Multiset<Entity>
        decreases self, 0nat,
    {
        if intersects.ensures((&self.bounds, &q), true) {
            bag(self.entities@).add(
                match self.children {
                    None => Multiset::empty(),
                    Some(cs) => Self::may_sum(cs@, cs@.len(), q, intersects),
                },
            )
        } else {
            Multiset::empty()
        }
    }

    /// The entities that a search for `q` may find below the first `k` nodes of `cs`.
    pub closed spec fn may_sum<G: Fn(&B, &B) -> bool>(cs: Seq<OctreeNode<B, P>>, k: nat, q: B, intersects: &G) -> Multiset<Entity>
        decreases cs, k,
    {
        if k == 0 || k > cs.len() {
            Multiset::empty()
        } else {
            Self::may_sum(cs, (k - 1) as nat, q, intersects).add(cs[k - 1].may_contents(q, intersects))
        }
    }

    /// The entities that a search for `q` lists, in order, with a region
    /// test that gives one answer for each pair of regions: if the test
    /// accepts this node, its own entities and then those its children list,
    /// child by child.
    pub closed spec fn listed<G: Fn(&B, &B) -> bool>(self, q: B, intersects: &G) -> Seq<Entity>
        decreases self, 0nat,
    {
        if intersects.ensures((&self.bounds, &q), true) {
            ids(self.entities@) + match self.children {
                None => Seq::empty(),
                Some(cs) => Self::listed_sum(cs@, cs@.len(), q, intersects),
            }
        } else {
            Seq::empty()
        }
    }

    /// What the first `k` nodes of `cs` list, one after the other.
    pub closed spec fn listed_sum<G: Fn(&B, &B) -> bool>(cs: Seq<OctreeNode<B, P>>, k: nat, q: B, intersects: &G) -> Seq<Entity>
        decreases cs, k,
    {
        if k == 0 || k > cs.len() {
            Seq::empty()
        } else {
            Self::listed_sum(cs, (k - 1) as nat, q, intersects) + cs[k - 1].listed(q, intersects)
        }
    }

    proof fn lemma_sum_update(cs: Seq<OctreeNode<B, P>>, i: int, n: OctreeNode<B, P>, k: nat)
        requires
            0 <= i < k <= cs.len(),
        ensures
            Self::sum(cs.update(i, n), k).add(cs[i].contents()) == Self::sum(cs, k).add(n.contents()),
        decreases k,
    {
        let us = cs.update(i, n);
        let k1 = (k - 1) as nat;
        assert(Self::sum(us, k) == Self::sum(us, k1).add(us[k - 1].contents()));
        assert(Self::sum(cs, k) == Self::sum(cs, k1).add(cs[k - 1].contents()));
        if i < k - 1 {
            Self::lemma_sum_update(cs, i, n, k1);
            assert(us[k - 1] == cs[k - 1]);
            let a = Self::sum(us, k1);
            let b = Self::sum(cs, k1);
            assert(a.add(cs[i].contents()) == b.add(n.contents()));
            assert forall|x: Entity| #[trigger] Self::sum(us, k).add(cs[i].contents()).count(x) == Self::sum(cs, k).add(
                n.contents(),
            ).count(x) by {
                assert(a.add(cs[i].contents()).count(x) == b.add(n.contents()).count(x));
            }
        } else {
            assert(Self::sum(us, k1) == Self::sum(cs, k1)) by {
                Self::lemma_sum_same_prefix(cs, us, k1);
            }
            assert(us[k - 1] == n);
        }
        assert(Self::sum(us, k).add(cs[i].contents()) =~= Self::sum(cs, k).add(n.contents()));
    }

    proof fn lemma_cancel<A>(a: Multiset<A>, b: Multiset<A>, c: Multiset<A>, e: A)
        requires
            a.add(c) == b.add(c.insert(e)),
        ensures
            a == b.insert(e),
    {
        assert forall|x: A| #[trigger] a.count(x) == b.insert(e).count(x) by {
            assert(a.add(c).count(x) == b.add(c.insert(e)).count(x));
            assert(a.add(c).count(x) == a.count(x) + c.count(x));
            assert(b.add(c.insert(e)).count(x) == b.count(x) + c.insert(e).count(x));
            assert(c.insert(e).count(x) == c.count(x) + Multiset::singleton(e).count(x));
            assert(b.insert(e).count(x) == b.count(x) + Multiset::singleton(e).count(x));
        }
        assert(a =~= b.insert(e));
    }

    proof fn lemma_sum_same_prefix(a: Seq<OctreeNode<B, P>>, b: Seq<OctreeNode<B, P>>, k: nat)
        requires
            k <= a.len(),
            k <= b.len(),
            forall|j: int| 0 <= j < k ==> a[j] == b[j],
        ensures
            Self::sum(a, k) == Self::sum(b, k),
        decreases k,
    {
        if k > 0 {
            Self::lemma_sum_same_prefix(a, b, (k - 1) as nat);
        }
    }

    proof fn lemma_sum_push(cs: Seq<OctreeNode<B, P>>, n: OctreeNode<B, P>)
        ensures
            Self::sum(cs.push(n), cs.len() + 1) == Self::sum(cs, cs.len()).add(n.contents()),
    {
        Self::lemma_sum_same_prefix(cs, cs.push(n), cs.len());
    }

    proof fn lemma_pair_sum_update(cs: Seq<OctreeNode<B, P>>, i: int, n: OctreeNode<B, P>, k: nat)
        requires
            0 <= i < k <= cs.len(),
        ensures
            Self::pair_sum(cs.update(i, n), k).add(cs[i].pairs()) == Self::pair_sum(cs, k).add(n.pairs()),
        decreases k,
    {
        let us = cs.update(i, n);
        let k1 = (k - 1) as nat;
        assert(Self::pair_sum(us, k) == Self::pair_sum(us, k1).add(us[k - 1].pairs()));
        assert(Self::pair_sum(cs, k) == Self::pair_sum(cs, k1).add(cs[k - 1].pairs()));
        if i < k - 1 {
            Self::lemma_pair_sum_update(cs, i, n, k1);
            assert(us[k - 1] == cs[k - 1]);
            let a = Self::pair_sum(us, k1);
            let b = Self::pair_sum(cs, k1);
            assert(a.add(cs[i].pairs()) == b.add(n.pairs()));
            assert forall|x: (Entity, P)| #[trigger] Self::pair_sum(us, k).add(cs[i].pairs()).count(x)
                == Self::pair_sum(cs, k).add(n.pairs()).count(x) by {
                assert(a.add(cs[i].pairs()).count(x) == b.add(n.pairs()).count(x));
            }
        } else {
            assert(Self::pair_sum(us, k1) == Self::pair_sum(cs, k1)) by {
                Self::lemma_pair_sum_same_prefix(cs, us, k1);
            }
            assert(us[k - 1] == n);
        }
        assert(Self::pair_sum(us, k).add(cs[i].pairs()) =~= Self::pair_sum(cs, k).add(n.pairs()));
    }

    proof fn lemma_pair_sum_same_prefix(a: Seq<OctreeNode<B, P>>, b: Seq<OctreeNode<B, P>>, k: nat)
        requires
            k <= a.len(),
            k <= b.len(),
            forall|j: int| 0 <= j < k ==> a[j] == b[j],
        ensures
            Self::pair_sum(a, k) == Self::pair_sum(b, k),
        decreases k,
    {
        if k > 0 {
            Self::lemma_pair_sum_same_prefix(a, b, (k - 1) as nat);
        }
    }

    proof fn lemma_pair_sum_push(cs: Seq<OctreeNode<B, P>>, n: OctreeNode<B, P>)
        ensures
            Self::pair_sum(cs.push(n), cs.len() + 1) == Self::pair_sum(cs, cs.len()).add(n.pairs()),
    {
        Self::lemma_pair_sum_same_prefix(cs, cs.push(n), cs.len());
    }

    proof fn lemma_refile<F: Fn(&B, &P) -> usize, G: Fn(&B, usize) -> B>(
        bounds: B,
        o: int,
        before: OctreeNode<B, P>,
        after: OctreeNode<B, P>,
        entry: (Entity, P),
        octant: &F,
        child_bounds: &G,
    )
        requires
            Self::filed_under(bounds, o, before, octant, child_bounds),
            after.spec_bounds() == before.spec_bounds(),
            after.pairs() == before.pairs().insert(entry),
            octant.ensures((&bounds, &entry.1), o as usize),
        ensures
            Self::filed_under(bounds, o, after, octant, child_bounds),
    {
        assert forall|x: (Entity, P)| #[trigger] after.pairs().count(x) > 0 implies octant.ensures(
            (&bounds, &x.1),
            o as usize,
        ) by {
            if x != entry {
                assert(before.pairs().count(x) > 0);
            }
        }
    }

    /// An empty leaf for the region `bounds`.
    pub fn new(bounds: B) -> (n: Self)
        ensures
            n.spec_bounds() == bounds,
            n.contents() == Multiset::<Entity>::empty(),
            n.pairs() == Multiset::<(Entity, P)>::empty(),
            n.is_leaf(),
            n.own_entries() == Seq::<(Entity, P)>::empty(),
            forall|depth: nat, max_depth: nat, max_per: nat| depth <= max_depth ==> #[trigger] n.wf(depth, max_depth, max_per),
    {
        let n = Self { bounds, children: None, entities: Vec::new() };
        assert(n.contents() =~= Multiset::<Entity>::empty());
        assert(n.pairs() =~= Multiset::<(Entity, P)>::empty());
        n
    }

    /// Places the entity at `pos` in this node at `depth`: a leaf with room,
    /// or at the deepest level, keeps it; a full leaf splits into eight
    /// children and hands its entities down; a split node hands it to the
    /// child of its octant.
    pub fn insert<F: Fn(&B, &P) -> usize, G: Fn(&B, usize) -> B>(
        &mut self,
        entity: Entity,
        pos: P,
        depth: u32,
        max_depth: u32,
        max_per_node: usize,
        octant: &F,
        child_bounds: &G,
    )
        where P: Copy,
        requires
            old(self).wf(depth as nat, max_depth as nat, max_per_node as nat),
            old(self).placed(octant, child_bounds),
            octant_in_range(octant),
            forall|b: &B, i: usize| #[trigger] child_bounds.requires((b, i)),
        ensures
            final(self).wf(depth as nat, max_depth as nat, max_per_node as nat),
            final(self).placed(octant, child_bounds),
            final(self).contents() == old(self).contents().insert(entity),
            final(self).pairs() == old(self).pairs().insert((entity, pos)),
            final(self).spec_bounds() == old(self).spec_bounds(),
            final(self).is_leaf() == (depth == max_depth || (old(self).is_leaf()
                && old(self).own_entries().len() < max_per_node)),
            final(self).is_leaf() ==> final(self).own_entries() == old(self).own_entries().push((entity, pos)),
        decreases max_depth - depth,
    {
        if depth == max_depth || (self.children.is_none() && self.entities.len() < max_per_node) {
            self.entities.push((entity, pos));
            proof {
                assert(self.entities@.drop_last() =~= old(self).entities@);
                assert(self.contents() =~= old(self).contents().insert(entity));
                assert(self.pairs() =~= old(self).pairs().insert((entity, pos)));
            }
            return;
        }
        let mut cs: Vec<OctreeNode<B, P>> = match self.children.take() {
            Some(cs) => {
                proof {
                    assert(old(self).children == Some(cs));
                    assert(forall|k: int| 0 <= k < 8 ==> #[trigger] cs@[k].wf((depth + 1) as nat, max_depth as nat, max_per_node as nat));
                    assert(old(self).entities@.len() == 0);
                    assert(bag(old(self).entities@) =~= Multiset::<Entity>::empty());
                    assert(Self::sum(cs@, 8) =~= old(self).contents());
                    assert(pair_bag(old(self).entities@) =~= Multiset::<(Entity, P)>::empty());
                    assert(Self::pair_sum(cs@, 8) =~= old(self).pairs());
                    assert(forall|k: int| 0 <= k < 8 ==> Self::filed_under(self.bounds, k, #[trigger] cs@[k], octant, child_bounds)
                        && cs@[k].placed(octant, child_bounds));
                }
                cs
            },
            None => {
                let mut cs: Vec<OctreeNode<B, P>> = Vec::new();
                let mut i: usize = 0;
                while i < 8
                    invariant
                        i <= 8,
                        cs@.len() == i,
                        depth < max_depth,
                        forall|b: &B, i: usize| #[trigger] child_bounds.requires((b, i)),
                        forall|j: int| 0 <= j < i ==> #[trigger] cs@[j].wf((depth + 1) as nat, max_depth as nat, max_per_node as nat),
                        Self::sum(cs@, cs@.len()) == Multiset::<Entity>::empty(),
                        Self::pair_sum(cs@, cs@.len()) == Multiset::<(Entity, P)>::empty(),
                        forall|j: int| 0 <= j < i ==> Self::filed_under(self.bounds, j, #[trigger] cs@[j], octant, child_bounds)
                            && cs@[j].placed(octant, child_bounds),
                    decreases 8 - i,
                {
                    let cb = child_bounds(&self.bounds, i);
                    let child = OctreeNode::new(cb);
                    proof {
                        assert(Self::filed_under(self.bounds, i as int, child, octant, child_bounds));
                        child.lemma_leaf_placed(octant, child_bounds);
                        assert(child.wf((depth + 1) as nat, max_depth as nat, max_per_node as nat));
                        Self::lemma_sum_push(cs@, child);
                        assert(Self::sum(cs@, cs@.len()).add(child.contents()) =~= Multiset::<Entity>::empty());
                        Self::lemma_pair_sum_push(cs@, child);
                        assert(Self::pair_sum(cs@, cs@.len()).add(child.pairs()) =~= Multiset::<(Entity, P)>::empty());
                    }
                    cs.push(child);
                    i = i + 1;
                }
                let mut existing: Vec<(Entity, P)> = Vec::new();
                std::mem::swap(&mut existing, &mut self.entities);
                let mut j: usize = 0;
                while j < existing.len()
                    invariant
                        j <= existing@.len(),
                        existing@ == old(self).entities@,
                        cs@.len() == 8,
                        depth < max_depth,
                        octant_in_range(octant),
                        forall|b: &B, i: usize| #[trigger] child_bounds.requires((b, i)),
                        forall|k: int| 0 <= k < 8 ==> #[trigger] cs@[k].wf((depth + 1) as nat, max_depth as nat, max_per_node as nat),
                        Self::sum(cs@, 8) == bag(existing@.take(j as int)),
                        Self::pair_sum(cs@, 8) == pair_bag(existing@.take(j as int)),
                        forall|k: int| 0 <= k < 8 ==> Self::filed_under(self.bounds, k, #[trigger] cs@[k], octant, child_bounds)
                            && cs@[k].placed(octant, child_bounds),
                    decreases existing@.len() - j,
                {
                    let (e, p) = existing[j];
                    let o = octant(&self.bounds, &p);
                    assert(o < 8);
                    assert(cs@[o as int].wf((depth + 1) as nat, max_depth as nat, max_per_node as nat));
                    let ghost before = cs@;
                    cs[o].insert(e, p, depth + 1, max_depth, max_per_node, octant, child_bounds);
                    proof {
                        let after = cs@;
                        Self::lemma_sum_update(before, o as int, after[o as int], 8);
                        assert(after == before.update(o as int, after[o as int]));
                        assert(after[o as int].contents() == before[o as int].contents().insert(e));
                        assert(existing@.take(j + 1).drop_last() =~= existing@.take(j as int));
                        assert(existing@.take(j + 1).last().0 == e);
                        assert(bag(existing@.take(j + 1)) == bag(existing@.take(j as int)).insert(e));
                        Self::lemma_cancel(Self::sum(after, 8), Self::sum(before, 8), before[o as int].contents(), e);
                        assert(Self::sum(after, 8) =~= bag(existing@.take(j + 1)));
                        Self::lemma_pair_sum_update(before, o as int, after[o as int], 8);
                        assert(after[o as int].pairs() == before[o as int].pairs().insert((e, p)));
                        assert(existing@.take(j + 1).last() == (e, p));
                        assert(pair_bag(existing@.take(j + 1)) == pair_bag(existing@.take(j as int)).insert((e, p)));
                        Self::lemma_cancel(Self::pair_sum(after, 8), Self::pair_sum(before, 8), before[o as int].pairs(), (e, p));
                        assert(Self::pair_sum(after, 8) =~= pair_bag(existing@.take(j + 1)));
                        Self::lemma_refile(self.bounds, o as int, before[o as int], after[o as int], (e, p), octant, child_bounds);
                        assert forall|k: int| 0 <= k < 8 implies Self::filed_under(self.bounds, k, #[trigger] after[k], octant, child_bounds)
                            && after[k].placed(octant, child_bounds) by {
                            if k != o {
                                assert(after[k] == before[k]);
                            }
                        }
                    }
                    j = j + 1;
                }
                proof {
                    assert(existing@.take(j as int) =~= existing@);
                    assert(Self::sum(cs@, 8) =~= old(self).contents());
                    assert(Self::pair_sum(cs@, 8) =~= old(self).pairs());
                }
                cs
            },
        };
        assert(cs@.len() == 8);
        assert(forall|k: int| 0 <= k < 8 ==> #[trigger] cs@[k].wf((depth + 1) as nat, max_depth as nat, max_per_node as nat));
        assert(Self::sum(cs@, 8) == old(self).contents());
        assert(Self::pair_sum(cs@, 8) == old(self).pairs());
        assert(forall|k: int| 0 <= k < 8 ==> Self::filed_under(self.bounds, k, #[trigger] cs@[k], octant, child_bounds)
            && cs@[k].placed(octant, child_bounds));
        let o = octant(&self.bounds, &pos);
        assert(o < 8);
        assert(cs@[o as int].wf((depth + 1) as nat, max_depth as nat, max_per_node as nat));
        let ghost before = cs@;
        cs[o].insert(entity, pos, depth + 1, max_depth, max_per_node, octant, child_bounds);
        proof {
            let after = cs@;
            Self::lemma_sum_update(before, o as int, after[o as int], 8);
            assert(after == before.update(o as int, after[o as int]));
            assert(after[o as int].contents() == before[o as int].contents().insert(entity));
            Self::lemma_cancel(Self::sum(after, 8), Self::sum(before, 8), before[o as int].contents(), entity);
            assert(Self::sum(after, 8) =~= old(self).contents().insert(entity));
            Self::lemma_pair_sum_update(before, o as int, after[o as int], 8);
            assert(after[o as int].pairs() == before[o as int].pairs().insert((entity, pos)));
            Self::lemma_cancel(Self::pair_sum(after, 8), Self::pair_sum(before, 8), before[o as int].pairs(), (entity, pos));
            assert(Self::pair_sum(after, 8) =~= old(self).pairs().insert((entity, pos)));
            Self::lemma_refile(self.bounds, o as int, before[o as int], after[o as int], (entity, pos), octant, child_bounds);
            assert forall|k: int| 0 <= k < 8 implies Self::filed_under(self.bounds, k, #[trigger] after[k], octant, child_bounds)
                && after[k].placed(octant, child_bounds) by {
                if k != o {
                    assert(after[k] == before[k]);
                }
            }
            assert forall|k: int| #![trigger after[k]] 0 <= k < 8 implies after[k].wf(
                (depth + 1) as nat,
                max_depth as nat,
                max_per_node as nat,
            ) by {
                if k != o {
                    assert(after[k] == before[k]);
                }
            }
        }
        self.children = Some(cs);
        proof {
            assert(self.entities@.len() == 0);
            assert(bag(self.entities@) =~= Multiset::<Entity>::empty());
            assert(self.contents() =~= old(self).contents().insert(entity));
            assert(pair_bag(self.entities@) =~= Multiset::<(Entity, P)>::empty());
            assert(self.pairs() =~= old(self).pairs().insert((entity, pos)));
        }
    }
}

proof fn lemma_ids_bag<P>(s: Seq<(Entity, P)>, t: Seq<Entity>)
    requires
        t.len() == s.len(),
        forall|i: int| 0 <= i < s.len() ==> #[trigger] t[i] == s[i].0,
    ensures
        seq_bag(t) == bag(s),
    decreases s.len(),
{
    if s.len() > 0 {
        lemma_ids_bag(s.drop_last(), t.drop_last());
    }
}

impl<B, P> OctreeNode<B, P> {
    /// Appends to `out` the entities of every node whose region the test
    /// `intersects` accepts together with the regions of all its ancestors.
    /// What is appended is a part of this node's contents, lies within what
    /// the test can let through, and holds every entity that the test surely
    /// lets through.
    pub fn query<G: Fn(&B, &B) -> bool>(&self, bounds: &B, out: &mut Vec<Entity>, intersects: &G)
        requires
            always_callable(intersects),
        ensures
            final(out)@.len() >= old(out)@.len(),
            final(out)@.take(old(out)@.len() as int) == old(out)@,
            seq_bag(final(out)@.skip(old(out)@.len() as int)).subset_of(self.contents()),
            seq_bag(final(out)@.skip(old(out)@.len() as int)).subset_of(self.may_contents(*bounds, intersects)),
            deterministic(intersects) ==> final(out)@ == old(out)@ + self.listed(*bounds, intersects),
            self.hit_contents(*bounds, intersects).subset_of(seq_bag(final(out)@.skip(old(out)@.len() as int))),
        decreases self,
    {
        let ghost start = out@.len();
        if !intersects(&self.bounds, bounds) {
            proof {
                assert(out@.take(start as int) =~= out@);
                assert(out@.skip(start as int) =~= Seq::<Entity>::empty());
                assert(seq_bag(Seq::<Entity>::empty()) =~= Multiset::<Entity>::empty());
                assert(!self.surely_hits(*bounds, intersects));
                assert(self.hit_contents(*bounds, intersects) =~= Multiset::<Entity>::empty());
                if deterministic(intersects) {
                    assert(!intersects.ensures((&self.bounds, bounds), true));
                    assert(out@ =~= old(out)@ + self.listed(*bounds, intersects));
                }
            }
            return;
        }
        let mut i: usize = 0;
        while i < self.entities.len()
            invariant
                i <= self.entities@.len(),
                out@.len() == start + i,
                out@.take(start as int) == old(out)@,
                forall|j: int| 0 <= j < i ==> #[trigger] out@[start + j] == self.entities@[j].0,
            decreases self.entities@.len() - i,
        {
            out.push(self.entities[i].0);
            proof {
                assert(out@.take(start as int) =~= old(out)@);
            }
            i = i + 1;
        }
        let ghost own = out@.skip(start as int);
        proof {
            assert forall|j: int| 0 <= j < self.entities@.len() implies #[trigger] own[j] == self.entities@[j].0 by {
                assert(own[j] == out@[start + j]);
            }
            lemma_ids_bag(self.entities@, own);
            assert(own =~= ids(self.entities@));
        }
        match &self.children {
            None => {
                proof {
                    assert(self.contents() =~= bag(self.entities@));
                    assert(self.may_contents(*bounds, intersects) =~= bag(self.entities@));
                    assert(out@ =~= old(out)@ + own);
                    assert(self.listed(*bounds, intersects) =~= ids(self.entities@));
                    assert(self.hit_contents(*bounds, intersects).subset_of(bag(self.entities@)));
                }
            },
            Some(cs) => {
                let mut k: usize = 0;
                while k < cs.len()
                    invariant
                        self.children == Some(*cs),
                        always_callable(intersects),
                        k <= cs@.len(),
                        out@.len() >= start + own.len(),
                        out@.take(start as int) == old(out)@,
                        own == out@.skip(start as int).take(own.len() as int),
                        seq_bag(own) == bag(self.entities@),
                        seq_bag(out@.skip(start as int)).subset_of(bag(self.entities@).add(Self::sum(cs@, k as nat))),
                        seq_bag(out@.skip(start as int)).subset_of(
                            bag(self.entities@).add(Self::may_sum(cs@, k as nat, *bounds, intersects)),
                        ),
                        intersects.ensures((&self.bounds, bounds), true),
                        own == ids(self.entities@),
                        deterministic(intersects) ==> out@ == old(out)@ + own + Self::listed_sum(
                            cs@,
                            k as nat,
                            *bounds,
                            intersects,
                        ),
                        bag(self.entities@).add(Self::hit_sum(cs@, k as nat, *bounds, intersects)).subset_of(
                            seq_bag(out@.skip(start as int)),
                        ),
                    decreases cs@.len() - k,
                {
                    let ghost mid = out@;
                    proof {
                        let ch = self.children->Some_0;
                        assert(ch == *cs);
                        assert(decreases_to!(*self => self.children));
                        assert(decreases_to!(self.children => ch));
                        assert(decreases_to!(ch => ch@));
                        assert(decreases_to!(ch@ => ch@[k as int]));
                        assert(decreases_to!(*self => cs@[k as int]));
                    }
                    cs[k].query(bounds, out, intersects);
                    proof {
                        let added = out@.skip(mid.len() as int);
                        assert(out@ =~= mid + added);
                        assert(out@.skip(start as int) =~= mid.skip(start as int) + added);
                        lemma_seq_bag_concat(mid.skip(start as int), added);
                        assert(out@.take(start as int) =~= mid.take(start as int));
                        assert(out@.skip(start as int).take(own.len() as int) =~= mid.skip(start as int).take(own.len() as int));
                        assert(Self::sum(cs@, (k + 1) as nat) == Self::sum(cs@, k as nat).add(cs@[k as int].contents()));
                        if deterministic(intersects) {
                            assert(Self::listed_sum(cs@, (k + 1) as nat, *bounds, intersects) == Self::listed_sum(
                                cs@,
                                k as nat,
                                *bounds,
                                intersects,
                            ) + cs@[k as int].listed(*bounds, intersects));
                            assert(out@ =~= old(out)@ + own + Self::listed_sum(cs@, (k + 1) as nat, *bounds, intersects));
                        }
                        assert(Self::may_sum(cs@, (k + 1) as nat, *bounds, intersects) == Self::may_sum(
                            cs@,
                            k as nat,
                            *bounds,
                            intersects,
                        ).add(cs@[k as int].may_contents(*bounds, intersects)));
                        assert(Self::hit_sum(cs@, (k + 1) as nat, *bounds, intersects) == Self::hit_sum(
                            cs@,
                            k as nat,
                            *bounds,
                            intersects,
                        ).add(cs@[k as int].hit_contents(*bounds, intersects)));
                    }
                    k = k + 1;
                }
                proof {
                    assert(self.contents() == bag(self.entities@).add(Self::sum(cs@, cs@.len())));
                    assert(self.may_contents(*bounds, intersects) == bag(self.entities@).add(
                        Self::may_sum(cs@, cs@.len(), *bounds, intersects),
                    ));
                    if deterministic(intersects) {
                        assert(out@ =~= old(out)@ + self.listed(*bounds, intersects));
                    }
                }
            },
        }
    }
}

proof fn lemma_pair_bag_entity<P>(s: Seq<(Entity, P)>, x: (Entity, P))
    requires
        pair_bag(s).count(x) > 0,
    ensures
        bag(s).count(x.0) > 0,
    decreases s.len(),
{
    if s.len() > 0 && s.last() != x {
        lemma_pair_bag_entity(s.drop_last(), x);
    }
}

proof fn lemma_pair_sum_member<B, P>(cs: Seq<OctreeNode<B, P>>, k: nat, x: (Entity, P)) -> (i: int)
    requires
        OctreeNode::pair_sum(cs, k).count(x) > 0,
    ensures
        0 <= i < k,
        i < cs.len(),
        cs[i].pairs().count(x) > 0,
    decreases k,
{
    if cs[k - 1].pairs().count(x) > 0 {
        k - 1
    } else {
        lemma_pair_sum_member(cs, (k - 1) as nat, x)
    }
}

proof fn lemma_hit_sum_covers<B, P, G: Fn(&B, &B) -> bool>(
    cs: Seq<OctreeNode<B, P>>,
    k: nat,
    i: int,
    q: B,
    intersects: &G,
    e: Entity,
)
    requires
        0 <= i < k <= cs.len(),
    ensures
        OctreeNode::hit_sum(cs, k, q, intersects).count(e) >= cs[i].hit_contents(q, intersects).count(e),
    decreases k,
{
    if i < k - 1 {
        lemma_hit_sum_covers(cs, (k - 1) as nat, i, q, intersects, e);
    }
}

/// A search finds every entity whose position lies both in the node's
/// region and in the query region `q`, when the tree was filed by `octant`
/// and `child_bounds`, each child region holds the points of its parent's
/// region that `octant` sends to it, and the region test accepts every
/// region that shares a point with `q`. Here `inside(p, b)` says that the
/// point `p` lies in the region `b`.
pub proof fn law_query_finds_points_in_region<B, P, F: Fn(&B, &P) -> usize, G: Fn(&B, usize) -> B, H: Fn(&B, &B) -> bool>(
    node: OctreeNode<B, P>,
    q: B,
    octant: &F,
    child_bounds: &G,
    intersects: &H,
    inside: spec_fn(P, B) -> bool,
    x: (Entity, P),
)
    requires
        node.placed(octant, child_bounds),
        forall|b: B, p: P, i: usize, c: B|
            inside(p, b) && #[trigger] octant.ensures((&b, &p), i) && #[trigger] child_bounds.ensures((&b, i), c)
                ==> inside(p, c),
        forall|b: B, p: P|
            #![trigger inside(p, b)]
            inside(p, b) && inside(p, q) ==> (forall|r: bool| #[trigger] intersects.ensures((&b, &q), r) ==> r),
        node.pairs().count(x) > 0,
        inside(x.1, node.spec_bounds()),
        inside(x.1, q),
    ensures
        node.hit_contents(q, intersects).count(x.0) > 0,
    decreases node,
{
    assert(node.surely_hits(q, intersects));
    match node.children {
        None => {
            lemma_pair_bag_entity(node.entities@, x);
        },
        Some(cs) => {
            if pair_bag(node.entities@).count(x) > 0 {
                lemma_pair_bag_entity(node.entities@, x);
            } else {
                let i = lemma_pair_sum_member(cs@, cs@.len(), x);
                let child = cs@[i];
                assert(OctreeNode::filed_under(node.bounds, i, child, octant, child_bounds));
                assert(octant.ensures((&node.bounds, &x.1), i as usize));
                assert(inside(x.1, child.spec_bounds()));
                assert(decreases_to!(node => node.children));
                assert(decreases_to!(node.children => cs));
                assert(decreases_to!(cs => cs@));
                assert(decreases_to!(cs@ => cs@[i]));
                law_query_finds_points_in_region(child, q, octant, child_bounds, intersects, inside, x);
                lemma_hit_sum_covers(cs@, cs@.len(), i, q, intersects, x.0);
            }
        },
    }
}

proof fn lemma_pair_sum_covers<B, P>(cs: Seq<OctreeNode<B, P>>, k: nat, i: int, x: (Entity, P))
    requires
        0 <= i < k <= cs.len(),
    ensures
        OctreeNode::pair_sum(cs, k).count(x) >= cs[i].pairs().count(x),
    decreases k,
{
    if i < k - 1 {
        lemma_pair_sum_covers(cs, (k - 1) as nat, i, x);
    }
}

/// The entries under a node are those it holds itself and those under its
/// children: an entry is under the node exactly when it is held by the node
/// or under one of its children.
pub proof fn lemma_pairs_split<B, P>(node: OctreeNode<B, P>, x: (Entity, P))
    ensures
        node.pairs().count(x) > 0 <==> (node.own_entries().contains(x) || exists|i: int|
            0 <= i < node.kids().len() && (#[trigger] node.kids()[i]).pairs().count(x) > 0),
{
    lemma_pair_bag_contains(node.entities@, x);
    match node.children {
        None => {},
        Some(cs) => {
            if OctreeNode::pair_sum(cs@, cs@.len()).count(x) > 0 {
                let i = lemma_pair_sum_member(cs@, cs@.len(), x);
                assert(node.kids()[i] == cs@[i]);
            }
            if exists|i: int| 0 <= i < node.kids().len() && (#[trigger] node.kids()[i]).pairs().count(x) > 0 {
                let i = choose|i: int| 0 <= i < node.kids().len() && (#[trigger] node.kids()[i]).pairs().count(x) > 0;
                lemma_pair_sum_covers(cs@, cs@.len(), i, x);
            }
        },
    }
}

proof fn lemma_pair_bag_contains<P>(s: Seq<(Entity, P)>, x: (Entity, P))
    ensures
        pair_bag(s).count(x) > 0 <==> s.contains(x),
    decreases s.len(),
{
    if s.len() > 0 {
        lemma_pair_bag_contains(s.drop_last(), x);
        if s.drop_last().contains(x) {
            let k = choose|k: int| 0 <= k < s.drop_last().len() && s.drop_last()[k] == x;
            assert(s[k] == x);
        }
        if s.contains(x) && s.last() != x {
            let k = choose|k: int| 0 <= k < s.len() && s[k] == x;
            assert(s.drop_last()[k] == x);
        }
        if s.last() == x {
            assert(s[s.len() - 1] == x);
        }
    }
}

/// A child holds the points that land in it: when the tree is placed by
/// `octant` and `child_bounds`, each child region holds the points of its
/// parent region that `octant` sends to it, and an entry under child `i`
/// has its position in the node's region, that position lies in child
/// `i`'s region too. Going down child by child, every entry whose position
/// lies in the root region is held by a leaf whose region holds it.
pub proof fn law_child_holds_point<B, P, F: Fn(&B, &P) -> usize, G: Fn(&B, usize) -> B>(
    node: OctreeNode<B, P>,
    octant: &F,
    child_bounds: &G,
    inside: spec_fn(P, B) -> bool,
    i: int,
    x: (Entity, P),
)
    requires
        node.placed(octant, child_bounds),
        forall|b: B, p: P, k: usize, c: B|
            inside(p, b) && #[trigger] octant.ensures((&b, &p), k) && #[trigger] child_bounds.ensures((&b, k), c)
                ==> inside(p, c),
        0 <= i < node.kids().len(),
        node.kids()[i].pairs().count(x) > 0,
        inside(x.1, node.spec_bounds()),
    ensures
        inside(x.1, node.kids()[i].spec_bounds()),
{
    node.lemma_placed_kids(octant, child_bounds);
    assert(OctreeNode::filed_under(node.spec_bounds(), i, node.kids()[i], octant, child_bounds));
    assert(octant.ensures((&node.spec_bounds(), &x.1), i as usize));
}

/// With a region test that accepts every pair, a search must find every
/// entity of the tree.
pub proof fn law_query_accepting_all_finds_all<B, P, G: Fn(&B, &B) -> bool>(node: OctreeNode<B, P>, q: B, intersects: &G)
    requires
        forall|a: &B, b: &B, r: bool| #[trigger] intersects.ensures((a, b), r) ==> r,
    ensures
        node.hit_contents(q, intersects) == node.contents(),
    decreases node,
{
    assert(node.surely_hits(q, intersects));
    match node.children {
        None => {},
        Some(cs) => {
            lemma_hit_sum_all(cs@, cs@.len(), q, intersects);
        },
    }
}

proof fn lemma_hit_sum_all<B, P, G: Fn(&B, &B) -> bool>(cs: Seq<OctreeNode<B, P>>, k: nat, q: B, intersects: &G)
    requires
        forall|a: &B, b: &B, r: bool| #[trigger] intersects.ensures((a, b), r) ==> r,
    ensures
        OctreeNode::hit_sum(cs, k, q, intersects) == OctreeNode::sum(cs, k),
    decreases cs, k,
{
    if k > 0 && k <= cs.len() {
        lemma_hit_sum_all(cs, (k - 1) as nat, q, intersects);
        law_query_accepting_all_finds_all(cs[k - 1], q, intersects);
    }
}

/// A loose octree over regions `B` and positions `P`: leaves hold up to
/// `max_per_node` entities and split into eight, down to `max_depth` levels.
pub struct Octree<B, P> {
    pub root: OctreeNode<B, P>,
    max_dept: u32,
    max_per_node: usize,
}

impl<B, P> Octree<B, P> {
    /// The entities placed in the tree, with multiplicity.
    pub closed spec fn contents(self) -> Multiset<Entity> {
        self.root.contents()
    }

    /// The entities placed in the tree with their positions, with multiplicity.
    pub closed spec fn pairs(self) -> Multiset<(Entity, P)> {
        self.root.pairs()
    }

    /// The root node.
    pub closed spec fn root_node(self) -> OctreeNode<B, P> {
        self.root
    }

    /// The deepest level a node may have.
    pub closed spec fn max_depth(self) -> nat {
        self.max_dept as nat
    }

    /// How many entities a leaf above the deepest level may hold.
    pub closed spec fn max_per_node(self) -> nat {
        self.max_per_node as nat
    }

    /// The region of space the tree covers.
    pub closed spec fn bounds(self) -> B {
        self.root.spec_bounds()
    }

    /// The root has the shape of a node at depth zero.
    pub closed spec fn wf(self) -> bool {
        self.root.wf(0, self.max_dept as nat, self.max_per_node as nat)
    }

    /// A consistent tree has a root of the shape of a node at depth zero.
    pub proof fn lemma_wf_root(self)
        requires
            self.wf(),
        ensures
            self.root_node().wf(0, self.max_depth(), self.max_per_node()),
    {
    }

    /// An empty tree over the region `bounds`.
    pub fn new(bounds: B, max_depth: u32, max_per_node: usize) -> (t: Self)
        ensures
            t.wf(),
            t.contents() == Multiset::<Entity>::empty(),
            t.pairs() == Multiset::<(Entity, P)>::empty(),
            t.bounds() == bounds,
            t.root_node().is_leaf(),
            t.max_depth() == max_depth,
            t.max_per_node() == max_per_node,
    {
        Self { root: OctreeNode::new(bounds), max_dept: max_depth, max_per_node }
    }

    /// Places the entity at `pos`; `octant` names the child region of a node
    /// that a position falls in, `child_bounds` the region of each child.
    pub fn insert<F: Fn(&B, &P) -> usize, G: Fn(&B, usize) -> B>(
        &mut self,
        entity: Entity,
        pos: P,
        octant: &F,
        child_bounds: &G,
    )
        where P: Copy,
        requires
            old(self).wf(),
            old(self).root_node().placed(octant, child_bounds),
            octant_in_range(octant),
            forall|b: &B, i: usize| #[trigger] child_bounds.requires((b, i)),
        ensures
            final(self).wf(),
            final(self).root_node().placed(octant, child_bounds),
            final(self).contents() == old(self).contents().insert(entity),
            final(self).pairs() == old(self).pairs().insert((entity, pos)),
            final(self).bounds() == old(self).bounds(),
            final(self).max_depth() == old(self).max_depth(),
            final(self).max_per_node() == old(self).max_per_node(),
            final(self).root_node().is_leaf() == (old(self).max_depth() == 0 || (old(self).root_node().is_leaf()
                && old(self).root_node().own_entries().len() < old(self).max_per_node())),
            final(self).root_node().is_leaf() ==> final(self).root_node().own_entries() == old(self).root_node().own_entries().push(
                (entity, pos),
            ),
    {
        self.root.insert(entity, pos, 0, self.max_dept, self.max_per_node, octant, child_bounds);
    }
}

} // verus!
