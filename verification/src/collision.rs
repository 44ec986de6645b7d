use vstd::prelude::*;
use crate::entity::Entity;
use crate::resources::CollisionEvent;
use crate::octree::{
    OctreeNode, octant_in_range, always_callable, seq_bag, lemma_bag_has, lemma_seq_bag_has, lemma_seq_bag_unique,
    law_query_finds_points_in_region,
};

verus! {

broadcast use crate::entity::Entity::lemma_id_determines;

/// A collider of the world: its entity, its shape placed in space, and
/// whether it only triggers.
pub struct Collider<S> {
    pub entity: Entity,
    pub shape: S,
    pub is_trigger: bool,
}

/// Whether `j` is the first collider of its entity.
pub open spec fn is_first<S>(cs: Seq<Collider<S>>, j: int) -> bool {
    &&& 0 <= j < cs.len()
    &&& forall|k: int| 0 <= k < j ==> (#[trigger] cs[k]).entity != cs[j].entity
}

/// The event of colliders `i` and `j` touching.
pub open spec fn event_of<S>(cs: Seq<Collider<S>>, i: int, j: int) -> CollisionEvent {
    CollisionEvent {
        entity_a: cs[i].entity,
        entity_b: cs[j].entity,
        is_trigger: cs[i].is_trigger || cs[j].is_trigger,
    }
}

/// Whether the shape test can only say yes for `a` and `b`.
pub open spec fn surely_touch<S, F: Fn(&S, &S) -> bool>(touching: &F, a: S, b: S) -> bool {
    forall|r: bool| #[trigger] touching.ensures((&a, &b), r) ==> r
}

/// Whether the pair `(i, j)` is one the narrow phase reports: `j` is the
/// first collider of an entity that the broad phase proposed for `i`, with a
/// larger id, and the shape test said yes.
pub open spec fn reported<S, F: Fn(&S, &S) -> bool>(
    cs: Seq<Collider<S>>,
    candidates: Seq<Vec<Entity>>,
    touching: &F,
    i: int,
    j: int,
) -> bool {
    &&& 0 <= i < cs.len()
    &&& is_first(cs, j)
    &&& candidates[i]@.contains(cs[j].entity)
    &&& cs[i].entity.spec_id() < cs[j].entity.spec_id()
    &&& touching.ensures((&cs[i].shape, &cs[j].shape), true)
}

/// No two colliders have the same entity, and no candidate list names an
/// entity twice.
pub open spec fn distinct_inputs<S>(cs: Seq<Collider<S>>, candidates: Seq<Vec<Entity>>) -> bool {
    &&& forall|a: int, b: int| 0 <= a < cs.len() && 0 <= b < cs.len() && a != b ==> (#[trigger] cs[a]).entity != (#[trigger] cs[b]).entity
    &&& forall|i: int| 0 <= i < candidates.len() ==> (#[trigger] candidates[i])@.no_duplicates()
}

/// Whether the first party of `ev` is the entity of one of the first `n` colliders.
pub open spec fn first_party_among<S>(cs: Seq<Collider<S>>, ev: CollisionEvent, n: int) -> bool {
    exists|x: int| 0 <= x < n && ev.entity_a == (#[trigger] cs[x]).entity
}

/// Whether `ev` is the event of a pair that the narrow phase reports.
pub open spec fn is_reported_event<S, F: Fn(&S, &S) -> bool>(
    cs: Seq<Collider<S>>,
    candidates: Seq<Vec<Entity>>,
    touching: &F,
    ev: CollisionEvent,
) -> bool {
    exists|i: int, j: int| reported(cs, candidates, touching, i, j) && ev == event_of(cs, i, j)
}

/// The first collider of the entity `e`.
pub open spec fn first_of<S>(cs: Seq<Collider<S>>, e: Entity) -> int {
    choose|j: int| is_first(cs, j) && cs[j].entity == e
}

/// Whether the narrow phase tests collider `i` against the entity `b`: `b`
/// has a larger id and a collider.
pub open spec fn tested<S>(cs: Seq<Collider<S>>, i: int, b: Entity) -> bool {
    &&& cs[i].entity.spec_id() < b.spec_id()
    &&& exists|j: int| 0 <= j < cs.len() && #[trigger] cs[j].entity == b
}

/// Whether `hits` are outcomes of the shape test that the narrow phase may
/// have met: one per candidate, true only for a tested pair, and for a
/// tested pair one that the test can give for the two shapes.
pub open spec fn outcomes_fit<S, F: Fn(&S, &S) -> bool>(
    cs: Seq<Collider<S>>,
    candidates: Seq<Vec<Entity>>,
    touching: &F,
    hits: Seq<Seq<bool>>,
) -> bool {
    &&& hits.len() == cs.len()
    &&& forall|i: int| 0 <= i < cs.len() ==> (#[trigger] hits[i]).len() == candidates[i]@.len()
    &&& forall|i: int, t: int|
        0 <= i < cs.len() && 0 <= t < candidates[i]@.len() ==> row_fits(cs, i, candidates[i]@[t], #[trigger] hits[i][t], touching)
}

/// Whether `hit` is an outcome of the shape test for collider `i` and the
/// candidate `b` that the narrow phase may have met.
pub open spec fn row_fits<S, F: Fn(&S, &S) -> bool>(cs: Seq<Collider<S>>, i: int, b: Entity, hit: bool, touching: &F) -> bool {
    &&& hit ==> tested(cs, i, b)
    &&& tested(cs, i, b) ==> touching.ensures((&cs[i].shape, &cs[first_of(cs, b)].shape), hit)
}

/// The events of collider `i` against the first `t` entities of `row`, given
/// the outcomes `hits` of the shape test: in the order of `row`.
pub open spec fn row_events<S>(cs: Seq<Collider<S>>, i: int, row: Seq<Entity>, hits: Seq<bool>, t: nat) -> Seq<CollisionEvent>
    decreases t,
{
    if t == 0 {
        Seq::empty()
    } else {
        let prev = row_events(cs, i, row, hits, (t - 1) as nat);
        let b = row[t - 1];
        if hits[t - 1] {
            prev.push(
                CollisionEvent {
                    entity_a: cs[i].entity,
                    entity_b: b,
                    is_trigger: cs[i].is_trigger || cs[first_of(cs, b)].is_trigger,
                },
            )
        } else {
            prev
        }
    }
}

/// The events of the first `n` colliders, given the outcomes `hits` of the
/// shape test: collider by collider, each in the order of its candidates.
pub open spec fn all_events<S>(cs: Seq<Collider<S>>, candidates: Seq<Vec<Entity>>, hits: Seq<Seq<bool>>, n: nat) -> Seq<CollisionEvent>
    decreases n,
{
    if n == 0 {
        Seq::empty()
    } else {
        all_events(cs, candidates, hits, (n - 1) as nat) + row_events(
            cs,
            n - 1,
            candidates[n - 1]@,
            hits[n - 1],
            candidates[n - 1]@.len(),
        )
    }
}

proof fn lemma_first_of<S>(cs: Seq<Collider<S>>, j: int)
    requires
        is_first(cs, j),
    ensures
        first_of(cs, cs[j].entity) == j,
{
    let e = cs[j].entity;
    let k = first_of(cs, e);
    assert(is_first(cs, k) && cs[k].entity == e);
    if k < j {
        assert(cs[k].entity != cs[j].entity);
    } else if j < k {
        assert(cs[j].entity != cs[k].entity);
    }
}

proof fn lemma_row_events_prefix<S>(cs: Seq<Collider<S>>, i: int, row: Seq<Entity>, h1: Seq<bool>, h2: Seq<bool>, t: nat)
    requires
        t <= h1.len(),
        t <= h2.len(),
        forall|k: int| 0 <= k < t ==> h1[k] == h2[k],
    ensures
        row_events(cs, i, row, h1, t) == row_events(cs, i, row, h2, t),
    decreases t,
{
    if t > 0 {
        lemma_row_events_prefix(cs, i, row, h1, h2, (t - 1) as nat);
    }
}

proof fn lemma_all_events_prefix<S>(
    cs: Seq<Collider<S>>,
    candidates: Seq<Vec<Entity>>,
    h1: Seq<Seq<bool>>,
    h2: Seq<Seq<bool>>,
    n: nat,
)
    requires
        n <= h1.len(),
        n <= h2.len(),
        forall|k: int| 0 <= k < n ==> h1[k] == h2[k],
    ensures
        all_events(cs, candidates, h1, n) == all_events(cs, candidates, h2, n),
    decreases n,
{
    if n > 0 {
        lemma_all_events_prefix(cs, candidates, h1, h2, (n - 1) as nat);
    }
}

/// The first collider of `e`, if it has one.
fn find_first<S>(colliders: &[Collider<S>], e: Entity) -> (r: Option<usize>)
    ensures
        match r {
            Some(j) => is_first(colliders@, j as int) && colliders@[j as int].entity == e,
            None => forall|k: int| 0 <= k < colliders@.len() ==> (#[trigger] colliders@[k]).entity != e,
        },
{
    let mut j: usize = 0;
    while j < colliders.len()
        invariant
            j <= colliders@.len(),
            forall|k: int| 0 <= k < j ==> (#[trigger] colliders@[k]).entity != e,
        decreases colliders@.len() - j,
    {
        if colliders[j].entity.id() == e.id() {
            return Some(j);
        }
        j = j + 1;
    }
    None
}

/// The narrow phase of collision detection. For each collider `a`, in order,
/// and each entity `b` that the broad phase proposed for it (`candidates`,
/// one list per collider), in order: pairs where `b` does not have a larger
/// id than `a` are skipped, so that each pair is tested once and never with
/// itself; otherwise the first collider of `b` is tested against `a` with
/// `touching`, and a touching pair is reported, as a trigger event if either
/// collider is a trigger.
pub fn find_collisions<S, F: Fn(&S, &S) -> bool>(
    colliders: &[Collider<S>],
    candidates: &[Vec<Entity>],
    touching: &F,
) -> (events: Vec<CollisionEvent>)
    requires
        candidates@.len() == colliders@.len(),
        forall|a: &S, b: &S| #[trigger] touching.requires((a, b)),
    ensures
        forall|k: int| 0 <= k < events@.len() ==> is_reported_event(colliders@, candidates@, touching, #[trigger] events@[k]),
        forall|i: int, j: int|
            0 <= i < colliders@.len() && is_first(colliders@, j) && candidates@[i]@.contains(colliders@[j].entity)
                && colliders@[i].entity.spec_id() < colliders@[j].entity.spec_id() && surely_touch(
                touching,
                colliders@[i].shape,
                colliders@[j].shape,
            ) ==> events@.contains(event_of(colliders@, i, j)),
        distinct_inputs(colliders@, candidates@) ==> events@.no_duplicates(),
        exists|hits: Seq<Seq<bool>>|
            outcomes_fit(colliders@, candidates@, touching, hits) && events@ == all_events(
                colliders@,
                candidates@,
                hits,
                colliders@.len() as nat,
            ),
{
    let mut events: Vec<CollisionEvent> = Vec::new();
    let ghost mut hits: Seq<Seq<bool>> = Seq::empty();
    let mut i: usize = 0;
    while i < colliders.len()
        invariant
            i <= colliders@.len(),
            candidates@.len() == colliders@.len(),
            forall|a: &S, b: &S| #[trigger] touching.requires((a, b)),
            forall|k: int| 0 <= k < events@.len() ==> is_reported_event(colliders@, candidates@, touching, #[trigger] events@[k]),
            forall|i2: int, j: int|
                0 <= i2 < i && is_first(colliders@, j) && candidates@[i2]@.contains(colliders@[j].entity)
                    && colliders@[i2].entity.spec_id() < colliders@[j].entity.spec_id() && surely_touch(
                    touching,
                    colliders@[i2].shape,
                    colliders@[j].shape,
                ) ==> events@.contains(event_of(colliders@, i2, j)),
            distinct_inputs(colliders@, candidates@) ==> events@.no_duplicates(),
            forall|k: int| 0 <= k < events@.len() ==> first_party_among(colliders@, #[trigger] events@[k], i as int),
            hits.len() == i,
            forall|i2: int| 0 <= i2 < i ==> (#[trigger] hits[i2]).len() == candidates@[i2]@.len(),
            forall|i2: int, t: int|
                0 <= i2 < i && 0 <= t < candidates@[i2]@.len() ==> row_fits(
                    colliders@,
                    i2,
                    candidates@[i2]@[t],
                    #[trigger] hits[i2][t],
                    touching,
                ),
            events@ == all_events(colliders@, candidates@, hits, i as nat),
        decreases colliders@.len() - i,
    {
        let a = &colliders[i];
        let cands = &candidates[i];
        let ghost n0 = events@.len();
        let ghost mut row: Seq<bool> = Seq::empty();
        let mut t: usize = 0;
        while t < cands.len()
            invariant
                i < colliders@.len(),
                t <= cands@.len(),
                *a == colliders@[i as int],
                *cands == candidates@[i as int],
                candidates@.len() == colliders@.len(),
                forall|a: &S, b: &S| #[trigger] touching.requires((a, b)),
                forall|k: int| 0 <= k < events@.len() ==> is_reported_event(colliders@, candidates@, touching, #[trigger] events@[k]),
                forall|i2: int, j: int|
                    0 <= i2 < i && is_first(colliders@, j) && candidates@[i2]@.contains(colliders@[j].entity)
                        && colliders@[i2].entity.spec_id() < colliders@[j].entity.spec_id() && surely_touch(
                        touching,
                        colliders@[i2].shape,
                        colliders@[j].shape,
                    ) ==> events@.contains(event_of(colliders@, i2, j)),
                forall|j: int|
                    is_first(colliders@, j) && cands@.take(t as int).contains(colliders@[j].entity)
                        && a.entity.spec_id() < colliders@[j].entity.spec_id() && surely_touch(
                        touching,
                        a.shape,
                        colliders@[j].shape,
                    ) ==> events@.contains(event_of(colliders@, i as int, j)),
                n0 <= events@.len(),
                distinct_inputs(colliders@, candidates@) ==> events@.no_duplicates(),
                forall|k: int| 0 <= k < n0 ==> first_party_among(colliders@, #[trigger] events@[k], i as int),
                forall|k: int|
                    n0 <= k < events@.len() ==> (#[trigger] events@[k]).entity_a == a.entity && cands@.take(
                        t as int,
                    ).contains(events@[k].entity_b),
                hits.len() == i,
                forall|i2: int| 0 <= i2 < i ==> (#[trigger] hits[i2]).len() == candidates@[i2]@.len(),
                forall|i2: int, t2: int|
                    0 <= i2 < i && 0 <= t2 < candidates@[i2]@.len() ==> row_fits(
                        colliders@,
                        i2,
                        candidates@[i2]@[t2],
                        #[trigger] hits[i2][t2],
                        touching,
                    ),
                row.len() == t,
                forall|t2: int| 0 <= t2 < t ==> row_fits(colliders@, i as int, cands@[t2], #[trigger] row[t2], touching),
                events@ == all_events(colliders@, candidates@, hits, i as nat) + row_events(
                    colliders@,
                    i as int,
                    cands@,
                    row,
                    t as nat,
                ),
            decreases cands@.len() - t,
        {
            let b = cands[t];
            let ghost before = events@;
            let ghost mut hit = false;
            if b.id() > a.entity.id() {
                match find_first(colliders, b) {
                    Some(j) => {
                        let other = &colliders[j];
                        let r = touching(&a.shape, &other.shape);
                        proof {
                            hit = r;
                            lemma_first_of(colliders@, j as int);
                        }
                        if r {
                            events.push(
                                CollisionEvent {
                                    entity_a: a.entity,
                                    entity_b: b,
                                    is_trigger: a.is_trigger || other.is_trigger,
                                },
                            );
                            proof {
                                assert(cands@.contains(b)) by {
                                    assert(cands@[t as int] == b);
                                }
                                assert(reported(colliders@, candidates@, touching, i as int, j as int));
                                assert(events@[before.len() as int] == event_of(colliders@, i as int, j as int));
                                assert(is_reported_event(colliders@, candidates@, touching, events@[before.len() as int]));
                            }
                        }
                    },
                    None => {},
                }
            }
            proof {
                let base = all_events(colliders@, candidates@, hits, i as nat);
                let row1 = row.push(hit);
                lemma_row_events_prefix(colliders@, i as int, cands@, row1, row, t as nat);
                assert(row_fits(colliders@, i as int, cands@[t as int], hit, touching));
                if hit {
                    assert(events@ =~= base + row_events(colliders@, i as int, cands@, row1, (t + 1) as nat));
                } else {
                    assert(events@ =~= base + row_events(colliders@, i as int, cands@, row1, (t + 1) as nat));
                }
                row = row1;
                assert forall|t2: int| 0 <= t2 < t + 1 implies row_fits(colliders@, i as int, cands@[t2], #[trigger] row[t2], touching) by {
                    if t2 < t {
                        assert(row[t2] == row1[t2]);
                    }
                }
                assert forall|k: int| 0 <= k < before.len() implies events@[k] == before[k] by {}
                assert(cands@.take(t + 1).drop_last() =~= cands@.take(t as int));
                assert(cands@.take(t + 1).last() == b);
                assert forall|k: int| n0 <= k < events@.len() implies (#[trigger] events@[k]).entity_a == a.entity
                    && cands@.take(t + 1).contains(events@[k].entity_b) by {
                    if k < before.len() {
                        let w = choose|w: int| 0 <= w < t && cands@.take(t as int)[w] == events@[k].entity_b;
                        assert(cands@.take(t + 1)[w] == events@[k].entity_b);
                    } else {
                        assert(cands@.take(t + 1)[t as int] == events@[k].entity_b);
                    }
                }
                if distinct_inputs(colliders@, candidates@) && events@.len() > before.len() {
                    let last = events@[before.len() as int];
                    assert forall|k: int| 0 <= k < before.len() implies events@[k] != last by {
                        if k < n0 {
                            assert(first_party_among(colliders@, events@[k], i as int));
                            let x = choose|x: int| 0 <= x < i && events@[k].entity_a == (#[trigger] colliders@[x]).entity;
                            assert(colliders@[x].entity != colliders@[i as int].entity);
                        } else {
                            assert(cands@.take(t as int).contains(events@[k].entity_b));
                            let w = choose|w: int| 0 <= w < t && cands@.take(t as int)[w] == events@[k].entity_b;
                            assert(cands@[w] == events@[k].entity_b);
                            assert(candidates@[i as int]@.no_duplicates());
                            assert(cands@[t as int] == b);
                        }
                    }
                    assert forall|p: int, q: int| 0 <= p < events@.len() && 0 <= q < events@.len() && p != q
                        implies events@[p] != events@[q] by {
                        if p < before.len() && q < before.len() {
                            assert(before[p] != before[q]);
                        }
                    }
                }
                assert forall|j: int|
                    is_first(colliders@, j) && cands@.take(t + 1).contains(colliders@[j].entity)
                        && a.entity.spec_id() < colliders@[j].entity.spec_id() && surely_touch(
                        touching,
                        a.shape,
                        colliders@[j].shape,
                    ) implies events@.contains(event_of(colliders@, i as int, j)) by {
                    let pre = cands@.take(t + 1);
                    let x = choose|x: int| 0 <= x < pre.len() && #[trigger] pre[x] == colliders@[j].entity;
                    if x < t {
                        assert(cands@.take(t as int)[x] == colliders@[j].entity);
                        assert(cands@.take(t as int).contains(colliders@[j].entity));
                        let y = choose|y: int| 0 <= y < before.len() && #[trigger] before[y] == event_of(colliders@, i as int, j);
                        assert(events@[y] == before[y]);
                    } else {
                        assert(b == colliders@[j].entity);
                        assert(events@[before.len() as int] == event_of(colliders@, i as int, j));
                    }
                }
                assert forall|i2: int, j: int|
                    0 <= i2 < i && is_first(colliders@, j) && candidates@[i2]@.contains(colliders@[j].entity)
                        && colliders@[i2].entity.spec_id() < colliders@[j].entity.spec_id() && surely_touch(
                        touching,
                        colliders@[i2].shape,
                        colliders@[j].shape,
                    ) implies events@.contains(event_of(colliders@, i2, j)) by {
                    let y = choose|y: int| 0 <= y < before.len() && #[trigger] before[y] == event_of(colliders@, i2, j);
                    assert(events@[y] == before[y]);
                }
            }
            t = t + 1;
        }
        proof {
            let h1 = hits.push(row);
            lemma_all_events_prefix(colliders@, candidates@, h1, hits, i as nat);
            assert(h1[i as int] == row);
            assert(events@ == all_events(colliders@, candidates@, h1, (i + 1) as nat));
            hits = h1;
            assert forall|i2: int| 0 <= i2 < i + 1 implies (#[trigger] hits[i2]).len() == candidates@[i2]@.len() by {}
            assert forall|i2: int, t2: int|
                0 <= i2 < i + 1 && 0 <= t2 < candidates@[i2]@.len() implies row_fits(
                    colliders@,
                    i2,
                    candidates@[i2]@[t2],
                    #[trigger] hits[i2][t2],
                    touching,
                ) by {}
            assert(cands@.take(t as int) =~= cands@);
            assert forall|k: int| 0 <= k < events@.len() implies first_party_among(colliders@, #[trigger] events@[k], i + 1) by {
                if k >= n0 {
                    assert(events@[k].entity_a == colliders@[i as int].entity);
                } else {
                    assert(first_party_among(colliders@, events@[k], i as int));
                }
            }
        }
        i = i + 1;
    }
    assert(outcomes_fit(colliders@, candidates@, touching, hits));
    events
}

/// Whether `ev` is the event of a touching pair: collider `i` and the first
/// collider `j` of an entity with a larger id, for which the shape test said yes.
pub open spec fn is_touching_event<S, F: Fn(&S, &S) -> bool>(cs: Seq<Collider<S>>, touching: &F, ev: CollisionEvent) -> bool {
    exists|i: int, j: int|
        #![trigger event_of(cs, i, j)]
        0 <= i < cs.len() && is_first(cs, j) && cs[i].entity.spec_id() < cs[j].entity.spec_id() && touching.ensures(
            (&cs[i].shape, &cs[j].shape),
            true,
        ) && ev == event_of(cs, i, j)
}

/// Whether the region test surely accepts the tree's region `bounds`
/// against any region that `region` can give for collider `i`.
pub open spec fn root_accepts<S, B, R: Fn(&S) -> B, H: Fn(&B, &B) -> bool>(
    cs: Seq<Collider<S>>,
    i: int,
    bounds: B,
    region: &R,
    intersects: &H,
) -> bool {
    forall|q: B, r: bool| #[trigger] region.ensures((&cs[i].shape,), q) && #[trigger] intersects.ensures((&bounds, &q), r) ==> r
}

/// Whether no two colliders belong to one entity.
pub open spec fn distinct_entities<S>(cs: Seq<Collider<S>>) -> bool {
    forall|a: int, b: int| 0 <= a < b < cs.len() ==> (#[trigger] cs[a]).entity != (#[trigger] cs[b]).entity
}

/// Whether `inside(p, b)`, read as "the point `p` lies in the region `b`",
/// fits the tree's geometry: a child region holds every point of its
/// parent's region that `octant` sends to it, and the region test surely
/// accepts two regions that share a point.
pub open spec fn geometry_fits<B, P, F: Fn(&B, &P) -> usize, G: Fn(&B, usize) -> B, H: Fn(&B, &B) -> bool>(
    inside: spec_fn(P, B) -> bool,
    octant: &F,
    child_bounds: &G,
    intersects: &H,
) -> bool {
    &&& forall|b: B, p: P, i: usize, c: B|
        inside(p, b) && #[trigger] octant.ensures((&b, &p), i) && #[trigger] child_bounds.ensures((&b, i), c)
            ==> inside(p, c)
    &&& forall|q: B, b: B, p: P|
        #![trigger inside(p, b), inside(p, q)]
        inside(p, b) && inside(p, q) ==> (forall|r: bool| #[trigger] intersects.ensures((&b, &q), r) ==> r)
}

/// Whether every position that `position` can give for collider `j` lies in
/// the tree's region `bounds` and in every region that `region` can give for
/// collider `i`.
pub open spec fn lies_in_region<S, B, P, FP: Fn(&S) -> P, FR: Fn(&S) -> B>(
    cs: Seq<Collider<S>>,
    i: int,
    j: int,
    bounds: B,
    position: &FP,
    region: &FR,
    inside: spec_fn(P, B) -> bool,
) -> bool {
    forall|p: P, q: B|
        #[trigger] position.ensures((&cs[j].shape,), p) && #[trigger] region.ensures((&cs[i].shape,), q) ==> inside(
            p,
            bounds,
        ) && inside(p, q)
}

/// The collision step: places the position of each collider in a new octree
/// over `bounds` (with `max_depth` levels and `max_per_node` entities a
/// leaf), asks the tree for the candidates of the region of each collider,
/// and pairs them with [`find_collisions`]. Every event is that of a touching
/// pair, and no event comes twice when no two colliders share an entity.
/// No pair whose shapes surely touch is missed when the position of the
/// second lies in the tree's region and in the region of the first, for any
/// reading of "lies in" that fits the tree's geometry; while the tree is a
/// single leaf (no more colliders than a leaf holds, or no level below the
/// root) it is enough that the root region surely meets the region of the
/// first.
pub fn detect_collisions<
    B,
    P: Copy,
    S,
    FP: Fn(&S) -> P,
    FR: Fn(&S) -> B,
    F: Fn(&B, &P) -> usize,
    G: Fn(&B, usize) -> B,
    H: Fn(&B, &B) -> bool,
    T: Fn(&S, &S) -> bool,
>(
    colliders: &[Collider<S>],
    bounds: B,
    max_depth: u32,
    max_per_node: usize,
    position: &FP,
    region: &FR,
    octant: &F,
    child_bounds: &G,
    intersects: &H,
    touching: &T,
) -> (events: Vec<CollisionEvent>)
    requires
        forall|s: &S| #[trigger] position.requires((s,)),
        forall|s: &S| #[trigger] region.requires((s,)),
        octant_in_range(octant),
        forall|b: &B, i: usize| #[trigger] child_bounds.requires((b, i)),
        always_callable(intersects),
        forall|a: &S, b: &S| #[trigger] touching.requires((a, b)),
    ensures
        forall|k: int| 0 <= k < events@.len() ==> is_touching_event(colliders@, touching, #[trigger] events@[k]),
        distinct_entities(colliders@) ==> events@.no_duplicates(),
        forall|inside: spec_fn(P, B) -> bool| #[trigger]
            geometry_fits(inside, octant, child_bounds, intersects) ==> forall|i: int, j: int|
                0 <= i < colliders@.len() && is_first(colliders@, j) && colliders@[i].entity.spec_id()
                    < colliders@[j].entity.spec_id() && surely_touch(touching, colliders@[i].shape, colliders@[j].shape)
                    && lies_in_region(colliders@, i, j, bounds, position, region, inside) ==> events@.contains(
                    event_of(colliders@, i, j),
                ),
        colliders@.len() <= max_per_node || max_depth == 0 ==> forall|i: int, j: int|
            0 <= i < colliders@.len() && is_first(colliders@, j) && colliders@[i].entity.spec_id()
                < colliders@[j].entity.spec_id() && surely_touch(touching, colliders@[i].shape, colliders@[j].shape)
                && root_accepts(colliders@, i, bounds, region, intersects) ==> events@.contains(
                event_of(colliders@, i, j),
            ),
{
    let ghost cs = colliders@;
    let ghost small = cs.len() <= max_per_node || max_depth == 0;
    let ghost ents = Seq::new(cs.len(), |m: int| cs[m].entity);
    let ghost distinct = distinct_entities(cs);
    let ghost mut ps: Seq<P> = Seq::empty();
    let mut root: OctreeNode<B, P> = OctreeNode::new(bounds);
    proof {
        root.lemma_leaf_placed(octant, child_bounds);
        assert(ents.take(0) =~= Seq::<Entity>::empty());
    }
    let mut k: usize = 0;
    while k < colliders.len()
        invariant
            cs == colliders@,
            small == (cs.len() <= max_per_node || max_depth == 0),
            ents == Seq::new(cs.len(), |m: int| cs[m].entity),
            k <= cs.len(),
            forall|s: &S| #[trigger] position.requires((s,)),
            octant_in_range(octant),
            forall|b: &B, i: usize| #[trigger] child_bounds.requires((b, i)),
            root.wf(0, max_depth as nat, max_per_node as nat),
            root.placed(octant, child_bounds),
            root.spec_bounds() == bounds,
            small ==> root.is_leaf() && root.own_entries().len() == k,
            small ==> forall|m: int| 0 <= m < k ==> (#[trigger] root.own_entries()[m]).0 == cs[m].entity,
            root.contents() == seq_bag(ents.take(k as int)),
            ps.len() == k,
            forall|m: int| 0 <= m < k ==> position.ensures((&cs[m].shape,), #[trigger] ps[m]),
            forall|m: int| 0 <= m < k ==> root.pairs().count((cs[m].entity, #[trigger] ps[m])) > 0,
        decreases cs.len() - k,
    {
        let p = position(&colliders[k].shape);
        let ghost before = root;
        root.insert(colliders[k].entity, p, 0, max_depth, max_per_node, octant, child_bounds);
        proof {
            if small {
                assert(root.own_entries() == before.own_entries().push((colliders[k as int].entity, p)));
                assert forall|m: int| 0 <= m < k + 1 implies (#[trigger] root.own_entries()[m]).0 == cs[m].entity by {
                    if m < k {
                        assert(root.own_entries()[m] == before.own_entries()[m]);
                    }
                }
            }
            assert(ents.take(k + 1).drop_last() =~= ents.take(k as int));
            assert(ents.take(k + 1).last() == cs[k as int].entity);
            ps = ps.push(p);
            assert forall|m: int| 0 <= m < k + 1 implies position.ensures((&cs[m].shape,), #[trigger] ps[m]) by {
                if m < k {
                    assert(ps[m] == ps.drop_last()[m]);
                }
            }
            assert forall|m: int| 0 <= m < k + 1 implies root.pairs().count((cs[m].entity, #[trigger] ps[m])) > 0 by {
                if m < k {
                    assert(ps[m] == ps.drop_last()[m]);
                    assert(before.pairs().count((cs[m].entity, ps[m])) > 0);
                }
            }
        }
        k = k + 1;
    }
    proof {
        assert(ents.take(k as int) =~= ents);
        if distinct {
            assert forall|a: int, b: int| 0 <= a < ents.len() && 0 <= b < ents.len() && a != b implies ents[a] != ents[b] by {
                if a < b {
                    assert(cs[a].entity != cs[b].entity);
                } else {
                    assert(cs[b].entity != cs[a].entity);
                }
            }
            lemma_seq_bag_unique(ents);
        }
    }
    let mut candidates: Vec<Vec<Entity>> = Vec::new();
    let ghost mut qs: Seq<B> = Seq::empty();
    let mut i: usize = 0;
    while i < colliders.len()
        invariant
            cs == colliders@,
            small == (cs.len() <= max_per_node || max_depth == 0),
            distinct == distinct_entities(cs),
            i <= cs.len(),
            candidates@.len() == i,
            qs.len() == i,
            forall|s: &S| #[trigger] region.requires((s,)),
            always_callable(intersects),
            root.spec_bounds() == bounds,
            small ==> root.is_leaf() && root.own_entries().len() == cs.len(),
            small ==> forall|m: int| 0 <= m < cs.len() ==> (#[trigger] root.own_entries()[m]).0 == cs[m].entity,
            distinct ==> forall|x: Entity| #[trigger] root.contents().count(x) <= 1,
            forall|i2: int| 0 <= i2 < i ==> region.ensures((&cs[i2].shape,), #[trigger] qs[i2]),
            forall|i2: int|
                0 <= i2 < i ==> root.hit_contents(#[trigger] qs[i2], intersects).subset_of(seq_bag(candidates@[i2]@)),
            distinct ==> forall|i2: int| 0 <= i2 < i ==> (#[trigger] candidates@[i2])@.no_duplicates(),
            forall|i2: int, j: int|
                0 <= i2 < i && 0 <= j < cs.len() && small && root_accepts(cs, i2, bounds, region, intersects)
                    ==> (#[trigger] candidates@[i2])@.contains(#[trigger] cs[j].entity),
        decreases cs.len() - i,
    {
        let q = region(&colliders[i].shape);
        let mut out: Vec<Entity> = Vec::new();
        root.query(&q, &mut out, intersects);
        proof {
            assert(out@.skip(0) =~= out@);
            if small && root_accepts(cs, i as int, bounds, region, intersects) {
                assert forall|r: bool| #[trigger] intersects.ensures((&root.spec_bounds(), &q), r) implies r by {
                    assert(region.ensures((&cs[i as int].shape,), q));
                }
                root.lemma_leaf_hits(q, intersects);
                assert forall|j: int| 0 <= j < cs.len() implies out@.contains(#[trigger] cs[j].entity) by {
                    lemma_bag_has(root.own_entries(), j);
                    assert(root.own_entries()[j].0 == cs[j].entity);
                    assert(seq_bag(out@).count(cs[j].entity) > 0);
                    lemma_seq_bag_has(out@, cs[j].entity);
                }
            }
            if distinct {
                assert forall|x: Entity| #[trigger] seq_bag(out@).count(x) <= 1 by {
                    assert(root.contents().count(x) <= 1);
                }
                lemma_seq_bag_unique(out@);
            }
        }
        candidates.push(out);
        proof {
            qs = qs.push(q);
            assert(candidates@[i as int] == out);
            assert forall|i2: int| 0 <= i2 < i + 1 implies region.ensures((&cs[i2].shape,), #[trigger] qs[i2]) by {
                if i2 < i {
                    assert(qs[i2] == qs.drop_last()[i2]);
                }
            }
            assert forall|i2: int| 0 <= i2 < i + 1 implies root.hit_contents(#[trigger] qs[i2], intersects).subset_of(
                seq_bag(candidates@[i2]@),
            ) by {
                if i2 < i {
                    assert(qs[i2] == qs.drop_last()[i2]);
                }
            }
            assert forall|i2: int, j: int|
                0 <= i2 < i + 1 && 0 <= j < cs.len() && small && root_accepts(cs, i2, bounds, region, intersects)
                    implies (#[trigger] candidates@[i2])@.contains(#[trigger] cs[j].entity) by {
                if i2 == i {
                    assert(candidates@[i2] == out);
                }
            }
        }
        i = i + 1;
    }
    proof {
        if distinct {
            assert(distinct_inputs(colliders@, candidates@)) by {
                assert forall|a: int, b: int| 0 <= a < cs.len() && 0 <= b < cs.len() && a != b implies (
                #[trigger] cs[a]).entity != (#[trigger] cs[b]).entity by {
                    if b < a {
                        assert(cs[b].entity != cs[a].entity);
                    }
                }
            }
        }
    }
    let events = find_collisions(colliders, candidates.as_slice(), touching);
    proof {
        assert forall|k: int| 0 <= k < events@.len() implies is_touching_event(colliders@, touching, #[trigger] events@[k]) by {
            assert(is_reported_event(colliders@, candidates@, touching, events@[k]));
            let (i, j) = choose|i: int, j: int| reported(colliders@, candidates@, touching, i, j) && events@[k] == event_of(colliders@, i, j);
            assert(event_of(colliders@, i, j) == events@[k]);
        }
        assert forall|inside: spec_fn(P, B) -> bool| #[trigger]
            geometry_fits(inside, octant, child_bounds, intersects) implies forall|i: int, j: int|
                0 <= i < cs.len() && is_first(cs, j) && cs[i].entity.spec_id() < cs[j].entity.spec_id() && surely_touch(
                    touching,
                    cs[i].shape,
                    cs[j].shape,
                ) && lies_in_region(cs, i, j, bounds, position, region, inside) ==> events@.contains(event_of(cs, i, j)) by {
            assert forall|i: int, j: int|
                0 <= i < cs.len() && is_first(cs, j) && cs[i].entity.spec_id() < cs[j].entity.spec_id() && surely_touch(
                    touching,
                    cs[i].shape,
                    cs[j].shape,
                ) && lies_in_region(cs, i, j, bounds, position, region, inside) implies events@.contains(
                event_of(cs, i, j),
            ) by {
                let q = qs[i];
                let p = ps[j];
                assert(position.ensures((&cs[j].shape,), p));
                assert(region.ensures((&cs[i].shape,), q));
                assert(inside(p, bounds) && inside(p, q));
                assert(root.pairs().count((cs[j].entity, p)) > 0);
                law_query_finds_points_in_region(root, q, octant, child_bounds, intersects, inside, (cs[j].entity, p));
                assert(root.hit_contents(q, intersects).subset_of(seq_bag(candidates@[i]@)));
                assert(seq_bag(candidates@[i]@).count(cs[j].entity) > 0);
                lemma_seq_bag_has(candidates@[i]@, cs[j].entity);
            }
        }
    }
    events
}

} // verus!
