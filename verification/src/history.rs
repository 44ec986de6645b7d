use vstd::prelude::*;
use crate::entity::Entity;
use crate::world::{Component, World, without_entity};

verus! {

broadcast use crate::entity::Entity::lemma_id_determines, crate::entity::Entity::lemma_from_id;

/// A call on a world, as the laws over runs of calls see it.
pub enum WorldCall<T> {
    /// `spawn`.
    Spawn,
    /// `despawn` of the entity with this id.
    Despawn(u32),
    /// `add_component` of this kind, entity id and component.
    AddComponent(u64, u32, T),
    /// `remove_component` of this kind and entity id.
    RemoveComponent(u64, u32),
    /// A write through `get_component_mut` of this kind and entity id.
    ChangeComponent(u64, u32, T),
    /// Any other call: it leaves the entities and their components alone.
    Other,
}

/// Whether `after` is what `call` makes of `before`, as each call's contract
/// states it.
pub open spec fn follows<T: Component>(before: World<T>, call: WorldCall<T>, after: World<T>) -> bool {
    &&& before.wf()
    &&& after.wf()
    &&& match call {
        WorldCall::Spawn => {
            &&& before.spec_next_id() < u32::MAX
            &&& after.spec_next_id() == before.spec_next_id() + 1
            &&& after.spec_entities() == before.spec_entities().push(Entity::spec_from_id(before.spec_next_id()))
            &&& after.components() == before.components()
        },
        WorldCall::Despawn(id) => {
            &&& after.spec_next_id() == before.spec_next_id()
            &&& after.spec_entities() == before.spec_entities().filter(|e: Entity| e.spec_id() != id)
            &&& after.components() == without_entity(before.components(), id)
        },
        WorldCall::AddComponent(kind, id, c) => {
            &&& after.spec_next_id() == before.spec_next_id()
            &&& after.spec_entities() == before.spec_entities()
            &&& after.components() == before.components().insert((kind, id), c)
        },
        WorldCall::RemoveComponent(kind, id) => {
            &&& after.spec_next_id() == before.spec_next_id()
            &&& after.spec_entities() == before.spec_entities()
            &&& after.components() == before.components().remove((kind, id))
        },
        WorldCall::ChangeComponent(kind, id, c) => {
            &&& before.components().contains_key((kind, id))
            &&& after.spec_next_id() == before.spec_next_id()
            &&& after.spec_entities() == before.spec_entities()
            &&& after.components() == before.components().insert((kind, id), c)
        },
        WorldCall::Other => {
            &&& after.spec_next_id() == before.spec_next_id()
            &&& after.spec_entities() == before.spec_entities()
            &&& after.components() == before.components()
        },
    }
}

/// What `spawn` states of its result is a step of [`WorldCall::Spawn`].
pub proof fn lemma_spawn_follows<T: Component>(before: World<T>, after: World<T>, e: Entity)
    requires
        before.wf(),
        before.spec_next_id() < u32::MAX,
        after.wf(),
        e.spec_id() == before.spec_next_id(),
        after.spec_next_id() == before.spec_next_id() + 1,
        after.spec_entities() == before.spec_entities().push(e),
        after.components() == before.components(),
    ensures
        follows(before, WorldCall::Spawn, after),
{
    assert(Entity::spec_from_id(before.spec_next_id()).spec_id() == e.spec_id());
}

/// Whether `worlds` are the states of a run of `calls`: each world is what
/// the call before it made of the world before that.
pub open spec fn is_run<T: Component>(worlds: Seq<World<T>>, calls: Seq<WorldCall<T>>) -> bool {
    &&& worlds.len() == calls.len() + 1
    &&& forall|i: int| #![trigger calls[i]] 0 <= i < calls.len() ==> follows(worlds[i], calls[i], worlds[i + 1])
}

/// Whether the world is as `World::new` makes it.
pub open spec fn is_fresh<T: Component>(w: World<T>) -> bool {
    &&& w.wf()
    &&& w.spec_next_id() == 0
    &&& w.spec_entities() == Seq::<Entity>::empty()
    &&& w.components() == Map::<(u64, u32), T>::empty()
}

/// Whether the entity `id` was despawned in the run at a time it had
/// already been spawned.
pub open spec fn despawned<T: Component>(worlds: Seq<World<T>>, calls: Seq<WorldCall<T>>, id: u32) -> bool {
    exists|i: int|
        #![trigger calls[i]]
        0 <= i < calls.len() && calls[i] == WorldCall::<T>::Despawn(id) && id < worlds[i].spec_next_id()
}

/// Whether the call attaches a component of `kind` to the entity `id`.
pub open spec fn attaches<T>(call: WorldCall<T>, kind: u64, id: u32) -> bool {
    call matches WorldCall::AddComponent(k, i, _) && k == kind && i == id
}

/// Whether the call takes the component of `kind` of the entity `id` away.
pub open spec fn detaches<T>(call: WorldCall<T>, kind: u64, id: u32) -> bool {
    ||| call == WorldCall::<T>::RemoveComponent(kind, id)
    ||| call == WorldCall::<T>::Despawn(id)
}

/// Whether the call may change the component of `kind` of the entity `id`.
pub open spec fn touches<T>(call: WorldCall<T>, kind: u64, id: u32) -> bool {
    ||| attaches(call, kind, id)
    ||| detaches(call, kind, id)
    ||| call matches WorldCall::ChangeComponent(k, i, _) && k == kind && i == id
}

proof fn lemma_run_prefix<T: Component>(worlds: Seq<World<T>>, calls: Seq<WorldCall<T>>)
    requires
        is_run(worlds, calls),
        calls.len() > 0,
    ensures
        is_run(worlds.drop_last(), calls.drop_last()),
        follows(worlds[calls.len() - 1], calls.last(), worlds.last()),
{
    let n = calls.len() - 1;
    assert(follows(worlds[n], calls[n], worlds[n + 1]));
    assert forall|i: int| #![trigger calls.drop_last()[i]] 0 <= i < calls.drop_last().len() implies follows(
        worlds.drop_last()[i],
        calls.drop_last()[i],
        worlds.drop_last()[i + 1],
    ) by {
        assert(calls.drop_last()[i] == calls[i]);
        assert(follows(worlds[i], calls[i], worlds[i + 1]));
    }
}

proof fn lemma_next_id_grows<T: Component>(worlds: Seq<World<T>>, calls: Seq<WorldCall<T>>, i: int)
    requires
        is_run(worlds, calls),
        0 <= i < worlds.len(),
    ensures
        worlds[i].spec_next_id() <= worlds.last().spec_next_id(),
    decreases calls.len(),
{
    if i < calls.len() {
        lemma_run_prefix(worlds, calls);
        lemma_next_id_grows(worlds.drop_last(), calls.drop_last(), i);
        assert(worlds.drop_last()[i] == worlds[i]);
        assert(worlds.drop_last().last() == worlds[calls.len() - 1]);
    }
}

proof fn lemma_filter_keeps_order(s: Seq<Entity>, pred: spec_fn(Entity) -> bool)
    requires
        forall|i: int, j: int| 0 <= i < j < s.len() ==> s[i].spec_id() < s[j].spec_id(),
    ensures
        forall|i: int, j: int| 0 <= i < j < s.filter(pred).len() ==> s.filter(pred)[i].spec_id() < s.filter(pred)[j].spec_id(),
    decreases s.len(),
{
    broadcast use vstd::seq_lib::group_filter_ensures;

    reveal(Seq::filter);
    if s.len() > 0 {
        let d = s.drop_last();
        lemma_filter_keeps_order(d, pred);
        let f = d.filter(pred);
        assert forall|i: int| 0 <= i < f.len() implies #[trigger] f[i].spec_id() < s.last().spec_id() by {
            crate::world::lemma_filter_subset(d, pred);
            assert(d.contains(f[i]));
            let k = choose|k: int| 0 <= k < d.len() && d[k] == f[i];
            assert(s[k] == d[k]);
        }
        assert(s.filter(pred) == (if pred(s.last()) { f.push(s.last()) } else { f }));
    }
}

/// The live entities over any run of calls from a new world: they are listed
/// in the order they were spawned, each once, and they are exactly the
/// entities spawned so far and not despawned since.
pub proof fn law_live_entities<T: Component>(worlds: Seq<World<T>>, calls: Seq<WorldCall<T>>)
    requires
        is_run(worlds, calls),
        is_fresh(worlds[0]),
    ensures
        forall|i: int, j: int|
            0 <= i < j < worlds.last().spec_entities().len() ==> worlds.last().spec_entities()[i].spec_id()
                < worlds.last().spec_entities()[j].spec_id(),
        forall|id: u32| #[trigger]
            worlds.last().spec_entities().contains(Entity::spec_from_id(id)) <==> id < worlds.last().spec_next_id()
                && !despawned(worlds, calls, id),
    decreases calls.len(),
{
    broadcast use vstd::seq_lib::group_filter_ensures;

    if calls.len() == 0 {
        return;
    }
    lemma_run_prefix(worlds, calls);
    let pw = worlds.drop_last();
    let pc = calls.drop_last();
    law_live_entities(pw, pc);
    let n = pc.len() as int;
    let w0 = worlds[n];
    let w1 = worlds.last();
    assert(pw.last() == w0);
    assert(follows(w0, calls.last(), w1));
    assert forall|id: u32| despawned(worlds, calls, id) <==> despawned(pw, pc, id) || (calls[n]
        == WorldCall::<T>::Despawn(id) && id < w0.spec_next_id()) by {
        if despawned(worlds, calls, id) {
            let i = choose|i: int|
                #![trigger calls[i]]
                0 <= i < calls.len() && calls[i] == WorldCall::<T>::Despawn(id) && id < worlds[i].spec_next_id();
            if i < n {
                assert(pc[i] == calls[i]);
                assert(pw[i] == worlds[i]);
            }
        }
        if despawned(pw, pc, id) {
            let i = choose|i: int|
                #![trigger pc[i]]
                0 <= i < pc.len() && pc[i] == WorldCall::<T>::Despawn(id) && id < pw[i].spec_next_id();
            assert(calls[i] == pc[i]);
        }
    }
    assert forall|i: int| 0 <= i < w0.spec_entities().len() implies #[trigger] w0.spec_entities()[i].spec_id()
        < w0.spec_next_id() by {
        crate::world::lemma_live_ids_distinct(w0);
    }
    match calls.last() {
        WorldCall::Spawn => {
            let e = Entity::spec_from_id(w0.spec_next_id());
            let len0 = w0.spec_entities().len() as int;
            assert(w1.spec_entities()[len0] == e);
            assert forall|id: u32| #[trigger] w1.spec_entities().contains(Entity::spec_from_id(id)) <==> id
                < w1.spec_next_id() && !despawned(worlds, calls, id) by {
                let f = Entity::spec_from_id(id);
                if w0.spec_entities().contains(f) {
                    let k = choose|k: int| 0 <= k < len0 && w0.spec_entities()[k] == f;
                    assert(w1.spec_entities()[k] == w0.spec_entities()[k]);
                }
                if w1.spec_entities().contains(f) && id != w0.spec_next_id() {
                    let k = choose|k: int| 0 <= k < w1.spec_entities().len() && w1.spec_entities()[k] == f;
                    assert(f.spec_id() == id);
                    assert(e.spec_id() == w0.spec_next_id());
                    assert(k != len0);
                    assert(w0.spec_entities()[k] == f);
                }
                if id == w0.spec_next_id() && despawned(pw, pc, id) {
                    let i = choose|i: int|
                        #![trigger pc[i]]
                        0 <= i < pc.len() && pc[i] == WorldCall::<T>::Despawn(id) && id < pw[i].spec_next_id();
                    lemma_next_id_grows(pw, pc, i);
                }
            }
        },
        WorldCall::Despawn(x) => {
            let pred = |e: Entity| e.spec_id() != x;
            lemma_filter_keeps_order(w0.spec_entities(), pred);
            assert forall|id: u32| #[trigger] w1.spec_entities().contains(Entity::spec_from_id(id)) <==> id
                < w1.spec_next_id() && !despawned(worlds, calls, id) by {
                let e = Entity::spec_from_id(id);
                if w0.spec_entities().contains(e) && pred(e) {
                    w0.spec_entities().lemma_filter_contains_rev(pred, e);
                }
                if w1.spec_entities().contains(e) {
                    let k = choose|k: int| 0 <= k < w1.spec_entities().len() && w1.spec_entities()[k] == e;
                    assert(pred(w1.spec_entities()[k]));
                    crate::world::lemma_filter_subset(w0.spec_entities(), pred);
                    assert(w0.spec_entities().contains(w1.spec_entities()[k]));
                }
            }
        },
        _ => {},
    }
}

/// Whether an entity has a component of a kind depends on the run alone:
/// it has one exactly when a component of that kind was attached to it and
/// neither taken away nor the entity despawned since.
pub proof fn law_component_history<T: Component>(worlds: Seq<World<T>>, calls: Seq<WorldCall<T>>, kind: u64, id: u32)
    requires
        is_run(worlds, calls),
        is_fresh(worlds[0]),
    ensures
        worlds.last().components().contains_key((kind, id)) <==> exists|i: int|
            #![trigger calls[i]]
            0 <= i < calls.len() && attaches(calls[i], kind, id) && forall|j: int|
                i < j < calls.len() ==> !detaches(#[trigger] calls[j], kind, id),
    decreases calls.len(),
{
    if calls.len() == 0 {
        return;
    }
    lemma_run_prefix(worlds, calls);
    let pw = worlds.drop_last();
    let pc = calls.drop_last();
    law_component_history(pw, pc, kind, id);
    let n = pc.len() as int;
    let w0 = worlds[n];
    let w1 = worlds.last();
    assert(pw.last() == w0);
    let held = exists|i: int|
        #![trigger calls[i]]
        0 <= i < calls.len() && attaches(calls[i], kind, id) && forall|j: int|
            i < j < calls.len() ==> !detaches(#[trigger] calls[j], kind, id);
    let held0 = exists|i: int|
        #![trigger pc[i]]
        0 <= i < pc.len() && attaches(pc[i], kind, id) && forall|j: int|
            i < j < pc.len() ==> !detaches(#[trigger] pc[j], kind, id);
    assert(w0.components().contains_key((kind, id)) == held0);
    if attaches(calls[n], kind, id) {
        assert(held);
        assert(w1.components().contains_key((kind, id)));
    } else if detaches(calls[n], kind, id) {
        assert(!w1.components().contains_key((kind, id)));
        if held {
            let i = choose|i: int|
                #![trigger calls[i]]
                0 <= i < calls.len() && attaches(calls[i], kind, id) && forall|j: int|
                    i < j < calls.len() ==> !detaches(#[trigger] calls[j], kind, id);
            assert(i != n);
            assert(!detaches(calls[n], kind, id));
        }
    } else {
        assert(w1.components().contains_key((kind, id)) == w0.components().contains_key((kind, id)));
        if held {
            let i = choose|i: int|
                #![trigger calls[i]]
                0 <= i < calls.len() && attaches(calls[i], kind, id) && forall|j: int|
                    i < j < calls.len() ==> !detaches(#[trigger] calls[j], kind, id);
            assert(i != n);
            assert(pc[i] == calls[i]);
            assert forall|j: int| i < j < pc.len() implies !detaches(#[trigger] pc[j], kind, id) by {
                assert(pc[j] == calls[j]);
            }
            assert(held0);
        }
        if held0 {
            let i = choose|i: int|
                #![trigger pc[i]]
                0 <= i < pc.len() && attaches(pc[i], kind, id) && forall|j: int|
                    i < j < pc.len() ==> !detaches(#[trigger] pc[j], kind, id);
            assert(calls[i] == pc[i]);
            assert forall|j: int| i < j < calls.len() implies !detaches(#[trigger] calls[j], kind, id) by {
                if j < n {
                    assert(pc[j] == calls[j]);
                }
            }
            assert(held);
        }
    }
}

/// A component reads back as the value last attached: after attaching `c` of
/// `kind` to entity `id`, any run of calls that neither attaches, changes nor
/// takes away that component, nor despawns the entity, leaves it `c`.
pub proof fn law_read_back_last_added<T: Component>(
    worlds: Seq<World<T>>,
    calls: Seq<WorldCall<T>>,
    a: int,
    kind: u64,
    id: u32,
    c: T,
)
    requires
        is_run(worlds, calls),
        0 <= a < calls.len(),
        calls[a] == WorldCall::AddComponent(kind, id, c),
        forall|j: int| a < j < calls.len() ==> !touches(#[trigger] calls[j], kind, id),
    ensures
        worlds.last().components().contains_key((kind, id)),
        worlds.last().components()[(kind, id)] == c,
    decreases calls.len(),
{
    lemma_run_prefix(worlds, calls);
    let n = calls.len() - 1;
    let w0 = worlds[n];
    let w1 = worlds.last();
    if a == n {
        assert(w1.components() == w0.components().insert((kind, id), c));
    } else {
        let pw = worlds.drop_last();
        let pc = calls.drop_last();
        assert(pc[a] == calls[a]);
        assert forall|j: int| a < j < pc.len() implies !touches(#[trigger] pc[j], kind, id) by {
            assert(pc[j] == calls[j]);
        }
        law_read_back_last_added(pw, pc, a, kind, id, c);
        assert(pw.last() == w0);
        assert(!touches(calls[n], kind, id));
        match calls[n] {
            WorldCall::AddComponent(k, i, v) => {
                assert(w1.components()[(kind, id)] == w0.components()[(kind, id)]);
            },
            WorldCall::ChangeComponent(k, i, v) => {
                assert(w1.components()[(kind, id)] == w0.components()[(kind, id)]);
            },
            _ => {},
        }
    }
}

} // verus!
