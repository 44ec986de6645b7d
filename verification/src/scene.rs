use vstd::prelude::*;
use crate::entity::Entity;
use crate::world::{Component, World};

verus! {

broadcast use {crate::entity::Entity::lemma_id_determines, crate::entity::Entity::lemma_from_id};

/// The map `m` where `only` alone has a component of `kind`, namely `c`.
pub open spec fn with_only<T>(m: Map<(u64, u32), T>, kind: u64, only: u32, c: T) -> Map<(u64, u32), T> {
    Map::new(
        |p: (u64, u32)| if p.0 == kind { p.1 == only } else { m.contains_key(p) },
        |p: (u64, u32)| if p.0 == kind { c } else { m[p] },
    )
}

/// The ids of the entities to draw, in the order of the mesh storage: those
/// with a mesh that also have a material, a transform and the visible tag.
pub open spec fn drawn_order<T: Component>(
    world: World<T>,
    mesh_kind: u64,
    material_kind: u64,
    transform_kind: u64,
    visible_kind: u64,
) -> Seq<u32> {
    world.query_order(mesh_kind).filter(
        |id: u32|
            world.components().contains_key((material_kind, id)) && world.components().contains_key(
                (transform_kind, id),
            ) && world.components().contains_key((visible_kind, id)),
    )
}

/// The entities to draw, as [`drawn_order`] lists them.
pub fn drawn_entities<T: Component>(
    world: &World<T>,
    mesh_kind: u64,
    material_kind: u64,
    transform_kind: u64,
    visible_kind: u64,
) -> (r: Vec<Entity>)
    requires
        world.wf(),
    ensures
        r@.len() == drawn_order(*world, mesh_kind, material_kind, transform_kind, visible_kind).len(),
        forall|i: int|
            0 <= i < r@.len() ==> #[trigger] r@[i].spec_id() == drawn_order(
                *world,
                mesh_kind,
                material_kind,
                transform_kind,
                visible_kind,
            )[i],
        forall|e: Entity| #[trigger] r@.contains(e) <==> {
            &&& world.components().contains_key((mesh_kind, e.spec_id()))
            &&& world.components().contains_key((material_kind, e.spec_id()))
            &&& world.components().contains_key((transform_kind, e.spec_id()))
            &&& world.components().contains_key((visible_kind, e.spec_id()))
        },
{
    let ghost pred = |id: u32|
        world.components().contains_key((material_kind, id)) && world.components().contains_key((transform_kind, id))
            && world.components().contains_key((visible_kind, id));
    let ghost order = world.query_order(mesh_kind);
    let with_mesh = world.query(mesh_kind);
    let mut r: Vec<Entity> = Vec::new();
    let ghost mut ids: Seq<u32> = Seq::empty();
    let mut i: usize = 0;
    while i < with_mesh.len()
        invariant
            world.wf(),
            order == world.query_order(mesh_kind),
            with_mesh@.len() == order.len(),
            forall|k: int| 0 <= k < with_mesh@.len() ==> #[trigger] with_mesh@[k].spec_id() == order[k],
            pred == (|id: u32|
                world.components().contains_key((material_kind, id)) && world.components().contains_key(
                    (transform_kind, id),
                ) && world.components().contains_key((visible_kind, id))),
            i <= with_mesh@.len(),
            ids == order.take(i as int).filter(pred),
            r@.len() == ids.len(),
            forall|k: int| 0 <= k < r@.len() ==> #[trigger] r@[k].spec_id() == ids[k],
        decreases with_mesh@.len() - i,
    {
        let e = with_mesh[i];
        let keep = world.has_component(e, material_kind) && world.has_component(e, transform_kind)
            && world.has_component(e, visible_kind);
        if keep {
            r.push(e);
        }
        proof {
            let t = order.take(i + 1);
            assert(t.drop_last() =~= order.take(i as int));
            assert(t.last() == e.spec_id());
            reveal(Seq::filter);
            assert(t.filter(pred) == (if pred(t.last()) { t.drop_last().filter(pred).push(t.last()) } else {
                t.drop_last().filter(pred)
            }));
            assert(keep == pred(e.spec_id()));
            if keep {
                ids = ids.push(e.spec_id());
            }
        }
        i = i + 1;
    }
    assert(order.take(i as int) =~= order);
    proof {
        law_drawn_entities_have_all_kinds(*world, mesh_kind, material_kind, transform_kind, visible_kind);
        let d = drawn_order(*world, mesh_kind, material_kind, transform_kind, visible_kind);
        assert forall|e: Entity| #[trigger] r@.contains(e) <==> d.contains(e.spec_id()) by {
            if r@.contains(e) {
                let k = choose|k: int| 0 <= k < r@.len() && r@[k] == e;
                assert(d[k] == e.spec_id());
            }
            if d.contains(e.spec_id()) {
                let k = choose|k: int| 0 <= k < d.len() && d[k] == e.spec_id();
                assert(r@[k].spec_id() == e.spec_id());
            }
        }
    }
    r
}

/// An entity is drawn exactly when it has a component of each of the four
/// kinds, and none is drawn twice.
pub proof fn law_drawn_entities_have_all_kinds<T: Component>(
    world: World<T>,
    mesh_kind: u64,
    material_kind: u64,
    transform_kind: u64,
    visible_kind: u64,
)
    requires
        world.wf(),
    ensures
        drawn_order(world, mesh_kind, material_kind, transform_kind, visible_kind).no_duplicates(),
        forall|id: u32|
            #[trigger] drawn_order(world, mesh_kind, material_kind, transform_kind, visible_kind).contains(id) <==> {
                &&& world.components().contains_key((mesh_kind, id))
                &&& world.components().contains_key((material_kind, id))
                &&& world.components().contains_key((transform_kind, id))
                &&& world.components().contains_key((visible_kind, id))
            },
{
    broadcast use vstd::seq_lib::group_filter_ensures;

    let pred = |id: u32|
        world.components().contains_key((material_kind, id)) && world.components().contains_key((transform_kind, id))
            && world.components().contains_key((visible_kind, id));
    let order = world.query_order(mesh_kind);
    let f = order.filter(pred);
    world.lemma_query_order(mesh_kind);
    assert(f == drawn_order(world, mesh_kind, material_kind, transform_kind, visible_kind));
    crate::world::lemma_filter_subset(order, pred);
    crate::world::lemma_filter_no_duplicates(order, pred);
    assert forall|id: u32| #[trigger] f.contains(id) <==> {
        &&& world.components().contains_key((mesh_kind, id))
        &&& world.components().contains_key((material_kind, id))
        &&& world.components().contains_key((transform_kind, id))
        &&& world.components().contains_key((visible_kind, id))
    } by {
        if f.contains(id) {
            let k = choose|k: int| 0 <= k < f.len() && f[k] == id;
            assert(order.contains(f[k]));
            assert(pred(f[k]));
        }
        if world.components().contains_key((mesh_kind, id)) && pred(id) {
            assert(order.contains(id));
            order.lemma_filter_contains_rev(pred, id);
        }
    }
}

/// Makes `camera` the active one: the tag of `tag_kind` is taken from every
/// entity that had it and given to `camera`.
pub fn make_camera_active<T: Component>(world: &mut World<T>, camera: Entity, tag_kind: u64, tag: T)
    requires
        old(world).wf(),
    ensures
        final(world).wf(),
        final(world).spec_next_id() == old(world).spec_next_id(),
        final(world).spec_entities() == old(world).spec_entities(),
        final(world).components() == with_only(old(world).components(), tag_kind, camera.spec_id(), tag),
        final(world).resources() == old(world).resources(),
{
    let active = world.query(tag_kind);
    let ghost m0 = world.components();
    let mut i: usize = 0;
    while i < active.len()
        invariant
            world.wf(),
            i <= active@.len(),
            world.spec_next_id() == old(world).spec_next_id(),
            world.spec_entities() == old(world).spec_entities(),
            world.resources() == old(world).resources(),
            m0 == old(world).components(),
            forall|e: Entity| #[trigger] active@.contains(e) <==> m0.contains_key((tag_kind, e.spec_id())),
            forall|p: (u64, u32)|
                #[trigger] world.components().contains_key(p) <==> m0.contains_key(p) && !(p.0 == tag_kind
                    && exists|j: int| 0 <= j < i && active@[j].spec_id() == p.1),
            forall|p: (u64, u32)| #[trigger] world.components().contains_key(p) ==> world.components()[p] == m0[p],
        decreases active@.len() - i,
    {
        let e = active[i];
        let ghost before = world.components();
        world.remove_component(e, tag_kind);
        assert forall|p: (u64, u32)|
            #[trigger] world.components().contains_key(p) <==> m0.contains_key(p) && !(p.0 == tag_kind
                && exists|j: int| 0 <= j < i + 1 && active@[j].spec_id() == p.1) by {
            if p.0 == tag_kind && p.1 == e.spec_id() {
                assert(active@[i as int].spec_id() == p.1);
            }
            if exists|j: int| 0 <= j < i + 1 && active@[j].spec_id() == p.1 {
                let j = choose|j: int| 0 <= j < i + 1 && active@[j].spec_id() == p.1;
                if j < i {
                    assert(exists|j: int| 0 <= j < i && active@[j].spec_id() == p.1);
                }
            }
        }
        i = i + 1;
    }
    assert forall|p: (u64, u32)| #[trigger] world.components().contains_key(p) <==> m0.contains_key(p) && p.0
        != tag_kind by {
        if p.0 == tag_kind && m0.contains_key(p) {
            let e = Entity::spec_from_id(p.1);
            assert(active@.contains(e));
            let j = choose|j: int| 0 <= j < active@.len() && active@[j] == e;
            assert(active@[j].spec_id() == p.1);
        }
    }
    world.add_component(camera, tag_kind, tag);
    assert(world.components() =~= with_only(m0, tag_kind, camera.spec_id(), tag));
}

/// After a camera is made active, it is the one entity with the tag.
pub proof fn law_single_active_camera<T>(before: Map<(u64, u32), T>, tag_kind: u64, camera: u32, tag: T)
    ensures
        with_only(before, tag_kind, camera, tag).contains_key((tag_kind, camera)),
        forall|id: u32| #[trigger] with_only(before, tag_kind, camera, tag).contains_key((tag_kind, id)) ==> id == camera,
        forall|p: (u64, u32)|
            p.0 != tag_kind ==> (#[trigger] with_only(before, tag_kind, camera, tag).contains_key(p) <==> before.contains_key(p)),
{
}

/// Whether the simulation advances: the systems that move things run only
/// while playing, drawing always does.
pub struct Playback {
    playing: bool,
}

impl Playback {
    /// Whether the simulation is running.
    pub closed spec fn spec_playing(&self) -> bool {
        self.playing
    }

    /// A running simulation.
    pub fn new() -> (p: Self)
        ensures
            p.spec_playing(),
    {
        Self { playing: true }
    }

    /// Whether the simulation is running.
    pub fn is_playing(&self) -> (r: bool)
        ensures
            r == self.spec_playing(),
    {
        self.playing
    }

    /// Pauses a running simulation, resumes a paused one.
    pub fn toggle_playing(&mut self)
        ensures
            final(self).spec_playing() == !old(self).spec_playing(),
    {
        self.playing = !self.playing;
    }

    /// Runs the simulation.
    pub fn play(&mut self)
        ensures
            final(self).spec_playing(),
    {
        self.playing = true;
    }

    /// Pauses the simulation.
    pub fn stop(&mut self)
        ensures
            !final(self).spec_playing(),
    {
        self.playing = false;
    }

    /// What the next frame does: the simulation systems run, and the
    /// collision callbacks are called, only while playing; drawing runs on
    /// every frame.
    pub fn plan_frame(&self) -> (p: FramePlan)
        ensures
            p.run_simulation == self.spec_playing(),
            p.run_render,
            p.fire_callbacks == self.spec_playing(),
    {
        FramePlan { run_simulation: self.playing, run_render: true, fire_callbacks: self.playing }
    }
}

/// The work of one frame.
#[derive(Clone, Copy, Debug, PartialEq, Eq, Structural)]
pub struct FramePlan {
    /// Whether the simulation systems run.
    pub run_simulation: bool,
    /// Whether the drawing systems run.
    pub run_render: bool,
    /// Whether the collision callbacks of the frame are called.
    pub fire_callbacks: bool,
}

/// Toggling twice leaves the simulation as it was.
pub proof fn law_toggle_twice(p0: Playback, p1: Playback, p2: Playback)
    requires
        p1.spec_playing() == !p0.spec_playing(),
        p2.spec_playing() == !p1.spec_playing(),
    ensures
        p2.spec_playing() == p0.spec_playing(),
{
}

} // verus!
