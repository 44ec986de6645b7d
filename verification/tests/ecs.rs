use ruwr::entity::Entity;
use ruwr::scene::{drawn_entities, make_camera_active, Playback};
use ruwr::scheduler::{Scheduler, System};
use ruwr::world::{Component, World};

const POSITION: u64 = 1;
const TAG: u64 = 2;

#[derive(Debug, Clone, PartialEq)]
enum Comp {
    Position(i64),
    Tag,
}

impl Component for Comp {}

#[test]
fn entity_id_round_trip() {
    assert_eq!(Entity::from_id(7).id(), 7);
    assert_eq!(Entity::from_id(7), Entity::from_id(7));
    assert_ne!(Entity::from_id(7), Entity::from_id(8));
}

#[test]
fn spawn_gives_consecutive_ids() {
    let mut w: World<Comp> = World::new();
    assert_eq!(w.next_id(), 0);
    let a = w.spawn();
    let b = w.spawn();
    let c = w.spawn();
    assert_eq!((a.id(), b.id(), c.id()), (0, 1, 2));
    assert_eq!(w.entities(), &[a, b, c]);
    assert_eq!(w.next_id(), 3);
}

#[test]
fn default_world_is_empty() {
    let w: World<Comp> = World::default();
    assert!(w.entities().is_empty());
    assert_eq!(w.next_id(), 0);
}

#[test]
fn add_then_get_reads_back() {
    let mut w: World<Comp> = World::new();
    let e = w.spawn();
    assert!(!w.has_component(e, POSITION));
    assert_eq!(w.get_component(e, POSITION), None);
    w.add_component(e, POSITION, Comp::Position(5));
    assert!(w.has_component(e, POSITION));
    assert_eq!(w.get_component(e, POSITION), Some(&Comp::Position(5)));
    assert!(!w.has_component(e, TAG));
}

#[test]
fn add_replaces_component_of_same_kind() {
    let mut w: World<Comp> = World::new();
    let e = w.spawn();
    w.add_component(e, POSITION, Comp::Position(1));
    w.add_component(e, POSITION, Comp::Position(2));
    assert_eq!(w.get_component(e, POSITION), Some(&Comp::Position(2)));
    assert_eq!(w.query(POSITION), vec![e]);
}

#[test]
fn get_component_mut_writes_back() {
    let mut w: World<Comp> = World::new();
    let e = w.spawn();
    w.add_component(e, POSITION, Comp::Position(1));
    if let Some(c) = w.get_component_mut(e, POSITION) {
        *c = Comp::Position(42);
    }
    assert_eq!(w.get_component(e, POSITION), Some(&Comp::Position(42)));
    assert!(w.get_component_mut(e, TAG).is_none());
}

#[test]
fn remove_undoes_add() {
    let mut w: World<Comp> = World::new();
    let a = w.spawn();
    let b = w.spawn();
    w.add_component(a, POSITION, Comp::Position(1));
    w.add_component(b, POSITION, Comp::Position(2));
    w.remove_component(a, POSITION);
    assert!(!w.has_component(a, POSITION));
    assert_eq!(w.get_component(b, POSITION), Some(&Comp::Position(2)));
    // removing what is not there changes nothing
    w.remove_component(a, POSITION);
    w.remove_component(a, TAG);
    assert_eq!(w.get_component(b, POSITION), Some(&Comp::Position(2)));
}

#[test]
fn remove_moves_last_into_place() {
    let mut w: World<Comp> = World::new();
    let es: Vec<Entity> = (0..4).map(|_| w.spawn()).collect();
    for (i, e) in es.iter().enumerate() {
        w.add_component(*e, POSITION, Comp::Position(i as i64 * 10));
    }
    w.remove_component(es[1], POSITION);
    assert_eq!(w.query(POSITION), vec![es[0], es[3], es[2]]);
    for (i, e) in es.iter().enumerate() {
        if i == 1 {
            assert_eq!(w.get_component(*e, POSITION), None);
        } else {
            assert_eq!(w.get_component(*e, POSITION), Some(&Comp::Position(i as i64 * 10)));
        }
    }
}

#[test]
fn despawn_clears_entity_and_components() {
    let mut w: World<Comp> = World::new();
    let a = w.spawn();
    let b = w.spawn();
    let c = w.spawn();
    w.add_component(a, POSITION, Comp::Position(1));
    w.add_component(b, POSITION, Comp::Position(2));
    w.add_component(b, TAG, Comp::Tag);
    w.despawn(b);
    assert_eq!(w.entities(), &[a, c]);
    assert!(!w.has_component(b, POSITION));
    assert!(!w.has_component(b, TAG));
    assert_eq!(w.get_component(a, POSITION), Some(&Comp::Position(1)));
    // ids are not reused
    assert_eq!(w.spawn().id(), 3);
}

#[test]
fn query_lists_holders_once() {
    let mut w: World<Comp> = World::new();
    let a = w.spawn();
    let b = w.spawn();
    assert!(w.query(TAG).is_empty());
    w.add_component(b, TAG, Comp::Tag);
    w.add_component(a, TAG, Comp::Tag);
    assert_eq!(w.query(TAG), vec![b, a]);
}

#[test]
fn components_on_unspawned_entities() {
    let mut w: World<Comp> = World::new();
    let ghost = Entity::from_id(99);
    w.add_component(ghost, POSITION, Comp::Position(3));
    assert!(w.has_component(ghost, POSITION));
    assert!(w.entities().is_empty());
}

#[test]
fn single_active_camera() {
    let mut w: World<Comp> = World::new();
    let a = w.spawn();
    let b = w.spawn();
    let c = w.spawn();
    w.add_component(a, TAG, Comp::Tag);
    w.add_component(b, TAG, Comp::Tag);
    w.add_component(a, POSITION, Comp::Position(1));
    make_camera_active(&mut w, c, TAG, Comp::Tag);
    assert_eq!(w.query(TAG), vec![c]);
    assert!(w.has_component(a, POSITION));
    make_camera_active(&mut w, a, TAG, Comp::Tag);
    assert_eq!(w.query(TAG), vec![a]);
}

struct Mover;

impl System<Comp> for Mover {
    fn run(&mut self, world: &mut World<Comp>) {
        for e in world.query(POSITION) {
            if let Some(Comp::Position(p)) = world.get_component_mut(e, POSITION) {
                *p += 1;
            }
        }
    }
}

struct Tagger;

impl System<Comp> for Tagger {
    fn run(&mut self, world: &mut World<Comp>) {
        for e in world.query(POSITION) {
            if world.get_component(e, POSITION) == Some(&Comp::Position(2)) {
                world.add_component(e, TAG, Comp::Tag);
            }
        }
    }
}

enum GameSystem {
    Move(Mover),
    Tag(Tagger),
}

impl System<Comp> for GameSystem {
    fn run(&mut self, world: &mut World<Comp>) {
        match self {
            GameSystem::Move(m) => m.run(world),
            GameSystem::Tag(t) => t.run(world),
        }
    }
}

#[test]
fn scheduler_runs_systems_in_order() {
    let mut w: World<Comp> = World::new();
    let e = w.spawn();
    w.add_component(e, POSITION, Comp::Position(0));
    let mut s: Scheduler<Comp, GameSystem> = Scheduler::new();
    s.add_system(GameSystem::Move(Mover)).add_system(GameSystem::Tag(Tagger));
    s.run(&mut w);
    assert_eq!(w.get_component(e, POSITION), Some(&Comp::Position(1)));
    assert!(!w.has_component(e, TAG));
    s.run(&mut w);
    assert_eq!(w.get_component(e, POSITION), Some(&Comp::Position(2)));
    assert!(w.has_component(e, TAG));
}

#[test]
fn empty_scheduler_leaves_world() {
    let mut w: World<Comp> = World::new();
    let e = w.spawn();
    let mut s: Scheduler<Comp, Mover> = Scheduler::default();
    s.run(&mut w);
    assert_eq!(w.entities(), &[e]);
}

#[test]
fn playback_toggles() {
    let mut p = Playback::new();
    assert!(p.is_playing());
    p.toggle_playing();
    assert!(!p.is_playing());
    p.toggle_playing();
    assert!(p.is_playing());
    p.stop();
    assert!(!p.is_playing());
    p.play();
    assert!(p.is_playing());
}

#[test]
fn resources_read_back_and_change() {
    let mut w: World<Comp> = World::new();
    assert!(w.get_resource(POSITION).is_none());
    w.insert_resource(POSITION, Comp::Position(1));
    w.insert_resource(TAG, Comp::Tag);
    assert_eq!(w.get_resource(POSITION), Some(&Comp::Position(1)));
    w.insert_resource(POSITION, Comp::Position(2));
    assert_eq!(w.get_resource(POSITION), Some(&Comp::Position(2)));
    if let Some(r) = w.get_resource_mut(POSITION) {
        *r = Comp::Position(9);
    }
    assert_eq!(w.get_resource(POSITION), Some(&Comp::Position(9)));
    assert_eq!(w.get_resource(TAG), Some(&Comp::Tag));
    assert!(w.get_resource_mut(3).is_none());
    // resources are not components
    assert!(w.query(POSITION).is_empty());
}

#[test]
fn scheduler_order_follows_registration() {
    let mut w: World<Comp> = World::new();
    let e = w.spawn();
    w.add_component(e, POSITION, Comp::Position(0));
    let mut s: Scheduler<Comp, GameSystem> = Scheduler::new();
    s.add_system(GameSystem::Tag(Tagger)).add_system(GameSystem::Move(Mover));
    s.run(&mut w);
    s.run(&mut w);
    assert_eq!(w.get_component(e, POSITION), Some(&Comp::Position(2)));
    assert!(!w.has_component(e, TAG));
    s.run(&mut w);
    assert!(w.has_component(e, TAG));
}

#[test]
fn query_lists_in_storage_order() {
    let mut w: World<Comp> = World::new();
    let a = w.spawn();
    let b = w.spawn();
    let c = w.spawn();
    w.add_component(b, POSITION, Comp::Position(0));
    w.add_component(a, POSITION, Comp::Position(0));
    w.add_component(c, POSITION, Comp::Position(0));
    assert_eq!(w.query(POSITION), vec![b, a, c]);
    // replacing keeps the slot
    w.add_component(b, POSITION, Comp::Position(5));
    assert_eq!(w.query(POSITION), vec![b, a, c]);
    // removing moves the last one into the gap
    w.remove_component(b, POSITION);
    assert_eq!(w.query(POSITION), vec![c, a]);
    // removing what is not there changes nothing
    w.remove_component(b, POSITION);
    assert_eq!(w.query(POSITION), vec![c, a]);
    w.add_component(b, POSITION, Comp::Position(1));
    assert_eq!(w.query(POSITION), vec![c, a, b]);
    w.despawn(c);
    assert_eq!(w.query(POSITION), vec![b, a]);
}

#[test]
fn component_reads_back_after_unrelated_calls() {
    let mut w: World<Comp> = World::new();
    let a = w.spawn();
    let b = w.spawn();
    w.add_component(a, POSITION, Comp::Position(3));
    w.add_component(b, POSITION, Comp::Position(4));
    w.add_component(a, TAG, Comp::Tag);
    w.remove_component(b, POSITION);
    w.despawn(b);
    let _c = w.spawn();
    assert_eq!(w.get_component(a, POSITION), Some(&Comp::Position(3)));
    assert!(w.has_component(a, TAG));
    w.remove_component(a, TAG);
    assert!(!w.has_component(a, TAG));
    w.add_component(a, TAG, Comp::Tag);
    assert!(w.has_component(a, TAG));
}

#[test]
fn frame_plan_follows_playback() {
    let mut p = Playback::new();
    let plan = p.plan_frame();
    assert!(plan.run_simulation && plan.run_render && plan.fire_callbacks);
    p.stop();
    let plan = p.plan_frame();
    assert!(!plan.run_simulation && plan.run_render && !plan.fire_callbacks);
}

#[test]
fn drawn_entities_need_all_four_kinds() {
    const MESH: u64 = 10;
    const MATERIAL: u64 = 11;
    const VISIBLE: u64 = 12;
    let mut w: World<Comp> = World::new();
    let a = w.spawn();
    let b = w.spawn();
    let c = w.spawn();
    for e in [c, a, b] {
        w.add_component(e, MESH, Comp::Tag);
        w.add_component(e, MATERIAL, Comp::Tag);
        w.add_component(e, POSITION, Comp::Position(0));
    }
    w.add_component(c, VISIBLE, Comp::Tag);
    w.add_component(b, VISIBLE, Comp::Tag);
    assert_eq!(drawn_entities(&w, MESH, MATERIAL, POSITION, VISIBLE), vec![c, b]);
    w.remove_component(c, MATERIAL);
    assert_eq!(drawn_entities(&w, MESH, MATERIAL, POSITION, VISIBLE), vec![b]);
}
