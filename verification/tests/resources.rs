use ruwr::components::MeshComponent;
use ruwr::entity::Entity;
use ruwr::resources::{
    CollisionCallbacks, CollisionEvent, CollisionEvents, MaterialId, MaterialStore, MeshId, MeshStore, ShaderId, ShaderStore, Viewport,
};

#[test]
fn viewport_new_keeps_size() {
    let v = Viewport::new(800, 600);
    assert_eq!((v.width, v.height), (800, 600));
}

#[test]
fn mesh_component_new() {
    assert_eq!(MeshComponent::new(MeshId(4)).mesh_id, MeshId(4));
}

#[test]
fn mesh_ids_are_consecutive() {
    let mut s: MeshStore<&str> = MeshStore::new();
    assert_eq!(s.get(MeshId(0)), None);
    assert_eq!(s.insert("a"), MeshId(0));
    assert_eq!(s.insert("b"), MeshId(1));
    assert_eq!(s.get(MeshId(0)), Some(&"a"));
    assert_eq!(s.get(MeshId(1)), Some(&"b"));
    assert_eq!(s.get(MeshId(2)), None);
}

#[test]
fn sphere_built_once_per_size() {
    let mut s: MeshStore<(u32, u32)> = MeshStore::new();
    let mut built = 0;
    let a = s.get_or_create_sphere(8, 16, |st, sl| { built += 1; (st, sl) });
    let b = s.get_or_create_sphere(8, 16, |st, sl| { built += 1; (st, sl) });
    assert_eq!(a, b);
    assert_eq!(built, 1);
    let c = s.get_or_create_sphere(16, 8, |st, sl| { built += 1; (st, sl) });
    assert_ne!(a, c);
    assert_eq!(built, 2);
    assert_eq!(s.get(a), Some(&(8, 16)));
    assert_eq!(s.get(c), Some(&(16, 8)));
    // a mesh stored directly does not count as a cached sphere
    let d = s.insert((1, 1));
    let e = s.get_or_create_sphere(1, 1, |st, sl| (st, sl));
    assert_ne!(d, e);
}

#[test]
fn materials_read_back_and_change() {
    let mut s: MaterialStore<u32> = MaterialStore::new();
    let a = s.insert(10);
    let b = s.insert(20);
    assert_eq!((a, b), (MaterialId(0), MaterialId(1)));
    assert_eq!(s.get(b), Some(&20));
    if let Some(d) = s.get_mut(a) {
        *d = 11;
    }
    assert_eq!(s.get(a), Some(&11));
    assert!(s.get_mut(MaterialId(5)).is_none());
    assert_eq!(s.get(MaterialId(5)), None);
}

#[test]
fn shader_compile_ok_and_err() {
    let mut s: ShaderStore<&str> = ShaderStore::new();
    assert_eq!(s.lambertian_id(), None);
    assert_eq!(s.lambertian(), None);
    assert_eq!(s.compile(Ok("p0")), Ok(ShaderId(0)));
    assert_eq!(s.compile(Err("bad".to_string())), Err("bad".to_string()));
    assert_eq!(s.compile(Ok("p1")), Ok(ShaderId(1)));
    assert_eq!(s.get(ShaderId(1)), Some(&"p1"));
    assert_eq!(s.get(ShaderId(2)), None);
}

#[test]
fn load_defaults_sets_lambertian() {
    let mut s: ShaderStore<&str> = ShaderStore::new();
    s.compile(Ok("other")).unwrap();
    s.load_defaults(Ok("lambert"));
    assert_eq!(s.lambertian_id(), Some(ShaderId(1)));
    assert_eq!(s.lambertian(), Some(&"lambert"));
}

#[test]
fn collision_pairs_flatten_in_order() {
    let ev = CollisionEvents {
        events: vec![
            CollisionEvent { entity_a: Entity::from_id(1), entity_b: Entity::from_id(4), is_trigger: false },
            CollisionEvent { entity_a: Entity::from_id(2), entity_b: Entity::from_id(3), is_trigger: true },
        ],
    };
    assert_eq!(ev.pair_ids(), vec![1, 4, 2, 3]);
    assert!(CollisionEvents { events: vec![] }.pair_ids().is_empty());
}

#[test]
fn store_next_ids_and_cache_lookup() {
    let mut m: MeshStore<u8> = MeshStore::new();
    assert_eq!(m.next_id(), 0);
    assert_eq!(m.cached_sphere(2, 3), None);
    let id = m.get_or_create_sphere(2, 3, |_, _| 7);
    assert_eq!(m.cached_sphere(2, 3), Some(id));
    assert_eq!(m.cached_sphere(3, 2), None);
    assert_eq!(m.next_id(), 1);
    let mut mat: MaterialStore<u8> = MaterialStore::new();
    mat.insert(1);
    assert_eq!(mat.next_id(), 1);
    let mut sh: ShaderStore<u8> = ShaderStore::new();
    let _ = sh.compile(Err(String::new()));
    assert_eq!(sh.next_id(), 0);
}

fn event(a: u32, b: u32, trig: bool) -> CollisionEvent {
    CollisionEvent { entity_a: Entity::from_id(a), entity_b: Entity::from_id(b), is_trigger: trig }
}

#[test]
fn collision_fires_follow_events() {
    let mut cbs: CollisionCallbacks<&str> = CollisionCallbacks::new();
    cbs.insert_callback(1, "one");
    cbs.insert_callback(3, "three");
    cbs.insert_callback(3, "three again");
    let events = CollisionEvents { events: vec![event(1, 2, false), event(1, 3, true), event(4, 5, false)] };
    let fires: Vec<(&str, u32, bool)> = cbs.collect_fires(&events).into_iter().map(|(c, o, t)| (*c, o, t)).collect();
    assert_eq!(fires, vec![("one", 2, false), ("one", 3, true), ("three again", 1, true)]);
}
