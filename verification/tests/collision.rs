use ruwr::collision::{detect_collisions, find_collisions, Collider};
use ruwr::entity::Entity;

fn col(id: u32, x: i32, trig: bool) -> Collider<i32> {
    Collider { entity: Entity::from_id(id), shape: x, is_trigger: trig }
}

fn near(a: &i32, b: &i32) -> bool {
    (a - b).abs() <= 1
}

fn pairs(events: &[ruwr::resources::CollisionEvent]) -> Vec<(u32, u32, bool)> {
    events.iter().map(|e| (e.entity_a.id(), e.entity_b.id(), e.is_trigger)).collect()
}

#[test]
fn each_touching_pair_reported_once_in_id_order() {
    let cs = vec![col(0, 0, false), col(1, 1, true), col(2, 5, false), col(3, 6, false)];
    let all: Vec<Entity> = cs.iter().map(|c| c.entity).collect();
    let cands = vec![all.clone(), all.clone(), all.clone(), all];
    let ev = find_collisions(&cs, &cands, &near);
    assert_eq!(pairs(&ev), vec![(0, 1, true), (2, 3, false)]);
}

#[test]
fn only_proposed_candidates_are_tested() {
    let cs = vec![col(0, 0, false), col(1, 1, false)];
    let cands = vec![vec![], vec![Entity::from_id(0)]];
    // 1 proposes 0, but 0 has the smaller id: skipped; 0 proposes nothing
    assert!(find_collisions(&cs, &cands, &near).is_empty());
    let cands = vec![vec![Entity::from_id(1)], vec![]];
    assert_eq!(pairs(&find_collisions(&cs, &cands, &near)), vec![(0, 1, false)]);
}

#[test]
fn unknown_candidates_and_self_are_skipped() {
    let cs = vec![col(4, 0, false)];
    let cands = vec![vec![Entity::from_id(4), Entity::from_id(9)]];
    assert!(find_collisions(&cs, &cands, &near).is_empty());
}

#[test]
fn first_collider_of_an_entity_is_used() {
    let cs = vec![col(0, 0, false), col(1, 10, false), col(1, 1, true)];
    let cands = vec![vec![Entity::from_id(1)], vec![], vec![]];
    // the first collider of entity 1 sits at 10: no contact
    assert!(find_collisions(&cs, &cands, &near).is_empty());
}

#[test]
fn events_come_in_collider_then_candidate_order() {
    let cs = vec![col(5, 0, false), col(1, 1, false), col(7, 1, false), col(6, 0, true)];
    let cands = vec![
        vec![Entity::from_id(7), Entity::from_id(6)],
        vec![Entity::from_id(6), Entity::from_id(5), Entity::from_id(7)],
        vec![],
        vec![Entity::from_id(7)],
    ];
    assert_eq!(pairs(&find_collisions(&cs, &cands, &near)), vec![(5, 7, false), (5, 6, true), (1, 6, true), (1, 5, false), (1, 7, false), (6, 7, true)]);
}

type Span = (i64, i64);

fn octant(b: &Span, p: &i64) -> usize {
    if *p < (b.0 + b.1) / 2 { 0 } else { 1 }
}

fn child(b: &Span, i: usize) -> Span {
    let mid = (b.0 + b.1) / 2;
    if i == 0 { (b.0, mid) } else if i == 1 { (mid, b.1) } else { (mid, mid) }
}

fn overlaps(a: &Span, b: &Span) -> bool {
    a.0 < b.1 && b.0 < a.1
}

fn detect(cs: &[Collider<i32>], max_per_node: usize) -> Vec<(u32, u32, bool)> {
    let position = |s: &i32| *s as i64;
    let region = |s: &i32| (*s as i64 - 1, *s as i64 + 2);
    pairs(&detect_collisions(cs, (-1024, 1024), 8, max_per_node, &position, &region, &octant, &child, &overlaps, &near))
}

#[test]
fn detection_reports_the_one_touching_pair() {
    let cs = vec![col(0, 0, false), col(1, 1, true), col(2, 10, false)];
    assert_eq!(detect(&cs, 8), vec![(0, 1, true)]);
}

#[test]
fn detection_with_split_tree_finds_neighbours() {
    let cs: Vec<Collider<i32>> = (0..20u32).map(|i| col(i, (i as i32) * 3, false)).collect();
    assert!(detect(&cs, 2).is_empty());
    let cs: Vec<Collider<i32>> = (0..20u32).map(|i| col(i, i as i32, i == 5)).collect();
    let found = detect(&cs, 2);
    assert!(found.contains(&(4, 5, true)));
    assert!(found.contains(&(5, 6, true)));
    assert!(found.contains(&(0, 1, false)));
    assert!(found.iter().all(|(a, b, _)| a < b && b - a == 1));
}
