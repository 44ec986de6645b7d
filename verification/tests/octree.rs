use ruwr::entity::Entity;
use ruwr::octree::{Octree, OctreeNode};

/// A segment [lo, hi) of the line; its two halves are octants 0 and 1.
type Span = (i64, i64);

fn octant(b: &Span, p: &i64) -> usize {
    if *p < (b.0 + b.1) / 2 { 0 } else { 1 }
}

fn child(b: &Span, i: usize) -> Span {
    let mid = (b.0 + b.1) / 2;
    if i == 0 { (b.0, mid) } else if i == 1 { (mid, b.1) } else { (mid, mid) }
}

fn overlaps(a: &Span, b: &Span) -> bool {
    a.0 < b.1 && b.0 < a.1
}

fn sorted(mut v: Vec<u32>) -> Vec<u32> {
    v.sort();
    v
}

#[test]
fn query_everything_finds_every_entity() {
    let mut t: Octree<Span, i64> = Octree::new((0, 1024), 8, 2);
    for i in 0..40u32 {
        t.insert(Entity::from_id(i), (i as i64 * 25) % 1024, &octant, &child);
    }
    let mut out = Vec::new();
    t.root.query(&(0, 1024), &mut out, &overlaps);
    assert_eq!(sorted(out.iter().map(|e| e.id()).collect()), (0..40).collect::<Vec<u32>>());
}

#[test]
fn query_part_finds_what_lies_there() {
    let mut t: Octree<Span, i64> = Octree::new((0, 1024), 8, 1);
    for i in 0..16u32 {
        t.insert(Entity::from_id(i), i as i64 * 64, &octant, &child);
    }
    let mut out = vec![Entity::from_id(999)];
    t.root.query(&(0, 100), &mut out, &overlaps);
    assert_eq!(out[0], Entity::from_id(999));
    let found: Vec<u32> = out[1..].iter().map(|e| e.id()).collect();
    assert!(found.contains(&0));
    assert!(found.contains(&1));
    assert!(!found.contains(&15));
    assert!(found.iter().all(|id| *id < 16));
}

#[test]
fn query_outside_finds_nothing() {
    let mut t: Octree<Span, i64> = Octree::new((0, 1024), 8, 4);
    t.insert(Entity::from_id(1), 10, &octant, &child);
    let mut out = Vec::new();
    t.root.query(&(2000, 3000), &mut out, &overlaps);
    assert!(out.is_empty());
}

#[test]
fn deepest_level_keeps_every_entity() {
    // all at one point: splitting cannot separate them, the deepest leaf keeps them all
    let mut t: Octree<Span, i64> = Octree::new((0, 1024), 3, 1);
    for i in 0..10u32 {
        t.insert(Entity::from_id(i), 5, &octant, &child);
    }
    let mut out = Vec::new();
    t.root.query(&(0, 1024), &mut out, &overlaps);
    assert_eq!(out.len(), 10);
    let mut n: OctreeNode<Span, i64> = OctreeNode::new((0, 8));
    n.insert(Entity::from_id(7), 3, 0, 0, 0, &octant, &child);
    let mut out = Vec::new();
    n.query(&(0, 8), &mut out, &overlaps);
    assert_eq!(out, vec![Entity::from_id(7)]);
}

#[test]
fn query_lists_leaf_entities_in_insertion_order() {
    let mut t: Octree<Span, i64> = Octree::new((0, 1024), 8, 4);
    for (id, p) in [(3u32, 900i64), (1, 10), (2, 500)] {
        t.insert(Entity::from_id(id), p, &octant, &child);
    }
    let mut out = Vec::new();
    t.root.query(&(0, 1024), &mut out, &overlaps);
    assert_eq!(out, vec![Entity::from_id(3), Entity::from_id(1), Entity::from_id(2)]);
}

#[test]
fn query_lists_split_tree_child_by_child() {
    // a full leaf splits: the lower half is listed before the upper half
    let mut t: Octree<Span, i64> = Octree::new((0, 1024), 8, 1);
    t.insert(Entity::from_id(1), 900, &octant, &child);
    t.insert(Entity::from_id(2), 10, &octant, &child);
    let mut out = Vec::new();
    t.root.query(&(0, 1024), &mut out, &overlaps);
    assert_eq!(out, vec![Entity::from_id(2), Entity::from_id(1)]);
}
