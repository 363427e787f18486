use yarpt::acceleration_structure::{AccelerationStructure, BoundingBox};
use yarpt::geometry::{slab_hit, Aabb, BoxAxis, Crossings, Key3, ObjectBounds};
use yarpt::scene::Scene;
use yarpt::walk::{Hit, TraceStep};

fn k3(x: i64, y: i64, z: i64) -> Key3 {
    Key3 { x, y, z }
}

/// A cube of half side `half` around `(x, y, z)`.
fn cube(x: i64, y: i64, z: i64, half: i64) -> ObjectBounds {
    ObjectBounds {
        center: k3(x, y, z),
        bounds: Aabb { lo: k3(x - half, y - half, z - half), hi: k3(x + half, y + half, z + half) },
    }
}

/// A small generator of numbers that looks random and is the same on every run.
struct Lcg(u64);

impl Lcg {
    fn next(&mut self, below: u64) -> u64 {
        self.0 = self.0.wrapping_mul(6364136223846793005).wrapping_add(1442695040888963407);
        (self.0 >> 33) % below
    }
}

fn random_objects(rng: &mut Lcg, count: usize) -> Vec<ObjectBounds> {
    (0..count)
        .map(|_| {
            cube(
                rng.next(2000) as i64 - 1000,
                rng.next(2000) as i64 - 1000,
                rng.next(2000) as i64 - 1000,
                1 + rng.next(50) as i64,
            )
        })
        .collect()
}

/// What the caller computes for the split of a node: how far the centres lie
/// apart on each axis, and their mean.
fn split_data(structure: &AccelerationStructure, node: usize) -> (Key3, Key3) {
    let list = &structure.node(node).renderables;
    let centers: Vec<Key3> = list.iter().map(|&o| structure.object(o).center).collect();
    let spread = |f: fn(&Key3) -> i64| {
        (centers.iter().map(f).max().unwrap() - centers.iter().map(f).min().unwrap()) / 2
    };
    let mean = |f: fn(&Key3) -> i64| centers.iter().map(f).sum::<i64>().div_euclid(centers.len() as i64);
    (
        k3(spread(|c| c.x), spread(|c| c.y), spread(|c| c.z)),
        k3(mean(|c| c.x), mean(|c| c.y), mean(|c| c.z)),
    )
}

/// Builds the hierarchy; gives up after `limit` splits.
fn build(objects: Vec<ObjectBounds>, limit: usize) -> AccelerationStructure {
    let mut structure = AccelerationStructure::new(objects);
    let mut splits = 0;
    while let Some(node) = structure.pending() {
        assert!(splits < limit, "the build does not come to an end");
        let (spread, mean) = split_data(&structure, node);
        structure.generate(spread, mean);
        splits += 1;
    }
    structure
}

fn within(inner: &Aabb, outer: &Aabb) -> bool {
    outer.lo.x <= inner.lo.x
        && inner.hi.x <= outer.hi.x
        && outer.lo.y <= inner.lo.y
        && inner.hi.y <= outer.hi.y
        && outer.lo.z <= inner.lo.z
        && inner.hi.z <= outer.hi.z
}

/// The objects held at or below a node.
fn descendants(structure: &AccelerationStructure, node: usize) -> Vec<usize> {
    let here = structure.node(node);
    let mut all = here.renderables.clone();
    for child in [here.left, here.right].into_iter().flatten() {
        assert!(child > node && child < structure.node_count());
        all.extend(descendants(structure, child));
    }
    all
}

#[test]
fn widest_axis_prefers_the_later_axis_among_equals() {
    assert_eq!(BoxAxis::widest(k3(6, 5, 5)), BoxAxis::X);
    assert_eq!(BoxAxis::widest(k3(5, 6, 5)), BoxAxis::Y);
    assert_eq!(BoxAxis::widest(k3(5, 5, 6)), BoxAxis::Z);
    assert_eq!(BoxAxis::widest(k3(5, 5, 5)), BoxAxis::Z);
    assert_eq!(BoxAxis::widest(k3(5, 5, 1)), BoxAxis::Y);
    assert_eq!(BoxAxis::widest(k3(5, 1, 5)), BoxAxis::Z);
    assert_eq!(BoxAxis::widest(k3(1, 5, 5)), BoxAxis::Z);
    assert_eq!(BoxAxis::widest(k3(i64::MIN, i64::MIN, i64::MIN)), BoxAxis::Z);
}

#[test]
fn pick_reads_the_key_of_the_axis() {
    let p = k3(1, 2, 3);
    assert_eq!(BoxAxis::X.pick(p), 1);
    assert_eq!(BoxAxis::Y.pick(p), 2);
    assert_eq!(BoxAxis::Z.pick(p), 3);
}

#[test]
fn low_side_is_at_or_below_the_mean() {
    let mean = k3(10, 20, 30);
    assert!(BoxAxis::X.is_left(mean, k3(10, 99, 99)));
    assert!(BoxAxis::X.is_left(mean, k3(9, 99, 99)));
    assert!(!BoxAxis::X.is_left(mean, k3(11, 0, 0)));
    assert!(BoxAxis::Y.is_left(mean, k3(99, 20, 99)));
    assert!(!BoxAxis::Y.is_left(mean, k3(0, 21, 0)));
    assert!(BoxAxis::Z.is_left(mean, k3(99, 99, 30)));
    assert!(!BoxAxis::Z.is_left(mean, k3(0, 0, 31)));
}

#[test]
fn union_is_the_smallest_box_around_both() {
    let a = Aabb { lo: k3(0, 5, -3), hi: k3(2, 9, 0) };
    let b = Aabb { lo: k3(-1, 6, -2), hi: k3(1, 12, 4) };
    assert_eq!(a.union(&b), Aabb { lo: k3(-1, 5, -3), hi: k3(2, 12, 4) });
    assert_eq!(Aabb::empty().union(&a), a);
    assert_eq!(
        Aabb::empty(),
        Aabb { lo: k3(i64::MAX, i64::MAX, i64::MAX), hi: k3(i64::MIN, i64::MIN, i64::MIN) }
    );
}

#[test]
fn points_on_a_face_are_in_the_box_but_not_inside() {
    let b = Aabb { lo: k3(0, 0, 0), hi: k3(4, 4, 4) };
    assert!(b.contains_point(k3(0, 2, 4)));
    assert!(!b.contains_point_inside(k3(0, 2, 4)));
    assert!(b.contains_point_inside(k3(1, 2, 3)));
    assert!(!b.contains_point(k3(5, 2, 2)));
    assert!(!b.contains_point(k3(2, -1, 2)));
}

fn c3(x: i64, y: i64, z: i64) -> Crossings {
    Crossings { x: Some(x), y: Some(y), z: Some(z) }
}

#[test]
fn slab_rule_asks_for_an_entry_in_front_and_before_the_exit() {
    // Along x the ray is between the planes from 5 to 9; along y and z always.
    let always_lo = i64::MIN;
    let always_hi = i64::MAX;
    let hit = |near: i64, far: i64, zero: i64| {
        slab_hit(c3(near, always_lo, always_hi), c3(far, always_hi, always_lo), zero)
    };
    assert_eq!(hit(5, 9, 0), Some(5));
    assert_eq!(hit(9, 5, 0), Some(5));
    assert_eq!(hit(5, 5, 0), None);
    assert_eq!(hit(0, 5, 0), None);
    assert_eq!(hit(-3, 5, 0), None);
    assert_eq!(hit(-3, 5, -4), Some(-3));
}

#[test]
fn slab_rule_takes_the_last_entry_and_the_first_exit() {
    assert_eq!(slab_hit(c3(1, 2, 3), c3(9, 8, 7), 0), Some(3));
    assert_eq!(slab_hit(c3(1, 8, 3), c3(9, 2, 7), 0), Some(3));
    // The ray leaves the slab of y at 2, before it enters that of z at 3.
    assert_eq!(slab_hit(c3(1, 0, 3), c3(9, 2, 7), -5), None);
    assert_eq!(slab_hit(c3(1, 2, 3), c3(9, 8, 3), 0), None);
}

#[test]
fn slab_rule_passes_over_a_crossing_that_is_no_number() {
    let lower = Crossings { x: Some(4), y: None, z: Some(i64::MIN) };
    let upper = Crossings { x: Some(6), y: None, z: Some(i64::MAX) };
    assert_eq!(slab_hit(lower, upper, 0), Some(4));
    // A slab with one crossing is entered and left at that crossing.
    let lower = Crossings { x: Some(4), y: None, z: Some(2) };
    let upper = Crossings { x: Some(6), y: Some(5), z: Some(9) };
    assert_eq!(slab_hit(lower, upper, 0), None);
    let upper = Crossings { x: Some(6), y: Some(3), z: Some(9) };
    assert_eq!(slab_hit(lower, upper, 0), None);
    let none = Crossings { x: None, y: None, z: None };
    assert_eq!(slab_hit(none, none, 0), None);
    assert_eq!(slab_hit(none, upper, 0), None);
}

#[test]
fn node_box_is_entered_at_once_from_inside() {
    let objects = vec![cube(0, 0, 0, 2)];
    let node = BoundingBox::new(vec![0], &objects);
    let far = i64::MAX;
    let back = i64::MIN;
    assert_eq!(node.trace(k3(1, 1, 1), c3(77, 77, 77), c3(3, 3, 3), 0), Some(0));
    assert_eq!(node.trace(k3(2, 2, 2), c3(-5, -5, -5), c3(-9, -9, -9), 0), Some(0));
    assert_eq!(node.trace(k3(9, 0, 0), c3(11, back, back), c3(7, far, far), 0), Some(7));
    assert_eq!(node.trace(k3(9, 0, 0), c3(11, back, back), c3(7, 6, far), 0), None);
    assert_eq!(node.trace(k3(9, 0, 0), c3(-7, back, back), c3(-11, far, far), 0), None);
}

#[test]
fn new_node_has_the_hull_of_its_objects() {
    let objects = vec![cube(0, 0, 0, 1), cube(10, -4, 2, 3), cube(5, 5, 5, 1)];
    let node = BoundingBox::new(vec![2, 0, 1], &objects);
    assert_eq!(node.bounds, Aabb { lo: k3(-1, -7, -1), hi: k3(13, 6, 6) });
    assert_eq!(node.left, None);
    assert_eq!(node.right, None);
    assert_eq!(node.renderables, vec![2, 0, 1]);
    assert_eq!(BoundingBox::new(vec![], &objects).bounds, Aabb::empty());
}

#[test]
fn up_to_two_objects_stay_in_the_root() {
    for count in 0..3usize {
        let objects: Vec<ObjectBounds> = (0..count).map(|i| cube(10 * i as i64, 0, 0, 1)).collect();
        let structure = AccelerationStructure::new(objects);
        assert_eq!(structure.pending(), None);
        assert_eq!(structure.node_count(), 1);
        assert_eq!(structure.object_count(), count);
        assert_eq!(structure.node(0).renderables, (0..count).collect::<Vec<_>>());
        assert_eq!(structure.node(0).left, None);
        assert_eq!(structure.node(0).right, None);
    }
}

#[test]
fn a_side_of_one_stays_in_the_node() {
    let objects = vec![cube(0, 0, 0, 1), cube(10, 0, 0, 1), cube(20, 0, 0, 1)];
    let mut structure = AccelerationStructure::new(objects.clone());
    assert_eq!(structure.pending(), Some(0));
    assert_eq!(structure.node(0).bounds, Aabb { lo: k3(-1, -1, -1), hi: k3(21, 1, 1) });
    // Split along x at 10: the objects 0 and 1 are low, the object 2 is high.
    let next = structure.generate(k3(10, 0, 0), k3(10, 0, 0));
    assert_eq!(next, None);
    assert_eq!(structure.node_count(), 2);
    let root = structure.node(0);
    assert_eq!(root.renderables, vec![2]);
    assert_eq!(root.left, Some(1));
    assert_eq!(root.right, None);
    assert_eq!(root.bounds, Aabb { lo: k3(-1, -1, -1), hi: k3(21, 1, 1) });
    let child = structure.node(1);
    assert_eq!(child.renderables, vec![1, 0]);
    assert_eq!(child.bounds, Aabb { lo: k3(-1, -1, -1), hi: k3(11, 1, 1) });
    assert_eq!((child.left, child.right), (None, None));
}

#[test]
fn two_sides_of_two_become_two_children() {
    let objects = vec![cube(0, 0, 0, 1), cube(0, 10, 0, 1), cube(0, 20, 0, 1), cube(0, 30, 0, 1)];
    let mut structure = AccelerationStructure::new(objects);
    assert_eq!(structure.generate(k3(0, 15, 0), k3(0, 15, 0)), None);
    assert_eq!(structure.node_count(), 3);
    assert_eq!(structure.node(0).renderables, Vec::<usize>::new());
    assert_eq!(structure.node(0).left, Some(1));
    assert_eq!(structure.node(0).right, Some(2));
    assert_eq!(structure.node(1).renderables, vec![1, 0]);
    assert_eq!(structure.node(2).renderables, vec![3, 2]);
    assert_eq!(structure.node(2).bounds, Aabb { lo: k3(-1, 19, -1), hi: k3(1, 31, 1) });
}

#[test]
fn an_empty_side_leaves_no_child() {
    let objects = vec![cube(0, 0, 5, 1), cube(0, 0, 6, 1), cube(0, 0, 7, 1)];
    let mut structure = AccelerationStructure::new(objects);
    // Every centre lies above the mean given: the low side is empty.
    let next = structure.generate(k3(0, 0, 1), k3(0, 0, 4));
    assert_eq!(structure.node_count(), 2);
    assert_eq!(structure.node(0).renderables, Vec::<usize>::new());
    assert_eq!(structure.node(0).left, None);
    assert_eq!(structure.node(0).right, Some(1));
    assert_eq!(structure.node(1).renderables, vec![2, 1, 0]);
    // The child holds three objects, so it is the next to split.
    assert_eq!(next, Some(1));
    assert_eq!(structure.pending(), Some(1));
    let next = structure.generate(k3(0, 0, 1), k3(0, 0, 6));
    assert_eq!(next, None);
    assert_eq!(structure.node(1).renderables, vec![2]);
    assert_eq!(structure.node(1).left, Some(2));
    assert_eq!(structure.node(2).renderables, vec![0, 1]);
}

#[test]
fn the_split_follows_the_widest_axis() {
    let objects = vec![cube(0, 0, 0, 1), cube(1, 50, 0, 1), cube(2, 100, 0, 1)];
    let mut structure = AccelerationStructure::new(objects);
    // Widest along y; the mean of x would put everything low.
    structure.generate(k3(1, 50, 0), k3(5, 50, 0));
    assert_eq!(structure.node(0).renderables, vec![2]);
    assert_eq!(structure.node(1).renderables, vec![1, 0]);
}

#[test]
fn every_object_is_held_exactly_once() {
    let mut rng = Lcg(7);
    for round in 0..40 {
        let count = 1 + rng.next(200) as usize;
        let structure = build(random_objects(&mut rng, count), 10 * count + 10);
        let mut seen = vec![0usize; count];
        for node in 0..structure.node_count() {
            for &object in &structure.node(node).renderables {
                seen[object] += 1;
            }
        }
        assert!(seen.iter().all(|&n| n == 1), "round {}", round);
        let mut below_root = descendants(&structure, 0);
        below_root.sort();
        assert_eq!(below_root, (0..count).collect::<Vec<_>>());
    }
}

#[test]
fn no_node_is_left_with_more_than_two_objects() {
    let mut rng = Lcg(11);
    let structure = build(random_objects(&mut rng, 150), 2000);
    for node in 0..structure.node_count() {
        assert!(structure.node(node).renderables.len() <= 2);
    }
}

#[test]
fn every_node_box_holds_what_is_below_it() {
    let mut rng = Lcg(3);
    for _ in 0..20 {
        let count = 1 + rng.next(120) as usize;
        let structure = build(random_objects(&mut rng, count), 10 * count + 10);
        for node in 0..structure.node_count() {
            let bounds = structure.node(node).bounds;
            for object in descendants(&structure, node) {
                assert!(within(&structure.object(object).bounds, &bounds));
            }
        }
    }
}

/// Where a ray from `origin` along +x enters a box, if it hits it.
fn entry_along_x(bounds: &Aabb, origin: Key3) -> Option<i64> {
    if bounds.contains_point(origin) {
        return Some(0);
    }
    let crosses = bounds.lo.y <= origin.y
        && origin.y <= bounds.hi.y
        && bounds.lo.z <= origin.z
        && origin.z <= bounds.hi.z;
    if crosses && bounds.lo.x > origin.x {
        Some(bounds.lo.x - origin.x)
    } else {
        None
    }
}

/// The walk through the hierarchy for a ray from `origin` along +x.
fn walk(structure: &AccelerationStructure, origin: Key3) -> (Option<Hit>, usize) {
    let mut trace = structure.trace_structure();
    let mut object_tests = 0;
    let mut step = trace.step();
    let mut steps = 0;
    loop {
        steps += 1;
        assert!(steps <= 2 * structure.node_count() + 1);
        step = match step {
            TraceStep::TestBox(node) => {
                let entry = entry_along_x(&structure.node(node).bounds, origin);
                structure.box_tested(&mut trace, entry)
            }
            TraceStep::TestObjects(node) => {
                let distances: Vec<Option<i64>> = structure
                    .node(node)
                    .renderables
                    .iter()
                    .map(|&o| entry_along_x(&structure.object(o).bounds, origin))
                    .collect();
                object_tests += distances.len();
                structure.objects_tested(&mut trace, &distances)
            }
            TraceStep::Done => break,
        };
    }
    (trace.nearest(), object_tests)
}

#[test]
fn the_walk_agrees_with_the_search_through_all_objects() {
    let mut rng = Lcg(2024);
    let mut pruned = false;
    for _ in 0..30 {
        let count = 1 + rng.next(200) as usize;
        let objects = random_objects(&mut rng, count);
        let structure = build(objects.clone(), 10 * count + 10);
        let mut scene: Scene<(), (), ObjectBounds> = Scene::new((), ());
        for object in &objects {
            scene.add_object(*object);
        }
        for _ in 0..50 {
            let origin = k3(
                rng.next(2400) as i64 - 1200,
                rng.next(2000) as i64 - 1000,
                rng.next(2000) as i64 - 1000,
            );
            let distances: Vec<Option<i64>> =
                objects.iter().map(|o| entry_along_x(&o.bounds, origin)).collect();
            let exhaustive = scene.trace_scene(&distances);
            let (found, object_tests) = walk(&structure, origin);
            assert_eq!(found.map(|h| h.distance), exhaustive.map(|h| h.distance));
            if let Some(hit) = found {
                assert_eq!(distances[hit.object], Some(hit.distance));
            }
            pruned |= object_tests < count;
        }
    }
    assert!(pruned);
}

#[test]
fn the_walk_visits_the_right_child_first() {
    let objects = vec![cube(0, 0, 0, 1), cube(0, 10, 0, 1), cube(0, 20, 0, 1), cube(0, 30, 0, 1)];
    let mut structure = AccelerationStructure::new(objects);
    structure.generate(k3(0, 15, 0), k3(0, 15, 0));
    let mut trace = structure.trace_structure();
    assert_eq!(trace.step(), TraceStep::TestBox(0));
    // The root holds no object itself, so the walk goes on to its children.
    assert_eq!(structure.box_tested(&mut trace, Some(0)), TraceStep::TestBox(2));
    assert_eq!(structure.box_tested(&mut trace, Some(4)), TraceStep::TestObjects(2));
    // Node 2 holds the objects 3 and 2, in this order.
    assert_eq!(structure.objects_tested(&mut trace, &vec![Some(9), Some(9)]), TraceStep::TestBox(1));
    assert_eq!(trace.nearest(), Some(Hit { object: 3, distance: 9 }));
    // A box that is entered no nearer than the nearest hit is passed over.
    assert_eq!(structure.box_tested(&mut trace, Some(9)), TraceStep::Done);
    assert_eq!(trace.nearest(), Some(Hit { object: 3, distance: 9 }));
}

#[test]
fn a_nearer_box_is_entered_and_a_missed_box_is_not() {
    let objects = vec![cube(0, 0, 0, 1), cube(0, 10, 0, 1), cube(0, 20, 0, 1), cube(0, 30, 0, 1)];
    let mut structure = AccelerationStructure::new(objects);
    structure.generate(k3(0, 15, 0), k3(0, 15, 0));
    let mut trace = structure.trace_structure();
    structure.box_tested(&mut trace, Some(1));
    assert_eq!(structure.box_tested(&mut trace, None), TraceStep::TestBox(1));
    assert_eq!(structure.box_tested(&mut trace, Some(8)), TraceStep::TestObjects(1));
    assert_eq!(structure.objects_tested(&mut trace, &vec![None, Some(12)]), TraceStep::Done);
    assert_eq!(trace.nearest(), Some(Hit { object: 0, distance: 12 }));
}

#[test]
fn a_missed_root_ends_the_walk() {
    let structure = AccelerationStructure::new(vec![cube(0, 0, 0, 1)]);
    let mut trace = structure.trace_structure();
    assert_eq!(structure.box_tested(&mut trace, None), TraceStep::Done);
    assert_eq!(trace.nearest(), None);
}

#[test]
fn search_through_all_objects_keeps_the_first_of_equals() {
    let mut scene: Scene<(), (), u8> = Scene::new((), ());
    for object in 0..5u8 {
        scene.add_object(object);
    }
    assert_eq!(
        scene.trace_scene(&vec![None, Some(7), Some(3), Some(3), Some(9)]),
        Some(Hit { object: 2, distance: 3 })
    );
    assert_eq!(scene.trace_scene(&vec![None, None, None, None, None]), None);
    assert_eq!(
        scene.trace_scene(&vec![Some(i64::MIN), None, None, None, Some(i64::MIN)]),
        Some(Hit { object: 0, distance: i64::MIN })
    );
}

#[test]
fn scene_hands_out_indices_in_the_order_of_insertion() {
    let mut scene: Scene<&str, u8, char> = Scene::new("camera", 3);
    assert_eq!(scene.get_object_count(), 0);
    assert_eq!(scene.add_object('a'), 0);
    assert_eq!(scene.add_object('b'), 1);
    assert_eq!(scene.add_object('c'), 2);
    assert_eq!(scene.get_object_count(), 3);
    assert_eq!(*scene.get_object(0), 'a');
    assert_eq!(*scene.get_object(2), 'c');
    assert_eq!(scene.camera, "camera");
    assert_eq!(scene.sky, 3);
}

#[test]
fn a_node_can_be_left_whole() {
    let objects = vec![cube(5, 5, 5, 1); 4];
    let mut structure = AccelerationStructure::new(objects);
    assert_eq!(structure.pending(), Some(0));
    assert_eq!(structure.leave_whole(), None);
    assert_eq!(structure.pending(), None);
    assert_eq!(structure.node_count(), 1);
    assert_eq!(structure.node(0).renderables, vec![0, 1, 2, 3]);
    let (found, tests) = walk(&structure, k3(0, 5, 5));
    assert_eq!(found, Some(Hit { object: 0, distance: 4 }));
    assert_eq!(tests, 4);
}

#[test]
fn leaving_a_node_whole_moves_on_to_the_next_large_node() {
    let mut objects = vec![cube(0, 0, 0, 1); 3];
    objects.extend(vec![cube(100, 0, 0, 1); 3]);
    let mut structure = AccelerationStructure::new(objects);
    // The split parts the two heaps; neither heap can be parted further.
    assert_eq!(structure.generate(k3(50, 0, 0), k3(50, 0, 0)), Some(1));
    assert_eq!(structure.node(1).renderables, vec![2, 1, 0]);
    assert_eq!(structure.node(2).renderables, vec![5, 4, 3]);
    assert_eq!(structure.leave_whole(), Some(2));
    assert_eq!(structure.leave_whole(), None);
    assert_eq!(structure.node_count(), 3);
    let (found, _) = walk(&structure, k3(50, 0, 0));
    assert_eq!(found, Some(Hit { object: 5, distance: 49 }));
}
