use rstar::node::{ParentNodeData, RTreeNode};
use rstar::primitives::{PointWithData, Rectangle};
use rstar::{ParamsError, RTree, RTreeObject, RTreeParams, AABB};

fn pseudo_random_points(count: usize, seed: u64) -> Vec<[i32; 2]> {
    let mut state = seed;
    let mut points = Vec::with_capacity(count);
    for _ in 0..count {
        state = state.wrapping_mul(6364136223846793005).wrapping_add(1442695040888963407);
        let x = ((state >> 33) % 2001) as i32 - 1000;
        state = state.wrapping_mul(6364136223846793005).wrapping_add(1442695040888963407);
        let y = ((state >> 33) % 2001) as i32 - 1000;
        points.push([x, y]);
    }
    points
}

fn union_of<T: RTreeObject>(children: &[RTreeNode<T>]) -> AABB {
    let mut e = AABB::new_empty();
    for c in children {
        e = e.merged(&c.envelope());
    }
    e
}

/// Checks the shape of the subtree below `p` and returns its height and the
/// number of objects below it.
fn check_parent<T: RTreeObject>(
    p: &ParentNodeData<T>,
    is_root: bool,
    params: &RTreeParams,
) -> (usize, usize) {
    assert!(p.children.len() <= params.max_size);
    if !is_root {
        assert!(p.children.len() >= params.min_size);
    }
    assert_eq!(p.envelope, union_of(&p.children));
    let mut height = None;
    let mut count = 0;
    for c in &p.children {
        let (h, n) = match c {
            RTreeNode::Leaf(_) => (0, 1),
            RTreeNode::Parent(q) => check_parent(q, false, params),
        };
        match height {
            None => height = Some(h),
            Some(known) => assert_eq!(known, h),
        }
        count += n;
    }
    (height.unwrap_or(0) + 1, count)
}

fn check_tree<T: RTreeObject>(tree: &RTree<T>) {
    let (height, count) = check_parent(&tree.root, true, &tree.params);
    assert_eq!(height, tree.height);
    assert_eq!(count, tree.size());
    assert_eq!(tree.iter().count(), tree.size());
    if tree.height >= 2 {
        assert!(tree.root.children.len() >= 2);
    }
}

#[test]
fn test_create_rtree_with_parameters() {
    let params = RTreeParams { min_size: 10, max_size: 20, reinsertion_count: 3 };
    let tree: RTree<[i32; 2]> = RTree::new_with_params(params).unwrap();
    assert_eq!(tree.size(), 0);
}

#[test]
fn test_insert_single() {
    // The coordinates are hundredths: (0.02, 0.4) and (0.3, 0.2).
    let mut tree: RTree<[i32; 2]> = RTree::new();
    tree.insert([2, 40]);
    assert_eq!(tree.size(), 1);
    assert!(tree.contains(&[2, 40]));
    assert!(!tree.contains(&[30, 20]));
}

#[test]
fn test_insert_many() {
    const NUM_POINTS: usize = 1000;
    let points = pseudo_random_points(NUM_POINTS, 0x5eed_0001);
    let mut tree = RTree::new();
    for p in &points {
        tree.insert(*p);
    }
    assert_eq!(tree.size(), NUM_POINTS);
    for p in &points {
        assert!(tree.contains(p));
    }
}

#[test]
fn test_fmt_debug() {
    let tree = RTree::bulk_load(vec![[0, 1], [0, 1]]);
    let debug: String = tree.fmt();
    assert_eq!(debug, "RTree { size: 2, items: {[0, 1], [0, 1]} }");
}

#[test]
fn fmt_of_other_trees() {
    let empty: RTree<[i32; 2]> = RTree::new();
    assert_eq!(empty.fmt(), "RTree { size: 0, items: {} }");
    let one = RTree::bulk_load(vec![Rectangle::from_corners([0, 0], [1, 2])]);
    assert_eq!(
        one.fmt(),
        "RTree { size: 1, items: {Rectangle { first: [0, 0], second: [1, 2] }} }"
    );
    let three = RTree::bulk_load(vec![[1, 2], [3, 4], [-5, 6]]);
    assert_eq!(three.fmt(), "RTree { size: 3, items: {[1, 2], [3, 4], [-5, 6]} }");
}

#[test]
fn insert_many_keeps_the_tree_in_shape() {
    let points = pseudo_random_points(600, 0x5eed_0002);
    let mut tree = RTree::new();
    for (i, p) in points.iter().enumerate() {
        tree.insert(*p);
        if i % 37 == 0 {
            check_tree(&tree);
        }
    }
    check_tree(&tree);
    assert!(tree.height >= 3);
    let everything = AABB::from_corners([-1000, -1000], [1000, 1000]);
    assert_eq!(tree.locate_in_envelope(&everything).count(), 600);
}

#[test]
fn insert_with_other_parameters_keeps_the_tree_in_shape() {
    let params = RTreeParams::new(2, 4, 3).unwrap();
    let mut tree = RTree::new_with_params(params).unwrap();
    let points = pseudo_random_points(300, 0x5eed_0003);
    for p in &points {
        tree.insert(*p);
        check_tree(&tree);
    }
    for p in &points {
        assert!(tree.contains(p));
    }
}

#[test]
fn empty_tree_has_no_nearest_neighbor() {
    let tree: RTree<[i32; 2]> = RTree::new();
    assert_eq!(tree.size(), 0);
    assert_eq!(tree.nearest_neighbor(&[0, 0]), None);
    assert!(tree.nearest_neighbor_iter(&[0, 0]).next().is_none());
    assert!(tree.iter().next().is_none());
    check_tree(&tree);
}

#[test]
fn nearest_neighbor_after_insert_and_remove() {
    // The coordinates are tenths.
    let mut tree = RTree::new();
    tree.insert([1, 0]);
    tree.insert([2, 1]);
    tree.insert([3, 0]);
    assert_eq!(tree.nearest_neighbor(&[4, -1]), Some(&[3, 0]));
    assert_eq!(tree.remove(&[3, 0]), Some([3, 0]));
    assert_eq!(tree.nearest_neighbor(&[4, 3]), Some(&[2, 1]));
    assert_eq!(tree.size(), 2);
    check_tree(&tree);
}

#[test]
fn bulk_load_and_locate_in_envelope() {
    // The coordinates are halves.
    let tree = RTree::bulk_load(vec![[0, 0], [0, 2], [2, 2]]);
    let half_unit_square = AABB::from_corners([0, 0], [1, 2]);
    let unit_square = AABB::from_corners([0, 0], [2, 2]);
    assert_eq!(tree.locate_in_envelope(&half_unit_square).count(), 2);
    assert_eq!(tree.locate_in_envelope(&unit_square).count(), 3);
    check_tree(&tree);
}

#[test]
fn bulk_load_many() {
    let points = pseudo_random_points(1000, 0x5eed_0004);
    let tree = RTree::bulk_load(points.clone());
    assert_eq!(tree.size(), 1000);
    for p in &points {
        assert!(tree.contains(p));
    }
    check_tree(&tree);
    assert_eq!(tree.height, 4);
}

#[test]
fn bulk_load_of_every_size_is_in_shape() {
    for n in 0..260 {
        let points = pseudo_random_points(n, 0x5eed_0100 + n as u64);
        let tree = RTree::bulk_load(points.clone());
        assert_eq!(tree.size(), n);
        check_tree(&tree);
        let mut listed: Vec<[i32; 2]> = tree.iter().collect().into_iter().copied().collect();
        let mut given = points;
        listed.sort();
        given.sort();
        assert_eq!(listed, given);
    }
}

#[test]
fn bulk_load_edge_cases() {
    let empty: RTree<[i32; 2]> = RTree::bulk_load(Vec::new());
    assert_eq!(empty.size(), 0);
    assert_eq!(empty.root.children.len(), 0);
    assert_eq!(empty.height, 1);
    let one = RTree::bulk_load(vec![[5, 6]]);
    assert_eq!(one.size(), 1);
    assert_eq!(one.root.children.len(), 1);
    assert!(matches!(one.root.children[0], RTreeNode::Leaf([5, 6])));
    let seven = RTree::bulk_load(pseudo_random_points(7, 9));
    assert_eq!(seven.height, 2);
    assert_eq!(seven.root.children.len(), 2);
    check_tree(&seven);
}

#[test]
fn bulk_load_with_other_parameters() {
    let params = RTreeParams { min_size: 2, max_size: 5, reinsertion_count: 1 };
    let points = pseudo_random_points(333, 77);
    let tree = RTree::bulk_load_with_params(points.clone(), params).unwrap();
    assert_eq!(tree.size(), 333);
    check_tree(&tree);
    let bad = RTreeParams { min_size: 1, max_size: 5, reinsertion_count: 1 };
    assert!(matches!(
        RTree::bulk_load_with_params(points, bad),
        Err(ParamsError::MinSizeTooSmall)
    ));
}

#[test]
fn bulk_load_holds_what_insertions_hold() {
    let points = pseudo_random_points(200, 0x5eed_0005);
    let loaded = RTree::bulk_load(points.clone());
    let mut grown = RTree::new();
    for p in &points {
        grown.insert(*p);
    }
    let mut a: Vec<[i32; 2]> = loaded.iter().collect().into_iter().copied().collect();
    let mut b: Vec<[i32; 2]> = grown.iter().collect().into_iter().copied().collect();
    a.sort();
    b.sort();
    assert_eq!(a, b);
}

#[test]
fn remove_a_point_twice_inserted() {
    let mut tree = RTree::new();
    tree.insert([0, 2]);
    tree.insert([0, 2]);
    assert!(tree.remove(&[0, 2]).is_some());
    assert!(tree.remove(&[0, 2]).is_some());
    assert!(tree.remove(&[0, 2]).is_none());
    assert_eq!(tree.size(), 0);
}

#[test]
fn overlapping_rectangles() {
    let mut tree = RTree::bulk_load(vec![
        Rectangle::from_corners([0, 0], [2, 2]),
        Rectangle::from_corners([1, 1], [3, 3]),
    ]);
    // The coordinates of the probes are halves: (1.5, 1.5) lies in both.
    let mut doubled = RTree::bulk_load(vec![
        Rectangle::from_corners([0, 0], [4, 4]),
        Rectangle::from_corners([2, 2], [6, 6]),
    ]);
    assert_eq!(doubled.locate_all_at_point(&[3, 3]).count(), 2);
    assert_eq!(doubled.locate_all_at_point(&[0, 0]).count(), 1);
    assert_eq!(doubled.locate_all_at_point(&[-2, 0]).count(), 0);
    assert!(doubled.locate_at_point(&[3, 3]).is_some());
    assert!(doubled.locate_at_point(&[-2, 0]).is_none());
    assert!(doubled.remove_at_point(&[3, 3]).is_some());
    assert!(doubled.remove_at_point(&[3, 3]).is_some());
    assert!(doubled.remove_at_point(&[3, 3]).is_none());
    assert_eq!(tree.locate_all_at_point(&[1, 1]).count(), 2);
    assert_eq!(tree.locate_all_at_point(&[0, 0]).count(), 1);
    assert_eq!(
        tree.remove_at_point(&[3, 3]),
        Some(Rectangle::from_corners([1, 1], [3, 3]))
    );
    assert_eq!(tree.size(), 1);
}

#[test]
fn remove_everything_in_turn() {
    let points = pseudo_random_points(400, 0x5eed_0006);
    let mut tree = RTree::bulk_load(points.clone());
    for (i, p) in points.iter().enumerate() {
        assert_eq!(tree.remove(p), Some(*p));
        assert_eq!(tree.size(), 400 - i - 1);
        if i % 17 == 0 {
            check_tree(&tree);
        }
    }
    check_tree(&tree);
    assert_eq!(tree.height, 1);
    assert!(tree.remove(&points[0]).is_none());
}

#[test]
fn remove_from_a_grown_tree_keeps_it_in_shape() {
    let params = RTreeParams::new(2, 4, 2).unwrap();
    let mut tree = RTree::new_with_params(params).unwrap();
    let points = pseudo_random_points(250, 0x5eed_0007);
    for p in &points {
        tree.insert(*p);
    }
    for p in points.iter().rev() {
        assert!(tree.contains(p));
        assert_eq!(tree.remove(p), Some(*p));
        check_tree(&tree);
    }
    assert_eq!(tree.size(), 0);
}

#[test]
fn insert_then_remove_restores_the_size() {
    let mut tree = RTree::bulk_load(pseudo_random_points(50, 3));
    let before = tree.size();
    tree.insert([5000, 5000]);
    assert!(tree.contains(&[5000, 5000]));
    assert_eq!(tree.size(), before + 1);
    assert_eq!(tree.remove(&[5000, 5000]), Some([5000, 5000]));
    assert_eq!(tree.size(), before);
    assert!(!tree.contains(&[5000, 5000]));
}

#[test]
fn remove_takes_the_first_of_the_walk() {
    let mut tree = RTree::bulk_load(pseudo_random_points(120, 11));
    let sel = rstar::selection::SelectInEnvelopeFunction::new(AABB::from_corners(
        [-300, -300],
        [300, 300],
    ));
    loop {
        let expected = tree
            .locate_in_envelope(&AABB::from_corners([-300, -300], [300, 300]))
            .next()
            .copied();
        let removed = tree.remove_with_selector(&sel);
        assert_eq!(removed, expected);
        if removed.is_none() {
            break;
        }
        check_tree(&tree);
    }
}

#[test]
fn nearest_neighbor_is_the_minimum() {
    let points = pseudo_random_points(500, 0x5eed_0008);
    let tree = RTree::bulk_load(points.clone());
    for q in pseudo_random_points(100, 0x5eed_0009) {
        let best = points
            .iter()
            .map(|p| rstar::point::distance_2(p, &q))
            .min()
            .unwrap();
        let found = tree.nearest_neighbor(&q).unwrap();
        assert_eq!(rstar::point::distance_2(found, &q), best);
    }
    assert_eq!(RTree::bulk_load(vec![[0, 0], [0, 1]]).nearest_neighbor(&[-1, 0]), Some(&[0, 0]));
    assert_eq!(RTree::bulk_load(vec![[0, 0], [0, 1]]).nearest_neighbor(&[0, 2]), Some(&[0, 1]));
}

#[test]
fn nearest_neighbor_iter_is_sorted_and_complete() {
    let points = pseudo_random_points(300, 0x5eed_000a);
    let mut tree = RTree::new();
    for p in &points {
        tree.insert(*p);
    }
    let q = [17, -4];
    let in_order = tree.nearest_neighbor_iter(&q).collect();
    assert_eq!(in_order.len(), 300);
    let mut expected: Vec<i128> = points.iter().map(|p| rstar::point::distance_2(p, &q)).collect();
    expected.sort();
    let got: Vec<i128> = in_order.iter().map(|p| rstar::point::distance_2(p, &q)).collect();
    assert_eq!(got, expected);
    let two = RTree::bulk_load(vec![[0, 0], [0, 2]]);
    let mut it = two.nearest_neighbor_iter(&[1, 0]);
    assert_eq!(it.next(), Some(&[0, 0]));
    assert_eq!(it.next(), Some(&[0, 2]));
    assert_eq!(it.next(), None);
}

#[test]
fn nearest_rectangle() {
    let tree = RTree::bulk_load(vec![
        Rectangle::from_corners([0, 0], [2, 2]),
        Rectangle::from_corners([10, 10], [12, 13]),
    ]);
    assert_eq!(
        tree.nearest_neighbor(&[9, 9]),
        Some(&Rectangle::from_corners([10, 10], [12, 13]))
    );
    assert_eq!(tree.nearest_neighbor(&[1, 1]), Some(&Rectangle::from_corners([0, 0], [2, 2])));
}

#[test]
fn envelope_queries_are_exact() {
    let points = pseudo_random_points(400, 0x5eed_000b);
    let tree = RTree::bulk_load(points.clone());
    let e = AABB::from_corners([-250, -100], [300, 420]);
    let mut inside: Vec<[i32; 2]> = tree.locate_in_envelope(&e).collect().into_iter().copied().collect();
    let mut expected: Vec<[i32; 2]> =
        points.iter().copied().filter(|p| e.contains_point(p)).collect();
    inside.sort();
    expected.sort();
    assert_eq!(inside, expected);
    let rects: Vec<Rectangle> = points
        .iter()
        .map(|p| Rectangle::from_corners(*p, [p[0] + 40, p[1] + 25]))
        .collect();
    let rect_tree = RTree::bulk_load(rects.clone());
    let touching = rect_tree.locate_in_envelope_intersecting(&e).count();
    let expected_touching = rects.iter().filter(|r| e.intersects(&r.envelope())).count();
    assert_eq!(touching, expected_touching);
    let within = rect_tree.locate_in_envelope(&e).count();
    let expected_within = rects.iter().filter(|r| e.contains_envelope(&r.envelope())).count();
    assert_eq!(within, expected_within);
    assert!(expected_within < expected_touching);
}

#[test]
fn parameters_are_checked() {
    assert_eq!(RTreeParams::new(1, 6, 2), Err(ParamsError::MinSizeTooSmall));
    assert_eq!(RTreeParams::new(3, 5, 2), Err(ParamsError::MaxSizeTooSmall));
    assert_eq!(RTreeParams::new(3, 6, 0), Err(ParamsError::ReinsertionCountOutOfRange));
    assert_eq!(RTreeParams::new(3, 6, 5), Err(ParamsError::ReinsertionCountOutOfRange));
    assert!(RTreeParams::new(3, 6, 4).is_ok());
    assert_eq!(
        RTreeParams::default(),
        RTreeParams { min_size: 3, max_size: 6, reinsertion_count: 2 }
    );
    let bad = RTreeParams { min_size: 3, max_size: 6, reinsertion_count: 9 };
    assert!(matches!(
        RTree::<[i32; 2]>::new_with_params(bad),
        Err(ParamsError::ReinsertionCountOutOfRange)
    ));
    let worse = RTreeParams { min_size: 0, max_size: 1, reinsertion_count: 9 };
    assert_eq!(worse.check(), Err(ParamsError::MinSizeTooSmall));
}

#[test]
fn walks_can_be_left_and_taken_up() {
    let tree = RTree::bulk_load(vec![[0, 0], [1, 1], [2, 2], [3, 3]]);
    let mut walk = tree.iter();
    let first = *walk.next().unwrap();
    let second = *walk.next().unwrap();
    assert_ne!(first, second);
    let rest = walk.collect();
    assert_eq!(rest.len(), 2);
    let mut all = vec![first, second, *rest[0], *rest[1]];
    all.sort();
    assert_eq!(all, vec![[0, 0], [1, 1], [2, 2], [3, 3]]);
    let listed: Vec<[i32; 2]> = tree.iter().collect().into_iter().copied().collect();
    assert_eq!(listed, vec![[0, 0], [1, 1], [2, 2], [3, 3]]);
}

#[test]
fn root_accessors() {
    let mut tree = RTree::bulk_load(vec![[1, 2], [3, 4]]);
    assert_eq!(rstar::rtree::root(&tree).children.len(), 2);
    assert_eq!(rstar::rtree::root_mut(&mut tree).children.len(), 2);
    assert_eq!(
        rstar::rtree::root(&tree).envelope,
        AABB::from_corners([1, 2], [3, 4])
    );
}

fn towns(count: usize) -> Vec<PointWithData<u32>> {
    pseudo_random_points(count, 0x5eed_0200)
        .into_iter()
        .enumerate()
        .map(|(i, at)| PointWithData::new(i as u32, at))
        .collect()
}

#[test]
fn iter_mut_reaches_every_object() {
    let mut tree = RTree::bulk_load(towns(150));
    let before: Vec<PointWithData<u32>> = tree.iter().collect().into_iter().copied().collect();
    let refs = tree.iter_mut();
    assert_eq!(refs.len(), 150);
    for (r, b) in refs.into_iter().zip(before.iter()) {
        assert_eq!(r.position(), b.position());
        assert_eq!(r.data, b.data);
        r.data += 1000;
    }
    check_tree(&tree);
    let after: Vec<PointWithData<u32>> = tree.iter().collect().into_iter().copied().collect();
    for (a, b) in after.iter().zip(before.iter()) {
        assert_eq!(a.position(), b.position());
        assert_eq!(a.data, b.data + 1000);
    }
}

#[test]
fn located_objects_can_be_changed() {
    let all = towns(200);
    let mut tree = RTree::new();
    for t in &all {
        tree.insert(*t);
    }
    let e = AABB::from_corners([-400, -400], [400, 400]);
    let inside = all.iter().filter(|t| e.contains_point(t.position())).count();
    let refs = tree.locate_in_envelope_mut(&e);
    assert_eq!(refs.len(), inside);
    for r in refs {
        r.data = 7;
    }
    let touching = tree.locate_in_envelope_intersecting_mut(&e);
    assert_eq!(touching.len(), inside);
    for r in touching {
        assert_eq!(r.data, 7);
        r.data = 8;
    }
    check_tree(&tree);
    for t in tree.iter().collect() {
        if e.contains_point(t.position()) {
            assert_eq!(t.data, 8);
        } else {
            assert!(t.data < 200);
        }
    }
    let target = *all[17].position();
    let here = tree.locate_all_at_point_mut(&target);
    assert!(!here.is_empty());
    for r in here {
        r.data = 99;
    }
    assert_eq!(tree.locate_at_point(&target).unwrap().data, 99);
    match tree.locate_at_point_mut(&target) {
        Some(t) => t.data = 100,
        None => panic!("a town is there"),
    }
    assert_eq!(tree.locate_at_point(&target).unwrap().data, 100);
    assert!(tree.locate_at_point_mut(&[5000, 5000]).is_none());
    assert_eq!(*tree.nearest_neighbor(&target).unwrap().position(), target);
    check_tree(&tree);
}
