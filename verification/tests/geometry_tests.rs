use rstar::heap::{heap_pop, heap_push};
use rstar::insertion::{choose_subtree, NodeKey};
use rstar::node::{ParentNodeData, RTreeNode};
use rstar::primitives::{LineWithData, Rectangle};
use rstar::sort::sort_by_key;
use rstar::{ObjectEq, PointDistance, RTreeObject, AABB};

#[test]
fn length_2() {
    let line = LineWithData::new(1usize, [1, -1], [5, 5]);
    assert_eq!(line.length_2(), 16 + 36);
}

#[test]
fn line_projection_and_distance() {
    let edge = LineWithData::new(1usize, [1, 1], [1, 4]);
    assert_eq!(edge.project_point(&[1, 1]), 0);
    assert_eq!(edge.project_point(&[0, 0]), 0);
    assert_eq!(edge.project_point(&[2, 6]), 1);
    assert_eq!(edge.project_point(&[2, 12]), 3);
    assert_eq!(edge.project_point(&[2, -11]), -4);
    assert_eq!(edge.nearest_point(&[0, 0]), [1, 1]);
    assert_eq!(edge.nearest_point(&[2, 6]), [1, 4]);
    assert_eq!(edge.distance_2(&[1, 1]), 0);
    assert_eq!(edge.distance_2(&[0, 1]), 1);
    assert_eq!(edge.distance_2(&[0, 0]), 2);
    assert_eq!(edge.distance_2(&[2, 6]), 1 + 4);
    assert_eq!(edge.envelope(), AABB::from_corners([1, 1], [1, 4]));
    assert!(edge.same_object(&LineWithData::new(1usize, [1, 1], [1, 4])));
    assert!(!edge.same_object(&LineWithData::new(2usize, [1, 1], [1, 4])));
}

#[test]
fn envelope_arithmetic() {
    let a = AABB::from_corners([4, 1], [0, 3]);
    assert_eq!(a.lower, [0, 1]);
    assert_eq!(a.upper, [4, 3]);
    assert_eq!(a.lower_at(0), 0);
    assert_eq!(a.upper_at(1), 3);
    assert_eq!(a.area(), 8);
    assert_eq!(a.margin_value(), 6);
    assert_eq!(a.perimeter_value(), 6);
    assert_eq!(a.center(), [2, 2]);
    assert_eq!(AABB::from_corners([0, 0], [3, -3]).center(), [1, -2]);
    assert_eq!(a.center_key(0), 4);
    let b = AABB::from_corners([2, 2], [6, 5]);
    assert_eq!(a.merged(&b), AABB::from_corners([0, 1], [6, 5]));
    assert_eq!(a.intersection_area(&b), 2);
    assert!(a.intersects(&b));
    assert!(!a.contains_envelope(&b));
    assert!(a.merged(&b).contains_envelope(&a));
    let far = AABB::from_corners([10, 10], [11, 11]);
    assert!(!a.intersects(&far));
    assert_eq!(a.intersection_area(&far), 0);
    assert!(a.contains_point(&[4, 3]));
    assert!(!a.contains_point(&[5, 3]));
    assert_eq!(a.min_distance_2_to_point(&[2, 2]), 0);
    assert_eq!(a.min_distance_2_to_point(&[7, 7]), 9 + 16);
    assert_eq!(a.min_distance_2_to_point(&[-2, 2]), 4);
    assert_eq!(a.distance_2_to_envelope_corners(&[0, 0]), (1, 25));
    let mut grown = a;
    grown.merge(&far);
    assert_eq!(grown, AABB::from_corners([0, 1], [11, 11]));
}

#[test]
fn empty_envelope_is_neutral() {
    let empty = AABB::new_empty();
    assert_eq!(empty.lower, [i32::MAX, i32::MAX]);
    assert_eq!(empty.upper, [i32::MIN, i32::MIN]);
    assert_eq!(empty.area(), 0);
    assert_eq!(empty.margin_value(), 0);
    let a = AABB::from_corners([-5, 2], [7, 9]);
    assert_eq!(empty.merged(&a), a);
    assert_eq!(a.merged(&empty), a);
    assert_eq!(AABB::from_point([3, 4]), AABB::from_corners([3, 4], [3, 4]));
}

#[test]
fn envelope_at_the_limits() {
    let whole = AABB::from_corners([i32::MIN, i32::MIN], [i32::MAX, i32::MAX]);
    assert_eq!(whole.area(), 0xffff_ffffi128 * 0xffff_ffffi128);
    assert_eq!(whole.margin_value(), 2 * 0xffff_ffffi128);
    assert_eq!(whole.center(), [-1, -1]);
    let corner = AABB::from_point([i32::MIN, i32::MIN]);
    assert_eq!(
        corner.min_distance_2_to_point(&[i32::MAX, i32::MAX]),
        2 * 0xffff_ffffi128 * 0xffff_ffffi128
    );
}

#[test]
fn point_and_rectangle_objects() {
    let p = [3, -4];
    assert_eq!(p.envelope(), AABB::from_point(p));
    assert_eq!(p.distance_2(&[0, 0]), 25);
    assert!(p.contains_point(&[3, -4]));
    assert!(!p.contains_point(&[3, 4]));
    assert!(p.same_object(&[3, -4]));
    let r = Rectangle::from_corners([2, 5], [0, 1]);
    assert_eq!(r.envelope(), AABB::from_corners([0, 1], [2, 5]));
    assert_eq!(r.distance_2(&[1, 2]), 0);
    assert_eq!(r.distance_2(&[5, 9]), 9 + 16);
    assert!(r.contains_point(&[2, 5]));
    assert!(!r.same_object(&Rectangle::from_corners([0, 1], [2, 5])));
}

#[test]
fn heap_hands_out_in_order() {
    let mut heap: Vec<(i128, usize)> = Vec::new();
    let keys = [5i128, 3, 9, 1, 7, 3, 8, 2, 6, 4, 0, 11];
    for (i, k) in keys.iter().enumerate() {
        heap_push(&mut heap, (*k, i));
    }
    let mut out = Vec::new();
    while let Some(e) = heap_pop(&mut heap) {
        assert_eq!(keys[e.1], e.0);
        out.push(e.0);
    }
    assert_eq!(out, vec![0, 1, 2, 3, 3, 4, 5, 6, 7, 8, 9, 11]);
    assert_eq!(heap_pop(&mut heap), None);
}

#[test]
fn nodes_are_ordered_by_key() {
    let nodes: Vec<RTreeNode<[i32; 2]>> =
        vec![[5, 1], [2, 9], [8, 3], [1, 7]].into_iter().map(RTreeNode::Leaf).collect();
    let by_x = sort_by_key(nodes, &NodeKey::Lower(0));
    let xs: Vec<i32> = by_x.iter().map(|n| n.envelope().lower[0]).collect();
    assert_eq!(xs, vec![1, 2, 5, 8]);
    let by_y = sort_by_key(by_x, &NodeKey::Upper(1));
    let ys: Vec<i32> = by_y.iter().map(|n| n.envelope().lower[1]).collect();
    assert_eq!(ys, vec![1, 3, 7, 9]);
    let whole = AABB::from_corners([0, 0], [10, 10]);
    let outward = sort_by_key(by_y, &NodeKey::Farthest(whole));
    let order: Vec<[i32; 2]> = outward.iter().map(|n| n.envelope().lower).collect();
    assert_eq!(order, vec![[2, 9], [1, 7], [5, 1], [8, 3]]);
}

#[test]
fn subtree_of_least_enlargement_is_chosen() {
    let left = ParentNodeData::new_parent(vec![RTreeNode::Leaf([0, 0]), RTreeNode::Leaf([2, 2])]);
    let right =
        ParentNodeData::new_parent(vec![RTreeNode::Leaf([10, 10]), RTreeNode::Leaf([14, 14])]);
    let node = ParentNodeData::new_parent(vec![RTreeNode::Parent(left), RTreeNode::Parent(right)]);
    assert_eq!(choose_subtree(&node, &AABB::from_point([3, 3]), true), 0);
    assert_eq!(choose_subtree(&node, &AABB::from_point([9, 9]), true), 1);
    assert_eq!(choose_subtree(&node, &AABB::from_point([12, 12]), false), 1);
    assert_eq!(choose_subtree(&node, &AABB::from_point([1, 1]), false), 0);
}

#[test]
fn lines_in_a_tree() {
    let line_1 = LineWithData::new(1usize, [0, 0], [10, 10]);
    let line_2 = LineWithData::new(2usize, [0, 0], [-10, 10]);
    let tree = rstar::RTree::bulk_load(vec![line_1, line_2]);
    assert!(tree.contains(&line_1));
    assert!(!tree.contains(&LineWithData::new(3usize, [0, 0], [10, 10])));
    assert_eq!(tree.nearest_neighbor(&[-9, 12]), Some(&line_2));
    assert_eq!(tree.nearest_neighbor(&[12, 9]), Some(&line_1));
    assert_eq!(tree.locate_all_at_point(&[0, 0]).count(), 2);
    assert_eq!(tree.locate_all_at_point(&[10, 10]).count(), 1);
    assert_eq!(tree.locate_all_at_point(&[5, 5]).count(), 0);
    let dot = LineWithData::new(0usize, [3, 4], [3, 4]);
    assert_eq!(PointDistance::distance_2(&dot, &[0, 0]), 25);
    assert!(PointDistance::contains_point(&dot, &[3, 4]));
}

#[test]
fn levels_are_marked_once() {
    let mut levels = rstar::insertion::ReinsertedLevels::new();
    assert_eq!(levels.flags.len(), 64);
    assert!(levels.try_mark(3));
    assert!(!levels.try_mark(3));
    assert!(levels.try_mark(63));
    assert!(!levels.try_mark(64));
    assert!(!levels.try_mark(usize::MAX));
    assert_eq!(levels.flags.iter().filter(|f| **f).count(), 2);
}
