// Tests of tree construction and of the two walks, with the outcomes of the
// geometric tests written out by hand.
use oktree::{Aabb, Branch, ElementId, Node, NodeId, NodeType, Octree, RayHits, TUVec3, VolumeHits};

fn v(x: u64, y: u64, z: u64) -> TUVec3 {
    TUVec3 { x, y, z }
}

fn sized(size: u64) -> Aabb {
    Aabb { min: v(0, 0, 0), max: v(size, size, size) }
}

fn leaf(size: u64, e: usize) -> Node {
    Node { aabb: sized(size), ntype: NodeType::Leaf(ElementId(e)) }
}

fn empty(size: u64) -> Node {
    Node { aabb: sized(size), ntype: NodeType::Empty }
}

fn branch(size: u64, children: [usize; 8]) -> Node {
    Node {
        aabb: sized(size),
        ntype: NodeType::Branch(Branch { children: children.map(NodeId) }),
    }
}

fn boxes(n: usize) -> Vec<Aabb> {
    (0..n).map(|_| sized(1)).collect()
}

/// Root 0 (size 8) holds leaves of elements 5, 2, 9 and 2 again, an empty
/// node, and branch 6 (size 4) whose children are leaves of elements 7 and 1
/// and empty nodes.
fn two_level_tree() -> Octree {
    let nodes = vec![
        branch(8, [1, 2, 3, 4, 5, 6, 5, 5]),
        leaf(1, 5),
        leaf(1, 2),
        leaf(1, 9),
        leaf(1, 2),
        empty(1),
        branch(4, [7, 8, 9, 9, 9, 9, 9, 9]),
        leaf(1, 7),
        leaf(1, 1),
        empty(1),
    ];
    Octree::from_parts(nodes, boxes(10), NodeId(0)).unwrap()
}

/// A chain of `depth` branches, each twice the size of the next; branch `k`
/// holds a leaf of element `k` first and the next branch last, so that a walk
/// stacks seven nodes per level and runs out of stack on the way down.
fn chain_tree(depth: usize) -> Octree {
    // node 0: shared empty node, node 1 + 2k: branch k, node 2 + 2k: leaf k
    let mut nodes = vec![empty(0)];
    for k in 0..depth {
        let size = 1u64 << (depth - k + 1);
        let next = if k + 1 < depth { 1 + 2 * (k + 1) } else { 0 };
        nodes.push(branch(size, [2 + 2 * k, 0, 0, 0, 0, 0, 0, next]));
        nodes.push(leaf(1, k));
    }
    Octree::from_parts(nodes, boxes(depth), NodeId(1)).unwrap()
}

fn ids(v: &[usize]) -> Vec<ElementId> {
    v.iter().map(|&e| ElementId(e)).collect()
}

#[test]
fn from_parts_accepts_a_well_formed_tree() {
    let tree = two_level_tree();
    assert_eq!(tree.root(), NodeId(0));
    assert_eq!(tree.nodes().len(), 10);
    assert_eq!(tree.elements().len(), 10);
    assert_eq!(tree.root_aabb(), sized(8));
}

#[test]
fn from_parts_rejects_a_root_outside_the_nodes() {
    assert!(Octree::from_parts(vec![empty(1)], vec![], NodeId(1)).is_none());
}

#[test]
fn from_parts_rejects_a_leaf_of_a_missing_element() {
    assert!(Octree::from_parts(vec![leaf(1, 0)], vec![], NodeId(0)).is_none());
    assert!(Octree::from_parts(vec![leaf(1, 0)], boxes(1), NodeId(0)).is_some());
}

#[test]
fn from_parts_rejects_a_missing_child() {
    let nodes = vec![branch(2, [1, 1, 1, 1, 1, 1, 1, 2]), empty(1)];
    assert!(Octree::from_parts(nodes, vec![], NodeId(0)).is_none());
}

#[test]
fn from_parts_rejects_a_child_no_smaller_than_its_parent() {
    let nodes = vec![branch(2, [1, 1, 1, 1, 1, 1, 1, 1]), empty(2)];
    assert!(Octree::from_parts(nodes, vec![], NodeId(0)).is_none());
    let cycle = vec![branch(2, [0, 0, 0, 0, 0, 0, 0, 0])];
    assert!(Octree::from_parts(cycle, vec![], NodeId(0)).is_none());
}

#[test]
fn aabb_size_is_the_x_extent() {
    assert_eq!(sized(6).size(), 6);
    let flat = Aabb { min: v(2, 0, 0), max: v(5, 9, 9) };
    assert_eq!(flat.size(), 3);
    let inverted = Aabb { min: v(5, 0, 0), max: v(2, 0, 0) };
    assert_eq!(inverted.size(), 0);
}

#[test]
fn intersect_reports_each_element_once_in_ascending_order() {
    let tree = two_level_tree();
    let hits = VolumeHits { nodes: vec![true; 10], elements: vec![true; 10] };
    assert_eq!(tree.intersect(&hits), ids(&[1, 2, 5, 7, 9]));
}

#[test]
fn intersect_skips_a_branch_the_volume_misses() {
    let tree = two_level_tree();
    let mut nodes = vec![true; 10];
    nodes[6] = false;
    let hits = VolumeHits { nodes, elements: vec![true; 10] };
    assert_eq!(tree.intersect(&hits), ids(&[2, 5, 9]));
}

#[test]
fn intersect_misses_everything_when_the_root_is_missed() {
    let tree = two_level_tree();
    let mut nodes = vec![true; 10];
    nodes[0] = false;
    let hits = VolumeHits { nodes, elements: vec![true; 10] };
    assert_eq!(tree.intersect(&hits), vec![]);
}

#[test]
fn intersect_tests_the_elements_not_the_leaf_boxes() {
    let tree = two_level_tree();
    let mut nodes = vec![false; 10];
    nodes[0] = true;
    nodes[6] = true;
    let mut elements = vec![true; 10];
    elements[9] = false;
    elements[1] = false;
    let hits = VolumeHits { nodes, elements };
    assert_eq!(tree.intersect(&hits), ids(&[2, 5, 7]));
}

#[test]
fn intersect_counts_missing_outcomes_as_misses() {
    let tree = two_level_tree();
    let hits = VolumeHits { nodes: vec![true; 10], elements: vec![true; 6] };
    assert_eq!(tree.intersect(&hits), ids(&[1, 2, 5]));
    let hits = VolumeHits { nodes: vec![], elements: vec![true; 10] };
    assert_eq!(tree.intersect(&hits), vec![]);
}

#[test]
fn intersect_walks_below_a_full_stack() {
    let tree = chain_tree(12);
    let hits = VolumeHits { nodes: vec![true; 25], elements: vec![true; 12] };
    assert_eq!(tree.intersect(&hits), ids(&(0..12).collect::<Vec<_>>()));
    let mut elements = vec![false; 12];
    elements[3] = true;
    elements[11] = true;
    let hits = VolumeHits { nodes: vec![true; 25], elements };
    assert_eq!(tree.intersect(&hits), ids(&[3, 11]));
}

#[test]
fn ray_cast_picks_the_nearest_element() {
    let tree = two_level_tree();
    let mut keys = vec![None; 10];
    keys[5] = Some(40);
    keys[2] = Some(30);
    keys[7] = Some(20);
    keys[9] = Some(50);
    let hits = RayHits { nodes: vec![true; 10], elements: keys.clone() };
    assert_eq!(tree.ray_cast(&hits), Some(ElementId(7)));
    let mut nodes = vec![true; 10];
    nodes[6] = false;
    let hits = RayHits { nodes, elements: keys };
    assert_eq!(tree.ray_cast(&hits), Some(ElementId(2)));
}

#[test]
fn ray_cast_tests_the_leaf_boxes_too() {
    let tree = two_level_tree();
    let mut keys = vec![None; 10];
    keys[5] = Some(40);
    keys[2] = Some(30);
    let mut nodes = vec![true; 10];
    nodes[2] = false;
    nodes[4] = false;
    let hits = RayHits { nodes, elements: keys };
    assert_eq!(tree.ray_cast(&hits), Some(ElementId(5)));
}

#[test]
fn ray_cast_misses_when_nothing_is_entered() {
    let tree = two_level_tree();
    let hits = RayHits { nodes: vec![true; 10], elements: vec![None; 10] };
    assert_eq!(tree.ray_cast(&hits), None);
    let mut nodes = vec![true; 10];
    nodes[0] = false;
    let hits = RayHits { nodes, elements: vec![Some(1); 10] };
    assert_eq!(tree.ray_cast(&hits), None);
    let hits = RayHits { nodes: vec![true; 10], elements: vec![] };
    assert_eq!(tree.ray_cast(&hits), None);
}

#[test]
fn ray_cast_among_equally_near_elements_gives_one_of_them() {
    let tree = two_level_tree();
    let mut keys = vec![None; 10];
    keys[5] = Some(10);
    keys[9] = Some(10);
    keys[7] = Some(12);
    let hits = RayHits { nodes: vec![true; 10], elements: keys };
    let hit = tree.ray_cast(&hits);
    assert!(hit == Some(ElementId(5)) || hit == Some(ElementId(9)));
}

#[test]
fn ray_cast_walks_below_a_full_stack() {
    let tree = chain_tree(12);
    let keys: Vec<Option<u32>> = (0..12).map(|k| Some(100 - k as u32)).collect();
    let hits = RayHits { nodes: vec![true; 25], elements: keys };
    assert_eq!(tree.ray_cast(&hits), Some(ElementId(11)));
    let keys: Vec<Option<u32>> = (0..12).map(|k| Some(100 + k as u32)).collect();
    let hits = RayHits { nodes: vec![true; 25], elements: keys };
    assert_eq!(tree.ray_cast(&hits), Some(ElementId(0)));
}

/// The tree of `two_level_tree`, with the volume of element 5 reaching
/// beyond the root's box.
fn two_level_tree_with_a_large_volume() -> Octree {
    let tree = two_level_tree();
    let mut elements = boxes(10);
    elements[5] = sized(20);
    Octree::from_parts(tree.nodes().clone(), elements, NodeId(0)).unwrap()
}

#[test]
fn intersect_enters_a_missed_box_that_does_not_hold_its_volumes() {
    let tree = two_level_tree_with_a_large_volume();
    let hits = VolumeHits { nodes: vec![false; 10], elements: vec![true; 10] };
    assert_eq!(tree.intersect(&hits), ids(&[2, 5, 9]));
}

#[test]
fn ray_cast_enters_a_missed_box_that_does_not_hold_its_volumes() {
    let tree = two_level_tree_with_a_large_volume();
    let mut keys = vec![None; 10];
    keys[5] = Some(3);
    keys[2] = Some(1);
    let hits = RayHits { nodes: vec![false; 10], elements: keys };
    assert_eq!(tree.ray_cast(&hits), Some(ElementId(5)));
}

#[test]
fn recursive_ray_cast_keeps_a_nearer_held_hit() {
    let tree = two_level_tree();
    let mut keys = vec![None; 10];
    keys[5] = Some(3);
    keys[7] = Some(2);
    let hits = RayHits { nodes: vec![true; 10], elements: keys };
    let mut hit = Some((42, 2));
    tree.recursive_ray_cast(0, &hits, &mut hit);
    assert_eq!(hit, Some((42, 2)));
    let mut hit = Some((42, 4));
    tree.recursive_ray_cast(0, &hits, &mut hit);
    assert_eq!(hit, Some((7, 2)));
    let mut hit = None;
    tree.recursive_ray_cast(6, &hits, &mut hit);
    assert_eq!(hit, Some((7, 2)));
}

#[test]
fn rintersect_appends_after_what_is_there() {
    let tree = two_level_tree();
    let hits = VolumeHits { nodes: vec![true; 10], elements: vec![true; 10] };
    let mut elements = vec![100, 5];
    tree.rintersect(6, &hits, &mut elements);
    assert_eq!(elements.len(), 4);
    assert_eq!(&elements[..2], &[100, 5]);
    let mut added = elements[2..].to_vec();
    added.sort();
    assert_eq!(added, vec![1, 7]);
    let mut all = vec![];
    tree.rintersect(0, &hits, &mut all);
    all.sort();
    assert_eq!(all, vec![1, 2, 2, 5, 7, 9]);
}
