// Scenario tests for ray casts and volume queries: the geometric tests are
// made here in f32, with the usual slab and closest-point methods, and the
// tree's walks run on their outcomes.
use oktree::{Aabb, Branch, ElementId, Node, NodeId, NodeType, Octree, RayHits, TUVec3, VolumeHits};

fn v(x: u64, y: u64, z: u64) -> TUVec3 {
    TUVec3 { x, y, z }
}

fn cube(center: TUVec3, half: u64) -> Aabb {
    Aabb {
        min: v(center.x - half, center.y - half, center.z - half),
        max: v(center.x + half, center.y + half, center.z + half),
    }
}

fn unit(p: TUVec3) -> Aabb {
    Aabb { min: p, max: v(p.x + 1, p.y + 1, p.z + 1) }
}

/// A root branch over `root` whose first children are leaves holding the
/// present elements (each leaf's box is its element's volume); the other
/// children are empty.
fn flat_tree(root: Aabb, elements: &[Aabb], present: &[bool]) -> Octree {
    let mut nodes = vec![Node { aabb: root, ntype: NodeType::Empty }];
    let mut children = [NodeId(0); 8];
    for (i, child) in children.iter_mut().enumerate() {
        let node = if i < elements.len() && present[i] {
            Node { aabb: elements[i], ntype: NodeType::Leaf(ElementId(i)) }
        } else {
            Node { aabb: unit(root.min), ntype: NodeType::Empty }
        };
        *child = NodeId(nodes.len());
        nodes.push(node);
    }
    nodes[0].ntype = NodeType::Branch(Branch { children });
    Octree::from_parts(nodes, elements.to_vec(), NodeId(0)).unwrap()
}

fn to_f(p: TUVec3) -> [f32; 3] {
    [p.x as f32, p.y as f32, p.z as f32]
}

struct Ray {
    origin: [f32; 3],
    dir: [f32; 3],
    max: f32,
}

fn neg(d: [f32; 3]) -> [f32; 3] {
    [-d[0], -d[1], -d[2]]
}

const UNIT_X: [f32; 3] = [1.0, 0.0, 0.0];
const UNIT_Y: [f32; 3] = [0.0, 1.0, 0.0];

/// Where the ray enters the box, if it does within its length.
fn ray_box(ray: &Ray, b: &Aabb) -> Option<f32> {
    let (lo, hi) = (to_f(b.min), to_f(b.max));
    let mut tmin = f32::NEG_INFINITY;
    let mut tmax = f32::INFINITY;
    for a in 0..3 {
        let recip = 1.0 / ray.dir[a];
        let (near, far) = if ray.dir[a].is_sign_positive() { (lo[a], hi[a]) } else { (hi[a], lo[a]) };
        tmin = tmin.max((near - ray.origin[a]) * recip);
        tmax = tmax.min((far - ray.origin[a]) * recip);
    }
    let tmin = tmin.max(0.0);
    let tmax = tmax.min(ray.max);
    if tmin <= tmax {
        Some(tmin)
    } else {
        None
    }
}

fn distance_key(d: f32) -> u32 {
    let d = if d == 0.0 { 0.0 } else { d };
    let bits = d.to_bits();
    if bits >> 31 == 1 {
        !bits
    } else {
        bits | 0x8000_0000
    }
}

/// The element hit and the distance to it, `(None, 0.0)` for a miss.
fn cast(tree: &Octree, ray: &Ray) -> (Option<ElementId>, f32) {
    let distances: Vec<Option<f32>> = tree.elements().iter().map(|b| ray_box(ray, b)).collect();
    let hits = RayHits {
        nodes: tree.nodes().iter().map(|n| ray_box(ray, &n.aabb).is_some()).collect(),
        elements: distances.iter().map(|d| d.map(distance_key)).collect(),
    };
    match tree.ray_cast(&hits) {
        Some(e) => (Some(e), distances[e.0].unwrap()),
        None => (None, 0.0),
    }
}

fn box_touches(center: [f32; 3], half: [f32; 3], b: &Aabb) -> bool {
    let (lo, hi) = (to_f(b.min), to_f(b.max));
    (0..3).all(|a| center[a] - half[a] <= hi[a] && center[a] + half[a] >= lo[a])
}

fn sphere_touches(center: [f32; 3], radius: f32, b: &Aabb) -> bool {
    let (lo, hi) = (to_f(b.min), to_f(b.max));
    let d2: f32 = (0..3)
        .map(|a| {
            let c = center[a].clamp(lo[a], hi[a]);
            (c - center[a]) * (c - center[a])
        })
        .sum();
    d2 <= radius * radius
}

fn intersect_box(tree: &Octree, center: [f32; 3], half: [f32; 3]) -> Vec<ElementId> {
    let hits = VolumeHits {
        nodes: tree.nodes().iter().map(|n| box_touches(center, half, &n.aabb)).collect(),
        elements: tree.elements().iter().map(|b| box_touches(center, half, b)).collect(),
    };
    tree.intersect(&hits)
}

fn intersect_sphere(tree: &Octree, center: [f32; 3], radius: f32) -> Vec<ElementId> {
    let hits = VolumeHits {
        nodes: tree.nodes().iter().map(|n| sphere_touches(center, radius, &n.aabb)).collect(),
        elements: tree.elements().iter().map(|b| sphere_touches(center, radius, b)).collect(),
    };
    tree.intersect(&hits)
}

#[test]
fn test_ray_intersection() {
    let root = cube(v(4, 4, 4), 4);
    let cells = [unit(v(3, 1, 1)), unit(v(1, 5, 1))];
    let tree = flat_tree(root, &cells, &[true, true]);

    // hit 2nd
    let ray = Ray { origin: [1.5, 1.5, 1.5], dir: UNIT_Y, max: 10.0 };
    assert_eq!(cast(&tree, &ray), (Some(ElementId(1)), 3.5));

    // miss
    let ray = Ray { origin: [0.0, 0.0, 0.0], dir: UNIT_Y, max: 10.0 };
    assert_eq!(cast(&tree, &ray), (None, 0.0));

    // hit 1st
    let ray = Ray { origin: [0.0, 1.05, 1.05], dir: UNIT_X, max: 10.0 };
    assert_eq!(cast(&tree, &ray), (Some(ElementId(0)), 3.0));

    // miss
    let ray = Ray { origin: [40.0, 40.0, 40.0], dir: UNIT_X, max: 10.0 };
    assert_eq!(cast(&tree, &ray), (None, 0.0));

    let ray = Ray { origin: [7.0, 5.9, 1.01], dir: neg(UNIT_X), max: 10.0 };
    assert_eq!(cast(&tree, &ray), (Some(ElementId(1)), 5.0));

    // miss
    let ray = Ray { origin: [1.01, 1.01, 1.01], dir: neg(UNIT_X), max: 10.0 };
    assert_eq!(cast(&tree, &ray), (None, 0.0));

    // hit 1st
    let ray = Ray { origin: [3.05, 10.0, 1.05], dir: neg(UNIT_Y), max: 10.0 };
    assert_eq!(cast(&tree, &ray), (Some(ElementId(0)), 8.0));
}

#[test]
fn intersect_point_volume() {
    let root = cube(v(16, 16, 16), 16);
    let cells = [unit(v(3, 1, 1)), unit(v(1, 5, 1)), unit(v(1, 1, 7))];
    let tree = flat_tree(root, &cells, &[true, true, true]);

    let mut test = intersect_box(&tree, [0.0, 0.0, 0.0], [10.0; 3]);
    test.sort();
    assert_eq!(test, vec![ElementId(0), ElementId(1), ElementId(2)]);

    let mut test = intersect_box(&tree, [0.0, 0.0, 0.0], [5.0; 3]);
    test.sort();
    assert_eq!(test, vec![ElementId(0), ElementId(1)]);

    let mut test = intersect_box(&tree, [10.0, 0.0, 10.0], [5.0; 3]);
    test.sort();
    assert_eq!(test, vec![]);

    let mut test = intersect_sphere(&tree, [0.0, 0.0, 0.0], 10.0);
    test.sort();
    assert_eq!(test, vec![ElementId(0), ElementId(1), ElementId(2)]);

    let mut test = intersect_sphere(&tree, [0.0, 0.0, 0.0], 6.0);
    test.sort();
    assert_eq!(test, vec![ElementId(0), ElementId(1)]);

    let mut test = intersect_sphere(&tree, [10.0, 0.0, 10.0], 5.0);
    test.sort();
    assert_eq!(test, vec![]);
}

#[test]
fn intersect_volume_volume() {
    let root = cube(v(8, 8, 8), 8);
    let volumes = [cube(v(9, 5, 4), 4), cube(v(14, 14, 4), 4)];
    let tree = flat_tree(root, &volumes, &[true, true]);

    let ray = Ray { origin: [9.0, 15.0, 4.0], dir: neg(UNIT_Y), max: 100.0 };

    // Hit!
    assert_eq!(cast(&tree, &ray), (Some(ElementId(0)), 6.0));

    // Miss, once the first volume is gone
    let without_first = flat_tree(root, &volumes, &[false, true]);
    assert_eq!(cast(&without_first, &ray), (None, 0.0));

    // Aabb intersection
    assert_eq!(intersect_box(&tree, [8.0; 3], [8.0; 3]), vec![ElementId(0), ElementId(1)]);

    // Sphere intersection
    assert_eq!(intersect_sphere(&tree, [15.0, 15.0, 0.0], 5.0), vec![ElementId(1)]);
}

#[test]
fn volume_beyond_the_root_box_is_still_found() {
    let root = cube(v(8, 8, 8), 8);
    let volumes = [cube(v(9, 5, 4), 4), cube(v(14, 14, 4), 4)];
    let tree = flat_tree(root, &volumes, &[true, true]);

    // the box lies outside the root's box but inside the second volume
    assert_eq!(intersect_box(&tree, [17.0, 17.0, 4.0], [0.5; 3]), vec![ElementId(1)]);

    // the ray misses the root's box and enters the second volume at z = 0
    let ray = Ray { origin: [17.0, 17.0, -5.0], dir: [0.0, 0.0, 1.0], max: 20.0 };
    assert_eq!(cast(&tree, &ray), (Some(ElementId(1)), 5.0));
}
