//! The octree itself: nodes laid out in a vector, each with its box and its
//! kind, and the element volumes that the leaves point at.
use vstd::prelude::*;

verus! {

/// A point of the tree's unsigned integer grid.
#[derive(Clone, Copy, Debug, PartialEq, Eq)]
pub struct TUVec3 {
    pub x: u64,
    pub y: u64,
    pub z: u64,
}

/// An axis-aligned box of the grid, from `min` to `max`.
#[derive(Clone, Copy, Debug, PartialEq, Eq)]
pub struct Aabb {
    pub min: TUVec3,
    pub max: TUVec3,
}

impl Aabb {
    /// The edge length of the box along `x` (zero for a box whose `max`
    /// lies below its `min`).
    pub open spec fn spec_size(self) -> nat {
        if self.min.x <= self.max.x {
            (self.max.x - self.min.x) as nat
        } else {
            0
        }
    }

    /// The edge length of the box along `x`.
    pub fn size(&self) -> (r: u64)
        ensures
            r == self.spec_size(),
    {
        if self.min.x <= self.max.x {
            self.max.x - self.min.x
        } else {
            0
        }
    }
}

/// Box `a` lies inside box `b` (faces may touch).
pub open spec fn inside(a: Aabb, b: Aabb) -> bool {
    &&& b.min.x <= a.min.x && a.max.x <= b.max.x
    &&& b.min.y <= a.min.y && a.max.y <= b.max.y
    &&& b.min.z <= a.min.z && a.max.z <= b.max.z
}

/// Box `a` lies inside box `b` exactly when, along each axis, `a`'s extent
/// lies within `b`'s.
pub proof fn lemma_inside_reads(a: Aabb, b: Aabb)
    ensures
        inside(a, b) <==> (b.min.x <= a.min.x && a.max.x <= b.max.x && b.min.y <= a.min.y && a.max.y <= b.max.y
            && b.min.z <= a.min.z && a.max.z <= b.max.z),
{
}

impl Aabb {
    /// Whether `inner` lies inside this box.
    pub fn contains(&self, inner: &Aabb) -> (r: bool)
        ensures
            r == inside(*inner, *self),
    {
        self.min.x <= inner.min.x && inner.max.x <= self.max.x && self.min.y <= inner.min.y
            && inner.max.y <= self.max.y && self.min.z <= inner.min.z && inner.max.z <= self.max.z
    }
}

/// The index of a node in the tree's node vector.
#[derive(Clone, Copy, Debug, PartialEq, Eq, Hash, PartialOrd, Ord)]
pub struct NodeId(pub usize);

/// The index of an element in the tree's element vector.
#[derive(Clone, Copy, Debug, PartialEq, Eq, Hash, PartialOrd, Ord)]
pub struct ElementId(pub usize);

/// The eight children of a branch node, one per octant.
#[derive(Clone, Copy, Debug, PartialEq, Eq)]
pub struct Branch {
    pub children: [NodeId; 8],
}

/// What a node holds: nothing, one element, or eight children.
#[derive(Clone, Copy, Debug, PartialEq, Eq)]
pub enum NodeType {
    Empty,
    Leaf(ElementId),
    Branch(Branch),
}

/// A node of the tree: the box it covers and what it holds.
#[derive(Clone, Copy, Debug, PartialEq, Eq)]
pub struct Node {
    pub aabb: Aabb,
    pub ntype: NodeType,
}

/// The mathematical picture of an octree: its nodes, the volume of each of
/// its elements, and the index of its root node.
pub struct TreeModel {
    pub nodes: Seq<Node>,
    pub elements: Seq<Aabb>,
    pub root: usize,
}

impl TreeModel {
    pub open spec fn has_node(self, n: int) -> bool {
        0 <= n < self.nodes.len()
    }

    /// The size of the box of node `n`; every child is strictly smaller
    /// than its parent, so this bounds the depth below `n`.
    pub open spec fn rank(self, n: int) -> nat {
        if self.has_node(n) {
            self.nodes[n].aabb.spec_size()
        } else {
            0
        }
    }

    /// What node `n` holds (nothing, for an index outside the tree).
    pub open spec fn kind(self, n: int) -> NodeType {
        if self.has_node(n) {
            self.nodes[n].ntype
        } else {
            NodeType::Empty
        }
    }

    /// `c` may stand as a child of `parent`: it is a node of the tree, with a
    /// strictly smaller box.
    pub open spec fn child_ok(self, parent: int, c: NodeId) -> bool {
        self.has_node(c.0 as int) && self.rank(c.0 as int) < self.rank(parent)
    }

    /// Node `n` points only at elements and nodes that exist, and at children
    /// smaller than itself.
    pub open spec fn node_wf(self, n: int) -> bool {
        match self.kind(n) {
            NodeType::Empty => true,
            NodeType::Leaf(e) => e.0 < self.elements.len(),
            NodeType::Branch(b) => forall|i: int| 0 <= i < 8 ==> #[trigger] self.child_ok(n, b.children@[i]),
        }
    }

    /// The root exists and every node is well formed.
    pub open spec fn wf(self) -> bool {
        &&& self.has_node(self.root as int)
        &&& forall|n: int| self.has_node(n) ==> #[trigger] self.node_wf(n)
    }

    /// A model is a well-formed tree exactly when its root is a node, every
    /// leaf's element exists, and every child of a branch is a node whose box
    /// is strictly narrower along `x` than its parent's.
    pub proof fn lemma_wf_reads(self)
        ensures
            self.wf() <==> {
                &&& (self.root as int) < self.nodes.len()
                &&& forall|n: int|
                    0 <= n < self.nodes.len() && (#[trigger] self.nodes[n]).ntype is Leaf ==> (
                    self.nodes[n].ntype->Leaf_0.0 as int) < self.elements.len()
                &&& forall|n: int, i: int|
                    0 <= n < self.nodes.len() && self.nodes[n].ntype is Branch && 0 <= i < 8 ==> {
                        let c = (#[trigger] self.nodes[n].ntype->Branch_0.children@[i]).0 as int;
                        &&& c < self.nodes.len()
                        &&& (if self.nodes[c].aabb.min.x <= self.nodes[c].aabb.max.x {
                            self.nodes[c].aabb.max.x - self.nodes[c].aabb.min.x
                        } else {
                            0int
                        }) < (if self.nodes[n].aabb.min.x <= self.nodes[n].aabb.max.x {
                            self.nodes[n].aabb.max.x - self.nodes[n].aabb.min.x
                        } else {
                            0int
                        })
                    }
            },
    {
        if self.wf() {
            assert forall|n: int, i: int|
                0 <= n < self.nodes.len() && self.nodes[n].ntype is Branch && 0 <= i < 8 implies {
                    let c = (#[trigger] self.nodes[n].ntype->Branch_0.children@[i]).0 as int;
                    &&& c < self.nodes.len()
                    &&& (if self.nodes[c].aabb.min.x <= self.nodes[c].aabb.max.x {
                        self.nodes[c].aabb.max.x - self.nodes[c].aabb.min.x
                    } else {
                        0int
                    }) < (if self.nodes[n].aabb.min.x <= self.nodes[n].aabb.max.x {
                        self.nodes[n].aabb.max.x - self.nodes[n].aabb.min.x
                    } else {
                        0int
                    })
                } by {
                assert(self.node_wf(n));
                assert(self.child_ok(n, self.nodes[n].ntype->Branch_0.children@[i]));
            }
            assert forall|n: int|
                0 <= n < self.nodes.len() && (#[trigger] self.nodes[n]).ntype is Leaf implies (
                self.nodes[n].ntype->Leaf_0.0 as int) < self.elements.len() by {
                assert(self.node_wf(n));
            }
        } else {
            if (self.root as int) < self.nodes.len() {
                let n = choose|n: int| self.has_node(n) && !#[trigger] self.node_wf(n);
                let _ = self.nodes[n];
                match self.nodes[n].ntype {
                    NodeType::Branch(b) => {
                        let i = choose|i: int| 0 <= i < 8 && !#[trigger] self.child_ok(n, b.children@[i]);
                        let _ = self.nodes[n].ntype->Branch_0.children@[i];
                    },
                    _ => {},
                }
            }
        }
    }

    /// The elements held by the leaves of the subtree of `n`.
    pub open spec fn below(self, n: int) -> Set<usize>
        decreases self.rank(n), 9nat,
    {
        match self.kind(n) {
            NodeType::Empty => Set::empty(),
            NodeType::Leaf(e) => set![e.0],
            NodeType::Branch(b) => self.below_kids(b.children@, 8, self.rank(n)),
        }
    }

    /// The elements below the first `k` of `kids`, counting only those below `bound`.
    pub open spec fn below_kids(self, kids: Seq<NodeId>, k: nat, bound: nat) -> Set<usize>
        decreases bound, k,
    {
        if k == 0 {
            Set::empty()
        } else {
            let c = kids[k - 1].0 as int;
            let here = if self.rank(c) < bound {
                self.below(c)
            } else {
                Set::empty()
            };
            self.below_kids(kids, (k - 1) as nat, bound).union(here)
        }
    }

    /// Every element volume held in the subtree of `n` lies inside `outer`.
    pub open spec fn all_within(self, n: int, outer: Aabb) -> bool
        decreases self.rank(n), 9nat,
    {
        match self.kind(n) {
            NodeType::Empty => true,
            NodeType::Leaf(e) => inside(self.elements[e.0 as int], outer),
            NodeType::Branch(b) => self.all_within_kids(b.children@, 8, self.rank(n), outer),
        }
    }

    /// `all_within` for the first `k` of `kids`, counting only those below `bound`.
    pub open spec fn all_within_kids(self, kids: Seq<NodeId>, k: nat, bound: nat, outer: Aabb) -> bool
        decreases bound, k,
    {
        if k == 0 {
            true
        } else {
            let c = kids[k - 1].0 as int;
            &&& self.all_within_kids(kids, (k - 1) as nat, bound, outer)
            &&& self.rank(c) < bound ==> self.all_within(c, outer)
        }
    }

    proof fn lemma_all_within_kids_prefix(self, kids: Seq<NodeId>, j: nat, k: nat, bound: nat, outer: Aabb)
        requires
            j <= k,
            self.all_within_kids(kids, k, bound, outer),
        ensures
            self.all_within_kids(kids, j, bound, outer),
        decreases k,
    {
        if j < k {
            self.lemma_all_within_kids_prefix(kids, j, (k - 1) as nat, bound, outer);
        }
    }

    /// The subtree of node `n` keeps all its element volumes inside the box of
    /// `n`, so a query that misses that box misses all of them.
    pub open spec fn closed(self, n: int) -> bool {
        self.has_node(n) && self.all_within(n, self.nodes[n].aabb)
    }
}

/// An octree over the integer grid whose leaves point at elements by index.
pub struct Octree {
    nodes: Vec<Node>,
    elements: Vec<Aabb>,
    root: NodeId,
    /// For each node, whether its subtree is closed (see `TreeModel::closed`).
    closed: Vec<bool>,
}

impl View for Octree {
    type V = TreeModel;

    closed spec fn view(&self) -> TreeModel {
        TreeModel { nodes: self.nodes@, elements: self.elements@, root: self.root.0 }
    }
}

impl Octree {
    #[verifier::type_invariant]
    pub(crate) open spec fn inv(self) -> bool {
        self@.wf() && self.closed_known()
    }

    /// The stored flags say which subtrees are closed.
    pub(crate) closed spec fn closed_known(self) -> bool {
        &&& self.closed@.len() == self.nodes@.len()
        &&& forall|n: int| 0 <= n < self.closed@.len() ==> #[trigger] self.closed@[n] == self@.closed(n)
    }

    /// Whether every element volume below node `n` lies inside `outer`.
    fn subtree_within(nodes: &Vec<Node>, elements: &Vec<Aabb>, root: NodeId, n: usize, outer: &Aabb) -> (r: bool)
        requires
            (TreeModel { nodes: nodes@, elements: elements@, root: root.0 }).wf(),
            n < nodes.len(),
        ensures
            r == (TreeModel { nodes: nodes@, elements: elements@, root: root.0 }).all_within(n as int, *outer),
        decreases (TreeModel { nodes: nodes@, elements: elements@, root: root.0 }).rank(n as int),
    {
        let ghost m = TreeModel { nodes: nodes@, elements: elements@, root: root.0 };
        proof {
            assert(m.node_wf(n as int));
        }
        match nodes[n].ntype {
            NodeType::Empty => true,
            NodeType::Leaf(e) => outer.contains(&elements[e.0]),
            NodeType::Branch(b) => {
                let ghost kids = b.children@;
                let ghost r = m.rank(n as int);
                assert(m.kind(n as int) == NodeType::Branch(b));
                assert(forall|j: int| 0 <= j < 8 ==> #[trigger] m.child_ok(n as int, kids[j]));
                let mut i: usize = 0;
                while i < 8
                    invariant
                        m == (TreeModel { nodes: nodes@, elements: elements@, root: root.0 }),
                        m.wf(),
                        i <= 8,
                        kids == b.children@,
                        r == m.rank(n as int),
                        r == (TreeModel { nodes: nodes@, elements: elements@, root: root.0 }).rank(n as int),
                        n < nodes.len(),
                        m.kind(n as int) == NodeType::Branch(b),
                        forall|j: int| 0 <= j < 8 ==> #[trigger] m.child_ok(n as int, kids[j]),
                        m.all_within_kids(kids, i as nat, r, *outer),
                    decreases 8 - i,
                {
                    let c = b.children[i].0;
                    assert(m.child_ok(n as int, kids[i as int]));
                    if !Self::subtree_within(nodes, elements, root, c, outer) {
                        assert(!m.all_within_kids(kids, (i + 1) as nat, r, *outer));
                        proof {
                            if m.all_within(n as int, *outer) {
                                m.lemma_all_within_kids_prefix(kids, (i + 1) as nat, 8, r, *outer);
                            }
                        }
                        return false;
                    }
                    i += 1;
                }
                true
            },
        }
    }

    /// Whether the subtree of node `n` is closed.
    pub(crate) fn is_closed(&self, n: usize) -> (r: bool)
        requires
            self@.has_node(n as int),
        ensures
            r == self@.closed(n as int),
    {
        proof {
            use_type_invariant(self);
        }
        self.closed[n]
    }

    /// Checks the children of the branch at node `n`.
    fn branch_ok(nodes: &Vec<Node>, elements: &Vec<Aabb>, root: NodeId, n: usize, b: &Branch) -> (r: bool)
        requires
            n < nodes.len(),
        ensures
            r == (forall|i: int| 0 <= i < 8 ==> #[trigger] (TreeModel {
                nodes: nodes@,
                elements: elements@,
                root: root.0,
            }).child_ok(n as int, b.children@[i])),
    {
        let ghost m = TreeModel { nodes: nodes@, elements: elements@, root: root.0 };
        let size = nodes[n].aabb.size();
        let mut i: usize = 0;
        while i < 8
            invariant
                i <= 8,
                n < nodes.len(),
                size == m.rank(n as int),
                m == (TreeModel { nodes: nodes@, elements: elements@, root: root.0 }),
                forall|k: int| 0 <= k < i ==> #[trigger] m.child_ok(n as int, b.children@[k]),
            decreases 8 - i,
        {
            let c = b.children[i].0;
            if c >= nodes.len() || nodes[c].aabb.size() >= size {
                assert(!m.child_ok(n as int, b.children@[i as int]));
                return false;
            }
            i += 1;
        }
        true
    }

    /// Builds a tree from its parts, or gives `None` where they do not form
    /// a well-formed tree.
    pub fn from_parts(nodes: Vec<Node>, elements: Vec<Aabb>, root: NodeId) -> (r: Option<Octree>)
        ensures
            r is Some <==> (TreeModel { nodes: nodes@, elements: elements@, root: root.0 }).wf(),
            r matches Some(t) ==> t@ == (TreeModel { nodes: nodes@, elements: elements@, root: root.0 }),
            r is Some <==> {
                &&& (root.0 as int) < nodes@.len()
                &&& forall|n: int|
                    0 <= n < nodes@.len() && (#[trigger] nodes@[n]).ntype is Leaf ==> (nodes@[n].ntype->Leaf_0.0 as int)
                        < elements@.len()
                &&& forall|n: int, i: int|
                    0 <= n < nodes@.len() && nodes@[n].ntype is Branch && 0 <= i < 8 ==> {
                        let c = (#[trigger] nodes@[n].ntype->Branch_0.children@[i]).0 as int;
                        &&& c < nodes@.len()
                        &&& (if nodes@[c].aabb.min.x <= nodes@[c].aabb.max.x {
                            nodes@[c].aabb.max.x - nodes@[c].aabb.min.x
                        } else {
                            0int
                        }) < (if nodes@[n].aabb.min.x <= nodes@[n].aabb.max.x {
                            nodes@[n].aabb.max.x - nodes@[n].aabb.min.x
                        } else {
                            0int
                        })
                    }
            },
    {
        let ghost m = TreeModel { nodes: nodes@, elements: elements@, root: root.0 };
        proof {
            m.lemma_wf_reads();
        }
        if root.0 >= nodes.len() {
            return None;
        }
        let mut n: usize = 0;
        while n < nodes.len()
            invariant
                n <= nodes.len(),
                m == (TreeModel { nodes: nodes@, elements: elements@, root: root.0 }),
                forall|k: int| 0 <= k < n ==> #[trigger] m.node_wf(k),
            decreases nodes.len() - n,
        {
            let ok = match nodes[n].ntype {
                NodeType::Empty => true,
                NodeType::Leaf(e) => e.0 < elements.len(),
                NodeType::Branch(b) => Self::branch_ok(&nodes, &elements, root, n, &b),
            };
            if !ok {
                assert(!m.node_wf(n as int));
                return None;
            }
            n += 1;
        }
        let mut closed: Vec<bool> = Vec::new();
        let mut k: usize = 0;
        while k < nodes.len()
            invariant
                m == (TreeModel { nodes: nodes@, elements: elements@, root: root.0 }),
                m.wf(),
                k <= nodes.len(),
                closed@.len() == k,
                forall|j: int| 0 <= j < k ==> #[trigger] closed@[j] == m.closed(j),
            decreases nodes.len() - k,
        {
            let outer = nodes[k].aabb;
            closed.push(Self::subtree_within(&nodes, &elements, root, k, &outer));
            k += 1;
        }
        Some(Octree { nodes, elements, root, closed })
    }

    /// The root node.
    pub fn root(&self) -> (r: NodeId)
        ensures
            r.0 == self@.root,
    {
        self.root
    }

    /// The nodes of the tree, indexed by `NodeId`.
    pub fn nodes(&self) -> (r: &Vec<Node>)
        ensures
            r@ == self@.nodes,
    {
        &self.nodes
    }

    /// The volume of each element, indexed by `ElementId`.
    pub fn elements(&self) -> (r: &Vec<Aabb>)
        ensures
            r@ == self@.elements,
    {
        &self.elements
    }

    /// The box of the root node, which covers the whole tree.
    pub fn root_aabb(&self) -> (r: Aabb)
        ensures
            r == self@.nodes[self@.root as int].aabb,
    {
        proof {
            use_type_invariant(self);
        }
        self.nodes[self.root.0].aabb
    }
}

} // verus!
