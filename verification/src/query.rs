//! The two walks over an octree: which elements a volume touches, and which
//! element a ray meets first.
//!
//! The geometric tests themselves (does the volume or the ray touch this
//! box, and how far along the ray) are made by the caller; a walk reads
//! their outcomes, one per node and one per element, and decides which
//! nodes to visit and what to report. A node whose box the query misses is
//! skipped only when that box holds every element volume below it; the
//! tree knows which nodes those are. Each walk keeps a bounded stack of
//! nodes to visit and, once that stack is full, finishes the remaining
//! children of a branch by recursion.
use vstd::prelude::*;
use vstd::multiset::Multiset;
use crate::stack::{stack_items, stack_new, stack_pop, stack_push};
use crate::tree::{inside, Aabb, ElementId, NodeId, NodeType, Octree, TreeModel};
use crate::ids::{dedup_sorted, element_ids, sort_keeping_set, strictly_ascending, to_element_ids};

verus! {

/// The outcome of a volume's intersection tests against one tree:
/// `nodes[n]` says whether the volume touches the box of node `n`, and
/// `elements[e]` whether it touches the volume of element `e`.
pub struct VolumeHits {
    pub nodes: Vec<bool>,
    pub elements: Vec<bool>,
}

/// The outcome of a ray's tests against one tree: `nodes[n]` says whether
/// the ray touches the box of node `n`, and `elements[e]` is the key of the
/// distance at which the ray enters the volume of element `e` (keys order as
/// the distances do), or `None` where it misses it.
pub struct RayHits {
    pub nodes: Vec<bool>,
    pub elements: Vec<Option<u32>>,
}

/// The test outcome at index `i`; an index with no outcome counts as a miss.
pub open spec fn flag(s: Seq<bool>, i: int) -> bool {
    0 <= i < s.len() && s[i]
}

/// The distance key at index `i`; an index with no outcome counts as a miss.
pub open spec fn key_at(s: Seq<Option<u32>>, i: int) -> Option<u32> {
    if 0 <= i < s.len() {
        s[i]
    } else {
        None
    }
}

/// Which elements a ray meets at all.
pub open spec fn key_flags(s: Seq<Option<u32>>) -> Seq<bool> {
    Seq::new(s.len(), |i: int| s[i] is Some)
}

/// `e` is an element of `s` that the ray enters no farther than any other
/// element of `s`, read straight from the key table.
pub open spec fn nearest_in(keys: Seq<Option<u32>>, s: Set<usize>, e: usize) -> bool {
    &&& s.contains(e)
    &&& (e as int) < keys.len()
    &&& keys[e as int] is Some
    &&& forall|x: usize|
        #[trigger] s.contains(x) ==> (x as int) < keys.len() && keys[x as int] is Some && keys[e as int]->0
            <= keys[x as int]->0
}

/// `e` is nearest in `s` exactly when it belongs to `s`, has a key, and no
/// element of `s` has a smaller key or lacks one.
pub proof fn lemma_nearest_in_reads(keys: Seq<Option<u32>>, s: Set<usize>, e: usize)
    ensures
        nearest_in(keys, s, e) <==> (s.contains(e) && (e as int) < keys.len() && keys[e as int] is Some && forall|x: usize|
            #[trigger] s.contains(x) ==> (x as int) < keys.len() && keys[x as int] is Some && !(keys[x as int]->0
                < keys[e as int]->0)),
{
}

/// Reading a test outcome: inside the table it is the table's entry, past
/// its end it is a miss.
pub proof fn lemma_flag_reads(s: Seq<bool>, i: int)
    ensures
        0 <= i < s.len() ==> flag(s, i) == s[i],
        !(0 <= i < s.len()) ==> !flag(s, i),
{
}

/// Reading a distance key: inside the table it is the table's entry, past
/// its end there is none.
pub proof fn lemma_key_at_reads(s: Seq<Option<u32>>, i: int)
    ensures
        0 <= i < s.len() ==> key_at(s, i) == s[i],
        !(0 <= i < s.len()) ==> key_at(s, i) is None,
{
}

/// A ray meets element `i` exactly when the table holds a key for it.
pub proof fn lemma_key_flags_reads(s: Seq<Option<u32>>, i: int)
    ensures
        flag(key_flags(s), i) == (0 <= i < s.len() && s[i] is Some),
{
}

/// `h` is what a nearest-hit search that started from `h0` holds once it has
/// looked at the elements of `s`: a hit whenever `h0` was one or `s` is not
/// empty, taken from `h0` or from `s`, no farther than `h0` nor than any
/// element of `s`; a held hit gives way only to a strictly nearer one.
pub open spec fn improves(
    keys: Seq<Option<u32>>,
    h0: Option<(usize, u32)>,
    h: Option<(usize, u32)>,
    s: Set<usize>,
) -> bool {
    &&& (h is None <==> (h0 is None && s == Set::<usize>::empty()))
    &&& (h matches Some(b) ==> (h == h0 || s.contains(b.0)))
    &&& (h matches Some(b) ==> forall|x: usize|
        #[trigger] s.contains(x) ==> (key_at(keys, x as int) matches Some(k) && b.1 <= k))
    &&& (h0 matches Some(b0) ==> ((h matches Some(b) && b.1 <= b0.1)))
    &&& (h0 matches Some(b0) ==> (h != h0 ==> (h matches Some(b) && b.1 < b0.1)))
}

/// A held hit carries the key of its own element.
pub open spec fn hit_valid(keys: Seq<Option<u32>>, h: Option<(usize, u32)>) -> bool {
    h matches Some(b) ==> key_at(keys, b.0 as int) == Some(b.1)
}

/// Searching `a` and then `b` is searching their union.
proof fn lemma_improves_compose(
    keys: Seq<Option<u32>>,
    h0: Option<(usize, u32)>,
    h1: Option<(usize, u32)>,
    h2: Option<(usize, u32)>,
    a: Set<usize>,
    b: Set<usize>,
)
    requires
        improves(keys, h0, h1, a),
        improves(keys, h1, h2, b),
    ensures
        improves(keys, h0, h2, a.union(b)),
{
    if h2 is None {
        assert(a.union(b) =~= Set::<usize>::empty());
    }
    if h0 is None && a.union(b) == Set::<usize>::empty() {
        assert(a =~= Set::<usize>::empty()) by {
            assert forall|x: usize| !a.contains(x) by {
                assert(!a.union(b).contains(x));
            }
        }
        assert(b =~= Set::<usize>::empty()) by {
            assert forall|x: usize| !b.contains(x) by {
                assert(!a.union(b).contains(x));
            }
        }
    }
}

/// Adding the same set to both sides of a split keeps the split.
proof fn lemma_regroup(e: Set<usize>, p: Set<usize>, base: Set<usize>, k: Set<usize>, x: Set<usize>)
    requires
        e.union(p) == base.union(k),
    ensures
        e.union(x).union(p) == base.union(k.union(x)),
        e.union(p.union(x)) == base.union(k.union(x)),
{
    assert forall|a: usize| e.union(x).union(p).contains(a) <==> base.union(k.union(x)).contains(a) by {
        assert(e.union(p).contains(a) <==> base.union(k).contains(a));
        assert(e.union(x).union(p).contains(a) <==> (e.contains(a) || x.contains(a) || p.contains(a)));
        assert(base.union(k.union(x)).contains(a) <==> (base.contains(a) || k.contains(a) || x.contains(a)));
        assert(e.union(p).contains(a) <==> (e.contains(a) || p.contains(a)));
        assert(base.union(k).contains(a) <==> (base.contains(a) || k.contains(a)));
    }
    assert forall|a: usize| e.union(p.union(x)).contains(a) <==> base.union(k.union(x)).contains(a) by {
        assert(e.union(p).contains(a) <==> base.union(k).contains(a));
    }
    assert(e.union(x).union(p) =~= base.union(k.union(x)));
    assert(e.union(p.union(x)) =~= base.union(k.union(x)));
}

/// Adding the same entries to both sides of a split keeps the split.
proof fn lemma_ms_regroup(
    e: Multiset<usize>,
    p: Multiset<usize>,
    base: Multiset<usize>,
    k: Multiset<usize>,
    x: Multiset<usize>,
)
    requires
        e.add(p) == base.add(k),
    ensures
        e.add(x).add(p) == base.add(k.add(x)),
        e.add(p.add(x)) == base.add(k.add(x)),
{
    broadcast use vstd::multiset::group_multiset_axioms;

    assert forall|v: usize| #[trigger] e.add(x).add(p).count(v) == base.add(k.add(x)).count(v) by {
        assert(e.add(p).count(v) == base.add(k).count(v));
        assert(e.add(p).count(v) == e.count(v) + p.count(v));
        assert(base.add(k).count(v) == base.count(v) + k.count(v));
        assert(e.add(x).count(v) == e.count(v) + x.count(v));
        assert(e.add(x).add(p).count(v) == e.add(x).count(v) + p.count(v));
        assert(k.add(x).count(v) == k.count(v) + x.count(v));
        assert(base.add(k.add(x)).count(v) == base.count(v) + k.add(x).count(v));
    }
    assert forall|v: usize| #[trigger] e.add(p.add(x)).count(v) == base.add(k.add(x)).count(v) by {
        assert(e.add(p).count(v) == base.add(k).count(v));
        assert(e.add(p).count(v) == e.count(v) + p.count(v));
        assert(base.add(k).count(v) == base.count(v) + k.count(v));
        assert(p.add(x).count(v) == p.count(v) + x.count(v));
        assert(e.add(p.add(x)).count(v) == e.count(v) + p.add(x).count(v));
        assert(k.add(x).count(v) == k.count(v) + x.count(v));
        assert(base.add(k.add(x)).count(v) == base.count(v) + k.add(x).count(v));
    }
    assert(e.add(x).add(p) =~= base.add(k.add(x)));
    assert(e.add(p.add(x)) =~= base.add(k.add(x)));
}

impl TreeModel {
    /// A walk goes on below node `n`: the query touches its box, or the box
    /// does not hold all the element volumes below it, so that missing the
    /// box says nothing about them.
    pub open spec fn gate(self, nh: Seq<bool>, n: int) -> bool {
        flag(nh, n) || !self.closed(n)
    }

    /// The elements that a walk from node `n` reports, given the outcome of
    /// each node's test (`nh`) and each element's test (`eh`). A branch is
    /// entered when its gate is open (see `gate`), and a leaf reports its
    /// element when the element's test succeeds. With `every_node`, the
    /// gate applies to leaves and empty nodes as well.
    pub open spec fn reach(self, nh: Seq<bool>, eh: Seq<bool>, every_node: bool, n: int) -> Set<usize>
        decreases self.rank(n), 9nat,
    {
        if every_node && !self.gate(nh, n) {
            Set::empty()
        } else {
            match self.kind(n) {
                NodeType::Empty => Set::empty(),
                NodeType::Leaf(e) => if flag(eh, e.0 as int) {
                    set![e.0]
                } else {
                    Set::empty()
                },
                NodeType::Branch(b) => if self.gate(nh, n) {
                    self.reach_kids(nh, eh, every_node, b.children@, 8, self.rank(n))
                } else {
                    Set::empty()
                },
            }
        }
    }

    /// What the first `k` of `kids` report, counting only those below `bound`.
    pub open spec fn reach_kids(
        self,
        nh: Seq<bool>,
        eh: Seq<bool>,
        every_node: bool,
        kids: Seq<NodeId>,
        k: nat,
        bound: nat,
    ) -> Set<usize>
        decreases bound, k,
    {
        if k == 0 {
            Set::empty()
        } else {
            let c = kids[k - 1].0 as int;
            let here = if self.rank(c) < bound {
                self.reach(nh, eh, every_node, c)
            } else {
                Set::empty()
            };
            self.reach_kids(nh, eh, every_node, kids, (k - 1) as nat, bound).union(here)
        }
    }

    /// The elements that a volume query reports from the subtree of `n`:
    /// those reached through branches whose boxes the volume touches, and
    /// whose own volumes it touches.
    pub open spec fn volume_reach(self, nh: Seq<bool>, eh: Seq<bool>, n: int) -> Set<usize> {
        self.reach(nh, eh, false, n)
    }

    /// The elements that a ray meets in the subtree of `n`: those reached
    /// through nodes whose boxes the ray touches, and whose own volumes it
    /// enters.
    pub open spec fn ray_reach(self, nh: Seq<bool>, keys: Seq<Option<u32>>, n: int) -> Set<usize> {
        self.reach(nh, key_flags(keys), true, n)
    }

    /// A walk reports only elements of the tree whose own test succeeded.
    pub proof fn lemma_reach_sound(self, nh: Seq<bool>, eh: Seq<bool>, every_node: bool, n: int)
        requires
            self.wf(),
        ensures
            forall|e: usize|
                #[trigger] self.reach(nh, eh, every_node, n).contains(e) ==> e < self.elements.len() && flag(eh, e as int)
                    && self.below(n).contains(e),
        decreases self.rank(n), 9nat,
    {
        if !(every_node && !self.gate(nh, n)) {
            if self.has_node(n) {
                assert(self.node_wf(n));
            }
            match self.kind(n) {
                NodeType::Branch(b) => {
                    if self.gate(nh, n) {
                        self.lemma_reach_kids_sound(nh, eh, every_node, b.children@, 8, self.rank(n));
                        assert(self.reach(nh, eh, every_node, n) == self.reach_kids(
                            nh,
                            eh,
                            every_node,
                            b.children@,
                            8,
                            self.rank(n),
                        ));
                    } else {
                        assert(self.reach(nh, eh, every_node, n) == Set::<usize>::empty());
                    }
                },
                NodeType::Leaf(l) => {
                    assert forall|e: usize| #[trigger] self.reach(nh, eh, every_node, n).contains(e) implies e
                        < self.elements.len() && flag(eh, e as int) by {
                        assert(e == l.0);
                    }
                },
                NodeType::Empty => {
                    assert(self.reach(nh, eh, every_node, n) == Set::<usize>::empty());
                },
            }
        } else {
            assert(self.reach(nh, eh, every_node, n) == Set::<usize>::empty());
        }
    }

    proof fn lemma_reach_kids_sound(
        self,
        nh: Seq<bool>,
        eh: Seq<bool>,
        every_node: bool,
        kids: Seq<NodeId>,
        k: nat,
        bound: nat,
    )
        requires
            self.wf(),
        ensures
            forall|e: usize|
                #[trigger] self.reach_kids(nh, eh, every_node, kids, k, bound).contains(e) ==> e < self.elements.len()
                    && flag(eh, e as int) && self.below_kids(kids, k, bound).contains(e),
        decreases bound, k,
    {
        if k > 0 {
            let c = kids[k - 1].0 as int;
            self.lemma_reach_kids_sound(nh, eh, every_node, kids, (k - 1) as nat, bound);
            if self.rank(c) < bound {
                self.lemma_reach_sound(nh, eh, every_node, c);
            }
            assert forall|e: usize| #[trigger] self.reach_kids(nh, eh, every_node, kids, k, bound).contains(e) implies e
                < self.elements.len() && flag(eh, e as int) && self.below_kids(kids, k, bound).contains(e) by {
                if self.reach_kids(nh, eh, every_node, kids, (k - 1) as nat, bound).contains(e) {
                    assert(self.below_kids(kids, (k - 1) as nat, bound).contains(e));
                } else {
                    assert(self.rank(c) < bound && self.reach(nh, eh, every_node, c).contains(e));
                    assert(self.below(c).contains(e));
                }
            }
        } else {
            assert(self.reach_kids(nh, eh, every_node, kids, k, bound) == Set::<usize>::empty());
        }
    }

    /// The test outcomes agree with the boxes: whenever the query touches an
    /// element's volume, it touches every node box that holds that volume.
    /// Outcomes of one geometric query always agree in this way.
    pub open spec fn consistent(self, nh: Seq<bool>, eh: Seq<bool>) -> bool {
        forall|n: int, e: usize|
            0 <= n < self.nodes.len() && (e as int) < eh.len() && eh[e as int] && #[trigger] inside(
                self.elements[e as int],
                self.nodes[n].aabb,
            ) ==> n < nh.len() && nh[n]
    }

    /// The elements of the tree that the query touches.
    pub open spec fn met(self, eh: Seq<bool>) -> Set<usize> {
        Set::new(|e: usize| self.below(self.root as int).contains(e) && (e as int) < eh.len() && eh[e as int])
    }

    /// Every element held below `n` has its volume inside any box that
    /// holds all volumes below `n`.
    pub proof fn lemma_below_within(self, n: int, outer: Aabb)
        requires
            self.all_within(n, outer),
        ensures
            forall|e: usize| #[trigger] self.below(n).contains(e) ==> inside(self.elements[e as int], outer),
        decreases self.rank(n), 9nat,
    {
        match self.kind(n) {
            NodeType::Branch(b) => {
                assert(self.all_within_kids(b.children@, 8, self.rank(n), outer));
                self.lemma_below_within_kids(b.children@, 8, self.rank(n), outer);
                assert(self.below(n) == self.below_kids(b.children@, 8, self.rank(n)));
            },
            NodeType::Leaf(l) => {
                assert forall|e: usize| #[trigger] self.below(n).contains(e) implies inside(self.elements[e as int], outer) by {
                    assert(e == l.0);
                }
            },
            NodeType::Empty => {
                assert(self.below(n) == Set::<usize>::empty());
            },
        }
    }

    proof fn lemma_below_within_kids(self, kids: Seq<NodeId>, k: nat, bound: nat, outer: Aabb)
        requires
            self.all_within_kids(kids, k, bound, outer),
        ensures
            forall|e: usize|
                #[trigger] self.below_kids(kids, k, bound).contains(e) ==> inside(self.elements[e as int], outer),
        decreases bound, k,
    {
        if k > 0 {
            let c = kids[k - 1].0 as int;
            self.lemma_below_within_kids(kids, (k - 1) as nat, bound, outer);
            if self.rank(c) < bound {
                self.lemma_below_within(c, outer);
            }
            assert forall|e: usize| #[trigger] self.below_kids(kids, k, bound).contains(e) implies inside(
                self.elements[e as int],
                outer,
            ) by {
                if !self.below_kids(kids, (k - 1) as nat, bound).contains(e) {
                    assert(self.rank(c) < bound && self.below(c).contains(e));
                }
            }
        } else {
            assert(self.below_kids(kids, k, bound) == Set::<usize>::empty());
        }
    }

    proof fn lemma_within_from_below(self, n: int, outer: Aabb)
        requires
            forall|e: usize| #[trigger] self.below(n).contains(e) ==> inside(self.elements[e as int], outer),
        ensures
            self.all_within(n, outer),
        decreases self.rank(n), 9nat,
    {
        match self.kind(n) {
            NodeType::Branch(b) => {
                assert(self.below(n) == self.below_kids(b.children@, 8, self.rank(n)));
                self.lemma_within_from_below_kids(b.children@, 8, self.rank(n), outer);
            },
            NodeType::Leaf(l) => {
                assert(self.below(n).contains(l.0));
            },
            NodeType::Empty => {},
        }
    }

    proof fn lemma_within_from_below_kids(self, kids: Seq<NodeId>, k: nat, bound: nat, outer: Aabb)
        requires
            forall|e: usize| #[trigger] self.below_kids(kids, k, bound).contains(e) ==> inside(self.elements[e as int], outer),
        ensures
            self.all_within_kids(kids, k, bound, outer),
        decreases bound, k,
    {
        if k > 0 {
            let c = kids[k - 1].0 as int;
            assert forall|e: usize| #[trigger] self.below_kids(kids, (k - 1) as nat, bound).contains(e) implies inside(
                self.elements[e as int],
                outer,
            ) by {
                assert(self.below_kids(kids, k, bound).contains(e));
            }
            self.lemma_within_from_below_kids(kids, (k - 1) as nat, bound, outer);
            if self.rank(c) < bound {
                assert forall|e: usize| #[trigger] self.below(c).contains(e) implies inside(self.elements[e as int], outer) by {
                    assert(self.below_kids(kids, k, bound).contains(e));
                }
                self.lemma_within_from_below(c, outer);
            }
        }
    }

    /// A node is closed exactly when it is a node of the tree and every
    /// element held below it has its volume inside the node's box.
    pub proof fn lemma_closed_reads(self, n: int)
        ensures
            self.closed(n) <==> (0 <= n < self.nodes.len() && forall|e: usize|
                #[trigger] self.below(n).contains(e) ==> inside(self.elements[e as int], self.nodes[n].aabb)),
    {
        if self.has_node(n) {
            if self.closed(n) {
                self.lemma_below_within(n, self.nodes[n].aabb);
            }
            if forall|e: usize| #[trigger] self.below(n).contains(e) ==> inside(self.elements[e as int], self.nodes[n].aabb) {
                self.lemma_within_from_below(n, self.nodes[n].aabb);
            }
        }
    }

    /// The elements below a child are below its branch.
    proof fn lemma_below_kids_has(self, kids: Seq<NodeId>, k: nat, bound: nat, j: int)
        requires
            0 <= j < k,
            self.rank(kids[j].0 as int) < bound,
        ensures
            self.below(kids[j].0 as int).subset_of(self.below_kids(kids, k, bound)),
        decreases k,
    {
        if j < k - 1 {
            self.lemma_below_kids_has(kids, (k - 1) as nat, bound, j);
        }
    }

    /// An element held by the leaf at the end of a chain of nodes, each a
    /// child of the one before, is below the chain's first node.
    pub proof fn lemma_path_below(self, p: Seq<usize>, e: usize)
        requires
            self.wf(),
            p.len() >= 1,
            (p[0] as int) < self.nodes.len(),
            forall|j: int|
                0 <= j < p.len() - 1 ==> (#[trigger] self.nodes[p[j] as int]).ntype is Branch && exists|i: int|
                    0 <= i < 8 && self.nodes[p[j] as int].ntype->Branch_0.children@[i].0 == p[j + 1],
            self.nodes[p.last() as int].ntype == NodeType::Leaf(ElementId(e)),
        ensures
            self.below(p[0] as int).contains(e),
        decreases p.len(),
    {
        if p.len() == 1 {
            assert(self.kind(p[0] as int) == NodeType::Leaf(ElementId(e)));
        } else {
            let n = p[0] as int;
            let _ = self.nodes[p[0] as int];
            let b = self.nodes[n].ntype->Branch_0;
            let i = choose|i: int| 0 <= i < 8 && b.children@[i].0 == p[1];
            assert(self.node_wf(n));
            assert(self.child_ok(n, b.children@[i]));
            let q = p.drop_first();
            assert forall|j: int| 0 <= j < q.len() - 1 implies (#[trigger] self.nodes[q[j] as int]).ntype is Branch
                && exists|i2: int| 0 <= i2 < 8 && self.nodes[q[j] as int].ntype->Branch_0.children@[i2].0 == q[j + 1] by {
                let _ = self.nodes[p[j + 1] as int];
                assert(q[j] == p[j + 1] && q[j + 1] == p[j + 2]);
            }
            assert(q.last() == p.last());
            self.lemma_path_below(q, e);
            self.lemma_below_kids_has(b.children@, 8, self.rank(n), i);
            assert(self.kind(n) == NodeType::Branch(b));
            assert(self.below(n) == self.below_kids(b.children@, 8, self.rank(n)));
        }
    }


    /// A walk reports every element below `n` that the query touches, when
    /// the test outcomes agree with the boxes.
    pub proof fn lemma_reach_complete(self, nh: Seq<bool>, eh: Seq<bool>, every_node: bool, n: int)
        requires
            self.consistent(nh, eh),
        ensures
            forall|e: usize|
                self.below(n).contains(e) && flag(eh, e as int) ==> #[trigger] self.reach(nh, eh, every_node, n).contains(e),
        decreases self.rank(n), 9nat,
    {
        assert forall|e: usize| self.below(n).contains(e) && flag(eh, e as int) implies self.gate(nh, n) by {
            if self.closed(n) {
                self.lemma_below_within(n, self.nodes[n].aabb);
                assert(inside(self.elements[e as int], self.nodes[n].aabb));
            }
        }
        match self.kind(n) {
            NodeType::Branch(b) => {
                self.lemma_reach_kids_complete(nh, eh, every_node, b.children@, 8, self.rank(n));
                assert(self.below(n) == self.below_kids(b.children@, 8, self.rank(n)));
                assert forall|e: usize| self.below(n).contains(e) && flag(eh, e as int) implies #[trigger] self.reach(
                    nh,
                    eh,
                    every_node,
                    n,
                ).contains(e) by {
                    assert(self.gate(nh, n));
                    assert(self.reach(nh, eh, every_node, n) == self.reach_kids(
                        nh,
                        eh,
                        every_node,
                        b.children@,
                        8,
                        self.rank(n),
                    ));
                }
            },
            NodeType::Leaf(l) => {
                assert forall|e: usize| self.below(n).contains(e) && flag(eh, e as int) implies #[trigger] self.reach(
                    nh,
                    eh,
                    every_node,
                    n,
                ).contains(e) by {
                    assert(e == l.0);
                }
            },
            NodeType::Empty => {
                assert(self.below(n) == Set::<usize>::empty());
            },
        }
    }

    proof fn lemma_reach_kids_complete(
        self,
        nh: Seq<bool>,
        eh: Seq<bool>,
        every_node: bool,
        kids: Seq<NodeId>,
        k: nat,
        bound: nat,
    )
        requires
            self.consistent(nh, eh),
        ensures
            forall|e: usize|
                self.below_kids(kids, k, bound).contains(e) && flag(eh, e as int) ==> #[trigger] self.reach_kids(
                    nh,
                    eh,
                    every_node,
                    kids,
                    k,
                    bound,
                ).contains(e),
        decreases bound, k,
    {
        if k > 0 {
            let c = kids[k - 1].0 as int;
            self.lemma_reach_kids_complete(nh, eh, every_node, kids, (k - 1) as nat, bound);
            if self.rank(c) < bound {
                self.lemma_reach_complete(nh, eh, every_node, c);
            }
            assert forall|e: usize| self.below_kids(kids, k, bound).contains(e) && flag(eh, e as int) implies #[trigger] self.reach_kids(
                nh,
                eh,
                every_node,
                kids,
                k,
                bound,
            ).contains(e) by {
                if !self.below_kids(kids, (k - 1) as nat, bound).contains(e) {
                    assert(self.rank(c) < bound && self.below(c).contains(e));
                    assert(self.reach(nh, eh, every_node, c).contains(e));
                } else {
                    assert(self.reach_kids(nh, eh, every_node, kids, (k - 1) as nat, bound).contains(e));
                }
            }
        } else {
            assert(self.below_kids(kids, k, bound) == Set::<usize>::empty());
        }
    }

    /// Under outcomes that agree with the boxes, a walk from the root reports
    /// exactly the elements of the tree that the query touches.
    pub proof fn lemma_reach_is_met(self, nh: Seq<bool>, eh: Seq<bool>, every_node: bool)
        requires
            self.wf(),
            self.consistent(nh, eh),
        ensures
            self.reach(nh, eh, every_node, self.root as int) == self.met(eh),
    {
        self.lemma_reach_sound(nh, eh, every_node, self.root as int);
        self.lemma_reach_complete(nh, eh, every_node, self.root as int);
        assert(self.reach(nh, eh, every_node, self.root as int) =~= self.met(eh));
    }

    /// A query whose tests succeed wherever another's do reports at least
    /// what the other reports.
    pub proof fn lemma_reach_monotone(
        self,
        nh: Seq<bool>,
        eh: Seq<bool>,
        nh2: Seq<bool>,
        eh2: Seq<bool>,
        every_node: bool,
        n: int,
    )
        requires
            forall|i: int| #[trigger] flag(nh, i) ==> flag(nh2, i),
            forall|i: int| #[trigger] flag(eh, i) ==> flag(eh2, i),
        ensures
            self.reach(nh, eh, every_node, n).subset_of(self.reach(nh2, eh2, every_node, n)),
        decreases self.rank(n), 9nat,
    {
        if self.gate(nh, n) {
            assert(self.gate(nh2, n));
        }
        match self.kind(n) {
            NodeType::Branch(b) => {
                self.lemma_reach_kids_monotone(nh, eh, nh2, eh2, every_node, b.children@, 8, self.rank(n));
            },
            NodeType::Leaf(l) => {
                if flag(eh, l.0 as int) {
                    assert(flag(eh2, l.0 as int));
                }
            },
            NodeType::Empty => {},
        }
    }

    proof fn lemma_reach_kids_monotone(
        self,
        nh: Seq<bool>,
        eh: Seq<bool>,
        nh2: Seq<bool>,
        eh2: Seq<bool>,
        every_node: bool,
        kids: Seq<NodeId>,
        k: nat,
        bound: nat,
    )
        requires
            forall|i: int| #[trigger] flag(nh, i) ==> flag(nh2, i),
            forall|i: int| #[trigger] flag(eh, i) ==> flag(eh2, i),
        ensures
            self.reach_kids(nh, eh, every_node, kids, k, bound).subset_of(
                self.reach_kids(nh2, eh2, every_node, kids, k, bound),
            ),
        decreases bound, k,
    {
        if k > 0 {
            let c = kids[k - 1].0 as int;
            self.lemma_reach_kids_monotone(nh, eh, nh2, eh2, every_node, kids, (k - 1) as nat, bound);
            if self.rank(c) < bound {
                self.lemma_reach_monotone(nh, eh, nh2, eh2, every_node, c);
            }
        }
    }


    /// Every element that a volume query reports is an element of the tree
    /// whose volume the query touches.
    pub proof fn lemma_volume_reach_touches(self, nh: Seq<bool>, eh: Seq<bool>)
        requires
            self.wf(),
        ensures
            forall|e: usize|
                #[trigger] self.volume_reach(nh, eh, self.root as int).contains(e) ==> e < self.elements.len()
                    && flag(eh, e as int),
    {
        self.lemma_reach_sound(nh, eh, false, self.root as int);
    }

    /// Every element that a ray is found to meet is an element of the tree
    /// that the ray enters, at a known distance.
    pub proof fn lemma_ray_reach_entered(self, nh: Seq<bool>, keys: Seq<Option<u32>>)
        requires
            self.wf(),
        ensures
            forall|e: usize|
                #[trigger] self.ray_reach(nh, keys, self.root as int).contains(e) ==> e < self.elements.len()
                    && key_at(keys, e as int) is Some,
    {
        self.lemma_reach_sound(nh, key_flags(keys), true, self.root as int);
        assert forall|e: usize| #[trigger] self.ray_reach(nh, keys, self.root as int).contains(e) implies e
            < self.elements.len() && key_at(keys, e as int) is Some by {
            assert(flag(key_flags(keys), e as int));
        }
    }

    /// The entries a volume walk from node `n` appends: one for each leaf it
    /// reaches whose element the volume touches.
    pub open spec fn volume_reach_ms(self, nh: Seq<bool>, eh: Seq<bool>, n: int) -> Multiset<usize>
        decreases self.rank(n), 9nat,
    {
        match self.kind(n) {
            NodeType::Empty => Multiset::empty(),
            NodeType::Leaf(e) => if flag(eh, e.0 as int) {
                Multiset::singleton(e.0)
            } else {
                Multiset::empty()
            },
            NodeType::Branch(b) => if self.gate(nh, n) {
                self.volume_kids_ms(nh, eh, b.children@, 8, self.rank(n))
            } else {
                Multiset::empty()
            },
        }
    }

    /// What the first `k` of `kids` append, counting only those below `bound`.
    pub open spec fn volume_kids_ms(
        self,
        nh: Seq<bool>,
        eh: Seq<bool>,
        kids: Seq<NodeId>,
        k: nat,
        bound: nat,
    ) -> Multiset<usize>
        decreases bound, k,
    {
        if k == 0 {
            Multiset::empty()
        } else {
            let c = kids[k - 1].0 as int;
            let here = if self.rank(c) < bound {
                self.volume_reach_ms(nh, eh, c)
            } else {
                Multiset::empty()
            };
            self.volume_kids_ms(nh, eh, kids, (k - 1) as nat, bound).add(here)
        }
    }

    /// The entries appended are exactly the elements reported.
    pub proof fn lemma_volume_ms_dom(self, nh: Seq<bool>, eh: Seq<bool>, n: int)
        ensures
            forall|x: usize|
                #[trigger] self.volume_reach_ms(nh, eh, n).count(x) > 0 <==> self.volume_reach(nh, eh, n).contains(x),
        decreases self.rank(n), 9nat,
    {
        match self.kind(n) {
            NodeType::Branch(b) => {
                self.lemma_volume_kids_ms_dom(nh, eh, b.children@, 8, self.rank(n));
                if self.gate(nh, n) {
                    assert(self.volume_reach_ms(nh, eh, n) == self.volume_kids_ms(nh, eh, b.children@, 8, self.rank(n)));
                    assert(self.volume_reach(nh, eh, n) == self.reach_kids(nh, eh, false, b.children@, 8, self.rank(n)));
                } else {
                    assert(self.volume_reach_ms(nh, eh, n) == Multiset::<usize>::empty());
                    assert(self.volume_reach(nh, eh, n) == Set::<usize>::empty());
                }
            },
            NodeType::Leaf(l) => {
                if flag(eh, l.0 as int) {
                    assert(self.volume_reach_ms(nh, eh, n) == Multiset::singleton(l.0));
                    assert(self.volume_reach(nh, eh, n) == set![l.0]);
                } else {
                    assert(self.volume_reach_ms(nh, eh, n) == Multiset::<usize>::empty());
                    assert(self.volume_reach(nh, eh, n) == Set::<usize>::empty());
                }
            },
            NodeType::Empty => {
                assert(self.volume_reach_ms(nh, eh, n) == Multiset::<usize>::empty());
                assert(self.volume_reach(nh, eh, n) == Set::<usize>::empty());
            },
        }
    }

    proof fn lemma_volume_kids_ms_dom(self, nh: Seq<bool>, eh: Seq<bool>, kids: Seq<NodeId>, k: nat, bound: nat)
        ensures
            forall|x: usize|
                #[trigger] self.volume_kids_ms(nh, eh, kids, k, bound).count(x) > 0 <==> self.reach_kids(
                    nh,
                    eh,
                    false,
                    kids,
                    k,
                    bound,
                ).contains(x),
        decreases bound, k,
    {
        if k > 0 {
            let c = kids[k - 1].0 as int;
            self.lemma_volume_kids_ms_dom(nh, eh, kids, (k - 1) as nat, bound);
            if self.rank(c) < bound {
                self.lemma_volume_ms_dom(nh, eh, c);
            }
            assert forall|x: usize| #[trigger] self.volume_kids_ms(nh, eh, kids, k, bound).count(x) > 0
                <==> self.reach_kids(nh, eh, false, kids, k, bound).contains(x) by {
                assert(self.volume_kids_ms(nh, eh, kids, (k - 1) as nat, bound).count(x) > 0
                    <==> self.reach_kids(nh, eh, false, kids, (k - 1) as nat, bound).contains(x));
                if self.rank(c) < bound {
                    assert(self.volume_reach_ms(nh, eh, c).count(x) > 0 <==> self.volume_reach(nh, eh, c).contains(x));
                }
            }
        } else {
            assert(self.volume_kids_ms(nh, eh, kids, k, bound) == Multiset::<usize>::empty());
            assert(self.reach_kids(nh, eh, false, kids, k, bound) == Set::<usize>::empty());
        }
    }

    /// What the nodes on a volume walk's stack still have to append.
    spec fn pending_ms(self, nh: Seq<bool>, eh: Seq<bool>, s: Seq<usize>) -> Multiset<usize>
        decreases s.len(),
    {
        if s.len() == 0 {
            Multiset::empty()
        } else {
            self.pending_ms(nh, eh, s.drop_last()).add(self.volume_reach_ms(nh, eh, s.last() as int))
        }
    }

    proof fn lemma_pending_ms_push(self, nh: Seq<bool>, eh: Seq<bool>, s: Seq<usize>, x: usize)
        ensures
            self.pending_ms(nh, eh, s.push(x)) == self.pending_ms(nh, eh, s).add(self.volume_reach_ms(nh, eh, x as int)),
    {
        assert(s.push(x).drop_last() =~= s);
    }


    /// The number of nodes in the subtree of `n`.
    spec fn tsize(self, n: int) -> nat
        decreases self.rank(n), 9nat,
    {
        match self.kind(n) {
            NodeType::Branch(b) => 1 + self.size_kids(b.children@, 8, self.rank(n)),
            _ => 1,
        }
    }

    spec fn size_kids(self, kids: Seq<NodeId>, k: nat, bound: nat) -> nat
        decreases bound, k,
    {
        if k == 0 {
            0
        } else {
            let c = kids[k - 1].0 as int;
            let here = if self.rank(c) < bound {
                self.tsize(c)
            } else {
                0
            };
            self.size_kids(kids, (k - 1) as nat, bound) + here
        }
    }

    /// What the nodes on a walk's stack still have to report.
    spec fn pending(self, nh: Seq<bool>, eh: Seq<bool>, every_node: bool, s: Seq<usize>) -> Set<usize>
        decreases s.len(),
    {
        if s.len() == 0 {
            Set::empty()
        } else {
            self.pending(nh, eh, every_node, s.drop_last()).union(
                self.reach(nh, eh, every_node, s.last() as int),
            )
        }
    }

    /// How many nodes a walk still has to visit for its stack.
    spec fn pending_size(self, s: Seq<usize>) -> nat
        decreases s.len(),
    {
        if s.len() == 0 {
            0
        } else {
            self.pending_size(s.drop_last()) + self.tsize(s.last() as int)
        }
    }

    proof fn lemma_pending_push(self, nh: Seq<bool>, eh: Seq<bool>, every_node: bool, s: Seq<usize>, x: usize)
        ensures
            self.pending(nh, eh, every_node, s.push(x)) == self.pending(nh, eh, every_node, s).union(
                self.reach(nh, eh, every_node, x as int),
            ),
            self.pending_size(s.push(x)) == self.pending_size(s) + self.tsize(x as int),
    {
        assert(s.push(x).drop_last() =~= s);
    }

    proof fn lemma_tsize_positive(self, n: int)
        ensures
            self.tsize(n) >= 1,
    {
    }
}

/// The test outcome at index `i`, a miss where there is none.
fn flag_at(v: &Vec<bool>, i: usize) -> (r: bool)
    ensures
        r == flag(v@, i as int),
{
    i < v.len() && v[i]
}

/// The distance key at index `i`, a miss where there is none.
fn key_of(v: &Vec<Option<u32>>, i: usize) -> (r: Option<u32>)
    ensures
        r == key_at(v@, i as int),
{
    if i < v.len() {
        v[i]
    } else {
        None
    }
}


impl Octree {
    /// Appends to `elements` one entry for each leaf below `node` that the
    /// volume query reports, leaving the entries already there in place.
    pub fn rintersect(&self, node: usize, hits: &VolumeHits, elements: &mut Vec<usize>)
        requires
            self@.has_node(node as int),
        ensures
            final(elements)@.len() >= old(elements)@.len(),
            final(elements)@.subrange(0, old(elements)@.len() as int) == old(elements)@,
            final(elements)@.skip(old(elements)@.len() as int).to_multiset() == self@.volume_reach_ms(
                hits.nodes@,
                hits.elements@,
                node as int,
            ),
        decreases self@.rank(node as int),
    {
        proof {
            use_type_invariant(self);
        }
        broadcast use vstd::seq_lib::group_to_multiset_ensures;

        let ghost t = self@;
        let ghost nh = hits.nodes@;
        let ghost eh = hits.elements@;
        let ghost start = elements@;
        let ghost sl = start.len() as int;
        let ghost target = t.volume_reach_ms(nh, eh, node as int);
        let nodes = self.nodes();
        let mut stack = stack_new();
        stack_push(&mut stack, node).unwrap();
        proof {
            t.lemma_pending_ms_push(nh, eh, Seq::empty(), node);
            assert(Seq::<usize>::empty().push(node) == stack_items(stack));
            assert(elements@.skip(sl) =~= Seq::<usize>::empty());
            assert(elements@.skip(sl).to_multiset().add(t.pending_ms(nh, eh, stack_items(stack))) =~= target);
            assert(elements@.subrange(0, sl) =~= start);
        }
        loop
            invariant
                t == self@,
                t.wf(),
                nodes@ == t.nodes,
                nh == hits.nodes@,
                eh == hits.elements@,
                stack_items(stack).len() <= 32,
                forall|k: int|
                    0 <= k < stack_items(stack).len() ==> t.has_node(#[trigger] stack_items(stack)[k] as int)
                        && t.rank(stack_items(stack)[k] as int) <= t.rank(node as int),
                sl == start.len(),
                elements@.len() >= sl,
                elements@.subrange(0, sl) == start,
                elements@.skip(sl).to_multiset().add(t.pending_ms(nh, eh, stack_items(stack))) == target,
            ensures
                sl == start.len(),
                elements@.len() >= sl,
                elements@.subrange(0, sl) == start,
                elements@.skip(sl).to_multiset() == target,
            decreases t.pending_size(stack_items(stack)),
        {
            let ghost s0 = stack_items(stack);
            let popped = stack_pop(&mut stack);
            match popped {
                None => {
                    assert(elements@.skip(sl).to_multiset().add(t.pending_ms(nh, eh, s0))
                        =~= elements@.skip(sl).to_multiset());
                    break ;
                },
                Some(n) => {
                    let ghost s1 = stack_items(stack);
                    let ghost base = elements@.skip(sl).to_multiset().add(t.pending_ms(nh, eh, s1));
                    proof {
                        assert(s0[s0.len() - 1] == n);
                        assert(base.add(t.volume_reach_ms(nh, eh, n as int)) =~= target);
                        assert(base =~= base.add(Multiset::empty()));
                        t.lemma_tsize_positive(n as int);
                        assert(t.node_wf(n as int));
                    }
                    let nd = nodes[n];
                    match nd.ntype {
                        NodeType::Empty => {
                            assert(t.volume_reach_ms(nh, eh, n as int) == Multiset::<usize>::empty());
                            assert(elements@.skip(sl).to_multiset().add(t.pending_ms(nh, eh, stack_items(stack)))
                                =~= target);
                        },
                        NodeType::Leaf(e) => {
                            let ghost before = elements@;
                            if flag_at(&hits.elements, e.0) {
                                elements.push(e.0);
                                proof {
                                    assert(elements@.skip(sl) =~= before.skip(sl).push(e.0));
                                    assert(elements@.subrange(0, sl) =~= before.subrange(0, sl));
                                    assert(t.volume_reach_ms(nh, eh, n as int) == Multiset::singleton(e.0));
                                    vstd::seq_lib::to_multiset_build(before.skip(sl), e.0);
                                    assert(elements@.skip(sl).to_multiset() == before.skip(sl).to_multiset().add(
                                        Multiset::singleton(e.0),
                                    ));
                                    lemma_ms_regroup(
                                        before.skip(sl).to_multiset(),
                                        t.pending_ms(nh, eh, s1),
                                        base,
                                        Multiset::empty(),
                                        Multiset::singleton(e.0),
                                    );
                                    assert(Multiset::<usize>::empty().add(Multiset::singleton(e.0)) =~= Multiset::singleton(e.0));
                                }
                            } else {
                                assert(t.volume_reach_ms(nh, eh, n as int) == Multiset::<usize>::empty());
                            }
                            assert(elements@.skip(sl).to_multiset().add(t.pending_ms(nh, eh, stack_items(stack)))
                                =~= target);
                        },
                        NodeType::Branch(branch) => {
                            if flag_at(&hits.nodes, n) || !self.is_closed(n) {
                                let ghost kids = branch.children@;
                                let ghost r = t.rank(n as int);
                                assert(t.kind(n as int) == NodeType::Branch(branch));
                                assert(forall|j: int| 0 <= j < 8 ==> #[trigger] t.child_ok(n as int, kids[j]));
                                let mut i: usize = 0;
                                while i < 8
                                    invariant
                                        t == self@,
                                        t.wf(),
                                        nodes@ == t.nodes,
                                        nh == hits.nodes@,
                                        eh == hits.elements@,
                                        0 <= i <= 8,
                                        t.has_node(n as int),
                                        t.kind(n as int) == NodeType::Branch(branch),
                                        kids == branch.children@,
                                        r == t.rank(n as int),
                                        r <= t.rank(node as int),
                                        forall|j: int| 0 <= j < 8 ==> #[trigger] t.child_ok(n as int, kids[j]),
                                        stack_items(stack).len() <= 32,
                                        forall|k: int|
                                            0 <= k < stack_items(stack).len() ==> t.has_node(
                                                #[trigger] stack_items(stack)[k] as int,
                                            ) && t.rank(stack_items(stack)[k] as int) <= t.rank(node as int),
                                        sl == start.len(),
                elements@.len() >= sl,
                                        elements@.subrange(0, sl) == start,
                                        elements@.skip(sl).to_multiset().add(t.pending_ms(nh, eh, stack_items(stack)))
                                            == base.add(t.volume_kids_ms(nh, eh, kids, i as nat, r)),
                                        t.pending_size(stack_items(stack)) <= t.pending_size(s1) + t.size_kids(
                                            kids,
                                            i as nat,
                                            r,
                                        ),
                                    decreases 8 - i,
                                {
                                    let child = branch.children[i].0;
                                    proof {
                                        assert(t.child_ok(n as int, kids[i as int]));
                                    }
                                    let ghost sb = stack_items(stack);
                                    if stack_push(&mut stack, child).is_err() {
                                        while i < 8
                                            invariant
                                                t == self@,
                                                t.wf(),
                                                nh == hits.nodes@,
                                                eh == hits.elements@,
                                                0 <= i <= 8,
                                                t.has_node(n as int),
                                                kids == branch.children@,
                                                r == t.rank(n as int),
                                                r <= t.rank(node as int),
                                                forall|j: int| 0 <= j < 8 ==> #[trigger] t.child_ok(n as int, kids[j]),
                                                t.kind(n as int) == NodeType::Branch(branch),
                                                stack_items(stack) == sb,
                                                sl == start.len(),
                elements@.len() >= sl,
                                                elements@.subrange(0, sl) == start,
                                                elements@.skip(sl).to_multiset().add(t.pending_ms(nh, eh, sb))
                                                    == base.add(t.volume_kids_ms(nh, eh, kids, i as nat, r)),
                                                t.pending_size(sb) <= t.pending_size(s1) + t.size_kids(
                                                    kids,
                                                    i as nat,
                                                    r,
                                                ),
                                            decreases 8 - i,
                                        {
                                            let c = branch.children[i].0;
                                            proof {
                                                assert(t.child_ok(n as int, kids[i as int]));
                                            }
                                            let ghost before = elements@;
                                            self.rintersect(c, hits, elements);
                                            proof {
                                                let added = elements@.skip(before.len() as int);
                                                assert(elements@.skip(sl) =~= before.skip(sl) + added);
                                                assert(elements@.subrange(0, sl) =~= before.subrange(0, sl));
                                                vstd::seq_lib::lemma_multiset_commutative(before.skip(sl), added);
                                                lemma_ms_regroup(
                                                    before.skip(sl).to_multiset(),
                                                    t.pending_ms(nh, eh, sb),
                                                    base,
                                                    t.volume_kids_ms(nh, eh, kids, i as nat, r),
                                                    t.volume_reach_ms(nh, eh, c as int),
                                                );
                                                assert(c == kids[i as int].0);
                                                assert(t.volume_kids_ms(nh, eh, kids, (i + 1) as nat, r)
                                                    == t.volume_kids_ms(nh, eh, kids, i as nat, r).add(
                                                    t.volume_reach_ms(nh, eh, c as int),
                                                ));
                                                assert(elements@.skip(sl).to_multiset().add(t.pending_ms(nh, eh, sb))
                                                    =~= base.add(t.volume_kids_ms(nh, eh, kids, (i + 1) as nat, r)));
                                            }
                                            i += 1;
                                        }
                                    } else {
                                        proof {
                                            assert(sb.len() < 32);
                                            assert(stack_items(stack) == sb.push(child));
                                            t.lemma_pending_ms_push(nh, eh, sb, child);
                                            t.lemma_pending_push(nh, eh, false, sb, child);
                                            lemma_ms_regroup(
                                                elements@.skip(sl).to_multiset(),
                                                t.pending_ms(nh, eh, sb),
                                                base,
                                                t.volume_kids_ms(nh, eh, kids, i as nat, r),
                                                t.volume_reach_ms(nh, eh, child as int),
                                            );
                                            assert(t.volume_kids_ms(nh, eh, kids, (i + 1) as nat, r)
                                                == t.volume_kids_ms(nh, eh, kids, i as nat, r).add(
                                                t.volume_reach_ms(nh, eh, child as int),
                                            ));
                                            assert(elements@.skip(sl).to_multiset().add(t.pending_ms(nh, eh, stack_items(stack)))
                                                =~= base.add(t.volume_kids_ms(nh, eh, kids, (i + 1) as nat, r)));
                                        }
                                        i += 1;
                                    }
                                }
                                proof {
                                    assert(t.volume_reach_ms(nh, eh, n as int) == t.volume_kids_ms(nh, eh, kids, 8, r));
                                    assert(t.tsize(n as int) == 1 + t.size_kids(kids, 8, r));
                                }
                            } else {
                                assert(t.volume_reach_ms(nh, eh, n as int) == Multiset::<usize>::empty());
                                assert(elements@.skip(sl).to_multiset().add(t.pending_ms(nh, eh, stack_items(stack)))
                                    =~= target);
                            }
                        },
                    }
                },
            }
        }
    }

    /// Moves `hit` to the nearest element that the ray meets in the subtree
    /// of `node`, where that one is strictly nearer than the hit held already
    /// (an element id with the key of its distance); any held hit is
    /// accepted, and is kept when nothing in the subtree is strictly nearer.
    pub fn recursive_ray_cast(&self, node: usize, hits: &RayHits, hit: &mut Option<(usize, u32)>)
        requires
            self@.has_node(node as int),
        ensures
            hit_valid(hits.elements@, *old(hit)) ==> hit_valid(hits.elements@, *final(hit)),
            improves(
                hits.elements@,
                *old(hit),
                *final(hit),
                self@.ray_reach(hits.nodes@, hits.elements@, node as int),
            ),
        decreases self@.rank(node as int),
    {
        proof {
            use_type_invariant(self);
        }
        let ghost t = self@;
        let ghost nh = hits.nodes@;
        let ghost ks = hits.elements@;
        let ghost eh = key_flags(ks);
        let ghost h0 = *hit;
        let ghost target = t.reach(nh, eh, true, node as int);
        let ghost mut done = Set::<usize>::empty();
        let nodes = self.nodes();
        let mut stack = stack_new();
        stack_push(&mut stack, node).unwrap();
        proof {
            t.lemma_pending_push(nh, eh, true, Seq::empty(), node);
            assert(Seq::<usize>::empty().push(node) == stack_items(stack));
            assert(t.pending(nh, eh, true, Seq::empty()) == Set::<usize>::empty());
            assert(done.union(t.pending(nh, eh, true, stack_items(stack))) =~= target);
        }
        loop
            invariant
                t == self@,
                t.wf(),
                nodes@ == t.nodes,
                nh == hits.nodes@,
                ks == hits.elements@,
                eh == key_flags(ks),
                stack_items(stack).len() <= 32,
                forall|k: int|
                    0 <= k < stack_items(stack).len() ==> t.has_node(#[trigger] stack_items(stack)[k] as int)
                        && t.rank(stack_items(stack)[k] as int) <= t.rank(node as int),
                done.union(t.pending(nh, eh, true, stack_items(stack))) == target,
                improves(ks, h0, *hit, done),
                hit_valid(ks, h0) ==> hit_valid(ks, *hit),
            ensures
                improves(ks, h0, *hit, target),
                hit_valid(ks, h0) ==> hit_valid(ks, *hit),
            decreases t.pending_size(stack_items(stack)),
        {
            let ghost s0 = stack_items(stack);
            let popped = stack_pop(&mut stack);
            match popped {
                None => {
                    assert(done.union(t.pending(nh, eh, true, s0)) =~= done);
                    break ;
                },
                Some(n) => {
                    let ghost s1 = stack_items(stack);
                    let ghost base = done.union(t.pending(nh, eh, true, s1));
                    proof {
                        assert(s0[s0.len() - 1] == n);
                        assert(base.union(t.reach(nh, eh, true, n as int)) =~= target);
                        t.lemma_tsize_positive(n as int);
                        assert(t.node_wf(n as int));
                    }
                    if flag_at(&hits.nodes, n) || !self.is_closed(n) {
                        let nd = nodes[n];
                        match nd.ntype {
                            NodeType::Empty => {
                                assert(done.union(t.pending(nh, eh, true, stack_items(stack))) =~= target);
                            },
                            NodeType::Leaf(element) => {
                                if let Some(dist) = key_of(&hits.elements, element.0) {
                                    let ghost hb = *hit;
                                    match *hit {
                                        Some((_, best)) => {
                                            if best > dist {
                                                *hit = Some((element.0, dist));
                                            }
                                        },
                                        None => {
                                            *hit = Some((element.0, dist));
                                        },
                                    }
                                    proof {
                                        let single = set![element.0];
                                        assert(flag(eh, element.0 as int));
                                        assert(t.reach(nh, eh, true, n as int) == single);
                                        assert(key_at(ks, element.0 as int) == Some(dist));
                                        assert forall|x: usize| #[trigger] single.contains(x) implies (key_at(
                                            ks,
                                            x as int,
                                        ) matches Some(k) && (hit->0).1 <= k) by {
                                            assert(x == element.0);
                                        }
                                        assert(single.contains(element.0));
                                        assert(single != Set::<usize>::empty());
                                        assert(improves(ks, hb, *hit, single));
                                        lemma_improves_compose(ks, h0, hb, *hit, done, single);
                                        assert(done.union(t.pending(nh, eh, true, s1)) =~= Set::<usize>::empty().union(base));
                                        lemma_regroup(
                                            done,
                                            t.pending(nh, eh, true, s1),
                                            Set::empty(),
                                            base,
                                            single,
                                        );
                                        assert(Set::<usize>::empty().union(base.union(single)) =~= base.union(single));
                                        done = done.union(single);
                                        assert(done.union(t.pending(nh, eh, true, s1)) =~= target);
                                    }
                                } else {
                                    assert(!flag(eh, element.0 as int));
                                    assert(done.union(t.pending(nh, eh, true, stack_items(stack))) =~= target);
                                }
                            },
                            NodeType::Branch(branch) => {
                                let ghost kids = branch.children@;
                                let ghost r = t.rank(n as int);
                                assert(t.kind(n as int) == NodeType::Branch(branch));
                                assert(forall|j: int| 0 <= j < 8 ==> #[trigger] t.child_ok(n as int, kids[j]));
                                let mut i: usize = 0;
                                while i < 8
                                    invariant
                                        t == self@,
                                        t.wf(),
                                        nodes@ == t.nodes,
                                        nh == hits.nodes@,
                                        ks == hits.elements@,
                                        eh == key_flags(ks),
                                        0 <= i <= 8,
                                        t.has_node(n as int),
                                        t.kind(n as int) == NodeType::Branch(branch),
                                        kids == branch.children@,
                                        r == t.rank(n as int),
                                        r <= t.rank(node as int),
                                        forall|j: int| 0 <= j < 8 ==> #[trigger] t.child_ok(n as int, kids[j]),
                                        stack_items(stack).len() <= 32,
                                        forall|k: int|
                                            0 <= k < stack_items(stack).len() ==> t.has_node(
                                                #[trigger] stack_items(stack)[k] as int,
                                            ) && t.rank(stack_items(stack)[k] as int) <= t.rank(node as int),
                                        done.union(t.pending(nh, eh, true, stack_items(stack)))
                                            == base.union(t.reach_kids(nh, eh, true, kids, i as nat, r)),
                                        t.pending_size(stack_items(stack)) <= t.pending_size(s1) + t.size_kids(
                                            kids,
                                            i as nat,
                                            r,
                                        ),
                                        improves(ks, h0, *hit, done),
                                        hit_valid(ks, h0) ==> hit_valid(ks, *hit),
                                    decreases 8 - i,
                                {
                                    let child = branch.children[i].0;
                                    proof {
                                        assert(t.child_ok(n as int, kids[i as int]));
                                    }
                                    let ghost sb = stack_items(stack);
                                    if stack_push(&mut stack, child).is_err() {
                                        while i < 8
                                            invariant
                                                t == self@,
                                                t.wf(),
                                                nh == hits.nodes@,
                                                ks == hits.elements@,
                                                eh == key_flags(ks),
                                                0 <= i <= 8,
                                                t.has_node(n as int),
                                                kids == branch.children@,
                                                r == t.rank(n as int),
                                                r <= t.rank(node as int),
                                                forall|j: int| 0 <= j < 8 ==> #[trigger] t.child_ok(n as int, kids[j]),
                                                t.kind(n as int) == NodeType::Branch(branch),
                                                stack_items(stack) == sb,
                                                done.union(t.pending(nh, eh, true, sb))
                                                    == base.union(t.reach_kids(nh, eh, true, kids, i as nat, r)),
                                                t.pending_size(sb) <= t.pending_size(s1) + t.size_kids(
                                                    kids,
                                                    i as nat,
                                                    r,
                                                ),
                                                improves(ks, h0, *hit, done),
                                                hit_valid(ks, h0) ==> hit_valid(ks, *hit),
                                            decreases 8 - i,
                                        {
                                            let c = branch.children[i].0;
                                            proof {
                                                assert(t.child_ok(n as int, kids[i as int]));
                                            }
                                            let ghost hb = *hit;
                                            self.recursive_ray_cast(c, hits, hit);
                                            proof {
                                                assert(c == kids[i as int].0);
                                                assert(t.reach_kids(nh, eh, true, kids, (i + 1) as nat, r)
                                                    == t.reach_kids(nh, eh, true, kids, i as nat, r).union(
                                                    t.reach(nh, eh, true, c as int),
                                                ));
                                                lemma_improves_compose(ks, h0, hb, *hit, done, t.reach(nh, eh, true, c as int));
                                                lemma_regroup(
                                                    done,
                                                    t.pending(nh, eh, true, sb),
                                                    base,
                                                    t.reach_kids(nh, eh, true, kids, i as nat, r),
                                                    t.reach(nh, eh, true, c as int),
                                                );
                                                done = done.union(t.reach(nh, eh, true, c as int));
                                            }
                                            i += 1;
                                        }
                                    } else {
                                        proof {
                                            assert(sb.len() < 32);
                                            assert(stack_items(stack) == sb.push(child));
                                            t.lemma_pending_push(nh, eh, true, sb, child);
                                            assert(t.reach_kids(nh, eh, true, kids, (i + 1) as nat, r)
                                                == t.reach_kids(nh, eh, true, kids, i as nat, r).union(
                                                t.reach(nh, eh, true, child as int),
                                            ));
                                            lemma_regroup(
                                                done,
                                                t.pending(nh, eh, true, sb),
                                                base,
                                                t.reach_kids(nh, eh, true, kids, i as nat, r),
                                                t.reach(nh, eh, true, child as int),
                                            );
                                        }
                                        i += 1;
                                    }
                                }
                                proof {
                                    assert(t.reach(nh, eh, true, n as int) == t.reach_kids(nh, eh, true, kids, 8, r));
                                    assert(t.tsize(n as int) == 1 + t.size_kids(kids, 8, r));
                                }
                            },
                        }
                    } else {
                        assert(done.union(t.pending(nh, eh, true, stack_items(stack))) =~= target);
                    }
                },
            }
        }
    }


    /// Intersects the tree with a volume, given the outcome of the volume's
    /// tests against each node box and each element volume.
    ///
    /// Returns the elements that the walk reports, each once, in ascending
    /// order of their ids. When the outcomes agree with the boxes, as those
    /// of one geometric query do, these are exactly the elements of the tree
    /// whose volumes the query touches.
    pub fn intersect(&self, hits: &VolumeHits) -> (r: Vec<ElementId>)
        ensures
            strictly_ascending(element_ids(r@)),
            element_ids(r@).to_set() == self@.volume_reach(hits.nodes@, hits.elements@, self@.root as int),
            self@.consistent(hits.nodes@, hits.elements@) ==> element_ids(r@).to_set() == self@.met(hits.elements@),
    {
        proof {
            use_type_invariant(self);
        }
        let mut elements: Vec<usize> = Vec::with_capacity(10);
        self.rintersect(self.root().0, hits, &mut elements);
        proof {
            broadcast use vstd::seq_lib::group_to_multiset_ensures;

            let reach = self@.volume_reach(hits.nodes@, hits.elements@, self@.root as int);
            assert(elements@.skip(0) =~= elements@);
            self@.lemma_volume_ms_dom(hits.nodes@, hits.elements@, self@.root as int);
            assert forall|x: usize| elements@.to_set().contains(x) <==> reach.contains(x) by {
                assert(elements@.contains(x) <==> elements@.to_multiset().count(x) > 0);
            }
            assert(elements@.to_set() =~= reach);
            if self@.consistent(hits.nodes@, hits.elements@) {
                self@.lemma_reach_is_met(hits.nodes@, hits.elements@, false);
            }
        }
        sort_keeping_set(&mut elements);
        let unique = dedup_sorted(&elements);
        to_element_ids(&unique)
    }

    /// Casts a ray through the tree, given the outcome of the ray's tests
    /// against each node box and each element volume.
    ///
    /// Returns the element that the ray enters first, or `None` where it
    /// enters none; when the outcomes agree with the boxes, this is the
    /// nearest of all the elements of the tree that the ray enters.
    pub fn ray_cast(&self, hits: &RayHits) -> (r: Option<ElementId>)
        ensures
            r is None <==> self@.ray_reach(hits.nodes@, hits.elements@, self@.root as int) == Set::<usize>::empty(),
            r matches Some(e) ==> nearest_in(
                hits.elements@,
                self@.ray_reach(hits.nodes@, hits.elements@, self@.root as int),
                e.0,
            ),
            self@.consistent(hits.nodes@, key_flags(hits.elements@)) ==> {
                &&& (r is None <==> self@.met(key_flags(hits.elements@)) == Set::<usize>::empty())
                &&& (r matches Some(e) ==> nearest_in(hits.elements@, self@.met(key_flags(hits.elements@)), e.0))
            },
    {
        proof {
            use_type_invariant(self);
        }
        let mut hit: Option<(usize, u32)> = None;
        self.recursive_ray_cast(self.root().0, hits, &mut hit);
        proof {
            if self@.consistent(hits.nodes@, key_flags(hits.elements@)) {
                self@.lemma_reach_is_met(hits.nodes@, key_flags(hits.elements@), true);
            }
        }
        match hit {
            Some((e, _)) => Some(ElementId(e)),
            None => None,
        }
    }

}

} // verus!
