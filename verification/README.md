# oktree

An octree over an unsigned integer grid, verified with Verus.

- `src/tree.rs`: the tree (`Octree`, `Node`, `Aabb`, ...), its mathematical
  model `TreeModel`, the well-formedness invariant that every tree keeps, and
  which subtrees keep all their element volumes inside their node's box.
- `src/query.rs`: the two walks, `Octree::intersect` (which elements a volume
  touches) and `Octree::ray_cast` (which element a ray enters first), with
  their specifications and lemmas.
- `src/ids.rs`: sorting and de-duplicating the collected element ids.
- `src/stack.rs`: the bounded `heapless::Vec` stack that the walks use.
- `app/`: the floating-point side: converting boxes to cgmath types and
  running cgmath's volume and ray tests, whose outcomes the walks read.
