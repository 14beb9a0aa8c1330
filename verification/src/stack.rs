//! The bounded stack that drives the octree walks: a `heapless::Vec` of
//! node indices of capacity 32. Its contents are named by `stack_items`, and
//! each operation the walks use is a thin call whose contract restates what
//! heapless's source does.
use vstd::prelude::*;

verus! {

/// Makes `heapless::Vec` known to the verifier as an opaque type; what it
/// holds is seen only through `stack_items`.
#[verifier::external_type_specification]
#[verifier::external_body]
#[verifier::reject_recursive_types(T)]
pub struct ExHeaplessVec<T, const N: usize>(heapless::Vec<T, N>);

/// The node indices held by a stack, bottom first.
pub uninterp spec fn stack_items(s: heapless::Vec<usize, 32>) -> Seq<usize>;

/// `heapless::Vec::new`: the new vector holds nothing.
#[verifier::external_body]
pub(crate) fn stack_new() -> (s: heapless::Vec<usize, 32>)
    ensures
        stack_items(s) == Seq::<usize>::empty(),
{
    heapless::Vec::new()
}

/// `heapless::Vec::push`: below the capacity of 32 the item goes on top and
/// `Ok(())` comes back; at the capacity the vector is left as it was and the
/// item comes back in `Err`. The vector never holds more than 32 items.
#[verifier::external_body]
pub(crate) fn stack_push(s: &mut heapless::Vec<usize, 32>, item: usize) -> (r: Result<(), usize>)
    requires
        stack_items(*old(s)).len() <= 32,
    ensures
        stack_items(*old(s)).len() < 32 ==> r is Ok
            && stack_items(*final(s)) == stack_items(*old(s)).push(item),
        stack_items(*old(s)).len() >= 32 ==> (r matches Err(back) && back == item)
            && stack_items(*final(s)) == stack_items(*old(s)),
{
    s.push(item)
}

/// `heapless::Vec::pop`: takes the top item off, or gives `None` and leaves
/// the vector as it was when it is empty.
#[verifier::external_body]
pub(crate) fn stack_pop(s: &mut heapless::Vec<usize, 32>) -> (r: Option<usize>)
    ensures
        stack_items(*old(s)).len() == 0 ==> r is None
            && stack_items(*final(s)) == stack_items(*old(s)),
        stack_items(*old(s)).len() > 0 ==> r == Some(stack_items(*old(s)).last())
            && stack_items(*final(s)) == stack_items(*old(s)).drop_last(),
{
    s.pop()
}

} // verus!
