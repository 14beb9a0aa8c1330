//! Putting the element indices that a walk collected in order, once each.
use vstd::prelude::*;
use crate::tree::ElementId;

verus! {

/// The indices behind a sequence of element ids.
pub open spec fn element_ids(s: Seq<ElementId>) -> Seq<usize> {
    s.map_values(|e: ElementId| e.0)
}

/// Every entry is smaller than the next.
pub open spec fn strictly_ascending(s: Seq<usize>) -> bool {
    forall|i: int, j: int| 0 <= i < j < s.len() ==> s[i] < s[j]
}

/// Every entry is at most the next.
pub open spec fn ascending(s: Seq<usize>) -> bool {
    forall|i: int, j: int| 0 <= i <= j < s.len() ==> s[i] <= s[j]
}

/// Reading the ids: one index per id, in the same order, each the id's own.
pub proof fn lemma_element_ids_reads(s: Seq<ElementId>)
    ensures
        element_ids(s).len() == s.len(),
        forall|i: int| 0 <= i < s.len() ==> #[trigger] element_ids(s)[i] == s[i].0,
{
}

/// A strictly ascending sequence is one whose entries grow from each to any
/// later one; it holds no entry twice.
pub proof fn lemma_strictly_ascending_reads(s: Seq<usize>)
    ensures
        strictly_ascending(s) <==> forall|i: int, j: int| 0 <= i < j < s.len() ==> s[i] < s[j],
        strictly_ascending(s) ==> forall|i: int, j: int| 0 <= i < s.len() && 0 <= j < s.len() && i != j ==> s[i] != s[j],
{
    if strictly_ascending(s) {
        assert forall|i: int, j: int| 0 <= i < s.len() && 0 <= j < s.len() && i != j implies s[i] != s[j] by {
            if i < j {
                assert(s[i] < s[j]);
            } else {
                assert(s[j] < s[i]);
            }
        }
    }
}

/// `slice::sort`: afterwards the vector holds the same indices, each as
/// often as before, in ascending order.
#[verifier::external_body]
pub(crate) fn sort_ids(v: &mut Vec<usize>)
    ensures
        final(v)@.to_multiset() == old(v)@.to_multiset(),
        ascending(final(v)@),
{
    v.sort();
}

/// Sorting keeps the set of indices.
proof fn lemma_same_multiset_same_set(a: Seq<usize>, b: Seq<usize>)
    requires
        a.to_multiset() == b.to_multiset(),
    ensures
        a.to_set() == b.to_set(),
{
    broadcast use vstd::seq_lib::group_to_multiset_ensures;

    assert forall|x: usize| a.to_set().contains(x) <==> b.to_set().contains(x) by {
        assert(a.contains(x) <==> a.to_multiset().count(x) > 0);
        assert(b.contains(x) <==> b.to_multiset().count(x) > 0);
    }
    assert(a.to_set() =~= b.to_set());
}

/// Sorts the indices in place; the set they form stays the same.
pub(crate) fn sort_keeping_set(v: &mut Vec<usize>)
    ensures
        final(v)@.to_set() == old(v)@.to_set(),
        ascending(final(v)@),
{
    let ghost before = v@;
    sort_ids(v);
    proof {
        lemma_same_multiset_same_set(v@, before);
    }
}

/// Drops the repeats from an ascending sequence of indices, keeping the
/// first of each run.
pub(crate) fn dedup_sorted(v: &Vec<usize>) -> (r: Vec<usize>)
    requires
        ascending(v@),
    ensures
        strictly_ascending(r@),
        r@.to_set() == v@.to_set(),
{
    let mut out: Vec<usize> = Vec::new();
    let mut i: usize = 0;
    while i < v.len()
        invariant
            ascending(v@),
            i <= v.len(),
            strictly_ascending(out@),
            out@.to_set() == v@.subrange(0, i as int).to_set(),
            i == 0 ==> out@.len() == 0,
            i > 0 ==> out@.len() > 0 && out@.last() == v@[i - 1],
        decreases v.len() - i,
    {
        let ghost before = out@;
        let x = v[i];
        if out.len() == 0 || out[out.len() - 1] != x {
            out.push(x);
            assert(out@.to_set() =~= before.to_set().insert(x)) by {
                assert forall|a: usize| #[trigger] out@.to_set().contains(a) <==> before.to_set().insert(x).contains(a) by {
                    if a == x {
                        assert(out@[before.len() as int] == a);
                    }
                    if before.contains(a) {
                        let j = choose|j: int| 0 <= j < before.len() && before[j] == a;
                        assert(out@[j] == a);
                    }
                }
            }
        } else {
            assert(before.to_set() =~= before.to_set().insert(x)) by {
                assert(before[before.len() - 1] == x);
            }
        }
        let ghost sub0 = v@.subrange(0, i as int);
        let ghost sub1 = v@.subrange(0, i + 1);
        assert(sub1.to_set() =~= sub0.to_set().insert(x)) by {
            assert forall|a: usize| #[trigger] sub1.to_set().contains(a) <==> sub0.to_set().insert(x).contains(a) by {
                if a == x {
                    assert(sub1[i as int] == a);
                }
                if sub0.contains(a) {
                    let j = choose|j: int| 0 <= j < sub0.len() && sub0[j] == a;
                    assert(sub1[j] == a);
                }
                if sub1.contains(a) {
                    let j = choose|j: int| 0 <= j < sub1.len() && sub1[j] == a;
                    if j < i {
                        assert(sub0[j] == a);
                    }
                }
            }
        }
        i += 1;
    }
    assert(v@.subrange(0, v@.len() as int) =~= v@);
    out
}

/// Wraps each index as an element id.
pub(crate) fn to_element_ids(v: &Vec<usize>) -> (r: Vec<ElementId>)
    ensures
        element_ids(r@) == v@,
{
    let mut out: Vec<ElementId> = Vec::new();
    let mut i: usize = 0;
    while i < v.len()
        invariant
            i <= v.len(),
            out@.len() == i,
            element_ids(out@) == v@.subrange(0, i as int),
        decreases v.len() - i,
    {
        let ghost before = out@;
        out.push(ElementId(v[i]));
        let ghost sub1 = v@.subrange(0, i + 1);
        assert(element_ids(out@) =~= sub1) by {
            assert forall|j: int| 0 <= j < sub1.len() implies #[trigger] element_ids(out@)[j] == sub1[j] by {
                if j < i {
                    assert(element_ids(before)[j] == v@.subrange(0, i as int)[j]);
                    assert(out@[j] == before[j]);
                }
            }
        }
        i += 1;
    }
    assert(v@.subrange(0, v@.len() as int) =~= v@);
    out
}

} // verus!
