use vstd::prelude::*;

verus! {

/// One mutable handle per element of `s`, in order. Writing through the
/// handles is what changes `s`.
fn element_refs<'a, T>(s: &'a mut [T]) -> (r: Vec<Option<&'a mut T>>)
    ensures
        r@.len() == old(s)@.len(),
        forall|k: int| 0 <= k < r@.len() ==> (#[trigger] r@[k]) is Some,
        forall|k: int| 0 <= k < r@.len() ==> *(#[trigger] r@[k])->Some_0 == old(s)@[k],
        final(s)@ == Seq::new(r@.len(), |k: int| *final(r@[k]->Some_0)),
{
    let mut r: Vec<Option<&'a mut T>> = Vec::new();
    let ghost orig = s@;
    let ghost fin = final(s)@;
    let mut rest: &'a mut [T] = s;
    while rest.len() > 0
        invariant
            r@.len() + rest@.len() == orig.len(),
            rest@ == orig.skip(r@.len() as int),
            forall|k: int| 0 <= k < r@.len() ==> (#[trigger] r@[k]) is Some,
            forall|k: int| 0 <= k < r@.len() ==> *(#[trigger] r@[k])->Some_0 == orig[k],
            fin == Seq::new(r@.len(), |k: int| *final(r@[k]->Some_0)) + final(rest)@,
        decreases rest@.len(),
    {
        let (head, tail) = rest.split_at_mut(1);
        let e = head.first_mut();
        r.push(e);
        rest = tail;
    }
    r
}


/// Whether backing-store index `k` occurs in `order[lo..hi]`.
pub open spec fn picked(order: Seq<usize>, lo: int, hi: int, k: int) -> bool {
    exists|j: int| lo <= j < hi && order[j] == k
}

/// Mutable handles to the cells `order[lo..hi]` of `data`, in that order.
/// The indices must be distinct, so that no two handles alias; cells that
/// are not named keep their values.
pub fn slot_refs<'a, T>(data: &'a mut Vec<T>, order: &Vec<usize>, lo: usize, hi: usize) -> (r: Vec<&'a mut T>)
    requires
        lo <= hi <= order@.len(),
        forall|j: int| lo <= j < hi ==> (#[trigger] order@[j]) < old(data)@.len(),
        forall|i: int, j: int| lo <= i < hi && lo <= j < hi && i != j ==> order@[i] != order@[j],
    ensures
        r@.len() == hi - lo,
        forall|j: int| 0 <= j < r@.len() ==> *(#[trigger] r@[j]) == old(data)@[order@[lo + j] as int],
        final(data)@.len() == old(data)@.len(),
        forall|j: int| 0 <= j < r@.len() ==> final(data)@[order@[lo + j] as int] == *final(#[trigger] r@[j]),
        forall|k: int| 0 <= k < old(data)@.len() && !picked(order@, lo as int, hi as int, k)
            ==> #[trigger] final(data)@[k] == old(data)@[k],
{
    let ghost orig = data@;
    let ghost fin = final(data)@;
    let mut all = element_refs(data.as_mut_slice());
    let ghost all0 = all@;
    let mut r: Vec<&'a mut T> = Vec::new();
    let mut j: usize = lo;
    while j < hi
        invariant
            lo <= j <= hi <= order@.len(),
            forall|x: int| lo <= x < hi ==> (#[trigger] order@[x]) < orig.len(),
            forall|x: int, y: int| lo <= x < hi && lo <= y < hi && x != y ==> order@[x] != order@[y],
            all@.len() == orig.len(),
            r@.len() == j - lo,
            forall|x: int| 0 <= x < r@.len() ==> #[trigger] r@[x] == all0[order@[lo + x] as int]->Some_0,
            forall|k: int| 0 <= k < orig.len() && !picked(order@, lo as int, j as int, k)
                ==> #[trigger] all@[k] == all0[k],
            forall|k: int| 0 <= k < all0.len() ==> (#[trigger] all0[k]) is Some,
            forall|k: int| 0 <= k < all0.len() ==> *(#[trigger] all0[k])->Some_0 == orig[k],
            all0.len() == orig.len(),
            fin == Seq::new(all0.len(), |k: int| *final(all0[k]->Some_0)),
        decreases hi - j,
    {
        let idx = order[j];
        proof {
            assert(!picked(order@, lo as int, j as int, idx as int));
        }
        let e = all[idx].take();
        r.push(e.unwrap());
        j += 1;
    }
    proof {
        assert(has_resolved(all));
        assert forall|k: int| 0 <= k < orig.len() && !picked(order@, lo as int, hi as int, k)
            implies #[trigger] fin[k] == orig[k] by {
            assert(has_resolved(all@[k]));
            assert(has_resolved(all@[k]->Some_0));
        }
    }
    r
}

} // verus!
