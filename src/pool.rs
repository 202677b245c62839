use vstd::prelude::*;

use crate::handles::{picked, slot_refs};
use crate::model::{is_permutation, kept, lemma_kept_prefix, lemma_swap_to_multiset, renumbered, survivors};
use crate::iter::{Iter, IterMut};
use vstd::std_specs::cmp::PartialEqSpec;

verus! {

/// A logical position outside the range that an operation accepts.
#[derive(Debug, Clone, Copy, PartialEq, Eq, Structural)]
pub struct OutOfBounds {
    /// The position that was asked for.
    pub at: usize,
    /// The number of alive objects at the time.
    pub len: usize,
}

/// Relies on `<[usize]>::sort_unstable`: afterwards the slice holds the same
/// values, in ascending order.
#[verifier::external_body]
fn sort_ascending(s: &mut [usize])
    ensures
        final(s)@.len() == old(s)@.len(),
        final(s)@.to_multiset() == old(s)@.to_multiset(),
        forall|i: int, j: int| 0 <= i <= j < final(s)@.len() ==> final(s)@[i] <= final(s)@[j],
{
    s.sort_unstable();
}

/// Objects that can be brought back to a fresh state in place, for the
/// pool's `spawn_new` family. The default overwrites the object with its
/// type's default value; a type may override it with a cheaper partial reset.
pub trait Recyclable: Default {
    fn reset(&mut self) {
        *self = Self::default();
    }
}

/// An object pool: a backing store of `T` values, an indirection table that
/// orders the backing-store indices, and a cursor that splits the table into
/// an alive prefix and a free suffix.
#[derive(Clone)]
pub struct Pool<T> {
    data: Vec<T>,
    offsets: Vec<usize>,
    alive_ct: usize,
}

impl<T> Pool<T> {
    /// The backing store, indexed by backing-store index.
    pub closed spec fn store(&self) -> Seq<T> {
        self.data@
    }

    /// The indirection table: table position to backing-store index.
    pub closed spec fn slots(&self) -> Seq<usize> {
        self.offsets@
    }

    /// Number of alive positions (the partition cursor).
    pub closed spec fn alive_count(&self) -> nat {
        self.alive_ct as nat
    }

    /// The pool's invariant: the table is a permutation of the backing-store
    /// indices and the cursor lies within it.
    pub open spec fn wf(&self) -> bool {
        &&& self.slots().len() == self.store().len()
        &&& self.alive_count() <= self.slots().len()
        &&& is_permutation(self.slots(), self.store().len())
    }

    /// Every value of the pool, resolved through the table, alive ones first.
    pub open spec fn content(&self) -> Seq<T> {
        Seq::new(self.slots().len(), |i: int| self.store()[self.slots()[i] as int])
    }

    /// The alive values, by logical position.
    pub open spec fn alive(&self) -> Seq<T> {
        self.content().take(self.alive_count() as int)
    }

    /// The free values, in the order in which they will be handed out.
    pub open spec fn free(&self) -> Seq<T> {
        self.content().skip(self.alive_count() as int)
    }

    /// Whether table position `i` exists and names a cell of the backing
    /// store.
    pub closed spec fn resolves(&self, i: int) -> bool {
        0 <= i < self.offsets@.len() && self.offsets@[i] < self.data@.len()
    }

    /// Number of objects in the pool, alive and free.
    pub open spec fn spec_capacity(&self) -> nat {
        self.slots().len()
    }

    /// Number of free objects in the pool.
    pub open spec fn spec_available(&self) -> nat {
        (self.slots().len() - self.alive_count()) as nat
    }

    /// After cells of the backing store were written through handles given
    /// out for table positions `lo..lo + fins.len()`, the content holds the
    /// written values at those positions and is unchanged elsewhere.
    proof fn lemma_written_cells(a: Self, b: Self, lo: int, fins: Seq<T>)
        requires
            a.wf(),
            0 <= lo,
            lo + fins.len() <= a.slots().len(),
            b.slots() == a.slots(),
            b.store().len() == a.store().len(),
            forall|j: int| 0 <= j < fins.len() ==> b.store()[a.slots()[lo + j] as int] == #[trigger] fins[j],
            forall|k: int| 0 <= k < a.store().len() && !picked(a.slots(), lo, lo + fins.len(), k)
                ==> #[trigger] b.store()[k] == a.store()[k],
        ensures
            b.content() == a.content().take(lo) + fins + a.content().skip(lo + fins.len()),
    {
        let hi = lo + fins.len();
        let expected = a.content().take(lo) + fins + a.content().skip(hi);
        assert forall|p: int| 0 <= p < b.content().len() implies b.content()[p] == expected[p] by {
            if lo <= p < hi {
                assert(fins[p - lo] == b.store()[a.slots()[lo + (p - lo)] as int]);
            } else {
                let k = a.slots()[p] as int;
                if picked(a.slots(), lo, hi, k) {
                    let j = choose|j: int| lo <= j < hi && a.slots()[j] == k;
                    assert(a.slots()[j] == a.slots()[p]);
                }
            }
        }
        assert(b.content() =~= expected);
    }

    /// A sequence with the same multiset of values as a permutation is one.
    proof fn lemma_same_multiset_permutation(s0: Seq<usize>, s1: Seq<usize>, n: nat)
        requires
            is_permutation(s0, n),
            s1.to_multiset() == s0.to_multiset(),
        ensures
            is_permutation(s1, n),
    {
        broadcast use vstd::seq_lib::group_to_multiset_ensures;
        assert(s0.no_duplicates());
        s0.lemma_multiset_has_no_duplicates();
        s1.lemma_multiset_has_no_duplicates_conv();
        assert(s1.len() == n) by {
            assert(s1.len() == s1.to_multiset().len());
            assert(s0.len() == s0.to_multiset().len());
        }
        assert forall|i: int| 0 <= i < s1.len() implies (#[trigger] s1[i]) < n by {
            assert(s1.contains(s1[i]));
            assert(s1.to_multiset().count(s1[i]) > 0);
            assert(s0.contains(s1[i]));
        }
        assert forall|k: usize| k < n implies #[trigger] s1.contains(k) by {
            assert(s0.contains(k));
            assert(s0.to_multiset().count(k) > 0);
        }
    }

    /// Exchanges the table entries at positions `i` and `j`.
    fn swap_slots(&mut self, i: usize, j: usize)
        requires
            old(self).wf(),
            i < old(self).spec_capacity(),
            j < old(self).spec_capacity(),
        ensures
            final(self).wf(),
            final(self).store() == old(self).store(),
            final(self).alive_count() == old(self).alive_count(),
            final(self).slots() == old(self).slots().update(i as int, old(self).slots()[j as int]).update(
                j as int,
                old(self).slots()[i as int],
            ),
            final(self).content() == old(self).content().update(i as int, old(self).content()[j as int]).update(
                j as int,
                old(self).content()[i as int],
            ),
    {
        let a = self.offsets[i];
        let b = self.offsets[j];
        self.offsets.set(i, b);
        self.offsets.set(j, a);
        proof {
            let s0 = old(self).slots();
            let s1 = self.slots();
            assert forall|k: usize| k < s1.len() implies #[trigger] s1.contains(k) by {
                assert(s0.contains(k));
                let w = choose|w: int| 0 <= w < s0.len() && s0[w] == k;
                if w == i {
                    assert(s1[j as int] == k);
                } else if w == j {
                    assert(s1[i as int] == k);
                } else {
                    assert(s1[w] == k);
                }
            }
            assert(self.content() =~= old(self).content().update(i as int, old(self).content()[j as int]).update(
                j as int,
                old(self).content()[i as int],
            ));
        }
    }

    /// Whether there are no free objects left in the pool.
    pub fn is_empty(&self) -> (r: bool)
        requires
            self.wf(),
        ensures
            r == (self.spec_available() == 0),
    {
        self.available() == 0
    }

    /// Number of objects in use in the pool.
    pub fn len(&self) -> (r: usize)
        ensures
            r == self.alive_count(),
    {
        self.alive_ct
    }

    /// Number of free objects in the pool.
    pub fn available(&self) -> (r: usize)
        requires
            self.wf(),
        ensures
            r == self.spec_available(),
    {
        self.offsets.len() - self.alive_ct
    }

    /// Number of objects in the pool, alive and free.
    pub fn capacity(&self) -> (r: usize)
        ensures
            r == self.spec_capacity(),
    {
        self.offsets.len()
    }
}

impl<T> Pool<T> {
    /// Hands out the first free object without checking that there is one.
    /// Its contents are whatever the slot last held.
    pub fn spawn_unchecked(&mut self) -> (r: &mut T)
        requires
            old(self).wf(),
            old(self).spec_available() > 0,
        ensures
            *r == old(self).free()[0],
            final(self).wf(),
            final(self).slots() == old(self).slots(),
            final(self).alive_count() == old(self).alive_count() + 1,
            final(self).alive() == old(self).alive().push(*final(r)),
            final(self).free() == old(self).free().drop_first(),
    {
        let ghost fin = *final(self);
        let at = self.alive_ct;
        let idx = self.offsets[at];
        proof {
            assert(at < self.offsets@.len() <= usize::MAX) by {
                assert(self.offsets@.len() == self.offsets.len());
            }
        }
        self.alive_ct = at + 1;
        let ghost pre = *self;
        let r = &mut self.data[idx];
        proof {
            let fins = seq![*final(r)];
            assert(fin.slots() == pre.slots());
            assert(fin.store() == pre.store().update(idx as int, *final(r)));
            assert forall|k: int| 0 <= k < pre.store().len()
                && !picked(pre.slots(), at as int, at + 1, k)
                implies #[trigger] fin.store()[k] == pre.store()[k] by {
                assert(pre.slots()[at as int] != k);
            }
            Self::lemma_written_cells(pre, fin, at as int, fins);
            assert(fin.alive() =~= old(self).alive().push(*final(r)));
            assert(fin.free() =~= old(self).free().drop_first());
        }
        r
    }

    /// Hands out the first free object, or nothing when no object is free.
    /// Its contents are whatever the slot last held.
    pub fn spawn(&mut self) -> (r: Option<&mut T>)
        requires
            old(self).wf(),
        ensures
            old(self).spec_available() == 0 ==> r is None && *final(self) == *old(self),
            old(self).spec_available() > 0 ==> {
                &&& r is Some
                &&& *r->Some_0 == old(self).free()[0]
                &&& final(self).wf()
                &&& final(self).slots() == old(self).slots()
                &&& final(self).alive_count() == old(self).alive_count() + 1
                &&& final(self).alive() == old(self).alive().push(*final(r->Some_0))
                &&& final(self).free() == old(self).free().drop_first()
            },
    {
        if self.is_empty() {
            None
        } else {
            Some(self.spawn_unchecked())
        }
    }

    /// Hands out exactly `count` free objects, in table order, or none at all
    /// when fewer than `count` are free.
    pub fn spawn_exact(&mut self, count: usize) -> (r: Vec<&mut T>)
        requires
            old(self).wf(),
        ensures
            count > old(self).spec_available() ==> r@.len() == 0 && *final(self) == *old(self),
            count <= old(self).spec_available() ==> {
                &&& r@.len() == count
                &&& forall|j: int| 0 <= j < count ==> *(#[trigger] r@[j]) == old(self).free()[j]
                &&& final(self).wf()
                &&& final(self).slots() == old(self).slots()
                &&& final(self).alive_count() == old(self).alive_count() + count
                &&& final(self).alive() == old(self).alive() + Seq::new(count as nat, |j: int| *final(r@[j]))
                &&& final(self).free() == old(self).free().skip(count as int)
            },
    {
        if count > self.available() {
            Vec::new()
        } else {
            let ghost fin = *final(self);
            let lo = self.alive_ct;
            proof {
                assert(self.offsets@.len() == self.offsets.len());
            }
            let hi = lo + count;
            self.alive_ct = hi;
            let ghost pre = *self;
            let r = slot_refs(&mut self.data, &self.offsets, lo, hi);
            proof {
                let fins = Seq::new(count as nat, |j: int| *final(r@[j]));
                assert(fin.slots() == pre.slots());
                assert forall|j: int| 0 <= j < fins.len()
                    implies fin.store()[pre.slots()[lo + j] as int] == #[trigger] fins[j] by {
                    assert(*final(r@[j]) == fins[j]);
                }
                Self::lemma_written_cells(pre, fin, lo as int, fins);
                assert(fin.alive() =~= old(self).alive() + fins);
                assert(fin.free() =~= old(self).free().skip(count as int));
            }
            r
        }
    }

    /// Hands out as many free objects as possible, up to `count`.
    pub fn spawn_some(&mut self, count: usize) -> (r: Vec<&mut T>)
        requires
            old(self).wf(),
        ensures
            r@.len() == if count <= old(self).spec_available() { count as nat } else { old(self).spec_available() },
            forall|j: int| 0 <= j < r@.len() ==> *(#[trigger] r@[j]) == old(self).free()[j],
            final(self).wf(),
            final(self).slots() == old(self).slots(),
            final(self).alive_count() == old(self).alive_count() + r@.len(),
            final(self).alive() == old(self).alive() + Seq::new(r@.len(), |j: int| *final(r@[j])),
            final(self).free() == old(self).free().skip(r@.len() as int),
    {
        let avail = self.available();
        let n = if count < avail { count } else { avail };
        self.spawn_exact(n)
    }

    /// Recycles every alive object for which `kill_fn` returns true, keeping
    /// the order of the survivors. The recycled objects join the free region.
    pub fn reclaim<F: Fn(&T) -> bool>(&mut self, kill_fn: F)
        requires
            old(self).wf(),
            forall|p: int| 0 <= p < old(self).alive_count() ==> kill_fn.requires((&old(self).alive()[p],)),
        ensures
            final(self).wf(),
            final(self).store() == old(self).store(),
            final(self).spec_capacity() == old(self).spec_capacity(),
            final(self).alive_count() <= old(self).alive_count(),
            exists|kills: Seq<bool>|
                {
                    &&& kills.len() == old(self).alive_count()
                    &&& forall|p: int| 0 <= p < kills.len() ==> kill_fn.ensures((&old(self).alive()[p],), #[trigger] kills[p])
                    &&& final(self).alive() == survivors(old(self).alive(), kills)
                },
            final(self).content().take(old(self).alive_count() as int).to_multiset() == old(self).alive().to_multiset(),
            final(self).content().skip(old(self).alive_count() as int) == old(self).free(),
    {
        let ghost orig = self.alive();
        let ghost rest = self.free();
        let ghost mut kills: Seq<bool> = Seq::empty();
        let n0 = self.alive_ct;
        let mut del: usize = 0;
        let mut i: usize = 0;
        while i < n0
            invariant
                self.wf(),
                self.store() == old(self).store(),
                self.alive_count() == n0,
                n0 == old(self).alive_count(),
                orig == old(self).alive(),
                orig.len() == n0,
                rest == old(self).free(),
                forall|p: int| 0 <= p < n0 ==> kill_fn.requires((&orig[p],)),
                del <= i <= n0,
                kills.len() == i,
                forall|p: int| 0 <= p < i ==> kill_fn.ensures((&orig[p],), #[trigger] kills[p]),
                kept(orig, kills, i as int).len() == i - del,
                self.content().take(i - del) == kept(orig, kills, i as int),
                self.content().subrange(i as int, n0 as int) == orig.subrange(i as int, n0 as int),
                self.content().take(n0 as int).to_multiset() == orig.to_multiset(),
                self.content().skip(n0 as int) == rest,
            decreases n0 - i,
        {
            let ghost c0 = self.content();
            assert(c0[i as int] == c0.subrange(i as int, n0 as int)[0]);
            let k = kill_fn(&self.data[self.offsets[i]]);
            let ghost kills0 = kills;
            proof {
                kills = kills.push(k);
                lemma_kept_prefix(orig, kills0, kills, i as int);
                assert(kills[i as int] == k);
            }
            if k {
                del += 1;
            } else if del > 0 {
                self.swap_slots(i, i - del);
                proof {
                    lemma_swap_to_multiset(c0.take(n0 as int), i as int, (i - del) as int);
                    assert(self.content().take(n0 as int) =~= c0.take(n0 as int).update(
                        i as int,
                        c0[(i - del) as int],
                    ).update((i - del) as int, c0[i as int]));
                }
            }
            proof {
                let c = self.content();
                assert(c.take(i + 1 - del) =~= kept(orig, kills, i + 1));
                assert(c.subrange(i + 1, n0 as int) =~= orig.subrange(i + 1, n0 as int)) by {
                    assert forall|p: int| 0 <= p < n0 - (i + 1) implies #[trigger] c.subrange(i + 1, n0 as int)[p] == orig.subrange(i + 1, n0 as int)[p] by {
                        assert(c0.subrange(i as int, n0 as int)[p + 1] == orig.subrange(i as int, n0 as int)[p + 1]);
                    }
                }
                assert(c.skip(n0 as int) =~= c0.skip(n0 as int));
            }
            i += 1;
        }
        self.alive_ct = n0 - del;
        proof {
            assert(self.alive() =~= self.content().take(i - del));
        }
    }

    /// Recycles every alive object for which `kill_fn` returns true, by
    /// exchanging it with the last unchecked alive entry. Each alive object is
    /// checked once; the survivors' order is not kept.
    pub fn reclaim_unstable<F: Fn(&T) -> bool>(&mut self, kill_fn: F)
        requires
            old(self).wf(),
            forall|p: int| 0 <= p < old(self).alive_count() ==> kill_fn.requires((&old(self).alive()[p],)),
        ensures
            final(self).wf(),
            final(self).store() == old(self).store(),
            final(self).spec_capacity() == old(self).spec_capacity(),
            final(self).alive_count() <= old(self).alive_count(),
            forall|p: int| 0 <= p < final(self).alive_count()
                ==> kill_fn.ensures((&final(self).alive()[p],), false),
            forall|p: int| final(self).alive_count() <= p < old(self).alive_count()
                ==> kill_fn.ensures((&final(self).content()[p],), true),
            final(self).content().take(old(self).alive_count() as int).to_multiset() == old(self).alive().to_multiset(),
            final(self).content().skip(old(self).alive_count() as int) == old(self).free(),
    {
        let ghost orig = self.alive();
        let ghost rest = self.free();
        let n0 = self.alive_ct;
        let mut len: usize = n0;
        let mut i: usize = 0;
        assert forall|p: int| 0 <= p < n0 implies kill_fn.requires((&self.content()[p],)) by {
            assert(self.content()[p] == orig[p]);
        }
        while i < len
            invariant
                self.wf(),
                self.store() == old(self).store(),
                self.alive_count() == n0,
                n0 == old(self).alive_count(),
                orig == old(self).alive(),
                orig.len() == n0,
                rest == old(self).free(),
                i <= len <= n0,
                forall|p: int| 0 <= p < i ==> kill_fn.ensures((&self.content()[p],), false),
                forall|p: int| len <= p < n0 ==> kill_fn.ensures((&self.content()[p],), true),
                forall|p: int| i <= p < len ==> kill_fn.requires((&self.content()[p],)),
                self.content().take(n0 as int).to_multiset() == orig.to_multiset(),
                self.content().skip(n0 as int) == rest,
            decreases len - i,
        {
            let ghost c0 = self.content();
            assert(kill_fn.requires((&c0[i as int],)));
            let k = kill_fn(&self.data[self.offsets[i]]);
            if k {
                len -= 1;
                self.swap_slots(i, len);
                proof {
                    lemma_swap_to_multiset(c0.take(n0 as int), i as int, len as int);
                    assert(self.content().take(n0 as int) =~= c0.take(n0 as int).update(
                        i as int,
                        c0[len as int],
                    ).update(len as int, c0[i as int]));
                    assert(self.content().skip(n0 as int) =~= c0.skip(n0 as int));
                }
            } else {
                i += 1;
            }
        }
        self.alive_ct = len;
        proof {
            assert forall|p: int| 0 <= p < self.alive_count()
                implies kill_fn.ensures((&self.alive()[p],), false) by {
                assert(self.alive()[p] == self.content()[p]);
            }
        }
    }

    /// Inserts `obj` as a new alive object at position `at`, growing the
    /// backing store by one. Positions from `at` on move up by one.
    pub fn attach(&mut self, at: usize, obj: T) -> (r: Result<(), OutOfBounds>)
        requires
            old(self).wf(),
        ensures
            at > old(self).alive_count() ==> {
                &&& r == Err::<(), OutOfBounds>(OutOfBounds { at, len: old(self).alive_count() as usize })
                &&& *final(self) == *old(self)
            },
            at <= old(self).alive_count() ==> {
                &&& r is Ok
                &&& final(self).wf()
                &&& final(self).alive_count() == old(self).alive_count() + 1
                &&& final(self).spec_capacity() == old(self).spec_capacity() + 1
                &&& final(self).alive() == old(self).alive().insert(at as int, obj)
                &&& final(self).free() == old(self).free()
            },
    {
        if at > self.alive_ct {
            return Err(OutOfBounds { at, len: self.alive_ct });
        }
        let n = self.data.len();
        let ghost s0 = self.slots();
        let ghost c0 = self.content();
        self.offsets.insert(at, n);
        self.data.push(obj);
        proof {
            assert(self.offsets@.len() == self.offsets.len());
        }
        self.alive_ct += 1;
        proof {
            let s1 = self.slots();
            assert(s1 == s0.insert(at as int, n));
            assert forall|i: int, j: int| 0 <= i < s1.len() && 0 <= j < s1.len() && i != j
                implies s1[i] != s1[j] by {
                let oi = if i < at { i } else { i - 1 };
                let oj = if j < at { j } else { j - 1 };
                if i != at && j != at {
                    assert(s1[i] == s0[oi] && s1[j] == s0[oj]);
                }
            }
            assert forall|k: usize| k < s1.len() implies #[trigger] s1.contains(k) by {
                if k == n {
                    assert(s1[at as int] == k);
                } else {
                    assert(s0.contains(k));
                    let w = choose|w: int| 0 <= w < s0.len() && s0[w] == k;
                    if w < at {
                        assert(s1[w] == k);
                    } else {
                        assert(s1[w + 1] == k);
                    }
                }
            }
            assert(self.content() =~= c0.insert(at as int, obj));
            assert(self.alive() =~= old(self).alive().insert(at as int, obj));
            assert(self.free() =~= old(self).free());
        }
        Ok(())
    }

    /// Removes and returns the alive object at position `at`, shrinking the
    /// backing store by one. Positions after `at` move down by one.
    ///
    /// Unlike spawning and reclaiming, this takes time linear in the
    /// capacity: removing the cell compacts the backing store, so every
    /// table entry above it is renumbered.
    pub fn detach(&mut self, at: usize) -> (r: Result<T, OutOfBounds>)
        requires
            old(self).wf(),
        ensures
            at >= old(self).alive_count() ==> {
                &&& r == Err::<T, OutOfBounds>(OutOfBounds { at, len: old(self).alive_count() as usize })
                &&& *final(self) == *old(self)
            },
            at < old(self).alive_count() ==> {
                &&& r == Ok::<T, OutOfBounds>(old(self).alive()[at as int])
                &&& final(self).wf()
                &&& final(self).alive_count() == old(self).alive_count() - 1
                &&& final(self).spec_capacity() == old(self).spec_capacity() - 1
                &&& final(self).alive() == old(self).alive().remove(at as int)
                &&& final(self).free() == old(self).free()
            },
    {
        if at >= self.alive_ct {
            return Err(OutOfBounds { at, len: self.alive_ct });
        }
        let d = self.offsets[at];
        let ghost s0 = self.slots();
        let ghost c0 = self.content();
        let ghost st0 = self.store();
        let ret = self.data.remove(d);
        self.offsets.remove(at);
        let ghost s1 = self.slots();
        let len = self.offsets.len();
        let mut j: usize = 0;
        while j < len
            invariant
                j <= len,
                len == s1.len(),
                self.offsets@.len() == len,
                self.alive_ct == old(self).alive_ct,
                self.data@ == st0.remove(d as int),
                forall|q: int| 0 <= q < j ==> #[trigger] self.offsets@[q] == renumbered(s1, d)[q],
                forall|q: int| j <= q < len ==> #[trigger] self.offsets@[q] == s1[q],
            decreases len - j,
        {
            let v = self.offsets[j];
            if v > d {
                self.offsets.set(j, v - 1);
            }
            j += 1;
        }
        self.alive_ct -= 1;
        proof {
            let s2 = self.slots();
            let n = s0.len();
            assert(s1 == s0.remove(at as int));
            assert(s2 =~= renumbered(s1, d));
            assert forall|q: int| 0 <= q < s1.len() implies #[trigger] s1[q] != d && s1[q] < n by {
                let oq = if q < at { q } else { q + 1 };
                assert(s1[q] == s0[oq]);
            }
            assert forall|i: int, j: int| 0 <= i < s1.len() && 0 <= j < s1.len() && i != j
                implies s1[i] != s1[j] by {
                let oi = if i < at { i } else { i + 1 };
                let oj = if j < at { j } else { j + 1 };
                assert(s1[i] == s0[oi] && s1[j] == s0[oj]);
            }
            assert forall|i: int, j: int| 0 <= i < s2.len() && 0 <= j < s2.len() && i != j
                implies s2[i] != s2[j] by {
                assert(s1[i] != d && s1[j] != d);
            }
            assert forall|k: usize| k < s2.len() implies #[trigger] s2.contains(k) by {
                let k0: usize = if k < d { k } else { (k + 1) as usize };
                assert(s0.contains(k0));
                let w = choose|w: int| 0 <= w < s0.len() && s0[w] == k0;
                assert(w != at);
                let w1 = if w < at { w } else { w - 1 };
                assert(s1[w1] == k0);
                assert(s2[w1] == k);
            }
            assert forall|q: int| 0 <= q < s2.len() implies self.content()[q] == c0.remove(at as int)[q] by {
                let oq = if q < at { q } else { q + 1 };
                assert(s1[q] == s0[oq]);
                assert(s1[q] != d);
            }
            assert(self.content() =~= c0.remove(at as int));
            assert(self.alive() =~= old(self).alive().remove(at as int));
            assert(self.free() =~= old(self).free());
        }
        Ok(ret)
    }

    /// Sorts the free part of the table by backing-store index, so that
    /// later spawns walk the backing store in order. The alive part is left
    /// as it is.
    pub fn sort_the_dead(&mut self)
        requires
            old(self).wf(),
        ensures
            final(self).wf(),
            final(self).store() == old(self).store(),
            final(self).alive_count() == old(self).alive_count(),
            final(self).alive() == old(self).alive(),
            final(self).slots().take(old(self).alive_count() as int) == old(self).slots().take(
                old(self).alive_count() as int,
            ),
            final(self).slots().skip(old(self).alive_count() as int).to_multiset() == old(
                self,
            ).slots().skip(old(self).alive_count() as int).to_multiset(),
            forall|i: int, j: int|
                old(self).alive_count() <= i <= j < final(self).spec_capacity() ==> final(self).slots()[i]
                    <= final(self).slots()[j],
    {
        if self.available() >= 2 {
            let ghost fin = *final(self);
            let a = self.alive_ct;
            let ghost s0 = self.slots();
            let (_, tail) = self.offsets.as_mut_slice().split_at_mut(a);
            let ghost t0 = tail@;
            let ghost t1 = final(tail)@;
            sort_ascending(tail);
            proof {
                let s1 = fin.slots();
                assert(t0 == s0.skip(a as int));
                let head = s0.take(a as int);
                assert(s1.skip(a as int) =~= t1);
                assert(s0 =~= head + t0);
                vstd::seq_lib::lemma_multiset_commutative(head, t0);
                vstd::seq_lib::lemma_multiset_commutative(head, t1);
                assert(s1.to_multiset() =~= s0.to_multiset());
                Self::lemma_same_multiset_permutation(s0, s1, s0.len());
                assert(fin.alive() =~= old(self).alive());
            }
        } else {
            proof {
                let s0 = self.slots();
                if s0.len() > self.alive_ct {
                    assert(s0.skip(self.alive_ct as int).len() == 1);
                }
            }
        }
    }

    /// A traversal of the alive objects, by logical position.
    pub fn iter(&self) -> (r: Iter<'_, T>)
        requires
            self.wf(),
        ensures
            r.wf(),
            r.remaining() == self.alive(),
    {
        Iter::start(self)
    }

    /// A traversal of the alive objects, by logical position, that yields
    /// mutable handles.
    pub fn iter_mut(&mut self) -> (r: IterMut<'_, T>)
        requires
            old(self).wf(),
        ensures
            r.handles().len() == old(self).alive_count(),
            forall|j: int| 0 <= j < old(self).alive_count() ==> *(#[trigger] r.handles()[j]) == old(self).alive()[j],
            final(self).wf(),
            final(self).slots() == old(self).slots(),
            final(self).alive_count() == old(self).alive_count(),
            final(self).alive() == Seq::new(old(self).alive_count(), |j: int| *final(r.handles()[j])),
            final(self).free() == old(self).free(),
    {
        let ghost fin = *final(self);
        let ghost pre = *self;
        let v = slot_refs(&mut self.data, &self.offsets, 0, self.alive_ct);
        proof {
            let fins = Seq::new(pre.alive_count(), |j: int| *final(v@[j]));
            assert forall|j: int| 0 <= j < fins.len()
                implies fin.store()[pre.slots()[0 + j] as int] == #[trigger] fins[j] by {
                assert(*final(v@[j]) == fins[j]);
            }
            Self::lemma_written_cells(pre, fin, 0, fins);
            assert(fin.alive() =~= fins);
            assert(fin.free() =~= pre.free());
        }
        IterMut::start(v)
    }

    /// The object at alive position `at`, if there is one.
    pub fn get(&self, at: usize) -> (r: Option<&T>)
        requires
            self.wf(),
        ensures
            at < self.alive_count() ==> r is Some && *r->Some_0 == self.alive()[at as int],
            at >= self.alive_count() ==> r is None,
    {
        if at < self.alive_ct {
            Some(&self.data[self.offsets[at]])
        } else {
            None
        }
    }

    /// A mutable handle to the object at alive position `at`, if there is one.
    pub fn get_mut(&mut self, at: usize) -> (r: Option<&mut T>)
        requires
            old(self).wf(),
        ensures
            at >= old(self).alive_count() ==> r is None && *final(self) == *old(self),
            at < old(self).alive_count() ==> {
                &&& r is Some
                &&& *r->Some_0 == old(self).alive()[at as int]
                &&& final(self).wf()
                &&& final(self).slots() == old(self).slots()
                &&& final(self).alive_count() == old(self).alive_count()
                &&& final(self).content() == old(self).content().update(at as int, *final(r->Some_0))
            },
    {
        if at < self.alive_ct {
            let ghost fin = *final(self);
            let idx = self.offsets[at];
            let ghost pre = *self;
            let r = &mut self.data[idx];
            proof {
                let fins = seq![*final(r)];
                assert forall|k: int| 0 <= k < pre.store().len()
                    && !picked(pre.slots(), at as int, at + 1, k)
                    implies #[trigger] fin.store()[k] == pre.store()[k] by {
                    assert(pre.slots()[at as int] != k);
                }
                Self::lemma_written_cells(pre, fin, at as int, fins);
                assert(fin.content() =~= pre.content().update(at as int, *final(r)));
            }
            Some(r)
        } else {
            None
        }
    }
}

impl<T: Default> Pool<T> {
    /// Appends one default object to the backing store and its index to
    /// the end of the table, as a new free slot.
    fn grow_one(&mut self)
        requires
            old(self).wf(),
            old(self).spec_capacity() < usize::MAX,
        ensures
            final(self).wf(),
            final(self).alive_count() == old(self).alive_count(),
            final(self).spec_capacity() == old(self).spec_capacity() + 1,
            final(self).alive() == old(self).alive(),
            final(self).content().drop_last() == old(self).content(),
            call_ensures(T::default, (), final(self).content().last()),
    {
        let n = self.data.len();
        self.offsets.push(n);
        self.data.push(T::default());
        proof {
            let s0 = old(self).slots();
            let s1 = self.slots();
            assert forall|k: usize| k < s1.len() implies #[trigger] s1.contains(k) by {
                if k == n {
                    assert(s1[n as int] == k);
                } else {
                    assert(s0.contains(k));
                    let w = choose|w: int| 0 <= w < s0.len() && s0[w] == k;
                    assert(s1[w] == k);
                }
            }
            assert(self.content().drop_last() =~= old(self).content());
            assert(self.alive() =~= old(self).alive());
        }
    }

    /// Hands out the first free object, adding one default object to the
    /// pool first when none is free.
    pub fn please_spawn(&mut self) -> (r: &mut T)
        requires
            old(self).wf(),
            old(self).spec_capacity() < usize::MAX,
        ensures
            old(self).spec_available() > 0 ==> {
                &&& *r == old(self).free()[0]
                &&& final(self).spec_capacity() == old(self).spec_capacity()
                &&& final(self).free() == old(self).free().drop_first()
            },
            old(self).spec_available() == 0 ==> {
                &&& call_ensures(T::default, (), *r)
                &&& final(self).spec_capacity() == old(self).spec_capacity() + 1
                &&& final(self).free().len() == 0
            },
            final(self).wf(),
            final(self).alive_count() == old(self).alive_count() + 1,
            final(self).alive() == old(self).alive().push(*final(r)),
    {
        if self.is_empty() {
            self.grow_one();
            proof {
                assert(self.free() =~= seq![self.content().last()]);
            }
        }
        self.spawn_unchecked()
    }

    /// Hands out exactly `count` objects, first the free ones in table order,
    /// then default objects added to the pool for the rest.
    pub fn please_spawn_some(&mut self, count: usize) -> (r: Vec<&mut T>)
        requires
            old(self).wf(),
            old(self).alive_count() + count <= usize::MAX,
        ensures
            final(self).wf(),
            r@.len() == count,
            forall|j: int| 0 <= j < count && j < old(self).spec_available()
                ==> *(#[trigger] r@[j]) == old(self).free()[j],
            forall|j: int| old(self).spec_available() <= j < count
                ==> call_ensures(T::default, (), *(#[trigger] r@[j])),
            count <= old(self).spec_available() ==> {
                &&& final(self).spec_capacity() == old(self).spec_capacity()
                &&& final(self).free() == old(self).free().skip(count as int)
            },
            count > old(self).spec_available() ==> {
                &&& final(self).spec_capacity() == old(self).alive_count() + count
                &&& final(self).free().len() == 0
            },
            final(self).alive_count() == old(self).alive_count() + count,
            final(self).alive() == old(self).alive() + Seq::new(count as nat, |j: int| *final(r@[j])),
    {
        let avail = self.available();
        if count > avail {
            let to_add = count - avail;
            self.offsets.reserve(to_add);
            self.data.reserve(to_add);
            let mut added: usize = 0;
            while added < to_add
                invariant
                    self.wf(),
                    added <= to_add,
                    to_add == count - avail,
                    avail == old(self).spec_available(),
                    self.alive_count() == old(self).alive_count(),
                    self.spec_capacity() == old(self).spec_capacity() + added,
                    old(self).alive_count() + count <= usize::MAX,
                    self.content().take(old(self).spec_capacity() as int) == old(self).content(),
                    forall|p: int| old(self).spec_capacity() <= p < self.spec_capacity()
                        ==> call_ensures(T::default, (), #[trigger] self.content()[p]),
                decreases to_add - added,
            {
                let ghost c0 = self.content();
                self.grow_one();
                proof {
                    assert(self.content() =~= c0.push(self.content().last()));
                    assert(self.content().take(old(self).spec_capacity() as int) =~= c0.take(
                        old(self).spec_capacity() as int,
                    ));
                }
                added += 1;
            }
            proof {
                assert(self.free() =~= old(self).free() + self.content().skip(old(self).spec_capacity() as int));
            }
        }
        self.spawn_exact(count)
    }

    /// Creates a pool of `size` default objects, all of them free.
    pub fn new(size: usize) -> (r: Self)
        ensures
            r.wf(),
            r.alive_count() == 0,
            r.spec_capacity() == size,
            r.slots() == Seq::new(size as nat, |i: int| i as usize),
            r.free() == r.store(),
            forall|i: int| 0 <= i < size ==> call_ensures(T::default, (), #[trigger] r.store()[i]),
    {
        let mut data: Vec<T> = Vec::with_capacity(size);
        let mut n: usize = 0;
        while n < size
            invariant
                n <= size,
                data@.len() == n,
                forall|i: int| 0 <= i < n ==> call_ensures(T::default, (), #[trigger] data@[i]),
            decreases size - n,
        {
            data.push(T::default());
            n += 1;
        }
        let mut offsets: Vec<usize> = Vec::with_capacity(size);
        let mut i: usize = 0;
        while i < size
            invariant
                i <= size,
                offsets@ == Seq::new(i as nat, |k: int| k as usize),
            decreases size - i,
        {
            offsets.push(i);
            i += 1;
        }
        let r = Pool { data, offsets, alive_ct: 0 };
        assert forall|k: usize| k < size implies #[trigger] r.offsets@.contains(k) by {
            assert(r.offsets@[k as int] == k);
        }
        assert(r.free() =~= r.store());
        r
    }
}

impl<T: Recyclable> Pool<T> {
    /// Hands out the first free object, reset, without checking that there
    /// is one.
    pub fn spawn_new_unchecked(&mut self) -> (r: &mut T)
        requires
            old(self).wf(),
            old(self).spec_available() > 0,
        ensures
            final(self).wf(),
            final(self).slots() == old(self).slots(),
            final(self).alive_count() == old(self).alive_count() + 1,
            final(self).alive() == old(self).alive().push(*final(r)),
            final(self).free() == old(self).free().drop_first(),
    {
        let obj = self.spawn_unchecked();
        obj.reset();
        obj
    }

    /// Hands out the first free object, reset, or nothing when no object is
    /// free.
    pub fn spawn_new(&mut self) -> (r: Option<&mut T>)
        requires
            old(self).wf(),
        ensures
            old(self).spec_available() == 0 ==> r is None && *final(self) == *old(self),
            old(self).spec_available() > 0 ==> {
                &&& r is Some
                &&& final(self).wf()
                &&& final(self).slots() == old(self).slots()
                &&& final(self).alive_count() == old(self).alive_count() + 1
                &&& final(self).alive() == old(self).alive().push(*final(r->Some_0))
                &&& final(self).free() == old(self).free().drop_first()
            },
    {
        if self.is_empty() {
            None
        } else {
            Some(self.spawn_new_unchecked())
        }
    }

    /// Hands out the first free object, reset, adding one object to the pool
    /// first when none is free.
    pub fn please_spawn_new(&mut self) -> (r: &mut T)
        requires
            old(self).wf(),
            old(self).spec_capacity() < usize::MAX,
        ensures
            old(self).spec_available() > 0 ==> {
                &&& final(self).spec_capacity() == old(self).spec_capacity()
                &&& final(self).free() == old(self).free().drop_first()
            },
            old(self).spec_available() == 0 ==> {
                &&& final(self).spec_capacity() == old(self).spec_capacity() + 1
                &&& final(self).free().len() == 0
            },
            final(self).wf(),
            final(self).alive_count() == old(self).alive_count() + 1,
            final(self).alive() == old(self).alive().push(*final(r)),
    {
        let obj = self.please_spawn();
        obj.reset();
        obj
    }
}

/// An empty pool, with no objects at all.
impl<T> Default for Pool<T> {
    fn default() -> (r: Self)
        ensures
            r.wf(),
            r.spec_capacity() == 0,
            r.alive_count() == 0,
    {
        Pool { data: Vec::new(), offsets: Vec::new(), alive_ct: 0 }
    }
}

/// Two pools are equal when their alive objects are equal position by
/// position; free objects and the layout of the backing store do not count.
pub open spec fn same_alive<T: PartialEq>(a: &Pool<T>, b: &Pool<T>) -> bool {
    &&& a.alive_count() == b.alive_count()
    &&& forall|i: int| 0 <= i < a.alive_count() ==> #[trigger] a.resolves(i)
    &&& forall|i: int| 0 <= i < b.alive_count() ==> #[trigger] b.resolves(i)
    &&& forall|i: int| 0 <= i < a.alive_count() ==> (#[trigger] a.content()[i]).eq_spec(&b.content()[i])
}

/// For well-formed pools every alive position resolves, so equality is the
/// position-wise equality of the alive objects.
pub proof fn lemma_same_alive<T: PartialEq>(a: &Pool<T>, b: &Pool<T>)
    requires
        a.wf(),
        b.wf(),
    ensures
        same_alive(a, b) <==> {
            &&& a.alive().len() == b.alive().len()
            &&& forall|i: int| 0 <= i < a.alive().len() ==> (#[trigger] a.alive()[i]).eq_spec(&b.alive()[i])
        },
{
    assert forall|i: int| 0 <= i < a.alive_count() implies a.resolves(i) by {
        assert(a.slots()[i] < a.store().len());
    }
    assert forall|i: int| 0 <= i < b.alive_count() implies b.resolves(i) by {
        assert(b.slots()[i] < b.store().len());
    }
    assert forall|i: int| 0 <= i < a.alive().len() implies a.alive()[i] == a.content()[i] by {
    }
    assert forall|i: int| 0 <= i < b.alive().len() implies b.alive()[i] == b.content()[i] by {
    }
}

impl<T: PartialEq> PartialEq for Pool<T> {
    fn eq(&self, other: &Self) -> (r: bool) {
        if self.alive_ct != other.alive_ct {
            return false;
        }
        let n = self.alive_ct;
        let mut i: usize = 0;
        while i < n
            invariant
                i <= n,
                n == self.alive_count(),
                n == other.alive_count(),
                forall|j: int| 0 <= j < i ==> #[trigger] self.resolves(j),
                forall|j: int| 0 <= j < i ==> #[trigger] other.resolves(j),
                forall|j: int|
                    0 <= j < i ==> <T as PartialEqSpec>::obeys_eq_spec() ==> (#[trigger] self.content()[j]).eq_spec(
                        &other.content()[j],
                    ),
            decreases n - i,
        {
            if i >= self.offsets.len() || i >= other.offsets.len() {
                assert(!(self.resolves(i as int) && other.resolves(i as int)));
                return false;
            }
            let a = self.offsets[i];
            let b = other.offsets[i];
            if a >= self.data.len() || b >= other.data.len() {
                assert(!(self.resolves(i as int) && other.resolves(i as int)));
                return false;
            }
            assert(self.content()[i as int] == self.data@[a as int]);
            assert(other.content()[i as int] == other.data@[b as int]);
            if !self.data[a].eq(&other.data[b]) {
                return false;
            }
            i += 1;
        }
        true
    }
}

impl<T: PartialEq> vstd::std_specs::cmp::PartialEqSpecImpl for Pool<T> {
    open spec fn obeys_eq_spec() -> bool {
        <T as PartialEqSpec>::obeys_eq_spec()
    }

    open spec fn eq_spec(&self, other: &Self) -> bool {
        same_alive(self, other)
    }
}

impl<T: Eq> Eq for Pool<T> {
}

} // verus!
