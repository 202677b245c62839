use vstd::prelude::*;

use crate::pool::Pool;

verus! {

/// A traversal of a pool's alive objects, by logical position.
pub struct Iter<'a, T> {
    pool: &'a Pool<T>,
    pos: usize,
}

impl<'a, T> Iter<'a, T> {
    /// The objects that the traversal has yet to yield.
    pub closed spec fn remaining(&self) -> Seq<T> {
        self.pool.alive().skip(self.pos as int)
    }

    pub closed spec fn wf(&self) -> bool {
        self.pool.wf() && self.pos <= self.pool.alive_count()
    }

    pub(crate) fn start(pool: &'a Pool<T>) -> (r: Self)
        requires
            pool.wf(),
        ensures
            r.wf(),
            r.remaining() == pool.alive(),
    {
        let r = Iter { pool, pos: 0 };
        assert(r.remaining() =~= pool.alive());
        r
    }

    /// The next alive object, or nothing once all have been yielded.
    pub fn next(&mut self) -> (r: Option<&'a T>)
        requires
            old(self).wf(),
        ensures
            final(self).wf(),
            old(self).remaining().len() == 0 ==> r is None && final(self).remaining() == old(self).remaining(),
            old(self).remaining().len() > 0 ==> {
                &&& r is Some
                &&& *r->Some_0 == old(self).remaining()[0]
                &&& final(self).remaining() == old(self).remaining().drop_first()
            },
    {
        let n = self.pool.len();
        let item = self.pool.get(self.pos);
        if self.pos < n {
            self.pos += 1;
            assert(self.remaining() =~= old(self).remaining().drop_first());
        }
        item
    }
}

/// A traversal of a pool's alive objects, by logical position, that yields
/// mutable handles.
pub struct IterMut<'a, T> {
    rev: Vec<&'a mut T>,
}

impl<'a, T> IterMut<'a, T> {
    /// The handles that the traversal has yet to yield, in order.
    pub closed spec fn handles(&self) -> Seq<&'a mut T> {
        Seq::new(self.rev@.len(), |j: int| self.rev@[self.rev@.len() - 1 - j])
    }

    pub(crate) fn start(v: Vec<&'a mut T>) -> (r: Self)
        ensures
            r.handles() == v@,
    {
        let ghost v0 = v@;
        let mut v = v;
        let mut rev: Vec<&'a mut T> = Vec::new();
        while v.len() > 0
            invariant
                v@.len() + rev@.len() == v0.len(),
                v@ == v0.take(v@.len() as int),
                forall|j: int| 0 <= j < rev@.len() ==> #[trigger] rev@[j] == v0[v0.len() - 1 - j],
            decreases v@.len(),
        {
            let ghost k = v@.len() - 1;
            rev.push(v.pop().unwrap());
            assert(v@ =~= v0.take(v@.len() as int));
        }
        let r = IterMut { rev };
        assert(r.handles() =~= v0);
        r
    }

    /// The next handle, or nothing once all have been yielded.
    pub fn next(&mut self) -> (r: Option<&'a mut T>)
        ensures
            old(self).handles().len() == 0 ==> r is None && final(self).handles() == old(self).handles(),
            old(self).handles().len() > 0 ==> {
                &&& r == Some(old(self).handles()[0])
                &&& final(self).handles() == old(self).handles().drop_first()
            },
    {
        let r = self.rev.pop();
        proof {
            if old(self).handles().len() > 0 {
                assert(self.handles() =~= old(self).handles().drop_first());
            }
        }
        r
    }
}

} // verus!
