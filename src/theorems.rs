use vstd::prelude::*;

use vstd::multiset::Multiset;

use crate::model::{kept, survivors};
use crate::pool::Pool;

verus! {

/// The table of a well-formed pool is a bijection onto the backing-store
/// indices: no index occurs twice and none is missing.
pub proof fn lemma_slots_bijective<T>(p: &Pool<T>)
    requires
        p.wf(),
    ensures
        p.slots().no_duplicates(),
        p.slots().to_set() == Set::new(|k: usize| k < p.store().len()),
{
    let s = p.slots();
    assert forall|k: usize| #[trigger] s.to_set().contains(k) <==> k < p.store().len() by {
        if s.contains(k) {
            let w = choose|w: int| 0 <= w < s.len() && s[w] == k;
            assert(s[w] < p.store().len());
        }
    }
    assert(s.to_set() =~= Set::new(|k: usize| k < p.store().len()));
}

/// Alive and free objects together make up the whole pool.
pub proof fn lemma_accounting<T>(p: &Pool<T>)
    requires
        p.wf(),
    ensures
        p.alive_count() + p.spec_available() == p.spec_capacity(),
        p.alive().len() == p.alive_count(),
        p.free().len() == p.spec_available(),
        p.alive() + p.free() == p.content(),
{
    assert(p.alive() + p.free() =~= p.content());
}

/// Starting from a pool with nothing alive, `capacity` successive spawns,
/// each of which adds one alive object and keeps the table, leave no free
/// object, so that the next spawn hands out nothing.
pub proof fn lemma_spawn_exhaustion<T>(pools: Seq<Pool<T>>)
    requires
        pools.len() == pools[0].spec_capacity() + 1,
        pools[0].wf(),
        pools[0].alive_count() == 0,
        forall|i: int|
            0 <= i < pools.len() - 1 ==> {
                &&& (#[trigger] pools[i + 1]).wf()
                &&& pools[i + 1].slots() == pools[i].slots()
                &&& pools[i + 1].alive_count() == pools[i].alive_count() + 1
            },
    ensures
        pools.last().spec_available() == 0,
{
    let n = pools.len() - 1;
    assert forall|i: int| 0 <= i <= n implies #[trigger] pools[i].alive_count() == i
        && pools[i].slots() == pools[0].slots() by {
        lemma_spawn_step(pools, i);
    }
    assert(pools[n].alive_count() == n);
}

proof fn lemma_spawn_step<T>(pools: Seq<Pool<T>>, i: int)
    requires
        0 <= i < pools.len(),
        forall|j: int|
            0 <= j < pools.len() - 1 ==> {
                &&& (#[trigger] pools[j + 1]).wf()
                &&& pools[j + 1].slots() == pools[j].slots()
                &&& pools[j + 1].alive_count() == pools[j].alive_count() + 1
            },
    ensures
        pools[i].alive_count() == pools[0].alive_count() + i,
        pools[i].slots() == pools[0].slots(),
    decreases i,
{
    if i > 0 {
        lemma_spawn_step(pools, i - 1);
        assert(pools[(i - 1) + 1].alive_count() == pools[i - 1].alive_count() + 1);
    }
}

/// Detaching the object at position `at` and attaching the same value at
/// the same position gives back the alive objects that were there before.
pub proof fn lemma_detach_attach<T>(before: &Pool<T>, between: &Pool<T>, after: &Pool<T>, at: int, v: T)
    requires
        before.wf(),
        0 <= at < before.alive_count(),
        v == before.alive()[at],
        between.alive() == before.alive().remove(at),
        after.alive() == between.alive().insert(at, v),
    ensures
        after.alive() == before.alive(),
{
    assert(before.alive().remove(at).insert(at, v) =~= before.alive());
}

/// Filtering a sequence and then counting is counting and then filtering.
proof fn lemma_filter_to_multiset<A>(s: Seq<A>, keep: spec_fn(A) -> bool)
    ensures
        s.filter(keep).to_multiset() == s.to_multiset().filter(keep),
    decreases s.len(),
{
    broadcast use vstd::multiset::group_multiset_axioms;
    broadcast use vstd::seq_lib::group_to_multiset_ensures;
    if s.len() == 0 {
        assert(s.filter(keep) =~= Seq::<A>::empty()) by {
            reveal(Seq::filter);
        }
        assert(s.to_multiset() =~= Multiset::<A>::empty());
        assert(s.filter(keep).to_multiset() =~= s.to_multiset().filter(keep));
    } else {
        let init = s.drop_last();
        let x = s.last();
        lemma_filter_to_multiset(init, keep);
        assert(init.push(x) == s);
        init.lemma_filter_push(x, keep);
        assert(s.filter(keep).to_multiset() =~= s.to_multiset().filter(keep));
    }
}

/// With kill flags that follow `pred`, the kept values are those on which
/// `pred` is false, in order.
proof fn lemma_kept_is_filter<A>(s: Seq<A>, kills: Seq<bool>, pred: spec_fn(A) -> bool, n: int)
    requires
        0 <= n <= s.len(),
        n <= kills.len(),
        forall|p: int| 0 <= p < n ==> kills[p] == pred(#[trigger] s[p]),
    ensures
        kept(s, kills, n) == s.take(n).filter(|x: A| !pred(x)),
    decreases n,
{
    if n > 0 {
        lemma_kept_is_filter(s, kills, pred, n - 1);
        assert(s.take(n) == s.take(n - 1).push(s[n - 1]));
        s.take(n - 1).lemma_filter_push(s[n - 1], |x: A| !pred(x));
    }
}

/// When `kill_fn` answers as `pred` does, the order-keeping reclaim keeps
/// exactly the alive objects on which `pred` is false, in order, and the
/// unordered reclaim keeps the same objects, each as many times.
pub proof fn lemma_reclaim_paths_agree<T, F: Fn(&T) -> bool>(
    before: &Pool<T>,
    stable: &Pool<T>,
    unstable: &Pool<T>,
    kill_fn: F,
    pred: spec_fn(T) -> bool,
)
    requires
        before.wf(),
        forall|x: T, b: bool| kill_fn.ensures((&x,), b) ==> b == pred(x),
        exists|kills: Seq<bool>|
            {
                &&& kills.len() == before.alive_count()
                &&& forall|p: int| 0 <= p < kills.len() ==> kill_fn.ensures((&before.alive()[p],), #[trigger] kills[p])
                &&& stable.alive() == survivors(before.alive(), kills)
            },
        unstable.wf(),
        unstable.spec_capacity() == before.spec_capacity(),
        unstable.alive_count() <= before.alive_count(),
        forall|p: int| 0 <= p < unstable.alive_count()
            ==> kill_fn.ensures((&unstable.alive()[p],), false),
        forall|p: int| unstable.alive_count() <= p < before.alive_count()
            ==> kill_fn.ensures((&unstable.content()[p],), true),
        unstable.content().take(before.alive_count() as int).to_multiset() == before.alive().to_multiset(),
    ensures
        stable.alive() == before.alive().filter(|x: T| !pred(x)),
        unstable.alive().to_multiset() == stable.alive().to_multiset(),
{
    let keep = |x: T| !pred(x);
    let old_alive = before.alive();
    let n0 = before.alive_count() as int;
    let kills = choose|kills: Seq<bool>|
        {
            &&& kills.len() == before.alive_count()
            &&& forall|p: int| 0 <= p < kills.len() ==> kill_fn.ensures((&before.alive()[p],), #[trigger] kills[p])
            &&& stable.alive() == survivors(before.alive(), kills)
        };
    assert forall|p: int| 0 <= p < n0 implies kills[p] == pred(#[trigger] old_alive[p]) by {
        assert(kill_fn.ensures((&old_alive[p],), kills[p]));
    }
    lemma_kept_is_filter(old_alive, kills, pred, n0);
    assert(old_alive.take(n0) == old_alive);

    let region = unstable.content().take(n0);
    let live = unstable.alive();
    let dead = region.skip(unstable.alive_count() as int);
    assert(region == live + dead);
    assert(live.filter(keep) == live) by {
        assert forall|p: int| 0 <= p < live.len() implies keep(#[trigger] live[p]) by {
            assert(kill_fn.ensures((&live[p],), false));
        }
        lemma_filter_all(live, keep);
    }
    assert(dead.filter(keep) == Seq::<T>::empty()) by {
        assert forall|p: int| 0 <= p < dead.len() implies !keep(#[trigger] dead[p]) by {
            assert(dead[p] == unstable.content()[unstable.alive_count() + p]);
            assert(kill_fn.ensures((&unstable.content()[unstable.alive_count() + p],), true));
        }
        dead.lemma_all_neg_filter_empty(keep);
    }
    Seq::filter_distributes_over_add(live, dead, keep);
    assert(region.filter(keep) =~= live);
    lemma_filter_to_multiset(region, keep);
    lemma_filter_to_multiset(old_alive, keep);
}

/// Filtering by a predicate that holds everywhere changes nothing.
proof fn lemma_filter_all<A>(s: Seq<A>, keep: spec_fn(A) -> bool)
    requires
        forall|p: int| 0 <= p < s.len() ==> keep(#[trigger] s[p]),
    ensures
        s.filter(keep) == s,
    decreases s.len(),
{
    if s.len() > 0 {
        lemma_filter_all(s.drop_last(), keep);
        assert(s.drop_last().push(s.last()) == s);
        s.drop_last().lemma_filter_push(s.last(), keep);
    } else {
        reveal(Seq::filter);
        assert(s.filter(keep) =~= s);
    }
}

} // verus!
