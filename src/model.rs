use vstd::prelude::*;

verus! {

/// `s` holds each backing-store index `0..n` exactly once.
pub open spec fn is_permutation(s: Seq<usize>, n: nat) -> bool {
    &&& s.len() == n
    &&& forall|i: int| 0 <= i < s.len() ==> (#[trigger] s[i]) < n
    &&& forall|i: int, j: int| 0 <= i < s.len() && 0 <= j < s.len() && i != j ==> s[i] != s[j]
    &&& forall|k: usize| k < n ==> #[trigger] s.contains(k)
}

/// The values of `s[0..n)` whose entry in `kills` is false, in order.
pub open spec fn kept<A>(s: Seq<A>, kills: Seq<bool>, n: int) -> Seq<A>
    decreases n,
{
    if n <= 0 {
        Seq::empty()
    } else if kills[n - 1] {
        kept(s, kills, n - 1)
    } else {
        kept(s, kills, n - 1).push(s[n - 1])
    }
}

/// The values of `s` whose entry in `kills` is false, in order.
pub open spec fn survivors<A>(s: Seq<A>, kills: Seq<bool>) -> Seq<A> {
    kept(s, kills, s.len() as int)
}

/// `kept` looks only at the first `n` entries of the kill flags.
pub proof fn lemma_kept_prefix<A>(s: Seq<A>, a: Seq<bool>, b: Seq<bool>, n: int)
    requires
        0 <= n <= a.len(),
        n <= b.len(),
        forall|p: int| 0 <= p < n ==> a[p] == b[p],
    ensures
        kept(s, a, n) == kept(s, b, n),
    decreases n,
{
    if n > 0 {
        lemma_kept_prefix(s, a, b, n - 1);
    }
}

/// Exchanging two entries of a sequence keeps its multiset of values.
pub proof fn lemma_swap_to_multiset<A>(s: Seq<A>, i: int, j: int)
    requires
        0 <= i < s.len(),
        0 <= j < s.len(),
    ensures
        s.update(i, s[j]).update(j, s[i]).to_multiset() == s.to_multiset(),
{
    broadcast use vstd::multiset::group_multiset_axioms;
    broadcast use vstd::seq_lib::group_to_multiset_ensures;
    let t = s.update(i, s[j]);
    let u = t.update(j, s[i]);
    assert(t.len() == s.len());
    assert(t[j] == s[j]);
    vstd::seq_lib::to_multiset_update(s, i, s[j]);
    vstd::seq_lib::to_multiset_update(t, j, s[i]);
    assert(s.contains(s[i]));
    assert(s.contains(s[j]));
    assert(u.to_multiset() =~= s.to_multiset());
}

/// The table after backing-store cell `d` was removed: every index above
/// `d` moves down by one.
pub open spec fn renumbered(s: Seq<usize>, d: usize) -> Seq<usize> {
    s.map_values(|x: usize| if x > d { (x - 1) as usize } else { x })
}

} // verus!
