use vstd::prelude::*;

verus! {

broadcast use vstd::seq_lib::group_to_multiset_ensures, vstd::multiset::group_multiset_axioms;

/// `b` holds the same elements as `a`, counted with multiplicity.
pub open spec fn permutes(a: Seq<u32>, b: Seq<u32>) -> bool {
    a.to_multiset() == b.to_multiset()
}

/// Every element of `s` is below `bound`.
pub open spec fn all_below(s: Seq<u32>, bound: u32) -> bool {
    forall|k: int| 0 <= k < s.len() ==> #[trigger] s[k] < bound
}

/// Every element of `s` is at least `bound`.
pub open spec fn all_at_least(s: Seq<u32>, bound: u32) -> bool {
    forall|k: int| 0 <= k < s.len() ==> #[trigger] s[k] >= bound
}

/// Every element of `s` is at most `bound`.
pub open spec fn all_at_most(s: Seq<u32>, bound: u32) -> bool {
    forall|k: int| 0 <= k < s.len() ==> #[trigger] s[k] <= bound
}

/// Exchanging two positions keeps the multiset of a sequence.
pub proof fn lemma_swap_permutes(s: Seq<u32>, i: int, j: int)
    requires
        0 <= i < s.len(),
        0 <= j < s.len(),
    ensures
        permutes(s.update(i, s[j]).update(j, s[i]), s),
{
    let s1 = s.update(i, s[j]);
    assert(s1.to_multiset() == s.to_multiset().insert(s[j]).remove(s[i]));
    assert(s1.update(j, s[i]).to_multiset() == s1.to_multiset().insert(s[i]).remove(s1[j]));
    assert(s1[j] == s[j]);
    assert(s.to_multiset().insert(s[j]).remove(s[i]).insert(s[i]).remove(s[j])
        =~= s.to_multiset());
}

/// Two sequences with the same multiset contain the same elements.
pub proof fn lemma_permutes_contains(a: Seq<u32>, b: Seq<u32>, x: u32)
    requires
        permutes(a, b),
    ensures
        a.contains(x) <==> b.contains(x),
{
    assert(a.contains(x) <==> a.to_multiset().count(x) > 0);
    assert(b.contains(x) <==> b.to_multiset().count(x) > 0);
}

/// A bound that holds of every element of `b` holds of every element of a
/// permutation `a` of `b`.
pub proof fn lemma_permutes_bounds(a: Seq<u32>, b: Seq<u32>, bound: u32)
    requires
        permutes(a, b),
    ensures
        all_below(b, bound) ==> all_below(a, bound),
        all_at_least(b, bound) ==> all_at_least(a, bound),
        all_at_most(b, bound) ==> all_at_most(a, bound),
{
    assert forall|k: int| 0 <= k < a.len() implies b.contains(#[trigger] a[k]) by {
        assert(a.contains(a[k]));
        lemma_permutes_contains(a, b, a[k]);
    }
}

} // verus!
