use crate::dataset::symmetric;
use vstd::prelude::*;

verus! {

/// The union of two datasets has as many records as the two together, less
/// those that both hold.
pub proof fn law_union_size(a: Set<Seq<char>>, b: Set<Seq<char>>)
    requires
        a.finite(),
        b.finite(),
    ensures
        a.union(b).finite(),
        a.intersect(b).finite(),
        a.union(b).len() == a.len() + b.len() - a.intersect(b).len(),
{
    vstd::set_lib::lemma_set_intersect_union_lens(a, b);
    vstd::set_lib::lemma_set_union_finite_iff(a, b);
    vstd::set_lib::lemma_set_subset_finite(a, a.intersect(b));
}

/// What two datasets share and what exactly one of them holds make up their
/// union between them, and have no record in common.
pub proof fn law_common_and_symmetric_split_union(a: Set<Seq<char>>, b: Set<Seq<char>>)
    ensures
        a.intersect(b).union(symmetric(a, b)) == a.union(b),
        a.intersect(b).disjoint(symmetric(a, b)),
        a.intersect(b).intersect(symmetric(a, b)) == Set::<Seq<char>>::empty(),
{
    assert(a.intersect(b).union(symmetric(a, b)) =~= a.union(b));
    assert(a.intersect(b).intersect(symmetric(a, b)) =~= Set::<Seq<char>>::empty());
}

/// What exactly one of two datasets holds is what the first has alone
/// together with what the second has alone; the two have no record in
/// common, so their sizes add up.
pub proof fn law_differences_split_symmetric(a: Set<Seq<char>>, b: Set<Seq<char>>)
    requires
        a.finite(),
        b.finite(),
    ensures
        a.difference(b).union(b.difference(a)) == symmetric(a, b),
        a.difference(b).disjoint(b.difference(a)),
        symmetric(a, b).finite(),
        symmetric(a, b).len() == a.difference(b).len() + b.difference(a).len(),
{
    let left = a.difference(b);
    let right = b.difference(a);
    assert(left.union(right) =~= symmetric(a, b));
    vstd::set_lib::lemma_set_subset_finite(a, left);
    vstd::set_lib::lemma_set_subset_finite(b, right);
    vstd::set_lib::lemma_set_union_finite_iff(left, right);
    vstd::set_lib::lemma_set_disjoint_lens(left, right);
}

/// A dataset compared with itself: union and intersection are the dataset,
/// and nothing is in one and not in the other.
pub proof fn law_same_dataset(a: Set<Seq<char>>)
    ensures
        a.union(a) == a,
        a.intersect(a) == a,
        symmetric(a, a) == Set::<Seq<char>>::empty(),
        a.difference(a) == Set::<Seq<char>>::empty(),
{
    assert(a.union(a) =~= a);
    assert(a.intersect(a) =~= a);
    assert(symmetric(a, a) =~= Set::<Seq<char>>::empty());
    assert(a.difference(a) =~= Set::<Seq<char>>::empty());
}

} // verus!
