//! Sorting of integer keys, the one ordering primitive that the other modules build on.
use vstd::prelude::*;

verus! {

/// Lexicographic `<=` on four-part keys, the order that std documents for tuples.
pub open spec fn key_le(a: (usize, usize, usize, usize), b: (usize, usize, usize, usize)) -> bool {
    a.0 < b.0 || (a.0 == b.0 && (a.1 < b.1 || (a.1 == b.1 && (a.2 < b.2 || (a.2 == b.2 && a.3
        <= b.3)))))
}

/// Every key is `<=` every later key.
pub open spec fn keys_sorted(s: Seq<(usize, usize, usize, usize)>) -> bool {
    forall|i: int, j: int| 0 <= i < j < s.len() ==> key_le(#[trigger] s[i], #[trigger] s[j])
}

/// Relies on `slice::sort`: it leaves the same items, in ascending order of the tuples' `Ord`,
/// which is lexicographic.
#[verifier::external_body]
pub(crate) fn sorted_keys(keys: Vec<(usize, usize, usize, usize)>) -> (r: Vec<
    (usize, usize, usize, usize),
>)
    ensures
        r@.to_multiset() == keys@.to_multiset(),
        keys_sorted(r@),
{
    let mut v = keys;
    v.sort();
    v
}

/// An item occurs in one sequence exactly when it occurs in another with the same multiset.
pub proof fn lemma_same_items<A>(a: Seq<A>, b: Seq<A>)
    requires
        a.to_multiset() == b.to_multiset(),
    ensures
        forall|x: A| a.contains(x) <==> b.contains(x),
{
    a.to_multiset_ensures();
    b.to_multiset_ensures();
    assert forall|x: A| a.contains(x) <==> b.contains(x) by {
        assert(a.contains(x) <==> a.to_multiset().count(x) > 0);
        assert(b.contains(x) <==> b.to_multiset().count(x) > 0);
    }
}

/// The keys in ascending order: the same keys, each once, sorted.
pub fn sort_unique_keys(keys: Vec<(usize, usize, usize, usize)>) -> (r: Vec<
    (usize, usize, usize, usize),
>)
    requires
        keys@.no_duplicates(),
    ensures
        r@.len() == keys@.len(),
        r@.no_duplicates(),
        forall|k: (usize, usize, usize, usize)| r@.contains(k) <==> keys@.contains(k),
        keys_sorted(r@),
{
    let ghost before = keys@;
    let r = sorted_keys(keys);
    proof {
        lemma_same_items(r@, before);
        before.lemma_multiset_has_no_duplicates();
        r@.lemma_multiset_has_no_duplicates_conv();
        r@.to_multiset_ensures();
        before.to_multiset_ensures();
    }
    r
}

} // verus!
