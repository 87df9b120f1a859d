//! A read-only index over the annotations of one document, answering structural queries.
//! Annotations are named by their position in the indexed sequence, so two annotations with
//! the same range and depth stay distinct.
use crate::anns::BaseAnnotation;
use crate::order::{key_le, keys_sorted, sort_unique_keys};
use intervaltree::IntervalTree;
use std::ops::Range;
use vstd::multiset::Multiset;
use vstd::prelude::*;

verus! {

#[verifier::external_type_specification]
#[verifier::external_body]
#[verifier::reject_recursive_types(K)]
#[verifier::reject_recursive_types(V)]
pub struct ExIntervalTree<K, V>(IntervalTree<K, V>);

/// The elements that an interval tree holds, each as its range's start and end and its value.
pub uninterp spec fn tree_elements(t: IntervalTree<usize, usize>) -> Multiset<(usize, usize, usize)>;

/// The annotations as tree elements: their ranges, each with its position as value.
pub open spec fn indexed(s: Seq<BaseAnnotation>) -> Seq<(usize, usize, usize)> {
    Seq::new(s.len(), |i: int| (s[i].start, s[i].end, i as usize))
}

/// Relies on `IntervalTree`'s `FromIterator`: the tree holds exactly the given elements.
#[verifier::external_body]
fn tree_of(data: &Vec<BaseAnnotation>) -> (r: IntervalTree<usize, usize>)
    ensures
        tree_elements(r) == indexed(data@).to_multiset(),
{
    data.iter().enumerate().map(|(i, b)| (b.start..b.end, i)).collect()
}

/// Whether `hits` holds, each as often as the tree, exactly the elements of `t` whose range
/// shares a point with `start .. end`.
pub open spec fn query_hits(t: IntervalTree<usize, usize>, start: usize, end: usize, hits: Seq<(usize, usize, usize)>) -> bool {
    forall|x: (usize, usize, usize)|
        #[trigger] hits.to_multiset().count(x) == if x.0 < end && start < x.1 {
            tree_elements(t).count(x)
        } else {
            0
        }
}

/// Relies on `IntervalTree::query`: every element whose range shares a point with
/// `start .. end`, each once.
#[verifier::external_body]
fn tree_query(t: &IntervalTree<usize, usize>, start: usize, end: usize) -> (r: Vec<
    (usize, usize, usize),
>)
    ensures
        query_hits(*t, start, end, r@),
{
    t.query(start..end).map(|e| (e.range.start, e.range.end, e.value)).collect()
}

/// Whether annotation `a` shares a point with the half-open range `start .. end`.
pub open spec fn overlaps(a: BaseAnnotation, start: int, end: int) -> bool {
    a.start < end && start < a.end
}

/// Whether annotation `i` is an ancestor of annotation `cur`: another annotation, overlapping
/// `cur`'s range, containing it, and strictly shallower.
pub open spec fn is_ancestor(s: Seq<BaseAnnotation>, i: int, cur: int) -> bool {
    &&& 0 <= i < s.len()
    &&& i != cur
    &&& overlaps(s[i], s[cur].start as int, s[cur].end as int)
    &&& s[i].start <= s[cur].start
    &&& s[i].end >= s[cur].end
    &&& s[i].depth < s[cur].depth
}

/// Whether annotation `i` is a descendant of annotation `cur`: another annotation, overlapping
/// `cur`'s range, contained in it, and strictly deeper.
pub open spec fn is_descendant(s: Seq<BaseAnnotation>, i: int, cur: int) -> bool {
    &&& 0 <= i < s.len()
    &&& i != cur
    &&& overlaps(s[i], s[cur].start as int, s[cur].end as int)
    &&& s[i].start >= s[cur].start
    &&& s[i].end <= s[cur].end
    &&& s[i].depth > s[cur].depth
}

/// Whether annotation `i` is a child of `cur`: a descendant exactly one level deeper.
pub open spec fn is_child(s: Seq<BaseAnnotation>, i: int, cur: int) -> bool {
    is_descendant(s, i, cur) && s[i].depth == s[cur].depth + 1
}

/// The order of ancestors, nearest first: deeper first, then later start, then later end, then
/// lower position.
pub open spec fn nearer_first(s: Seq<BaseAnnotation>, i: int, j: int) -> bool {
    s[i].depth > s[j].depth || (s[i].depth == s[j].depth && (s[i].start > s[j].start || (
    s[i].start == s[j].start && (s[i].end > s[j].end || (s[i].end == s[j].end && i <= j)))))
}

/// The order of descendants, outermost first: shallower first, then earlier start, then
/// earlier end, then lower position.
pub open spec fn outer_first(s: Seq<BaseAnnotation>, i: int, j: int) -> bool {
    s[i].depth < s[j].depth || (s[i].depth == s[j].depth && (s[i].start < s[j].start || (
    s[i].start == s[j].start && (s[i].end < s[j].end || (s[i].end == s[j].end && i <= j)))))
}

/// A relation that a listing selects annotations by.
pub enum Which {
    /// Those that share a point with `start .. end`.
    Overlapping(usize, usize),
    /// The ancestors of an annotation.
    Ancestor(usize),
    /// The descendants of an annotation.
    Descendant(usize),
    /// The children of an annotation.
    Child(usize),
    /// The children of a parent other than a given annotation.
    Sibling(usize, usize),
    /// The siblings that end where the given annotation starts, or before.
    SiblingBefore(usize, usize),
    /// The siblings that start where the given annotation ends, or after.
    SiblingAfter(usize, usize),
}

/// Whether annotation `i` is selected by `w`.
pub open spec fn member_of(s: Seq<BaseAnnotation>, w: Which, i: int) -> bool {
    match w {
        Which::Overlapping(start, end) => 0 <= i < s.len() && overlaps(s[i], start as int, end as int),
        Which::Ancestor(cur) => is_ancestor(s, i, cur as int),
        Which::Descendant(cur) => is_descendant(s, i, cur as int),
        Which::Child(cur) => is_child(s, i, cur as int),
        Which::Sibling(p, cur) => is_sibling(s, i, p as int, cur as int),
        Which::SiblingBefore(p, cur) => is_sibling(s, i, p as int, cur as int) && s[i].end <= s[cur as int].start,
        Which::SiblingAfter(p, cur) => is_sibling(s, i, p as int, cur as int) && s[i].start >= s[cur as int].end,
    }
}

/// The orders that listings come in.
pub enum Order {
    /// In no particular order.
    Any,
    /// Nearest ancestor first.
    NearerFirst,
    /// Outermost descendant first.
    OuterFirst,
}

/// Whether `i` may come before `j` in order `o`.
pub open spec fn ordered(s: Seq<BaseAnnotation>, o: Order, i: int, j: int) -> bool {
    match o {
        Order::Any => true,
        Order::NearerFirst => nearer_first(s, i, j),
        Order::OuterFirst => outer_first(s, i, j),
    }
}

/// Whether `r` lists, each once and in order `o`, exactly the annotations that `w` selects.
pub open spec fn lists_exactly(s: Seq<BaseAnnotation>, r: Seq<usize>, w: Which, o: Order) -> bool {
    &&& r.no_duplicates()
    &&& forall|k: int| 0 <= k < r.len() ==> #[trigger] member_of(s, w, r[k] as int)
    &&& forall|i: int| #[trigger] member_of(s, w, i) ==> 0 <= i && r.contains(i as usize)
    &&& forall|a: int, b: int| 0 <= a < b < r.len() ==> ordered(s, o, #[trigger] r[a] as int, #[trigger] r[b] as int)
}

/// Whether `p` is the parent of `cur`: of the ancestors exactly one level shallower, the
/// nearest.
pub open spec fn is_parent(s: Seq<BaseAnnotation>, p: int, cur: int) -> bool {
    &&& is_ancestor(s, p, cur)
    &&& s[p].depth + 1 == s[cur].depth
    &&& forall|q: int|
        is_ancestor(s, q, cur) && s[q].depth + 1 == s[cur].depth ==> nearer_first(s, p, q)
}

/// Whether `cur` has an ancestor exactly one level shallower.
pub open spec fn has_parent(s: Seq<BaseAnnotation>, cur: int) -> bool {
    exists|q: int| is_ancestor(s, q, cur) && s[q].depth + 1 == s[cur].depth
}

/// An index over annotations, by position.
pub struct AnnotationTree {
    spans: Vec<BaseAnnotation>,
    index: IntervalTree<usize, usize>,
}

impl AnnotationTree {
    /// The index holds each annotation's range, with its position as value.
    #[verifier::type_invariant]
    spec fn indexes_spans(self) -> bool {
        &&& tree_elements(self.index) == indexed(self.spans@).to_multiset()
        &&& self.spans@.len() <= usize::MAX
    }
}

impl View for AnnotationTree {
    type V = Seq<BaseAnnotation>;

    closed spec fn view(&self) -> Seq<BaseAnnotation> {
        self.spans@
    }
}

/// The sort key that puts `b` in nearest-first order, its position last.
spec fn nearer_key(b: BaseAnnotation, i: int) -> (usize, usize, usize, usize) {
    (
        (usize::MAX - b.depth) as usize,
        (usize::MAX - b.start) as usize,
        (usize::MAX - b.end) as usize,
        i as usize,
    )
}

/// The sort key that puts `b` in outermost-first order, its position last.
spec fn outer_key(b: BaseAnnotation, i: int) -> (usize, usize, usize, usize) {
    (b.depth, b.start, b.end, i as usize)
}

impl AnnotationTree {
    /// Indexes the annotations; each is named afterwards by its position in `data`.
    pub fn new(data: &Vec<BaseAnnotation>) -> (r: AnnotationTree)
        ensures
            r@ == data@,
    {
        let index = tree_of(data);
        let count = data.len();
        proof {
            assert(data@.len() == count);
        }
        AnnotationTree { spans: data.clone(), index }
    }

    /// The positions of all annotations that share a point with `range`, in no particular order.
    pub fn query(&self, range: Range<usize>) -> (r: Vec<usize>)
        ensures
            lists_exactly(self@, r@, Which::Overlapping(range.start, range.end), Order::Any),
    {
        self.overlapping(range.start, range.end)
    }

    /// The positions of all annotations that share a point with `start .. end`, each once.
    fn overlapping(&self, start: usize, end: usize) -> (r: Vec<usize>)
        ensures
            r@.no_duplicates(),
            forall|k: int| 0 <= k < r@.len() ==> (#[trigger] r@[k]) < self@.len() && overlaps(self@[r@[k] as int], start as int, end as int),
            forall|j: int| 0 <= j < self@.len() && overlaps(self@[j], start as int, end as int) ==> r@.contains(j as usize),
            lists_exactly(self@, r@, Which::Overlapping(start, end), Order::Any),
    {
        proof {
            use_type_invariant(self);
        }
        let hits = tree_query(&self.index, start, end);
        let ghost s = self.spans@;
        let ghost ix = indexed(s);
        proof {
            assert(ix.no_duplicates()) by {
                assert forall|a: int, b: int| 0 <= a < ix.len() && 0 <= b < ix.len() && a != b implies ix[a] != ix[b] by {
                    assert(ix[a].2 == a as usize && ix[b].2 == b as usize);
                }
            }
            ix.lemma_multiset_has_no_duplicates();
            ix.to_multiset_ensures();
            hits@.to_multiset_ensures();
            assert forall|x: (usize, usize, usize)| hits@.to_multiset().contains(x) implies hits@.to_multiset().count(x) == 1 by {
                assert(ix.to_multiset().count(x) > 0);
            }
            hits@.lemma_multiset_has_no_duplicates_conv();
        }
        let mut r: Vec<usize> = Vec::new();
        let mut k: usize = 0;
        while k < hits.len()
            invariant
                k <= hits@.len(),
                r@.len() == k,
                forall|m: int| 0 <= m < k ==> #[trigger] r@[m] == hits@[m].2,
            decreases hits@.len() - k,
        {
            r.push(hits[k].2);
            k += 1;
        }
        proof {
            assert forall|m: int| 0 <= m < hits@.len() implies 0 <= (#[trigger] hits@[m]).2 < s.len() && hits@[m] == ix[hits@[m].2 as int]
                && overlaps(s[hits@[m].2 as int], start as int, end as int) by {
                assert(hits@.contains(hits@[m]));
                assert(hits@.to_multiset().count(hits@[m]) > 0);
                assert(ix.to_multiset().count(hits@[m]) > 0);
                assert(ix.contains(hits@[m]));
                let i = choose|i: int| 0 <= i < ix.len() && ix[i] == hits@[m];
                assert(ix[i].2 as int == i);
            }
            assert forall|j: int| 0 <= j < s.len() && overlaps(s[j], start as int, end as int) implies r@.contains(j as usize) by {
                assert(ix.contains(ix[j]));
                assert(ix.to_multiset().count(ix[j]) > 0);
                assert(hits@.to_multiset().count(ix[j]) > 0);
                assert(hits@.contains(ix[j]));
                let m = choose|m: int| 0 <= m < hits@.len() && hits@[m] == ix[j];
                assert(r@[m] == j as usize);
            }
            assert forall|a: int, b: int| 0 <= a < r@.len() && 0 <= b < r@.len() && a != b implies r@[a] != r@[b] by {
                assert(hits@[a] != hits@[b]);
            }
            assert forall|k2: int| 0 <= k2 < r@.len() implies #[trigger] member_of(self@, Which::Overlapping(start, end), r@[k2] as int) by {
                assert(hits@.contains(hits@[k2]));
            }
            assert forall|i: int| #[trigger] member_of(self@, Which::Overlapping(start, end), i) implies 0 <= i && r@.contains(i as usize) by {}
        }
        r
    }

    /// The ancestors of `cur`, nearest first.
    pub fn ancestors(&self, cur: usize) -> (r: Vec<usize>)
        requires
            cur < self@.len(),
        ensures
            lists_exactly(self@, r@, Which::Ancestor(cur), Order::NearerFirst),
    {
        let keys = self.candidate_keys(cur, true);
        let ghost unsorted = keys@;
        let sorted = sort_unique_keys(keys);
        let r = Self::positions(&sorted);
        proof {
            assert forall|k: int| 0 <= k < sorted@.len() implies #[trigger] sorted@[k] == nearer_key(self@[sorted@[k].3 as int], sorted@[k].3 as int)
                && is_ancestor(self@, sorted@[k].3 as int, cur as int) by {
                assert(unsorted.contains(sorted@[k]));
            }
            assert forall|a: int, b: int| 0 <= a < b < r@.len() implies nearer_first(self@, #[trigger] r@[a] as int, #[trigger] r@[b] as int) by {
                assert(key_le(sorted@[a], sorted@[b]));
            }
            assert forall|j: int| #[trigger] is_ancestor(self@, j, cur as int) implies 0 <= j && r@.contains(j as usize) by {
                assert(related(self@, true, j, cur as int));
                assert(unsorted.contains(nearer_key(self@[j], j)));
                assert(sorted@.contains(nearer_key(self@[j], j)));
                let k = choose|k: int| 0 <= k < sorted@.len() && sorted@[k] == nearer_key(self@[j], j);
                assert(r@[k] == j as usize);
            }
            assert(r@.no_duplicates()) by {
                assert forall|a: int, b: int| 0 <= a < r@.len() && 0 <= b < r@.len() && a != b implies r@[a] != r@[b] by {
                    assert(sorted@[a] != sorted@[b]);
                }
            }
        }
        r
    }

    /// The descendants of `cur`, outermost first.
    pub fn descendants(&self, cur: usize) -> (r: Vec<usize>)
        requires
            cur < self@.len(),
        ensures
            lists_exactly(self@, r@, Which::Descendant(cur), Order::OuterFirst),
    {
        let keys = self.candidate_keys(cur, false);
        let ghost unsorted = keys@;
        let sorted = sort_unique_keys(keys);
        let r = Self::positions(&sorted);
        proof {
            assert forall|k: int| 0 <= k < sorted@.len() implies #[trigger] sorted@[k] == outer_key(self@[sorted@[k].3 as int], sorted@[k].3 as int)
                && is_descendant(self@, sorted@[k].3 as int, cur as int) by {
                assert(unsorted.contains(sorted@[k]));
            }
            assert forall|a: int, b: int| 0 <= a < b < r@.len() implies outer_first(self@, #[trigger] r@[a] as int, #[trigger] r@[b] as int) by {
                assert(key_le(sorted@[a], sorted@[b]));
            }
            assert forall|j: int| #[trigger] is_descendant(self@, j, cur as int) implies 0 <= j && r@.contains(j as usize) by {
                assert(related(self@, false, j, cur as int));
                assert(unsorted.contains(outer_key(self@[j], j)));
                assert(sorted@.contains(outer_key(self@[j], j)));
                let k = choose|k: int| 0 <= k < sorted@.len() && sorted@[k] == outer_key(self@[j], j);
                assert(r@[k] == j as usize);
            }
            assert(r@.no_duplicates()) by {
                assert forall|a: int, b: int| 0 <= a < r@.len() && 0 <= b < r@.len() && a != b implies r@[a] != r@[b] by {
                    assert(sorted@[a] != sorted@[b]);
                }
            }
        }
        r
    }

    /// The parent of `cur`: its nearest ancestor exactly one level shallower, if there is one.
    pub fn parent(&self, cur: usize) -> (r: Option<usize>)
        requires
            cur < self@.len(),
        ensures
            r is None <==> !has_parent(self@, cur as int),
            r matches Some(p) ==> is_parent(self@, p as int, cur as int),
    {
        let anc = self.ancestors(cur);
        let d = self.spans[cur].depth;
        let n = self.spans.len();
        if anc.len() == 0 {
            proof {
                if has_parent(self@, cur as int) {
                    let q = choose|q: int| is_ancestor(self@, q, cur as int) && self@[q].depth + 1 == self@[cur as int].depth;
                    assert(member_of(self@, Which::Ancestor(cur), q));
                }
            }
            return None;
        }
        proof {
            assert(member_of(self@, Which::Ancestor(cur), anc@[0] as int));
        }
        let pd = self.spans[anc[0]].depth;
        if pd + 1 == d {
            proof {
                assert forall|q: int|
                    is_ancestor(self@, q, cur as int) && self@[q].depth + 1 == self@[cur as int].depth
                    implies nearer_first(self@, anc@[0] as int, q) by {
                    assert(member_of(self@, Which::Ancestor(cur), q));
                    let k = choose|k: int| 0 <= k < anc@.len() && anc@[k] == q as usize;
                    assert(anc@[k] as int == q);
                    if k > 0 {
                        assert(ordered(self@, Order::NearerFirst, anc@[0] as int, anc@[k] as int));
                    }
                }
                assert(is_ancestor(self@, anc@[0] as int, cur as int) && self@[anc@[0] as int].depth + 1
                    == self@[cur as int].depth);
            }
            Some(anc[0])
        } else {
            proof {
                if has_parent(self@, cur as int) {
                    let q = choose|q: int| is_ancestor(self@, q, cur as int) && self@[q].depth + 1 == self@[cur as int].depth;
                    assert(member_of(self@, Which::Ancestor(cur), q));
                    let k = choose|k: int| 0 <= k < anc@.len() && anc@[k] == q as usize;
                    if k > 0 {
                        assert(ordered(self@, Order::NearerFirst, anc@[0] as int, anc@[k] as int));
                    }
                }
            }
            None
        }
    }

    /// The children of `cur`, outermost first.
    pub fn children(&self, cur: usize) -> (r: Vec<usize>)
        requires
            cur < self@.len(),
        ensures
            lists_exactly(self@, r@, Which::Child(cur), Order::OuterFirst),
    {
        let desc = self.descendants(cur);
        let d = self.spans[cur].depth;
        self.keep(&desc, Keep::DepthAbove(d), Ghost(Which::Descendant(cur)), Ghost(Which::Child(cur)), Ghost(Order::OuterFirst))
    }

    /// The children of `p` other than `cur`.
    fn others(&self, p: usize, cur: usize) -> (r: Vec<usize>)
        requires
            p < self@.len(),
        ensures
            lists_exactly(self@, r@, Which::Sibling(p, cur), Order::OuterFirst),
    {
        let kids = self.children(p);
        self.keep(&kids, Keep::Other(cur), Ghost(Which::Child(p)), Ghost(Which::Sibling(p, cur)), Ghost(Order::OuterFirst))
    }

    /// The other children of `cur`'s parent, outermost first; none when `cur` has no parent.
    pub fn siblings(&self, cur: usize) -> (r: Vec<usize>)
        requires
            cur < self@.len(),
        ensures
            !has_parent(self@, cur as int) ==> r@.len() == 0,
            forall|p: int|
                is_parent(self@, p, cur as int) ==> lists_exactly(self@, r@, Which::Sibling(p as usize, cur), Order::OuterFirst),
    {
        match self.parent(cur) {
            None => Vec::new(),
            Some(p) => {
                proof {
                    lemma_parent_unique(self@, p as int, cur as int);
                }
                self.others(p, cur)
            },
        }
    }

    /// The siblings of `cur` that end where `cur` starts or before.
    pub fn before(&self, cur: usize) -> (r: Vec<usize>)
        requires
            cur < self@.len(),
        ensures
            !has_parent(self@, cur as int) ==> r@.len() == 0,
            forall|p: int|
                is_parent(self@, p, cur as int) ==> lists_exactly(self@, r@, Which::SiblingBefore(p as usize, cur), Order::OuterFirst),
    {
        match self.parent(cur) {
            None => Vec::new(),
            Some(p) => {
                proof {
                    lemma_parent_unique(self@, p as int, cur as int);
                }
                let sib = self.others(p, cur);
                let at = self.spans[cur].start;
                self.keep(&sib, Keep::EndsBy(at), Ghost(Which::Sibling(p, cur)), Ghost(Which::SiblingBefore(p, cur)), Ghost(Order::OuterFirst))
            },
        }
    }

    /// The siblings of `cur` that start where `cur` ends or after.
    pub fn after(&self, cur: usize) -> (r: Vec<usize>)
        requires
            cur < self@.len(),
        ensures
            !has_parent(self@, cur as int) ==> r@.len() == 0,
            forall|p: int|
                is_parent(self@, p, cur as int) ==> lists_exactly(self@, r@, Which::SiblingAfter(p as usize, cur), Order::OuterFirst),
    {
        match self.parent(cur) {
            None => Vec::new(),
            Some(p) => {
                proof {
                    lemma_parent_unique(self@, p as int, cur as int);
                }
                let sib = self.others(p, cur);
                let at = self.spans[cur].end;
                self.keep(&sib, Keep::StartsFrom(at), Ghost(Which::Sibling(p, cur)), Ghost(Which::SiblingAfter(p, cur)), Ghost(Order::OuterFirst))
            },
        }
    }

    /// The positions of `v` that pass `keep`, in the order of `v`.
    fn keep(
        &self,
        v: &Vec<usize>,
        keep: Keep,
        Ghost(w): Ghost<Which>,
        Ghost(w2): Ghost<Which>,
        Ghost(o): Ghost<Order>,
    ) -> (r: Vec<usize>)
        requires
            lists_exactly(self@, v@, w, o),
            forall|i: int| #[trigger] member_of(self@, w2, i) == (member_of(self@, w, i) && 0 <= i < self@.len() && keeps(self@, keep, i)),
            forall|i: int| #[trigger] member_of(self@, w, i) ==> 0 <= i < self@.len(),
        ensures
            lists_exactly(self@, r@, w2, o),
    {
        let n = self.spans.len();
        let mut r: Vec<usize> = Vec::new();
        let ghost mut pos: Seq<int> = Seq::empty();
        let mut i: usize = 0;
        while i < v.len()
            invariant
                i <= v@.len(),
                lists_exactly(self@, v@, w, o),
                forall|i: int| #[trigger] member_of(self@, w, i) ==> 0 <= i < self@.len(),
                self@ == self.spans@,
                n == self@.len(),
                r@.len() == pos.len(),
                forall|k: int| 0 <= k < r@.len() ==> 0 <= #[trigger] pos[k] < i && r@[k] == v@[pos[k]],
                forall|a: int, b: int| 0 <= a < b < r@.len() ==> #[trigger] pos[a] < #[trigger] pos[b],
                forall|k: int| 0 <= k < r@.len() ==> keeps(self@, keep, #[trigger] r@[k] as int),
                forall|j: int| 0 <= j < i && keeps(self@, keep, v@[j] as int) ==> r@.contains(#[trigger] v@[j]),
            decreases v@.len() - i,
        {
            let x = v[i];
            proof {
                assert(member_of(self@, w, v@[i as int] as int));
            }
            let b = self.spans[x];
            let pass = match keep {
                Keep::DepthAbove(d) => b.depth > d && b.depth - 1 == d,
                Keep::Other(o) => x != o,
                Keep::EndsBy(at) => b.end <= at,
                Keep::StartsFrom(at) => b.start >= at,
            };
            if pass {
                let ghost old = r@;
                r.push(x);
                proof {
                    pos = pos.push(i as int);
                    assert forall|j: int| 0 <= j < i + 1 && keeps(self@, keep, v@[j] as int) implies r@.contains(#[trigger] v@[j]) by {
                        if j == i {
                            assert(r@[old.len() as int] == v@[j]);
                        } else {
                            assert(old.contains(v@[j]));
                            let k = choose|k: int| 0 <= k < old.len() && old[k] == v@[j];
                            assert(r@[k] == v@[j]);
                        }
                    }
                }
            }
            i += 1;
        }
        proof {
            assert(r@.no_duplicates()) by {
                assert forall|a: int, b: int| 0 <= a < r@.len() && 0 <= b < r@.len() && a != b implies r@[a] != r@[b] by {
                    assert(pos[a] != pos[b]) by {
                        if a < b {
                            assert(pos[a] < pos[b]);
                        } else {
                            assert(pos[b] < pos[a]);
                        }
                    }
                    assert(v@[pos[a]] != v@[pos[b]]);
                }
            }
            assert forall|k: int| 0 <= k < r@.len() implies #[trigger] member_of(self@, w2, r@[k] as int) by {
                assert(r@[k] == v@[pos[k]]);
                assert(member_of(self@, w, v@[pos[k]] as int));
            }
            assert forall|x: int| #[trigger] member_of(self@, w2, x) implies 0 <= x && r@.contains(x as usize) by {
                assert(member_of(self@, w, x));
                assert(v@.contains(x as usize));
                let j = choose|j: int| 0 <= j < v@.len() && v@[j] == x as usize;
                assert(keeps(self@, keep, v@[j] as int));
                assert(r@.contains(v@[j]));
            }
            assert forall|a: int, b: int| 0 <= a < b < r@.len() implies ordered(self@, o, #[trigger] r@[a] as int, #[trigger] r@[b] as int) by {
                assert(pos[a] < pos[b]);
                assert(ordered(self@, o, v@[pos[a]] as int, v@[pos[b]] as int));
            }
        }
        r
    }

    /// The sort keys of the ancestors of `cur` (when `up`) or of its descendants, found among
    /// the annotations that overlap it.
    fn candidate_keys(&self, cur: usize, up: bool) -> (keys: Vec<(usize, usize, usize, usize)>)
        requires
            cur < self@.len(),
        ensures
            keys@.no_duplicates(),
            forall|k: int|
                0 <= k < keys@.len() ==> #[trigger] keys@[k] == relative_key(self@, up, keys@[k].3 as int)
                    && related(self@, up, keys@[k].3 as int, cur as int),
            forall|j: int| #[trigger] related(self@, up, j, cur as int) ==> keys@.contains(relative_key(self@, up, j)),
    {
        proof {
            use_type_invariant(self);
        }
        let c = self.spans[cur];
        let cand = self.overlapping(c.start, c.end);
        let mut keys: Vec<(usize, usize, usize, usize)> = Vec::new();
        let ghost mut src: Seq<int> = Seq::empty();
        let mut k: usize = 0;
        while k < cand.len()
            invariant
                k <= cand@.len(),
                cur < self@.len(),
                c == self@[cur as int],
                self@ == self.spans@,
                cand@.no_duplicates(),
                self@.len() <= usize::MAX,
                forall|m: int| 0 <= m < cand@.len() ==> (#[trigger] cand@[m]) < self@.len()
                    && overlaps(self@[cand@[m] as int], c.start as int, c.end as int),
                forall|j: int| 0 <= j < self@.len() && overlaps(self@[j], c.start as int, c.end as int) ==> cand@.contains(j as usize),
                src.len() == keys@.len(),
                forall|a: int| 0 <= a < keys@.len() ==> 0 <= #[trigger] src[a] < k && keys@[a].3 == cand@[src[a]],
                forall|a: int|
                    0 <= a < keys@.len() ==> #[trigger] keys@[a] == relative_key(self@, up, keys@[a].3 as int)
                        && related(self@, up, keys@[a].3 as int, cur as int),
                forall|a: int, b: int| 0 <= a < b < keys@.len() ==> src[a] != src[b],
                forall|m: int| 0 <= m < k && related(self@, up, cand@[m] as int, cur as int) ==> keys@.contains(relative_key(self@, up, #[trigger] cand@[m] as int)),
            decreases cand@.len() - k,
        {
            let i = cand[k];
            let b = self.spans[i];
            let hit = if up {
                i != cur && b.start <= c.start && b.end >= c.end && b.depth < c.depth
            } else {
                i != cur && b.start >= c.start && b.end <= c.end && b.depth > c.depth
            };
            if hit {
                let key = if up {
                    (usize::MAX - b.depth, usize::MAX - b.start, usize::MAX - b.end, i)
                } else {
                    (b.depth, b.start, b.end, i)
                };
                let ghost old = keys@;
                let ghost old_src = src;
                keys.push(key);
                proof {
                    src = src.push(k as int);
                    assert forall|m: int| 0 <= m < k + 1 && related(self@, up, cand@[m] as int, cur as int) implies keys@.contains(relative_key(self@, up, #[trigger] cand@[m] as int)) by {
                        if m == k {
                            assert(keys@[keys@.len() - 1] == relative_key(self@, up, cand@[m] as int));
                        } else {
                            assert(old.contains(relative_key(self@, up, cand@[m] as int)));
                            let x = choose|x: int| 0 <= x < old.len() && old[x] == relative_key(self@, up, cand@[m] as int);
                            assert(keys@[x] == old[x]);
                        }
                    }
                    assert forall|a: int| 0 <= a < keys@.len() implies 0 <= #[trigger] src[a] < k + 1 && keys@[a].3 == cand@[src[a]] by {
                        if a < old.len() {
                            assert(src[a] == old_src[a] && keys@[a] == old[a]);
                        }
                    }
                }
            }
            k += 1;
        }
        proof {
            assert(keys@.no_duplicates()) by {
                assert forall|a: int, b: int| 0 <= a < keys@.len() && 0 <= b < keys@.len() && a != b implies keys@[a] != keys@[b] by {
                    if a < b {
                        assert(src[a] != src[b]);
                    } else {
                        assert(src[b] != src[a]);
                    }
                    assert(cand@[src[a]] != cand@[src[b]]);
                }
            }
            assert forall|j: int| #[trigger] related(self@, up, j, cur as int) implies keys@.contains(relative_key(self@, up, j)) by {
                assert(cand@.contains(j as usize));
                let m = choose|m: int| 0 <= m < cand@.len() && cand@[m] == j as usize;
                assert(cand@[m] as int == j);
            }
        }
        keys
    }

    /// The last parts of the keys, in order.
    fn positions(keys: &Vec<(usize, usize, usize, usize)>) -> (r: Vec<usize>)
        ensures
            r@.len() == keys@.len(),
            forall|k: int| 0 <= k < keys@.len() ==> #[trigger] r@[k] == keys@[k].3,
    {
        let mut r: Vec<usize> = Vec::new();
        let mut i: usize = 0;
        while i < keys.len()
            invariant
                i <= keys@.len(),
                r@.len() == i,
                forall|k: int| 0 <= k < i ==> #[trigger] r@[k] == keys@[k].3,
            decreases keys@.len() - i,
        {
            r.push(keys[i].3);
            i += 1;
        }
        r
    }
}

/// Whether `i` is a sibling of `cur` under the parent `p`: another child of `p`.
pub open spec fn is_sibling(s: Seq<BaseAnnotation>, i: int, p: int, cur: int) -> bool {
    is_child(s, i, p) && i != cur
}

/// A test that a position must pass to be kept.
enum Keep {
    DepthAbove(usize),
    Other(usize),
    EndsBy(usize),
    StartsFrom(usize),
}

spec fn keeps(s: Seq<BaseAnnotation>, keep: Keep, i: int) -> bool {
    match keep {
        Keep::DepthAbove(d) => s[i].depth == d + 1,
        Keep::Other(o) => i != o,
        Keep::EndsBy(at) => s[i].end <= at,
        Keep::StartsFrom(at) => s[i].start >= at,
    }
}

/// A parent is unique.
pub proof fn lemma_parent_unique(s: Seq<BaseAnnotation>, p: int, cur: int)
    requires
        is_parent(s, p, cur),
    ensures
        forall|q: int| is_parent(s, q, cur) ==> q == p,
{
    assert forall|q: int| is_parent(s, q, cur) implies q == p by {
        assert(nearer_first(s, p, q));
        assert(nearer_first(s, q, p));
    }
}

/// No annotation is its own ancestor or its own descendant.
pub proof fn law_not_own_relative(s: Seq<BaseAnnotation>, x: int)
    ensures
        !is_ancestor(s, x, x),
        !is_descendant(s, x, x),
{
}

/// The parent of an annotation has it among its children.
pub proof fn law_parent_has_child(s: Seq<BaseAnnotation>, p: int, c: int)
    requires
        0 <= c < s.len(),
        is_parent(s, p, c),
    ensures
        is_child(s, c, p),
{
}

/// For a non-empty annotation `x` among well-formed annotations, no sibling is both before and
/// after `x`, and a sibling that is neither shares a point with `x`.
pub proof fn law_before_after_split(s: Seq<BaseAnnotation>, p: usize, x: usize, i: int)
    requires
        forall|k: int| 0 <= k < s.len() ==> (#[trigger] s[k]).start <= s[k].end,
        x < s.len(),
        s[x as int].start < s[x as int].end,
        is_sibling(s, i, p as int, x as int),
    ensures
        !(member_of(s, Which::SiblingBefore(p, x), i) && member_of(s, Which::SiblingAfter(p, x), i)),
        member_of(s, Which::SiblingBefore(p, x), i) || member_of(s, Which::SiblingAfter(p, x), i)
            || overlaps(s[i], s[x as int].start as int, s[x as int].end as int),
{
    assert(s[i].start <= s[i].end);
}

/// Whether `i` is an ancestor of `cur` (when `up`) or a descendant of it.
pub open spec fn related(s: Seq<BaseAnnotation>, up: bool, i: int, cur: int) -> bool {
    if up {
        is_ancestor(s, i, cur)
    } else {
        is_descendant(s, i, cur)
    }
}

/// The sort key of `i` among ancestors (when `up`) or among descendants.
spec fn relative_key(s: Seq<BaseAnnotation>, up: bool, i: int) -> (usize, usize, usize, usize) {
    if up {
        nearer_key(s[i], i)
    } else {
        outer_key(s[i], i)
    }
}

} // verus!
