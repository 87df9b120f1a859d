//! Normalized sets of half-open `usize` ranges: union and subtraction.
use crate::order::{key_le, keys_sorted, lemma_same_items, sorted_keys};
use smallvec::SmallVec;
use std::ops::Range;
use vstd::prelude::*;

verus! {

/// The ranges of a `Ranges` value, stored inline while they are few.
#[verifier::external_body]
#[derive(PartialEq, Debug)]
pub struct RangeList {
    items: SmallVec<[Range<usize>; 4]>,
}

/// What a list of ranges holds, in order.
pub uninterp spec fn range_items(v: RangeList) -> Seq<Range<usize>>;

/// Relies on `SmallVec::from_vec`: the small vector holds the vector's items, in order.
#[verifier::external_body]
fn small_from_vec(v: Vec<Range<usize>>) -> (r: RangeList)
    ensures
        range_items(r) == v@,
{
    RangeList { items: SmallVec::from_vec(v) }
}

/// Relies on `SmallVec::len`: the number of items.
#[verifier::external_body]
fn small_len(v: &RangeList) -> (r: usize)
    ensures
        r == range_items(*v).len(),
{
    v.items.len()
}

/// Relies on indexing a `SmallVec` (through its slice): the item at position `i`, copied.
#[verifier::external_body]
fn small_get(v: &RangeList, i: usize) -> (r: Range<usize>)
    requires
        i < range_items(*v).len(),
    ensures
        r == range_items(*v)[i as int],
{
    v.items[i].start..v.items[i].end
}

/// Whether the half-open range `r` holds the point `x`.
pub open spec fn in_range(r: Range<usize>, x: int) -> bool {
    r.start <= x < r.end
}

/// Whether some range of `rs` holds the point `x`.
pub open spec fn covers(rs: Seq<Range<usize>>, x: int) -> bool {
    exists|i: int| 0 <= i < rs.len() && in_range(#[trigger] rs[i], x)
}

/// No range is empty, and each range ends strictly before every later one starts: the ranges
/// are sorted, disjoint and not touching.
pub open spec fn normalized(rs: Seq<Range<usize>>) -> bool {
    &&& forall|i: int| 0 <= i < rs.len() ==> (#[trigger] rs[i]).start < rs[i].end
    &&& forall|i: int, j: int| 0 <= i < j < rs.len() ==> (#[trigger] rs[i]).end < (#[trigger] rs[j]).start
}

/// A sequence of half-open ranges. Union and subtraction produce it normalized: sorted,
/// disjoint and not touching.
#[derive(PartialEq, Debug)]
pub struct Ranges(RangeList);

impl View for Ranges {
    type V = Seq<Range<usize>>;

    closed spec fn view(&self) -> Seq<Range<usize>> {
        range_items(self.0)
    }
}

/// Subtraction of a single range from a set of points.
pub trait RangeOps {
    /// The points that `self` holds.
    spec fn covers_point(&self, x: int) -> bool;

    /// The points of `self` outside `other`, as a normalized sequence.
    fn sub(&self, other: Range<usize>) -> (r: Ranges)
        ensures
            normalized(r@),
            forall|x: int|
                #![trigger covers(r@, x)]
                covers(r@, x) <==> self.covers_point(x) && !in_range(other, x),
    ;
}

impl From<Vec<Range<usize>>> for Ranges {
    /// The ranges as given, in order.
    fn from(v: Vec<Range<usize>>) -> (r: Ranges) {
        Ranges::from_ranges(v)
    }
}

impl vstd::std_specs::convert::FromSpecImpl<Vec<Range<usize>>> for Ranges {
    /// Two values with the same ranges may differ in their storage, so no single value is
    /// promised; `from_ranges` states what the ranges are.
    open spec fn obeys_from_spec() -> bool {
        false
    }

    closed spec fn from_spec(v: Vec<Range<usize>>) -> Ranges {
        choose|r: Ranges| r@ == v@
    }
}

impl Ranges {
    /// The ranges as given, in order, whether normalized or not.
    pub fn from_ranges(v: Vec<Range<usize>>) -> (r: Ranges)
        ensures
            r@ == v@,
    {
        Ranges(small_from_vec(v))
    }

    /// The number of ranges.
    pub fn len(&self) -> (r: usize)
        ensures
            r == self@.len(),
    {
        small_len(&self.0)
    }

    /// The range at position `i`.
    pub fn get(&self, i: usize) -> (r: Range<usize>)
        requires
            i < self@.len(),
        ensures
            r == self@[i as int],
    {
        small_get(&self.0, i)
    }

    /// The span from the first range's start to the last range's end, bridging the gaps;
    /// `None` when there is no range.
    pub fn outer_range(&self) -> (r: Option<Range<usize>>)
        ensures
            self@.len() == 0 ==> r is None,
            self@.len() > 0 ==> r == Some(
                Range { start: self@[0].start, end: self@.last().end },
            ),
    {
        let n = self.len();
        if n == 0 {
            None
        } else {
            let first = self.get(0);
            let last = self.get(n - 1);
            Some(first.start..last.end)
        }
    }

    /// The smallest normalized sequence that covers the same points as `ranges`: sorted by
    /// start, empty ranges dropped, overlapping or touching ranges merged.
    pub fn union_of(ranges: &[Range<usize>]) -> (r: Ranges)
        ensures
            normalized(r@),
            forall|x: int| #![trigger covers(r@, x)] covers(r@, x) <==> covers(ranges@, x),
    {
        let mut keys: Vec<(usize, usize, usize, usize)> = Vec::new();
        let mut i: usize = 0;
        while i < ranges.len()
            invariant
                i <= ranges@.len(),
                keys@.len() == i,
                forall|k: int|
                    0 <= k < i ==> #[trigger] keys@[k] == (ranges@[k].start, ranges@[k].end, 0usize, 0usize),
            decreases ranges@.len() - i,
        {
            keys.push((ranges[i].start, ranges[i].end, 0, 0));
            i += 1;
        }
        let sorted = sorted_keys(keys);
        proof {
            lemma_same_items(sorted@, keys@);
            assert forall|x: int| key_covers(sorted@, x) <==> covers(ranges@, x) by {
                if key_covers(sorted@, x) {
                    let k = choose|k: int| 0 <= k < sorted@.len() && key_holds(#[trigger] sorted@[k], x);
                    assert(keys@.contains(sorted@[k]));
                    let k2 = choose|k2: int| 0 <= k2 < keys@.len() && keys@[k2] == sorted@[k];
                    assert(in_range(ranges@[k2], x));
                }
                if covers(ranges@, x) {
                    let k = choose|k: int| 0 <= k < ranges@.len() && in_range(#[trigger] ranges@[k], x);
                    assert(keys@[k] == (ranges@[k].start, ranges@[k].end, 0usize, 0usize));
                    assert(keys@.contains(keys@[k]));
                    assert(sorted@.contains(keys@[k]));
                    let k2 = choose|k2: int| 0 <= k2 < sorted@.len() && sorted@[k2] == keys@[k];
                    assert(key_holds(sorted@[k2], x));
                }
            }
        }
        let mut out: Vec<Range<usize>> = Vec::new();
        let mut j: usize = 0;
        while j < sorted.len()
            invariant
                j <= sorted@.len(),
                keys_sorted(sorted@),
                normalized(out@),
                forall|x: int| covers(out@, x) <==> key_covers(sorted@.take(j as int), x),
                out@.len() > 0 ==> forall|k: int|
                    j <= k < sorted@.len() ==> out@.last().start <= (#[trigger] sorted@[k]).0,
            decreases sorted@.len() - j,
        {
            let (s, e, _, _) = sorted[j];
            proof {
                assert(sorted@.take(j + 1) =~= sorted@.take(j as int).push(sorted@[j as int]));
                lemma_key_covers_push(sorted@.take(j as int), sorted@[j as int]);
            }
            let n = out.len();
            let ghost out0 = out@;
            if s < e {
                if n > 0 && out[n - 1].end >= s {
                    let last_start = out[n - 1].start;
                    let last_end = out[n - 1].end;
                    let new_end = if last_end >= e {
                        last_end
                    } else {
                        e
                    };
                    let ghost before = out@;
                    out.set(n - 1, last_start..new_end);
                    proof {
                        assert forall|x: int| covers(out@, x) <==> covers(before, x) || (s <= x < e) by {
                            if covers(out@, x) {
                                let k = choose|k: int| 0 <= k < out@.len() && in_range(#[trigger] out@[k], x);
                                if k < n - 1 {
                                    assert(in_range(before[k], x));
                                } else if x >= last_end {
                                    assert(s <= x < e);
                                } else {
                                    assert(in_range(before[n - 1], x));
                                }
                            }
                            if covers(before, x) {
                                let k = choose|k: int| 0 <= k < before.len() && in_range(#[trigger] before[k], x);
                                assert(in_range(out@[k], x));
                            }
                            if s <= x < e {
                                assert(in_range(out@[n - 1], x));
                            }
                        }
                    }
                } else {
                    let ghost before = out@;
                    out.push(s..e);
                    proof {
                        assert forall|x: int| covers(out@, x) <==> covers(before, x) || (s <= x < e) by {
                            if covers(out@, x) {
                                let k = choose|k: int| 0 <= k < out@.len() && in_range(#[trigger] out@[k], x);
                                if k < n {
                                    assert(in_range(before[k], x));
                                }
                            }
                            if covers(before, x) {
                                let k = choose|k: int| 0 <= k < before.len() && in_range(#[trigger] before[k], x);
                                assert(in_range(out@[k], x));
                            }
                            if s <= x < e {
                                assert(in_range(out@[n as int], x));
                            }
                        }
                    }
                }
            }
            proof {
                assert forall|x: int| covers(out@, x) <==> key_covers(sorted@.take(j as int), x)
                    || key_holds(sorted@[j as int], x) by {
                    assert(key_holds(sorted@[j as int], x) <==> (s <= x < e));
                    assert(covers(out0, x) <==> key_covers(sorted@.take(j as int), x));
                    if s < e {
                        assert(covers(out@, x) <==> covers(out0, x) || (s <= x < e));
                    }
                }
            }
            proof {
                assert forall|k: int| j + 1 <= k < sorted@.len() implies s <= (#[trigger] sorted@[k]).0 by {
                    assert(key_le(sorted@[j as int], sorted@[k]));
                }
            }
            j += 1;
        }
        proof {
            assert(sorted@.take(sorted@.len() as int) =~= sorted@);
        }
        Ranges::from_ranges(out)
    }
}

/// Whether the key read as a range `k.0 .. k.1` holds `x`.
pub open spec fn key_holds(k: (usize, usize, usize, usize), x: int) -> bool {
    k.0 <= x < k.1
}

/// Whether some key of `ks`, read as a range, holds `x`.
pub open spec fn key_covers(ks: Seq<(usize, usize, usize, usize)>, x: int) -> bool {
    exists|i: int| 0 <= i < ks.len() && key_holds(#[trigger] ks[i], x)
}

proof fn lemma_key_covers_push(ks: Seq<(usize, usize, usize, usize)>, k: (usize, usize, usize, usize))
    ensures
        forall|x: int| key_covers(ks.push(k), x) <==> key_covers(ks, x) || key_holds(k, x),
{
    assert forall|x: int| key_covers(ks.push(k), x) <==> key_covers(ks, x) || key_holds(k, x) by {
        if key_covers(ks.push(k), x) {
            let i = choose|i: int| 0 <= i < ks.push(k).len() && key_holds(#[trigger] ks.push(k)[i], x);
            if i < ks.len() {
                assert(key_holds(ks[i], x));
            }
        }
        if key_covers(ks, x) {
            let i = choose|i: int| 0 <= i < ks.len() && key_holds(#[trigger] ks[i], x);
            assert(key_holds(ks.push(k)[i], x));
        }
        if key_holds(k, x) {
            assert(key_holds(ks.push(k)[ks.len() as int], x));
        }
    }
}


proof fn lemma_covers_concat(a: Seq<Range<usize>>, b: Seq<Range<usize>>)
    ensures
        forall|x: int| covers(a + b, x) <==> covers(a, x) || covers(b, x),
{
    assert forall|x: int| covers(a + b, x) <==> covers(a, x) || covers(b, x) by {
        if covers(a + b, x) {
            let i = choose|i: int| 0 <= i < (a + b).len() && in_range(#[trigger] (a + b)[i], x);
            if i < a.len() {
                assert(in_range(a[i], x));
            } else {
                assert(in_range(b[i - a.len()], x));
            }
        }
        if covers(a, x) {
            let i = choose|i: int| 0 <= i < a.len() && in_range(#[trigger] a[i], x);
            assert(in_range((a + b)[i], x));
        }
        if covers(b, x) {
            let i = choose|i: int| 0 <= i < b.len() && in_range(#[trigger] b[i], x);
            assert(in_range((a + b)[a.len() + i], x));
        }
    }
}

impl RangeOps for Range<usize> {
    open spec fn covers_point(&self, x: int) -> bool {
        in_range(*self, x)
    }

    /// The part of `self` before `other` and the part after it, each when not empty.
    fn sub(&self, other: Range<usize>) -> (r: Ranges) {
        let mut pieces: Vec<Range<usize>> = Vec::new();
        let ghost has_left = self.start < other.start;
        if self.start < other.start {
            let end = if other.start <= self.end {
                other.start
            } else {
                self.end
            };
            pieces.push(self.start..end);
        }
        let ghost has_right = self.end > other.end;
        if self.end > other.end {
            let start = if other.end >= self.start {
                other.end
            } else {
                self.start
            };
            pieces.push(start..self.end);
        }
        proof {
            assert forall|x: int| covers(pieces@, x) <==> in_range(*self, x) && !in_range(other, x) by {
                if in_range(*self, x) && !in_range(other, x) {
                    if x < other.start {
                        assert(in_range(pieces@[0], x));
                    } else {
                        assert(in_range(pieces@[pieces@.len() - 1], x));
                    }
                }
                if covers(pieces@, x) {
                    let k = choose|k: int| 0 <= k < pieces@.len() && in_range(#[trigger] pieces@[k], x);
                    if has_left && k == 0 {
                        assert(x < other.start);
                    } else {
                        assert(x >= other.end);
                    }
                }
            }
        }
        Ranges::union_of(pieces.as_slice())
    }
}

impl RangeOps for Ranges {
    open spec fn covers_point(&self, x: int) -> bool {
        covers(self@, x)
    }

    /// Each range minus `other`, the fragments united again.
    fn sub(&self, other: Range<usize>) -> (r: Ranges) {
        let mut all: Vec<Range<usize>> = Vec::new();
        let n = self.len();
        let mut i: usize = 0;
        while i < n
            invariant
                n == self@.len(),
                i <= n,
                forall|x: int|
                    #![trigger covers(all@, x)]
                    covers(all@, x) <==> covers(self@.take(i as int), x) && !in_range(other, x),
            decreases n - i,
        {
            let cur = self.get(i);
            let piece = cur.sub(Range { start: other.start, end: other.end });
            let ghost all0 = all@;
            let m = piece.len();
            let mut k: usize = 0;
            while k < m
                invariant
                    m == piece@.len(),
                    k <= m,
                    all@ == all0 + piece@.take(k as int),
                    n == self@.len(),
                    i < n,
                    forall|x: int|
                        covers(all0, x) <==> covers(self@.take(i as int), x) && !in_range(other, x),
                    forall|x: int|
                        covers(piece@, x) <==> in_range(self@[i as int], x) && !in_range(other, x),
                decreases m - k,
            {
                all.push(piece.get(k));
                k += 1;
                proof {
                    assert(piece@.take(k as int) =~= piece@.take(k - 1).push(piece@[k - 1]));
                    assert(all@ =~= all0 + piece@.take(k as int));
                }
            }
            proof {
                assert(piece@.take(m as int) =~= piece@);
                lemma_covers_concat(all0, piece@);
                assert(self@.take(i + 1) =~= self@.take(i as int) + seq![self@[i as int]]);
                lemma_covers_concat(self@.take(i as int), seq![self@[i as int]]);
                assert forall|x: int| covers(seq![self@[i as int]], x) <==> in_range(self@[i as int], x) by {
                    if in_range(self@[i as int], x) {
                        assert(in_range(seq![self@[i as int]][0], x));
                    }
                }
                assert forall|x: int|
                    #![trigger covers(all@, x)]
                    covers(all@, x) <==> covers(self@.take(i + 1), x) && !in_range(other, x) by {
                    assert(covers(piece@, x) <==> in_range(self@[i as int], x) && !in_range(other, x));
                    assert(covers(all0, x) <==> covers(self@.take(i as int), x) && !in_range(other, x));
                    assert(all@ == all0 + piece@);
                    assert(covers(all@, x) <==> covers(all0, x) || covers(piece@, x));
                    assert(covers(self@.take(i + 1), x) <==> covers(self@.take(i as int), x) || covers(seq![self@[i as int]], x));
                }
            }
            i += 1;
        }
        proof {
            assert(self@.take(n as int) =~= self@);
        }
        let r = Ranges::union_of(all.as_slice());
        proof {
            assert forall|x: int| covers(r@, x) <==> covers(self@, x) && !in_range(other, x) by {
                assert(covers(all@, x) <==> covers(self@.take(n as int), x) && !in_range(other, x));
            }
        }
        r
    }
}

/// Two normalized sequences that cover the same points are equal: the normalized form of a
/// set of points is unique.
pub proof fn lemma_normalized_unique(a: Seq<Range<usize>>, b: Seq<Range<usize>>)
    requires
        normalized(a),
        normalized(b),
        forall|x: int| covers(a, x) == covers(b, x),
    ensures
        a == b,
    decreases a.len() + b.len(),
{
    if a.len() == 0 || b.len() == 0 {
        if a.len() > 0 {
            assert(covers(a, a[0].start as int));
        }
        if b.len() > 0 {
            assert(covers(b, b[0].start as int));
        }
        assert(a =~= b);
    } else {
        let a0 = a[0];
        let b0 = b[0];
        assert(covers(a, a0.start as int));
        assert(covers(b, b0.start as int));
        let ka = choose|k: int| 0 <= k < b.len() && in_range(#[trigger] b[k], a0.start as int);
        let kb = choose|k: int| 0 <= k < a.len() && in_range(#[trigger] a[k], b0.start as int);
        assert(b0.start <= a0.start) by {
            if ka > 0 {
                assert(b[0].end < b[ka].start);
            }
        }
        assert(a0.start <= b0.start) by {
            if kb > 0 {
                assert(a[0].end < a[kb].start);
            }
        }
        if a0.end < b0.end {
            assert(in_range(b[0], a0.end as int));
            assert(covers(a, a0.end as int));
            let k = choose|k: int| 0 <= k < a.len() && in_range(#[trigger] a[k], a0.end as int);
            if k > 0 {
                assert(a[0].end < a[k].start);
            }
        }
        if b0.end < a0.end {
            assert(in_range(a[0], b0.end as int));
            assert(covers(b, b0.end as int));
            let k = choose|k: int| 0 <= k < b.len() && in_range(#[trigger] b[k], b0.end as int);
            if k > 0 {
                assert(b[0].end < b[k].start);
            }
        }
        let ta = a.drop_first();
        let tb = b.drop_first();
        assert forall|x: int| covers(ta, x) == covers(tb, x) by {
            lemma_covers_rest(a, x);
            lemma_covers_rest(b, x);
        }
        lemma_normalized_unique(ta, tb);
        assert(a =~= b) by {
            assert forall|i: int| 0 <= i < a.len() implies a[i] == b[i] by {
                if i > 0 {
                    assert(a[i] == ta[i - 1]);
                    assert(b[i] == tb[i - 1]);
                }
            }
        }
    }
}

/// In a normalized sequence, the ranges after the first cover exactly the covered points from
/// the first range's end on.
proof fn lemma_covers_rest(a: Seq<Range<usize>>, x: int)
    requires
        normalized(a),
        a.len() > 0,
    ensures
        covers(a.drop_first(), x) <==> covers(a, x) && x >= a[0].end,
{
    let t = a.drop_first();
    if covers(t, x) {
        let k = choose|k: int| 0 <= k < t.len() && in_range(#[trigger] t[k], x);
        assert(a[0].end < a[k + 1].start);
        assert(in_range(a[k + 1], x));
    }
    if covers(a, x) && x >= a[0].end {
        let k = choose|k: int| 0 <= k < a.len() && in_range(#[trigger] a[k], x);
        assert(k > 0);
        assert(in_range(t[k - 1], x));
    }
}

/// Subtracting a range that shares no point with a non-empty range `r` (an empty range in
/// particular) leaves exactly `r`.
pub proof fn law_subtract_nothing(r: Range<usize>, other: Range<usize>, result: Seq<Range<usize>>)
    requires
        r.start < r.end,
        forall|x: int| !(in_range(r, x) && in_range(other, x)),
        normalized(result),
        forall|x: int| covers(result, x) <==> in_range(r, x) && !in_range(other, x),
    ensures
        result == seq![r],
{
    let single = seq![r];
    assert forall|x: int| covers(result, x) == covers(single, x) by {
        if in_range(r, x) {
            assert(in_range(single[0], x));
        }
    }
    lemma_normalized_unique(result, single);
}

/// Subtracting a range from itself leaves nothing.
pub proof fn law_subtract_self(r: Range<usize>, result: Seq<Range<usize>>)
    requires
        normalized(result),
        forall|x: int| covers(result, x) <==> in_range(r, x) && !in_range(r, x),
    ensures
        result.len() == 0,
{
    if result.len() > 0 {
        assert(covers(result, result[0].start as int));
    }
}

/// Subtracting the same range a second time changes nothing.
pub proof fn law_subtract_twice(
    ranges: Seq<Range<usize>>,
    other: Range<usize>,
    once: Seq<Range<usize>>,
    twice: Seq<Range<usize>>,
)
    requires
        normalized(once),
        forall|x: int| covers(once, x) <==> covers(ranges, x) && !in_range(other, x),
        normalized(twice),
        forall|x: int| covers(twice, x) <==> covers(once, x) && !in_range(other, x),
    ensures
        twice == once,
{
    lemma_normalized_unique(twice, once);
}

} // verus!
