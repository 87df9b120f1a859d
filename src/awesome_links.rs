//! Extraction of catalog entries: the leading link of each bullet of a list, with its
//! description, its breadcrumb trail of headings and its category.
use crate::anns::{Annotation, AnnotationKind, BaseAnnotation, MdAnnotation};
use crate::parser::placed;
use crate::ranges::{covers, in_range, normalized, RangeOps, Ranges};
use crate::text::{
    alphanumeric, byte_len, chars_of, is_alphanumeric_char, lemma_prefix_len_mono, offsets_of, skip_non_alphabetic,
    skip_non_alphabetic_from, string_of, trim_end_to, trim_end_ws, trim_start_from, trim_start_ws,
};
use crate::tree::{
    is_ancestor, is_child, is_parent, lists_exactly, member_of, outer_first, overlaps, AnnotationTree, Which,
};
use smallvec::SmallVec;
use std::ops::Range;
use vstd::prelude::*;

verus! {

/// The category of a catalog entry.
#[derive(Clone, Copy, Debug, PartialEq, Eq, Structural, PartialOrd)]
pub enum AwesomeLinkType {
    Repo,
    Article,
    Video,
    Podcast,
    Book,
    Course,
    Other,
}

/// What the extraction reads of an absolute URL: its canonical form, its domain (when the host
/// is a domain name) and its path.
#[derive(Clone, Debug)]
pub struct LinkUrl {
    pub url: String,
    pub domain: Option<String>,
    pub path: String,
}

/// The heading texts above a catalog entry, outermost first, stored inline while they are few.
#[verifier::external_body]
#[derive(Debug)]
pub struct Breadcrumbs {
    items: SmallVec<[String; 2]>,
}

/// What a breadcrumb trail holds, in order.
pub uninterp spec fn crumb_items(b: Breadcrumbs) -> Seq<String>;

/// Relies on `SmallVec::from_vec`: the trail holds the vector's strings, in order.
#[verifier::external_body]
fn crumbs_from_vec(v: Vec<String>) -> (r: Breadcrumbs)
    ensures
        crumb_items(r) == v@,
{
    Breadcrumbs { items: SmallVec::from_vec(v) }
}

/// Relies on `SmallVec::len`: the number of strings.
#[verifier::external_body]
fn crumbs_len(b: &Breadcrumbs) -> (r: usize)
    ensures
        r == crumb_items(*b).len(),
{
    b.items.len()
}

/// Relies on indexing a `SmallVec` (through its slice) and on `String::clone`: the string at
/// position `i`.
#[verifier::external_body]
fn crumbs_get(b: &Breadcrumbs, i: usize) -> (r: String)
    requires
        i < crumb_items(*b).len(),
    ensures
        r == crumb_items(*b)[i as int],
{
    b.items[i].clone()
}

impl Breadcrumbs {
    /// The trail of the given heading texts, in order.
    pub fn from_vec(v: Vec<String>) -> (r: Breadcrumbs)
        ensures
            crumb_items(r) == v@,
    {
        crumbs_from_vec(v)
    }

    /// The number of heading texts.
    pub fn len(&self) -> (r: usize)
        ensures
            r == crumb_items(*self).len(),
    {
        crumbs_len(self)
    }

    /// The heading texts, in order.
    pub fn to_vec(&self) -> (r: Vec<String>)
        ensures
            r@ == crumb_items(*self),
    {
        let n = crumbs_len(self);
        let mut r: Vec<String> = Vec::new();
        let mut i: usize = 0;
        while i < n
            invariant
                n == crumb_items(*self).len(),
                i <= n,
                r@ == crumb_items(*self).take(i as int),
            decreases n - i,
        {
            r.push(crumbs_get(self, i));
            i += 1;
            proof {
                assert(r@ =~= crumb_items(*self).take(i as int));
            }
        }
        proof {
            assert(crumb_items(*self).take(n as int) =~= crumb_items(*self));
        }
        r
    }
}

/// A catalog entry: a link that leads a bullet of a list.
#[derive(Debug)]
pub struct AwesomeLink {
    pub url: LinkUrl,
    pub title: String,
    pub breadcrumbs: Breadcrumbs,
    pub description: Option<String>,
    pub link_type: AwesomeLinkType,
    pub source_lines: Range<usize>,
}

/// Whether `w` occurs in `s`.
pub open spec fn has_infix(s: Seq<char>, w: Seq<char>) -> bool {
    exists|i: int| 0 <= i <= s.len() - w.len() && #[trigger] s.subrange(i, i + w.len()) == w
}

/// The category that a domain name alone decides.
pub open spec fn domain_type(d: Seq<char>) -> Option<AwesomeLinkType> {
    if d == "github.com"@ {
        Some(AwesomeLinkType::Repo)
    } else if d == "youtube.com"@ || d == "youtu.be"@ || d == "www.youtube.com"@ {
        Some(AwesomeLinkType::Video)
    } else if d == "podcasts.apple.com"@ {
        Some(AwesomeLinkType::Podcast)
    } else if d == "www.rust-lang.org"@ {
        Some(AwesomeLinkType::Article)
    } else {
        None
    }
}

/// The category of a link: by its domain where the domain decides, else by words of its text.
pub open spec fn link_type_of(domain: Option<Seq<char>>, title: Seq<char>) -> AwesomeLinkType {
    let by_domain = match domain {
        Some(d) => domain_type(d),
        None => None,
    };
    match by_domain {
        Some(t) => t,
        None => if has_infix(title, "book"@) {
            AwesomeLinkType::Book
        } else if has_infix(title, "course"@) {
            AwesomeLinkType::Course
        } else {
            AwesomeLinkType::Other
        },
    }
}

/// Whether `a` and `b` hold the same characters.
fn same_text(a: &str, b: &str) -> (r: bool)
    ensures
        r == (a@ == b@),
{
    let x = chars_of(a);
    let y = chars_of(b);
    if x.len() != y.len() {
        return false;
    }
    let mut i: usize = 0;
    while i < x.len()
        invariant
            x@ == a@,
            y@ == b@,
            x@.len() == y@.len(),
            i <= x@.len(),
            forall|k: int| 0 <= k < i ==> x@[k] == y@[k],
        decreases x@.len() - i,
    {
        if x[i] != y[i] {
            proof {
                assert(x@[i as int] != y@[i as int]);
            }
            return false;
        }
        i += 1;
    }
    proof {
        assert(x@ =~= y@);
    }
    true
}

/// Whether `w` occurs in the characters `t[from..to]`.
fn contains_text(t: &Vec<char>, from: usize, to: usize, w: &str) -> (r: bool)
    requires
        from <= to <= t@.len(),
    ensures
        r == has_infix(t@.subrange(from as int, to as int), w@),
{
    let ghost s = t@.subrange(from as int, to as int);
    let wc = chars_of(w);
    if wc.len() > to - from {
        return false;
    }
    let last = to - from - wc.len();
    let mut i: usize = 0;
    while i <= last
        invariant
            s == t@.subrange(from as int, to as int),
            wc@ == w@,
            from <= to <= t@.len(),
            last == s.len() - wc@.len(),
            forall|p: int| 0 <= p < i && p <= last ==> #[trigger] s.subrange(p, p + wc@.len()) != w@,
        decreases last + 1 - i,
    {
        let mut k: usize = 0;
        let mut same = true;
        while k < wc.len()
            invariant
                s == t@.subrange(from as int, to as int),
                from <= to <= t@.len(),
                i <= last,
                last == s.len() - wc@.len(),
                k <= wc@.len(),
                same == forall|q: int| 0 <= q < k ==> s[i + q] == wc@[q],
            decreases wc@.len() - k,
        {
            if t[from + i + k] != wc[k] {
                same = false;
            }
            k += 1;
        }
        if same {
            proof {
                assert(s.subrange(i as int, i + wc@.len()) =~= w@);
            }
            return true;
        }
        proof {
            if s.subrange(i as int, i + wc@.len()) == w@ {
                assert forall|q: int| 0 <= q < wc@.len() implies s[i + q] == wc@[q] by {
                    assert(s.subrange(i as int, i + wc@.len())[q] == s[i + q]);
                }
            }
        }
        if i == last {
            proof {
                assert forall|p: int| 0 <= p <= s.len() - w@.len() implies #[trigger] s.subrange(p, p + w@.len()) != w@ by {
                    assert(p <= last);
                }
            }
            return false;
        }
        i += 1;
    }
    false
}

/// The category of a link from its domain and its text.
fn infer_link_type(domain: &Option<String>, t: &Vec<char>, from: usize, to: usize) -> (r: AwesomeLinkType)
    requires
        from <= to <= t@.len(),
    ensures
        r == link_type_of(
            match domain {
                Some(d) => Some(d@),
                None => None,
            },
            t@.subrange(from as int, to as int),
        ),
{
    if let Some(d) = domain {
        let d = d.as_str();
        if same_text(d, "github.com") {
            return AwesomeLinkType::Repo;
        } else if same_text(d, "youtube.com") || same_text(d, "youtu.be") || same_text(d, "www.youtube.com") {
            return AwesomeLinkType::Video;
        } else if same_text(d, "podcasts.apple.com") {
            return AwesomeLinkType::Podcast;
        } else if same_text(d, "www.rust-lang.org") {
            return AwesomeLinkType::Article;
        }
    }
    if contains_text(t, from, to, "book") {
        AwesomeLinkType::Book
    } else if contains_text(t, from, to, "course") {
        AwesomeLinkType::Course
    } else {
        AwesomeLinkType::Other
    }
}

/// Whether `k` is the largest number of leading characters of `t` that fit in `o` bytes.
pub open spec fn is_floor(t: Seq<char>, o: int, k: int) -> bool {
    &&& 0 <= k <= t.len()
    &&& byte_len(t.take(k)) <= o
    &&& k < t.len() ==> byte_len(t.take(k + 1)) > o
}

/// The characters of `t` that start at or after byte `a` and end by byte `b`, for offsets
/// between characters: the text between the two offsets.
pub open spec fn text_between(t: Seq<char>, a: int, b: int) -> Seq<char> {
    let i = choose|i: int| is_floor(t, a, i);
    let j = choose|j: int| is_floor(t, b, j);
    if i <= j {
        t.subrange(i, j)
    } else {
        Seq::empty()
    }
}

/// The flat text as characters, with the byte offset at which each character starts.
struct FlatText {
    chars: Vec<char>,
    offs: Vec<usize>,
}

impl FlatText {
    spec fn wf(&self) -> bool {
        &&& self.offs@.len() == self.chars@.len() + 1
        &&& forall|k: int| 0 <= k <= self.chars@.len() ==> #[trigger] self.offs@[k] == byte_len(self.chars@.take(k))
    }

    fn new(text: &String) -> (r: FlatText)
        requires
            byte_len(text@) <= usize::MAX,
        ensures
            r.wf(),
            r.chars@ == text@,
    {
        let chars = chars_of(text.as_str());
        let offs = offsets_of(&chars);
        FlatText { chars, offs }
    }

    /// The number of characters that fit in the first `o` bytes.
    fn floor(&self, o: usize) -> (r: usize)
        requires
            self.wf(),
        ensures
            is_floor(self.chars@, o as int, r as int),
    {
        let mut lo: usize = 0;
        let mut hi: usize = self.chars.len();
        proof {
            assert(self.chars@.take(0) =~= Seq::<char>::empty());
            assert(vstd::utf8::encode_utf8(Seq::<char>::empty()) =~= Seq::<u8>::empty());
        }
        while lo < hi
            invariant
                self.wf(),
                lo <= hi <= self.chars@.len(),
                byte_len(self.chars@.take(lo as int)) <= o,
                hi < self.chars@.len() ==> byte_len(self.chars@.take(hi + 1)) > o,
            decreases hi - lo,
        {
            let mid = hi - (hi - lo) / 2;
            if self.offs[mid] <= o {
                lo = mid;
            } else {
                proof {
                    lemma_prefix_len_mono(self.chars@, mid as int, hi as int);
                    if hi < self.chars@.len() {
                        lemma_prefix_len_mono(self.chars@, mid as int, hi + 1);
                    }
                }
                hi = mid - 1;
            }
        }
        lo
    }

    /// The text between byte offsets `a` and `b`.
    fn between(&self, a: usize, b: usize) -> (r: (usize, usize))
        requires
            self.wf(),
        ensures
            r.0 <= r.1 <= self.chars@.len(),
            is_floor(self.chars@, a as int, r.0 as int),
            self.chars@.subrange(r.0 as int, r.1 as int) == text_between(self.chars@, a as int, b as int),
    {
        let i = self.floor(a);
        let j = self.floor(b);
        proof {
            lemma_floor_unique(self.chars@, a as int, i as int);
            lemma_floor_unique(self.chars@, b as int, j as int);
        }
        if i <= j {
            (i, j)
        } else {
            (i, i)
        }
    }
}

proof fn lemma_floor_unique(t: Seq<char>, o: int, k: int)
    requires
        is_floor(t, o, k),
    ensures
        (choose|i: int| is_floor(t, o, i)) == k,
{
    let c = choose|i: int| is_floor(t, o, i);
    if c < k {
        lemma_prefix_len_mono(t, c + 1, k);
    } else if c > k {
        lemma_prefix_len_mono(t, k + 1, c);
    }
}

/// The character text between byte offsets `a` and `b`, as a string.
fn string_between(flat: &FlatText, a: usize, b: usize) -> (r: String)
    requires
        flat.wf(),
    ensures
        r@ == text_between(flat.chars@, a as int, b as int),
{
    let (i, j) = flat.between(a, b);
    string_of(slice_of(&flat.chars, i, j).as_slice())
}

impl MdAnnotation {
    /// The annotation's text: the characters of the flat text `doc` between its start and end.
    pub fn text(&self, doc: &String) -> (r: String)
        ensures
            r@ == text_between(doc@, self.spec_base().start as int, self.spec_base().end as int),
    {
        let total = doc.as_str().as_bytes().len();
        proof {
            assert(total == byte_len(doc@));
        }
        let flat = FlatText::new(doc);
        let b = self.base();
        string_between(&flat, b.start, b.end)
    }
}

/// The characters `v[i..j]`.
fn slice_of(v: &Vec<char>, i: usize, j: usize) -> (r: Vec<char>)
    requires
        i <= j <= v@.len(),
    ensures
        r@ == v@.subrange(i as int, j as int),
{
    let mut r: Vec<char> = Vec::new();
    let mut k: usize = i;
    while k < j
        invariant
            i <= k <= j <= v@.len(),
            r@ == v@.subrange(i as int, k as int),
        decreases j - k,
    {
        r.push(v[k]);
        k += 1;
        proof {
            assert(r@ =~= v@.subrange(i as int, k as int));
        }
    }
    r
}

/// Whether the link target points into the same document.
fn is_anchor(href: &String) -> (r: bool)
    ensures
        r == (href@.len() > 0 && href@[0] == '#'),
{
    let c = chars_of(href.as_str());
    c.len() > 0 && c[0] == '#'
}

/// The places of the annotations, by position.
pub open spec fn spans_of(anns: Seq<MdAnnotation>) -> Seq<BaseAnnotation> {
    anns.map_values(|a: MdAnnotation| a.spec_base())
}

/// Whether annotation `k` is the first child of `p`.
pub open spec fn is_first_child(s: Seq<BaseAnnotation>, k: int, p: int) -> bool {
    &&& is_child(s, k, p)
    &&& forall|c: int| is_child(s, c, p) ==> outer_first(s, k, c)
}

/// Whether `nested` is the first list among the children of item `li`, or `None` when it has
/// no list child.
pub open spec fn nested_list(anns: Seq<MdAnnotation>, li: int, nested: Option<usize>) -> bool {
    match nested {
        Some(m) => is_child(spans_of(anns), m as int, li) && anns[m as int] is List && forall|c: int|
            #[trigger] is_child(spans_of(anns), c, li) && anns[c] is List ==> outer_first(spans_of(anns), m as int, c),
        None => forall|c: int| #[trigger] is_child(spans_of(anns), c, li) ==> !(anns[c] is List),
    }
}

/// Whether `x` belongs to the description of link `k` in item `li`: within the item, after the
/// link, before the item's nested list, and outside the item's prefix.
pub open spec fn desc_point(
    anns: Seq<MdAnnotation>,
    k: int,
    li: int,
    nested: Option<usize>,
    text_len: int,
    prefix: Option<Range<usize>>,
    x: int,
) -> bool {
    &&& anns[li].spec_base().start <= x < anns[li].spec_base().end
    &&& !(0 <= x < anns[k].spec_base().end)
    &&& !(nested matches Some(m) && anns[m as int].spec_base().start <= x < text_len)
    &&& !(prefix matches Some(p) && in_range(p, x))
}

/// The description that the ranges `rs` give: the text from the first range's start to the last
/// range's end, from its first letter on and without trailing white space; none when that is
/// empty.
pub open spec fn description_of(t: Seq<char>, rs: Seq<Range<usize>>) -> Option<Seq<char>> {
    if rs.len() == 0 {
        None
    } else {
        let d = trim_end_ws(skip_non_alphabetic(text_between(t, rs[0].start as int, rs.last().end as int)));
        if d.len() == 0 {
            None
        } else {
            Some(d)
        }
    }
}

/// The description as characters.
pub open spec fn text_view(d: Option<String>) -> Option<Seq<char>> {
    match d {
        Some(s) => Some(s@),
        None => None,
    }
}

/// Whether `d` is the description of link `k`: taken from the normalized ranges of its
/// description points.
pub open spec fn description_from(text: Seq<char>, anns: Seq<MdAnnotation>, k: int, d: Option<Seq<char>>) -> bool {
    exists|li: int, nested: Option<usize>, prefix: Option<Range<usize>>, rs: Seq<Range<usize>>|
        #[trigger] described_by(text, anns, k, li, nested, prefix, rs) && d == description_of(text, rs)
}

/// Whether `rs` is the normalized form of the description points of link `k`, under its parent
/// `li` with nested list `nested` and prefix `prefix`.
pub open spec fn described_by(
    text: Seq<char>,
    anns: Seq<MdAnnotation>,
    k: int,
    li: int,
    nested: Option<usize>,
    prefix: Option<Range<usize>>,
    rs: Seq<Range<usize>>,
) -> bool {
    &&& is_parent(spans_of(anns), li, k)
    &&& nested_list(anns, li, nested)
    &&& links_prefix_is(text, anns, li, prefix)
    &&& normalized(rs)
    &&& forall|x: int| #[trigger] covers(rs, x) <==> desc_point(anns, k, li, nested, byte_len(text) as int, prefix, x)
}

/// Whether link annotation `k` leads a catalog entry: its target is not an anchor into the
/// document and parses as an absolute URL, its parent is a list item, and it is the first child
/// of that list item.
pub open spec fn leads_entry(anns: Seq<MdAnnotation>, urls: Seq<Option<LinkUrl>>, k: int) -> bool {
    &&& anns[k] is Link
    &&& !(anns[k]->Link_0.href@.len() > 0 && anns[k]->Link_0.href@[0] == '#')
    &&& urls[k] is Some
    &&& exists|p: int|
        is_parent(spans_of(anns), p, k) && #[trigger] anns[p] is ListItem && is_first_child(
            spans_of(anns),
            k,
            p,
        )
}

/// Whether entry `e` is the one that link annotation `k` leads, as far as its link goes: the
/// same URL, the link's text as title, the category that the URL and title give, and the link's
/// source lines.
pub open spec fn entry_matches(text: Seq<char>, anns: Seq<MdAnnotation>, urls: Seq<Option<LinkUrl>>, k: int, e: AwesomeLink) -> bool {
    let b = anns[k].spec_base();
    let u = urls[k]->Some_0;
    &&& e.url.url@ == u.url@
    &&& e.url.path@ == u.path@
    &&& e.url.domain.is_some() == u.domain.is_some()
    &&& (e.url.domain matches Some(d) ==> d@ == u.domain->Some_0@)
    &&& e.title@ == text_between(text, b.start as int, b.end as int)
    &&& e.link_type == link_type_of(
        match u.domain {
            Some(d) => Some(d@),
            None => None,
        },
        e.title@,
    )
    &&& e.source_lines == (Range { start: anns[k].spec_pos().start_line, end: anns[k].spec_pos().end_line })
    &&& description_from(text, anns, k, text_view(e.description))
    &&& forall|p: int|
        is_parent(spans_of(anns), p, k) ==> exists|hs: Seq<(int, int)>|
            #[trigger] crumbs_listed(text, anns, p, strings_view(crumb_items(e.breadcrumbs)), hs)
}

impl LinkUrl {
    /// A copy with the same strings.
    pub fn duplicate(&self) -> (r: LinkUrl)
        ensures
            r.url@ == self.url@,
            r.path@ == self.path@,
            r.domain.is_some() == self.domain.is_some(),
            r.domain matches Some(d) ==> d@ == self.domain->Some_0@,
    {
        LinkUrl {
            url: self.url.clone(),
            domain: match &self.domain {
                Some(d) => Some(d.clone()),
                None => None,
            },
            path: self.path.clone(),
        }
    }
}

/// The annotations' places, by position.
fn spans(anns: &Vec<MdAnnotation>) -> (r: Vec<BaseAnnotation>)
    ensures
        r@ == spans_of(anns@),
{
    let mut r: Vec<BaseAnnotation> = Vec::new();
    let mut i: usize = 0;
    while i < anns.len()
        invariant
            i <= anns@.len(),
            r@ == spans_of(anns@.take(i as int)),
        decreases anns@.len() - i,
    {
        r.push(anns[i].base());
        i += 1;
        proof {
            assert(spans_of(anns@.take(i as int)) =~= spans_of(anns@.take(i - 1)).push(anns@[i - 1].spec_base()));
        }
    }
    proof {
        assert(anns@.take(anns@.len() as int) =~= anns@);
    }
    r
}

/// The characters of `s` other than the image glyph.
pub open spec fn without_glyph(s: Seq<char>) -> Seq<char>
    decreases s.len(),
{
    if s.len() == 0 {
        s
    } else if s.last() == '\u{1F4F7}' {
        without_glyph(s.drop_last())
    } else {
        without_glyph(s.drop_last()).push(s.last())
    }
}

/// A heading's text as a breadcrumb: image glyphs dropped, surrounding white space trimmed.
pub open spec fn crumb_of(s: Seq<char>) -> Seq<char> {
    trim_end_ws(trim_start_ws(without_glyph(s)))
}

/// The text of a heading with image glyphs dropped and surrounding white space trimmed.
fn heading_text(flat: &FlatText, b: BaseAnnotation) -> (r: String)
    requires
        flat.wf(),
    ensures
        r@ == crumb_of(text_between(flat.chars@, b.start as int, b.end as int)),
{
    let (i, j) = flat.between(b.start, b.end);
    let mut kept: Vec<char> = Vec::new();
    let mut k: usize = i;
    proof {
        assert(flat.chars@.subrange(i as int, i as int) =~= Seq::<char>::empty());
    }
    while k < j
        invariant
            flat.wf(),
            i <= k <= j <= flat.chars@.len(),
            kept@ == without_glyph(flat.chars@.subrange(i as int, k as int)),
        decreases j - k,
    {
        proof {
            assert(flat.chars@.subrange(i as int, k + 1).drop_last() =~= flat.chars@.subrange(i as int, k as int));
        }
        if flat.chars[k] != '\u{1F4F7}' {
            kept.push(flat.chars[k]);
        }
        k += 1;
    }
    let a = trim_start_from(&kept, 0, kept.len());
    let e = trim_end_to(&kept, a, kept.len());
    proof {
        assert(kept@.subrange(0, kept@.len() as int) =~= kept@);
    }
    string_of(slice_of(&kept, a, e).as_slice())
}

/// Whether `c` is a dash-like character: a hyphen or an em dash.
pub open spec fn is_dash(c: char) -> bool {
    c == '-' || c == '\u{2014}'
}

/// Whether `q` is the position of the first dash in `s`.
pub open spec fn is_first_dash(s: Seq<char>, q: int) -> bool {
    &&& 0 <= q < s.len()
    &&& is_dash(s[q])
    &&& forall|x: int| 0 <= x < q ==> !is_dash(#[trigger] s[x])
}

/// Whether splitting `s` at dashes gives at least two pieces, the last empty piece dropped: it
/// has a dash that is not its last character.
pub open spec fn has_dash_split(s: Seq<char>) -> bool {
    exists|q: int| is_first_dash(s, q) && q + 1 < s.len()
}

/// The number of letters and digits in `s`.
pub open spec fn alnum_count(s: Seq<char>) -> nat
    decreases s.len(),
{
    if s.len() == 0 {
        0
    } else {
        alnum_count(s.drop_last()) + if is_alphanumeric_char(s.last()) {
            1nat
        } else {
            0nat
        }
    }
}

/// The number of letters and digits in the text of the ranges.
pub open spec fn alnum_in(t: Seq<char>, rs: Seq<Range<usize>>) -> nat
    decreases rs.len(),
{
    if rs.len() == 0 {
        0
    } else {
        alnum_in(t, rs.drop_last()) + alnum_count(text_between(t, rs.last().start as int, rs.last().end as int))
    }
}

/// `n`, or 3 when it is larger.
pub open spec fn at_most_three(n: nat) -> nat {
    if n < 3 {
        n
    } else {
        3
    }
}

/// Whether `x` is a point of `prefix` that no link among the children of item `li` covers.
pub open spec fn unlinked_point(anns: Seq<MdAnnotation>, li: int, prefix: Range<usize>, x: int) -> bool {
    &&& in_range(prefix, x)
    &&& forall|c: int|
        #[trigger] is_child(spans_of(anns), c, li) && anns[c] is Link ==> !(anns[c].spec_base().start <= x
            < anns[c].spec_base().end)
}

/// Whether `rs` is the normalized form of the points of `prefix` outside the item's links.
pub open spec fn unlinked_ranges(anns: Seq<MdAnnotation>, li: int, prefix: Range<usize>, rs: Seq<Range<usize>>) -> bool {
    &&& normalized(rs)
    &&& forall|x: int| #[trigger] covers(rs, x) <==> unlinked_point(anns, li, prefix, x)
}

/// What the prefix of list item `li` is: nothing when its text has no dash before its last
/// character; else the range from the item's start to its first dash, when the characters there
/// outside the item's links hold at most two letters or digits, and nothing when they hold more.
pub open spec fn links_prefix_is(t: Seq<char>, anns: Seq<MdAnnotation>, li: int, r: Option<Range<usize>>) -> bool {
    let item = text_between(t, anns[li].spec_base().start as int, anns[li].spec_base().end as int);
    &&& !has_dash_split(item) ==> r is None
    &&& has_dash_split(item) ==> exists|i: int, q: int, rs: Seq<Range<usize>>|
        is_floor(t, anns[li].spec_base().start as int, i) && is_first_dash(t.subrange(i, t.len() as int), q)
            && #[trigger] unlinked_ranges(anns, li, Range { start: anns[li].spec_base().start, end: byte_len(t.take(i + q)) as usize }, rs)
            && r == if alnum_in(t, rs) > 2 {
                None
            } else {
                Some(Range { start: anns[li].spec_base().start, end: byte_len(t.take(i + q)) as usize })
            }
}

/// The range before the first dash of a list item's text, when its characters other than those of
/// the item's links are at most two letters or digits: a label made of links, which the
/// description leaves out.
fn find_links_prefix(tree: &AnnotationTree, anns: &Vec<MdAnnotation>, flat: &FlatText, li: usize) -> (r: Option<Range<usize>>)
    requires
        flat.wf(),
        li < anns@.len(),
        anns@[li as int] is ListItem,
        tree@ == spans_of(anns@),
    ensures
        links_prefix_is(flat.chars@, anns@, li as int, r),
{
    let lb = anns[li].base();
    let (i, j) = flat.between(lb.start, lb.end);
    let ghost item = flat.chars@.subrange(i as int, j as int);
    let mut p: usize = i;
    while p < j && flat.chars[p] != '-' && flat.chars[p] != '\u{2014}'
        invariant
            i <= p <= j <= flat.chars@.len(),
            forall|q: int| i <= q < p ==> !is_dash(flat.chars@[q]),
        decreases j - p,
    {
        p += 1;
    }
    proof {
        if has_dash_split(item) {
            let q = choose|q: int| is_first_dash(item, q) && q + 1 < item.len();
            assert(item[q] == flat.chars@[i + q]);
            if p < j {
                assert(item[p - i] == flat.chars@[p as int]);
                assert(p - i == q) by {
                    if p - i < q {
                        assert(!is_dash(item[p - i]));
                    }
                }
            }
        }
    }
    if p >= j || p + 1 >= j {
        return None;
    }
    proof {
        assert(is_first_dash(item, p - i)) by {
            assert forall|q: int| 0 <= q < p - i implies !is_dash(#[trigger] item[q]) by {
                assert(item[q] == flat.chars@[i + q]);
            }
            assert(item[p - i] == flat.chars@[p as int]);
        }
        assert(has_dash_split(item));
        assert(is_first_dash(flat.chars@.subrange(i as int, flat.chars@.len() as int), p - i)) by {
            let rest = flat.chars@.subrange(i as int, flat.chars@.len() as int);
            assert forall|q: int| 0 <= q < p - i implies !is_dash(#[trigger] rest[q]) by {
                assert(rest[q] == flat.chars@[i + q]);
            }
            assert(rest[p - i] == flat.chars@[p as int]);
        }
        assert(flat.offs@[p as int] == byte_len(flat.chars@.take(i + (p - i))));
    }
    let prefix_end = flat.offs[p];
    let prefix = lb.start..prefix_end;
    let ghost cand = Range { start: lb.start, end: prefix_end };
    let mut unlinked = Ranges::union_of(&[lb.start..prefix_end]);
    proof {
        assert forall|x: int| covers(seq![cand], x) <==> in_range(cand, x) by {
            if in_range(cand, x) {
                assert(in_range(seq![cand][0], x));
            }
        }
    }
    let count_kids = anns.len();
    let kids = tree.children(li);
    let mut c: usize = 0;
    while c < kids.len()
        invariant
            c <= kids@.len(),
            count_kids == anns@.len(),
            tree@ == spans_of(anns@),
            lists_exactly(tree@, kids@, Which::Child(li), crate::tree::Order::OuterFirst),
            li < anns@.len(),
            normalized(unlinked@),
            forall|x: int| #[trigger] covers(unlinked@, x) <==> in_range(cand, x) && forall|m: int|
                0 <= m < c && anns@[#[trigger] kids@[m] as int] is Link ==> !(anns@[kids@[m] as int].spec_base().start <= x
                    < anns@[kids@[m] as int].spec_base().end),
        decreases kids@.len() - c,
    {
        proof {
            assert(member_of(tree@, Which::Child(li), kids@[c as int] as int));
        }
        let kid = &anns[kids[c]];
        if let MdAnnotation::Link(_) = kid {
            let kb = kid.base();
            let ghost before = unlinked@;
            unlinked = unlinked.sub(kb.start..kb.end);
            proof {
                assert forall|x: int| #[trigger] covers(unlinked@, x) <==> in_range(cand, x) && forall|m: int|
                    0 <= m < c + 1 && anns@[#[trigger] kids@[m] as int] is Link ==> !(anns@[kids@[m] as int].spec_base().start <= x
                        < anns@[kids@[m] as int].spec_base().end) by {
                    assert(covers(before, x) <==> in_range(cand, x) && forall|m: int|
                        0 <= m < c && anns@[#[trigger] kids@[m] as int] is Link ==> !(anns@[kids@[m] as int].spec_base().start <= x
                            < anns@[kids@[m] as int].spec_base().end));
                }
            }
        } else {
            proof {
                assert forall|x: int| #[trigger] covers(unlinked@, x) <==> in_range(cand, x) && forall|m: int|
                    0 <= m < c + 1 && anns@[#[trigger] kids@[m] as int] is Link ==> !(anns@[kids@[m] as int].spec_base().start <= x
                        < anns@[kids@[m] as int].spec_base().end) by {
                    if in_range(cand, x) && forall|m: int|
                        0 <= m < c && anns@[#[trigger] kids@[m] as int] is Link ==> !(anns@[kids@[m] as int].spec_base().start <= x
                            < anns@[kids@[m] as int].spec_base().end) {
                        assert forall|m: int| 0 <= m < c + 1 && anns@[#[trigger] kids@[m] as int] is Link implies !(anns@[kids@[m] as int].spec_base().start <= x
                            < anns@[kids@[m] as int].spec_base().end) by {
                            if m == c {
                                assert(!(anns@[kids@[m] as int] is Link));
                            }
                        }
                    }
                }
            }
        }
        c += 1;
    }
    proof {
        assert forall|x: int| #[trigger] covers(unlinked@, x) <==> unlinked_point(anns@, li as int, cand, x) by {
            if covers(unlinked@, x) {
                assert forall|cc: int| #[trigger] is_child(spans_of(anns@), cc, li as int) && anns@[cc] is Link implies !(anns@[cc].spec_base().start <= x
                    < anns@[cc].spec_base().end) by {
                    assert(member_of(tree@, Which::Child(li), cc));
                    let m = choose|m: int| 0 <= m < kids@.len() && kids@[m] == cc as usize;
                    assert(cc < count_kids);
                    assert(kids@[m] as int == cc);
                }
            }
            if unlinked_point(anns@, li as int, cand, x) {
                assert forall|m: int| 0 <= m < kids@.len() && anns@[#[trigger] kids@[m] as int] is Link implies !(anns@[kids@[m] as int].spec_base().start <= x
                    < anns@[kids@[m] as int].spec_base().end) by {
                    assert(member_of(tree@, Which::Child(li), kids@[m] as int));
                    assert(is_child(spans_of(anns@), kids@[m] as int, li as int));
                }
            }
        }
        assert(unlinked_ranges(anns@, li as int, cand, unlinked@));
    }
    let mut count: usize = 0;
    let n = unlinked.len();
    let mut q: usize = 0;
    proof {
        assert(unlinked@.take(0) =~= Seq::<Range<usize>>::empty());
    }
    while q < n
        invariant
            flat.wf(),
            n == unlinked@.len(),
            q <= n,
            count == at_most_three(alnum_in(flat.chars@, unlinked@.take(q as int))),
        decreases n - q,
    {
        let r = unlinked.get(q);
        let (a, b) = flat.between(r.start, r.end);
        let ghost base = alnum_in(flat.chars@, unlinked@.take(q as int));
        let mut x: usize = a;
        proof {
            assert(flat.chars@.subrange(a as int, a as int) =~= Seq::<char>::empty());
        }
        while x < b
            invariant
                flat.wf(),
                a <= x <= b <= flat.chars@.len(),
                count == at_most_three(base + alnum_count(flat.chars@.subrange(a as int, x as int))),
            decreases b - x,
        {
            proof {
                assert(flat.chars@.subrange(a as int, x + 1).drop_last() =~= flat.chars@.subrange(a as int, x as int));
            }
            if alphanumeric(flat.chars[x]) && count < 3 {
                count += 1;
            }
            x += 1;
        }
        proof {
            assert(unlinked@.take(q + 1).drop_last() =~= unlinked@.take(q as int));
            assert(unlinked@.take(q + 1).last() == r);
        }
        q += 1;
    }
    proof {
        assert(unlinked@.take(n as int) =~= unlinked@);
        let qd = p - i;
        assert(is_first_dash(flat.chars@.subrange(i as int, flat.chars@.len() as int), qd)) by {
            let rest = flat.chars@.subrange(i as int, flat.chars@.len() as int);
            assert forall|x: int| 0 <= x < qd implies !is_dash(#[trigger] rest[x]) by {
                assert(rest[x] == flat.chars@[i + x]);
            }
            assert(rest[qd] == flat.chars@[p as int]);
        }
        assert(flat.offs@[p as int] == byte_len(flat.chars@.take(i + qd)));
        assert(cand == Range { start: anns@[li as int].spec_base().start, end: byte_len(flat.chars@.take(i + qd)) as usize });
        assert(unlinked_ranges(anns@, li as int, cand, unlinked@));
        assert(is_floor(flat.chars@, anns@[li as int].spec_base().start as int, i as int));
    }
    if count > 2 {
        None
    } else {
        Some(prefix)
    }
}

/// The entry that link annotation `k` leads, if it leads one.
fn entry_for(
    text: &String,
    anns: &Vec<MdAnnotation>,
    urls: &Vec<Option<LinkUrl>>,
    tree: &AnnotationTree,
    flat: &FlatText,
    k: usize,
) -> (r: Option<AwesomeLink>)
    requires
        flat.wf(),
        flat.chars@ == text@,
        k < anns@.len(),
        urls@.len() == anns@.len(),
        tree@ == spans_of(anns@),
        byte_len(text@) <= usize::MAX,
        forall|j: int| 0 <= j < anns@.len() ==> placed(text@, #[trigger] anns@[j]),
    ensures
        r is Some <==> leads_entry(anns@, urls@, k as int),
        r matches Some(e) ==> entry_matches(text@, anns@, urls@, k as int, e),
{
    let count = anns.len();
    let link = match &anns[k] {
        MdAnnotation::Link(l) => l,
        _ => return None,
    };
    if is_anchor(&link.href) {
        return None;
    }
    let url = match &urls[k] {
        Some(u) => u.duplicate(),
        None => return None,
    };
    let li = match tree.parent(k) {
        Some(p) => p,
        None => {
            proof {
                if leads_entry(anns@, urls@, k as int) {
                    let p = choose|p: int| is_parent(spans_of(anns@), p, k as int) && #[trigger] anns@[p] is ListItem
                        && is_first_child(spans_of(anns@), k as int, p);
                    assert(crate::tree::has_parent(tree@, k as int));
                }
            }
            return None;
        },
    };
    proof {
        crate::tree::lemma_parent_unique(tree@, li as int, k as int);
    }
    if anns[li].kind() != AnnotationKind::ListItem {
        return None;
    }
    let kids = tree.children(li);
    proof {
        crate::tree::law_parent_has_child(tree@, li as int, k as int);
        assert(member_of(tree@, Which::Child(li), k as int));
    }
    if kids[0] != k {
        proof {
            if leads_entry(anns@, urls@, k as int) {
                assert(member_of(tree@, Which::Child(li), kids@[0] as int));
                assert(kids@.contains(k));
                let x = choose|x: int| 0 <= x < kids@.len() && kids@[x] == k;
                assert(outer_first(tree@, kids@[0] as int, k as int));
                assert(outer_first(tree@, k as int, kids@[0] as int));
            }
        }
        return None;
    }
    proof {
        assert forall|c: int| is_child(tree@, c, li as int) implies outer_first(tree@, k as int, c) by {
            assert(member_of(tree@, Which::Child(li), c));
            assert(c < count);
            let x = choose|x: int| 0 <= x < kids@.len() && kids@[x] == c as usize;
            if x > 0 {
                assert(crate::tree::ordered(tree@, crate::tree::Order::OuterFirst, kids@[0] as int, kids@[x] as int));
            }
        }
        assert(leads_entry(anns@, urls@, k as int));
    }
    let mut nested: Option<usize> = None;
    let mut c: usize = 0;
    while c < kids.len()
        invariant
            c <= kids@.len(),
            tree@ == spans_of(anns@),
            lists_exactly(tree@, kids@, Which::Child(li), crate::tree::Order::OuterFirst),
            nested matches Some(n) ==> n < anns@.len(),
            nested matches Some(n) ==> is_child(tree@, n as int, li as int) && anns@[n as int] is List
                && exists|m: int| 0 <= m < c && kids@[m] == n && forall|m2: int| 0 <= m2 < m ==> !(anns@[#[trigger] kids@[m2] as int] is List),
            nested is None ==> forall|m: int| 0 <= m < c ==> !(anns@[#[trigger] kids@[m] as int] is List),
        decreases kids@.len() - c,
    {
        proof {
            assert(member_of(tree@, Which::Child(li), kids@[c as int] as int));
        }
        if nested.is_none() && anns[kids[c]].kind() == AnnotationKind::List {
            nested = Some(kids[c]);
        }
        c += 1;
    }
    let text_len = flat.offs[flat.chars.len()];
    proof {
        assert(flat.chars@.take(flat.chars@.len() as int) =~= text@);
        assert(nested_list(anns@, li as int, nested)) by {
            match nested {
                Some(n) => {
                    let m = choose|m: int| 0 <= m < kids@.len() && kids@[m] == n && forall|m2: int| 0 <= m2 < m ==> !(anns@[#[trigger] kids@[m2] as int] is List);
                    assert forall|cc: int| #[trigger] is_child(spans_of(anns@), cc, li as int) && anns@[cc] is List implies outer_first(spans_of(anns@), n as int, cc) by {
                        assert(member_of(tree@, Which::Child(li), cc));
                        let x = choose|x: int| 0 <= x < kids@.len() && kids@[x] == cc as usize;
                        assert(cc < count);
                        assert(kids@[x] as int == cc);
                        if x < m {
                            assert(!(anns@[kids@[x] as int] is List));
                        } else if x > m {
                            assert(crate::tree::ordered(tree@, crate::tree::Order::OuterFirst, kids@[m] as int, kids@[x] as int));
                        }
                    }
                },
                None => {
                    assert forall|cc: int| #[trigger] is_child(spans_of(anns@), cc, li as int) implies !(anns@[cc] is List) by {
                        assert(member_of(tree@, Which::Child(li), cc));
                        let x = choose|x: int| 0 <= x < kids@.len() && kids@[x] == cc as usize;
                        assert(cc < count);
                        assert(kids@[x] as int == cc);
                    }
                },
            }
        }
    }
    let prefix = find_links_prefix(tree, anns, flat, li);
    let lb = anns[li].base();
    let link_end = link.base.end;
    let d0 = (lb.start..lb.end).sub(0..link_end);
    let d1 = match nested {
        Some(n) => d0.sub(anns[n].base().start..text_len),
        None => d0.sub(0..0),
    };
    let d2 = match prefix {
        Some(p) => d1.sub(p),
        None => d1.sub(0..0),
    };
    proof {
        crate::tree::lemma_parent_unique(tree@, li as int, k as int);
        assert forall|x: int| #[trigger] covers(d2@, x) <==> desc_point(anns@, k as int, li as int, nested, byte_len(text@) as int, prefix, x) by {
            assert(covers(d2@, x) <==> d1.covers_point(x) && !in_range(match prefix { Some(p) => p, None => 0..0 }, x));
        }
        assert(described_by(text@, anns@, k as int, li as int, nested, prefix, d2@));
    }
    let description = match d2.outer_range() {
        None => None,
        Some(o) => {
            let (a, b) = flat.between(o.start, o.end);
            let a2 = skip_non_alphabetic_from(&flat.chars, a, b);
            let b2 = trim_end_to(&flat.chars, a2, b);
            if a2 == b2 {
                None
            } else {
                let d = string_of(slice_of(&flat.chars, a2, b2).as_slice());
                Some(d)
            }
        },
    };
    proof {
        assert(text_view(description) == description_of(text@, d2@));
        assert(description_from(text@, anns@, k as int, text_view(description)));
    }
    let crumb_texts = collect_breadcrumbs(tree, anns, flat, li);
    let ghost crumbs = crumb_texts@;
    let breadcrumbs = crumbs_from_vec(crumb_texts);
    let (ti, tj) = flat.between(link.base.start, link.base.end);
    let title = string_of(slice_of(&flat.chars, ti, tj).as_slice());
    let link_type = infer_link_type(&url.domain, &flat.chars, ti, tj);
    let ghost desc = description;
    let entry = AwesomeLink {
        url,
        title,
        breadcrumbs,
        description,
        link_type,
        source_lines: link.pos.start_line..link.pos.end_line,
    };
    proof {
        crate::tree::lemma_parent_unique(tree@, li as int, k as int);
        assert(crumb_items(entry.breadcrumbs) == crumbs);
        assert forall|p: int| is_parent(spans_of(anns@), p, k as int) implies exists|hs: Seq<(int, int)>|
            #[trigger] crumbs_listed(text@, anns@, p, strings_view(crumb_items(entry.breadcrumbs)), hs) by {
            assert(p == li as int);
            let hs = choose|hs: Seq<(int, int)>| crumbs_listed(flat.chars@, anns@, li as int, strings_view(crumbs), hs);
            assert(crumbs_listed(text@, anns@, p, strings_view(crumb_items(entry.breadcrumbs)), hs));
        }
        assert(entry.description == desc);
        assert(description_from(text@, anns@, k as int, text_view(entry.description)));
    }
    Some(entry)
}

/// Whether heading `h` covers the first byte of heading section `s`: the heading that
/// re-querying the tree at the section's start finds.
pub open spec fn starts_section(anns: Seq<MdAnnotation>, s: int, h: int) -> bool {
    &&& 0 <= h < anns.len()
    &&& anns[h] is Heading
    &&& anns[s] is HeadingSection
    &&& overlaps(anns[h].spec_base(), anns[s].spec_base().start as int, anns[s].spec_base().start + 1)
}

/// Whether `p` (a section, then a heading) yields a breadcrumb of list item `li`: the section is
/// an ancestor of the item, and the heading covers the section's first byte.
pub open spec fn crumb_source(anns: Seq<MdAnnotation>, li: int, p: (int, int)) -> bool {
    is_ancestor(spans_of(anns), p.0, li) && starts_section(anns, p.0, p.1)
}

/// Whether `crumbs[x]` is the breadcrumb text of the heading of `hs[x]`, one for each section
/// ancestor of item `li` and each heading that covers the section's first byte, ordered by
/// the heading's start.
pub open spec fn crumbs_listed(
    text: Seq<char>,
    anns: Seq<MdAnnotation>,
    li: int,
    crumbs: Seq<Seq<char>>,
    hs: Seq<(int, int)>,
) -> bool {
    &&& hs.len() == crumbs.len()
    &&& hs.no_duplicates()
    &&& forall|x: int|
        0 <= x < hs.len() ==> crumb_source(anns, li, #[trigger] hs[x]) && crumbs[x] == crumb_of(
            text_between(text, anns[hs[x].1].spec_base().start as int, anns[hs[x].1].spec_base().end as int),
        )
    &&& forall|x: int, y: int|
        0 <= x < y < hs.len() ==> anns[(#[trigger] hs[x]).1].spec_base().start <= anns[(#[trigger] hs[y]).1].spec_base().start
    &&& forall|p: (int, int)| #[trigger] crumb_source(anns, li, p) ==> hs.contains(p)
}

/// The strings as characters.
pub open spec fn strings_view(v: Seq<String>) -> Seq<Seq<char>> {
    v.map_values(|s: String| s@)
}

/// The texts of the headings that start the sections enclosing list item `li`, one for each
/// section and heading, outermost first.
fn collect_breadcrumbs(tree: &AnnotationTree, anns: &Vec<MdAnnotation>, flat: &FlatText, li: usize) -> (r: Vec<String>)
    requires
        flat.wf(),
        li < anns@.len(),
        tree@ == spans_of(anns@),
    ensures
        exists|hs: Seq<(int, int)>| #[trigger] crumbs_listed(flat.chars@, anns@, li as int, strings_view(r@), hs),
{
    let count = anns.len();
    let anc = tree.ancestors(li);
    let mut texts: Vec<String> = Vec::new();
    let mut keys: Vec<(usize, usize, usize, usize)> = Vec::new();
    let ghost mut srcs: Seq<(int, int)> = Seq::empty();
    let ghost mut sa: Seq<int> = Seq::empty();
    let ghost mut sh: Seq<int> = Seq::empty();
    let mut a: usize = 0;
    while a < anc.len()
        invariant
            flat.wf(),
            count == anns@.len(),
            a <= anc@.len(),
            tree@ == spans_of(anns@),
            lists_exactly(tree@, anc@, Which::Ancestor(li), crate::tree::Order::NearerFirst),
            keys@.len() == texts@.len(),
            srcs.len() == texts@.len(),
            sa.len() == srcs.len(),
            sh.len() == srcs.len(),
            forall|x: int| 0 <= x < keys@.len() ==> #[trigger] keys@[x].1 as int == x,
            forall|x: int| 0 <= x < srcs.len() ==> crumb_source(anns@, li as int, #[trigger] srcs[x])
                && keys@[x].0 == anns@[srcs[x].1].spec_base().start
                && texts@[x]@ == crumb_of(
                    text_between(flat.chars@, anns@[srcs[x].1].spec_base().start as int, anns@[srcs[x].1].spec_base().end as int),
                ),
            forall|x: int| 0 <= x < srcs.len() ==> 0 <= #[trigger] sa[x] < a as int && srcs[x].0 == anc@[sa[x]] as int,
            srcs.no_duplicates(),
            forall|a2: int, h2: int| 0 <= a2 < a && #[trigger] starts_section(anns@, anc@[a2] as int, h2) ==> srcs.contains((anc@[a2] as int, h2)),
        decreases anc@.len() - a,
    {
        proof {
            assert(member_of(tree@, Which::Ancestor(li), anc@[a as int] as int));
        }
        let sec = &anns[anc[a]];
        if let MdAnnotation::HeadingSection(hs) = sec {
            let s = hs.base.start;
            if s < usize::MAX {
                let hits = tree.query(s..s + 1);
                let ghost base = srcs.len();
                let mut h: usize = 0;
                while h < hits.len()
                    invariant
                        flat.wf(),
                        count == anns@.len(),
                        h <= hits@.len(),
                        a < anc@.len(),
                        tree@ == spans_of(anns@),
                        lists_exactly(tree@, anc@, Which::Ancestor(li), crate::tree::Order::NearerFirst),
                        anns@[anc@[a as int] as int] is HeadingSection,
                        s == anns@[anc@[a as int] as int].spec_base().start,
                        s < usize::MAX,
                        lists_exactly(tree@, hits@, Which::Overlapping(s, (s + 1) as usize), crate::tree::Order::Any),
                        keys@.len() == texts@.len(),
                        srcs.len() == texts@.len(),
                        sa.len() == srcs.len(),
                        sh.len() == srcs.len(),
                        base <= srcs.len(),
                        forall|x: int| 0 <= x < keys@.len() ==> #[trigger] keys@[x].1 as int == x,
                        forall|x: int| 0 <= x < srcs.len() ==> crumb_source(anns@, li as int, #[trigger] srcs[x])
                            && keys@[x].0 == anns@[srcs[x].1].spec_base().start
                            && texts@[x]@ == crumb_of(
                                text_between(flat.chars@, anns@[srcs[x].1].spec_base().start as int, anns@[srcs[x].1].spec_base().end as int),
                            ),
                        forall|x: int| 0 <= x < base ==> 0 <= #[trigger] sa[x] < a as int && srcs[x].0 == anc@[sa[x]] as int,
                        forall|x: int| base <= x < srcs.len() ==> #[trigger] sa[x] == a as int && srcs[x].0 == anc@[a as int] as int
                            && 0 <= sh[x] < h as int && srcs[x].1 == hits@[sh[x]] as int,
                        srcs.no_duplicates(),
                        forall|a2: int, h2: int| 0 <= a2 < a && #[trigger] starts_section(anns@, anc@[a2] as int, h2) ==> srcs.contains((anc@[a2] as int, h2)),
                        forall|h3: int| 0 <= h3 < h && anns@[#[trigger] hits@[h3] as int] is Heading ==> srcs.contains((anc@[a as int] as int, hits@[h3] as int)),
                    decreases hits@.len() - h,
                {
                    proof {
                        assert(member_of(tree@, Which::Overlapping(s, (s + 1) as usize), hits@[h as int] as int));
                    }
                    if let MdAnnotation::Heading(hd) = &anns[hits[h]] {
                        let n = keys.len();
                        proof {
                            let hh = hits@[h as int] as int;
                            let p = (anc@[a as int] as int, hh);
                            assert(member_of(tree@, Which::Ancestor(li), anc@[a as int] as int));
                            assert(crumb_source(anns@, li as int, p));
                            assert forall|x: int| 0 <= x < srcs.len() implies srcs[x] != p by {
                                if x < base {
                                    assert(sa[x] != a as int);
                                    assert(anc@[sa[x]] != anc@[a as int]);
                                } else {
                                    assert(hits@[sh[x]] != hits@[h as int]);
                                }
                            }
                            let old_srcs = srcs;
                            let old_sa = sa;
                            let old_sh = sh;
                            srcs = srcs.push(p);
                            sa = sa.push(a as int);
                            sh = sh.push(h as int);
                            assert forall|y: (int, int)| old_srcs.contains(y) implies srcs.contains(y) by {
                                let w = choose|w: int| 0 <= w < old_srcs.len() && old_srcs[w] == y;
                                assert(srcs[w] == y);
                            }
                            assert(srcs[srcs.len() - 1] == p);
                            assert forall|x: int| base <= x < srcs.len() implies #[trigger] sa[x] == a as int && srcs[x].0 == anc@[a as int] as int
                                && 0 <= sh[x] < h + 1 && srcs[x].1 == hits@[sh[x]] as int by {
                                if x < old_srcs.len() {
                                    assert(sa[x] == old_sa[x] && srcs[x] == old_srcs[x] && sh[x] == old_sh[x]);
                                }
                            }
                            assert forall|x: int| 0 <= x < base implies 0 <= #[trigger] sa[x] < a as int && srcs[x].0 == anc@[sa[x]] as int by {
                                assert(sa[x] == old_sa[x] && srcs[x] == old_srcs[x]);
                            }
                        }
                        keys.push((hd.base.start, n, 0, 0));
                        texts.push(heading_text(flat, hd.base));
                    }
                    let ghost h0 = h as int;
                    h += 1;
                    proof {
                        assert forall|x: int| base <= x < srcs.len() implies #[trigger] sa[x] == a as int && srcs[x].0 == anc@[a as int] as int
                            && 0 <= sh[x] < h as int && srcs[x].1 == hits@[sh[x]] as int by {
                            assert(sa[x] == a as int);
                            assert(sh[x] <= h0);
                        }
                    }
                }
                proof {
                    assert forall|h2: int| #[trigger] starts_section(anns@, anc@[a as int] as int, h2) implies srcs.contains((anc@[a as int] as int, h2)) by {
                        assert(member_of(tree@, Which::Overlapping(s, (s + 1) as usize), h2));
                        let h3 = choose|h3: int| 0 <= h3 < hits@.len() && hits@[h3] == h2 as usize;
                        assert(h2 < count);
                        assert(hits@[h3] as int == h2);
                    }
                    assert forall|x: int| 0 <= x < srcs.len() implies 0 <= #[trigger] sa[x] < a + 1 && srcs[x].0 == anc@[sa[x]] as int by {
                        if x >= base {
                            assert(sa[x] == a as int);
                        }
                    }
                }
            }
        }
        proof {
            assert forall|a2: int, h2: int| 0 <= a2 < a + 1 && #[trigger] starts_section(anns@, anc@[a2] as int, h2) implies srcs.contains((anc@[a2] as int, h2)) by {
                if a2 == a {
                    assert(anns@[anc@[a as int] as int] is HeadingSection);
                }
            }
            assert forall|x: int| 0 <= x < srcs.len() implies 0 <= #[trigger] sa[x] < a + 1 && srcs[x].0 == anc@[sa[x]] as int by {}
        }
        a += 1;
    }
    proof {
        assert forall|p: (int, int)| #[trigger] crumb_source(anns@, li as int, p) implies srcs.contains(p) by {
            assert(member_of(tree@, Which::Ancestor(li), p.0));
            let a2 = choose|a2: int| 0 <= a2 < anc@.len() && anc@[a2] == p.0 as usize;
            assert(p.0 < count);
            assert(anc@[a2] as int == p.0);
            assert(starts_section(anns@, anc@[a2] as int, p.1));
        }
        assert(keys@.no_duplicates()) by {
            assert forall|x: int, y: int| 0 <= x < keys@.len() && 0 <= y < keys@.len() && x != y implies keys@[x] != keys@[y] by {
                assert(keys@[x].1 as int == x && keys@[y].1 as int == y);
            }
        }
    }
    let ghost unsorted = keys@;
    let sorted = crate::order::sort_unique_keys(keys);
    let mut r: Vec<String> = Vec::new();
    let ghost mut hs: Seq<(int, int)> = Seq::empty();
    let mut j: usize = 0;
    while j < sorted.len()
        invariant
            j <= sorted@.len(),
            crate::order::keys_sorted(sorted@),
            forall|x: (usize, usize, usize, usize)| #[trigger] sorted@.contains(x) <==> unsorted.contains(x),
            forall|x: int| 0 <= x < unsorted.len() ==> #[trigger] unsorted[x].1 as int == x,
            unsorted.len() == texts@.len(),
            srcs.len() == texts@.len(),
            forall|x: int| 0 <= x < srcs.len() ==> crumb_source(anns@, li as int, #[trigger] srcs[x])
                && unsorted[x].0 == anns@[srcs[x].1].spec_base().start
                && texts@[x]@ == crumb_of(
                    text_between(flat.chars@, anns@[srcs[x].1].spec_base().start as int, anns@[srcs[x].1].spec_base().end as int),
                ),
            hs.len() == r@.len(),
            r@.len() == j,
            forall|x: int| 0 <= x < j ==> #[trigger] hs[x] == srcs[sorted@[x].1 as int] && sorted@[x].1 < srcs.len()
                && r@[x]@ == texts@[sorted@[x].1 as int]@,
            forall|p: (int, int)| #[trigger] crumb_source(anns@, li as int, p) ==> srcs.contains(p),
            sorted@.len() == unsorted.len(),
            srcs.no_duplicates(),
            sorted@.no_duplicates(),
        decreases sorted@.len() - j,
    {
        let key = sorted[j];
        proof {
            assert(sorted@.contains(sorted@[j as int]));
            assert(unsorted.contains(key));
            let x = choose|x: int| 0 <= x < unsorted.len() && unsorted[x] == key;
            assert(unsorted[x].1 as int == x);
            hs = hs.push(srcs[key.1 as int]);
        }
        let ghost r0 = r@;
        let t = texts[key.1].clone();
        r.push(t);
        proof {
            assert forall|x: int| 0 <= x < j + 1 implies #[trigger] hs[x] == srcs[sorted@[x].1 as int] && sorted@[x].1 < srcs.len()
                && r@[x]@ == texts@[sorted@[x].1 as int]@ by {
                if x < j {
                    assert(r@[x] == r0[x]);
                } else {
                    assert(r@[x] == t);
                }
            }
        }
        j += 1;
    }
    proof {
        let crumbs = strings_view(r@);
        assert forall|x: int| 0 <= x < hs.len() implies crumb_source(anns@, li as int, #[trigger] hs[x]) && crumbs[x] == crumb_of(
            text_between(flat.chars@, anns@[hs[x].1].spec_base().start as int, anns@[hs[x].1].spec_base().end as int),
        ) by {
            assert(hs[x] == srcs[sorted@[x].1 as int]);
        }
        assert forall|x: int, y: int| 0 <= x < y < hs.len() implies anns@[(#[trigger] hs[x]).1].spec_base().start
            <= anns@[(#[trigger] hs[y]).1].spec_base().start by {
            assert(crate::order::key_le(sorted@[x], sorted@[y]));
            assert(sorted@.contains(sorted@[x]) && sorted@.contains(sorted@[y]));
            assert(unsorted.contains(sorted@[x]));
            assert(unsorted.contains(sorted@[y]));
            let ux = choose|u: int| 0 <= u < unsorted.len() && unsorted[u] == sorted@[x];
            let uy = choose|u: int| 0 <= u < unsorted.len() && unsorted[u] == sorted@[y];
            assert(unsorted[ux].1 as int == ux);
            assert(unsorted[uy].1 as int == uy);
        }
        assert forall|p: (int, int)| #[trigger] crumb_source(anns@, li as int, p) implies hs.contains(p) by {
            let x = choose|x: int| 0 <= x < srcs.len() && srcs[x] == p;
            assert(unsorted.contains(unsorted[x]));
            assert(sorted@.contains(unsorted[x]));
            let y = choose|y: int| 0 <= y < sorted@.len() && sorted@[y] == unsorted[x];
            assert(unsorted[x].1 as int == x);
            assert(hs[y] == srcs[x]);
        }
        assert forall|x: int, y: int| 0 <= x < hs.len() && 0 <= y < hs.len() && x != y implies hs[x] != hs[y] by {
            assert(sorted@[x] != sorted@[y]);
            assert(sorted@.contains(sorted@[x]) && sorted@.contains(sorted@[y]));
            assert(unsorted.contains(sorted@[x]));
            assert(unsorted.contains(sorted@[y]));
            let ux = choose|u: int| 0 <= u < unsorted.len() && unsorted[u] == sorted@[x];
            let uy = choose|u: int| 0 <= u < unsorted.len() && unsorted[u] == sorted@[y];
            assert(unsorted[ux].1 as int == ux);
            assert(unsorted[uy].1 as int == uy);
        }
        assert(crumbs_listed(flat.chars@, anns@, li as int, crumbs, hs));
    }
    r
}

/// Whether `r` holds, in document order, one entry for each link that leads one, the link at
/// position `pos[j]` leading `r[j]`.
pub open spec fn entries_listed(
    text: Seq<char>,
    anns: Seq<MdAnnotation>,
    urls: Seq<Option<LinkUrl>>,
    r: Seq<AwesomeLink>,
    pos: Seq<int>,
) -> bool {
    &&& pos.len() == r.len()
    &&& forall|a: int, b: int| 0 <= a < b < pos.len() ==> #[trigger] pos[a] < #[trigger] pos[b]
    &&& forall|j: int|
        0 <= j < pos.len() ==> 0 <= #[trigger] pos[j] < anns.len() && leads_entry(anns, urls, pos[j])
            && entry_matches(text, anns, urls, pos[j], r[j])
    &&& forall|k: int| 0 <= k < anns.len() && leads_entry(anns, urls, k) ==> pos.contains(k)
}

/// The catalog entries of a document given its flat text and annotations: for each link, in
/// order, the entry that it leads, if it leads one. `urls[k]` is what parsing the target of
/// annotation `k` as an absolute URL gave.
pub fn extract_from_annotations(text: &String, anns: &Vec<MdAnnotation>, urls: &Vec<Option<LinkUrl>>) -> (r: Vec<AwesomeLink>)
    requires
        urls@.len() == anns@.len(),
        byte_len(text@) <= usize::MAX,
        forall|j: int| 0 <= j < anns@.len() ==> placed(text@, #[trigger] anns@[j]),
    ensures
        exists|pos: Seq<int>| #[trigger] entries_listed(text@, anns@, urls@, r@, pos),
{
    let sp = spans(anns);
    let tree = AnnotationTree::new(&sp);
    let flat = FlatText::new(text);
    let mut r: Vec<AwesomeLink> = Vec::new();
    let ghost mut pos: Seq<int> = Seq::empty();
    let mut k: usize = 0;
    while k < anns.len()
        invariant
            k <= anns@.len(),
            flat.wf(),
            flat.chars@ == text@,
            urls@.len() == anns@.len(),
            tree@ == spans_of(anns@),
            byte_len(text@) <= usize::MAX,
            forall|j: int| 0 <= j < anns@.len() ==> placed(text@, #[trigger] anns@[j]),
            pos.len() == r@.len(),
            forall|a: int, b: int| 0 <= a < b < pos.len() ==> #[trigger] pos[a] < #[trigger] pos[b],
            forall|j: int| 0 <= j < pos.len() ==> 0 <= #[trigger] pos[j] < k && leads_entry(anns@, urls@, pos[j])
                && entry_matches(text@, anns@, urls@, pos[j], r@[j]),
            forall|j: int| 0 <= j < k && leads_entry(anns@, urls@, j) ==> pos.contains(j),
        decreases anns@.len() - k,
    {
        match entry_for(text, anns, urls, &tree, &flat, k) {
            Some(e) => {
                r.push(e);
                proof {
                    let old_pos = pos;
                    pos = pos.push(k as int);
                    assert forall|j: int| 0 <= j < k + 1 && leads_entry(anns@, urls@, j) implies pos.contains(j) by {
                        if j == k {
                            assert(pos[pos.len() - 1] == j);
                        } else {
                            assert(old_pos.contains(j));
                            let x = choose|x: int| 0 <= x < old_pos.len() && old_pos[x] == j;
                            assert(pos[x] == j);
                        }
                    }
                }
            },
            None => {},
        }
        k += 1;
    }
    proof {
        assert(entries_listed(text@, anns@, urls@, r@, pos));
    }
    r
}

/// Whether a segment begins at position `i` of `p`.
pub open spec fn segment_starts_at(p: Seq<char>, i: int) -> bool {
    0 <= i < p.len() && p[i] != '/' && (i == 0 || p[i - 1] == '/')
}

/// The segment that begins at position `i` of `p`: its characters up to the next slash.
pub open spec fn segment_from(p: Seq<char>, i: int) -> Seq<char>
    decreases p.len() - i,
{
    if 0 <= i < p.len() && p[i] != '/' {
        seq![p[i]] + segment_from(p, i + 1)
    } else {
        Seq::empty()
    }
}

/// The positions at which the first `n` non-empty segments of `p` begin, when it has them.
pub open spec fn nth_segment_start(p: Seq<char>, n: nat, i: int) -> bool {
    segment_starts_at(p, i) && count_segment_starts(p, i) == n
}

/// How many segments begin before position `i` of `p`.
pub open spec fn count_segment_starts(p: Seq<char>, i: int) -> nat
    decreases i,
{
    if i <= 0 {
        0
    } else {
        count_segment_starts(p, i - 1) + if segment_starts_at(p, i - 1) {
            1nat
        } else {
            0nat
        }
    }
}

/// The owner and name of the repository that entry `l` names on github.com, if any: the first
/// two non-empty segments of its path, for a repository entry on that domain.
pub open spec fn github_repo(l: AwesomeLink) -> Option<(Seq<char>, Seq<char>)> {
    let p = l.url.path@;
    if l.link_type == AwesomeLinkType::Repo && l.url.domain is Some && l.url.domain->Some_0@ == "github.com"@
        && exists|i: int, j: int| nth_segment_start(p, 0, i) && nth_segment_start(p, 1, j) {
        let (i, j) = choose|i: int, j: int| nth_segment_start(p, 0, i) && nth_segment_start(p, 1, j);
        Some((segment_from(p, i), segment_from(p, j)))
    } else {
        None
    }
}

/// The pair of strings as characters.
pub open spec fn repo_view(r: Option<(String, String)>) -> Option<(Seq<char>, Seq<char>)> {
    match r {
        Some(pair) => Some((pair.0@, pair.1@)),
        None => None,
    }
}

/// The `n`-th segment of a path begins at one position only.
proof fn lemma_nth_segment_unique(p: Seq<char>, n: nat, i: int, j: int)
    requires
        nth_segment_start(p, n, i),
        nth_segment_start(p, n, j),
    ensures
        i == j,
{
    if i < j {
        lemma_count_mono(p, i + 1, j);
    } else if j < i {
        lemma_count_mono(p, j + 1, i);
    }
}

/// Whether entry `l` names the repository `owner/name` on github.com: it is a repository entry
/// on that domain, and `owner` and `name` are the first two non-empty segments of its path.
pub open spec fn names_repo(l: AwesomeLink, owner: Seq<char>, name: Seq<char>) -> bool {
    &&& l.link_type == AwesomeLinkType::Repo
    &&& l.url.domain is Some
    &&& l.url.domain->Some_0@ == "github.com"@
    &&& exists|i: int, j: int|
        nth_segment_start(l.url.path@, 0, i) && nth_segment_start(l.url.path@, 1, j) && owner
            == segment_from(l.url.path@, i) && name == segment_from(l.url.path@, j)
}

impl AwesomeLink {
    /// The owner and name of the repository that the entry names, when it is a repository on
    /// github.com: the first two non-empty segments of its URL's path.
    pub fn as_github_repo(&self) -> (r: Option<(String, String)>)
        ensures
            repo_view(r) == github_repo(*self),
            r matches Some(pair) ==> names_repo(*self, pair.0@, pair.1@),
    {
        let r = self.github_pair();
        proof {
            let p = self.url.path@;
            if r is Some {
                let pair = r->Some_0;
                {
                    let (i, j) = choose|i: int, j: int|
                        nth_segment_start(p, 0, i) && nth_segment_start(p, 1, j) && pair.0@ == segment_from(p, i)
                            && pair.1@ == segment_from(p, j);
                    assert(exists|i: int, j: int| nth_segment_start(p, 0, i) && nth_segment_start(p, 1, j));
                    let (i2, j2) = choose|i: int, j: int| nth_segment_start(p, 0, i) && nth_segment_start(p, 1, j);
                    lemma_nth_segment_unique(p, 0, i, i2);
                    lemma_nth_segment_unique(p, 1, j, j2);
                }
            }
        }
        r
    }

    /// The first two non-empty segments of the path, for a repository entry on github.com.
    fn github_pair(&self) -> (r: Option<(String, String)>)
        ensures
            r matches Some(pair) ==> names_repo(*self, pair.0@, pair.1@),
            r is Some ==> self.link_type == AwesomeLinkType::Repo && self.url.domain is Some
                && self.url.domain->Some_0@ == "github.com"@,
            r matches Some(pair) ==> exists|i: int, j: int|
                nth_segment_start(self.url.path@, 0, i) && nth_segment_start(self.url.path@, 1, j)
                    && pair.0@ == segment_from(self.url.path@, i) && pair.1@ == segment_from(self.url.path@, j),
            r is None && self.link_type == AwesomeLinkType::Repo && self.url.domain is Some
                && self.url.domain->Some_0@ == "github.com"@ ==> !exists|j: int| nth_segment_start(self.url.path@, 1, j),
    {
        let is_github = match &self.url.domain {
            Some(d) => same_text(d.as_str(), "github.com"),
            None => false,
        };
        if !is_github || self.link_type != AwesomeLinkType::Repo {
            return None;
        }
        let p = chars_of(self.url.path.as_str());
        let mut found: Vec<(usize, usize)> = Vec::new();
        let mut i: usize = 0;
        while i < p.len() && found.len() < 2
            invariant
                i <= p@.len(),
                found@.len() <= 2,
                p@ == self.url.path@,
                forall|k: int| 0 <= k < found@.len() ==> nth_segment_start(p@, k as nat, #[trigger] found@[k].0 as int)
                    && found@[k].0 < found@[k].1 <= p@.len() && p@.subrange(found@[k].0 as int, found@[k].1 as int) == segment_from(p@, found@[k].0 as int),
                count_segment_starts(p@, i as int) == found@.len(),
            decreases p@.len() - i,
        {
            if p[i] != '/' && (i == 0 || p[i - 1] == '/') {
                let mut e = i;
                while e < p.len() && p[e] != '/'
                    invariant
                        i <= e <= p@.len(),
                        forall|q: int| i <= q < e ==> p@[q] != '/',
                    decreases p@.len() - e,
                {
                    e += 1;
                }
                proof {
                    lemma_segment_from(p@, i as int, e as int);
                }
                found.push((i, e));
            }
            i += 1;
        }
        if found.len() < 2 {
            proof {
                if exists|j: int| nth_segment_start(p@, 1, j) {
                    let j = choose|j: int| nth_segment_start(p@, 1, j);
                    lemma_count_mono(p@, j + 1, i as int);
                    if j + 1 <= i {
                    } else {
                        assert(i == p@.len());
                    }
                }
            }
            return None;
        }
        let a = found[0];
        let b = found[1];
        let owner = string_of(slice_of(&p, a.0, a.1).as_slice());
        let name = string_of(slice_of(&p, b.0, b.1).as_slice());
        Some((owner, name))
    }
}

proof fn lemma_segment_from(p: Seq<char>, i: int, e: int)
    requires
        0 <= i <= e <= p.len(),
        forall|q: int| i <= q < e ==> p[q] != '/',
        e == p.len() || p[e] == '/',
    ensures
        p.subrange(i, e) == segment_from(p, i),
    decreases e - i,
{
    if i < e {
        lemma_segment_from(p, i + 1, e);
        assert(p.subrange(i, e) =~= seq![p[i]] + p.subrange(i + 1, e));
    } else {
        assert(p.subrange(i, e) =~= Seq::<char>::empty());
    }
}

proof fn lemma_count_mono(p: Seq<char>, a: int, b: int)
    requires
        a <= b,
    ensures
        count_segment_starts(p, a) <= count_segment_starts(p, b),
    decreases b - a,
{
    if a < b {
        lemma_count_mono(p, a, b - 1);
    }
}

/// A link whose target is an anchor into the same document leads no entry.
pub proof fn law_anchor_link_is_no_entry(anns: Seq<MdAnnotation>, urls: Seq<Option<LinkUrl>>, k: int)
    requires
        anns[k] is Link,
        anns[k]->Link_0.href@.len() > 0,
        anns[k]->Link_0.href@[0] == '#',
    ensures
        !leads_entry(anns, urls, k),
{
}

/// A link whose parent is not a list item (or that has no parent) leads no entry.
pub proof fn law_link_outside_item_is_no_entry(anns: Seq<MdAnnotation>, urls: Seq<Option<LinkUrl>>, k: int)
    requires
        0 <= k < anns.len(),
        forall|p: int| is_parent(spans_of(anns), p, k) ==> !(anns[p] is ListItem),
    ensures
        !leads_entry(anns, urls, k),
{
}

/// A link that another child of its list item precedes leads no entry.
pub proof fn law_second_link_is_no_entry(
    anns: Seq<MdAnnotation>,
    urls: Seq<Option<LinkUrl>>,
    k: int,
    p: int,
    c: int,
)
    requires
        0 <= k < anns.len(),
        is_parent(spans_of(anns), p, k),
        is_child(spans_of(anns), c, p),
        c != k,
        outer_first(spans_of(anns), c, k),
    ensures
        !leads_entry(anns, urls, k),
{
    if leads_entry(anns, urls, k) {
        let q = choose|q: int|
            is_parent(spans_of(anns), q, k) && #[trigger] anns[q] is ListItem && is_first_child(spans_of(anns), k, q);
        crate::tree::lemma_parent_unique(spans_of(anns), p, k);
        assert(outer_first(spans_of(anns), k, c));
    }
}

} // verus!
