//! The annotator: one pass over a markdown event stream that builds the flat text and the
//! structural annotations over it.
use crate::anns::{
    Annotation, AnnotationKind, BaseAnnotation, MdAnnotation, MdHeading, MdHeadingSection, MdLink,
    MdList, MdListItem, MdParagraph, SourcePosition,
};
use crate::order::{key_le, keys_sorted, sort_unique_keys};
use crate::text::{
    byte_len, char_offset, lemma_char_offset_end, lemma_char_offset_extend, lemma_encode_concat,
    lemma_last_byte_newline,
};
use vstd::prelude::*;
use vstd::utf8::encode_utf8;

verus! {

/// A markdown construct, as the tokenizer reports its start and end.
#[derive(Clone, Debug)]
pub enum MdTag {
    Paragraph,
    List,
    Item,
    /// A heading and its level.
    Heading(u8),
    /// A link, its target and its title (empty when it has none).
    Link(String, String),
    Image,
    Other,
}

/// What happened at one point of the markdown.
#[derive(Clone, Debug)]
pub enum MdEventKind {
    Start(MdTag),
    End(MdTag),
    Text(String),
    Other,
}

/// One tokenizer event, with the byte range of the markdown source it came from.
#[derive(Clone, Debug)]
pub struct MdEvent {
    pub kind: MdEventKind,
    pub start: usize,
    pub end: usize,
}

/// Why a document could not be annotated.
#[derive(Clone, Copy, Debug, PartialEq, Eq, Structural)]
pub enum ParserError {
    /// A construct ended that was not the innermost one open.
    MismatchedTags,
}

/// The constructs that become annotations.
#[derive(Clone, Copy, Debug, PartialEq, Eq, Structural)]
pub enum Construct {
    Paragraph,
    Heading,
    Link,
    List,
    Item,
}

/// The construct that a tag opens or closes, when it is one that becomes an annotation.
pub open spec fn construct_of(t: MdTag) -> Option<Construct> {
    match t {
        MdTag::Paragraph => Some(Construct::Paragraph),
        MdTag::List => Some(Construct::List),
        MdTag::Item => Some(Construct::Item),
        MdTag::Heading(_) => Some(Construct::Heading),
        MdTag::Link(_, _) => Some(Construct::Link),
        _ => None,
    }
}

/// The constructs left open after one more event; `None` when the event closes a construct that
/// is not the innermost open one.
pub open spec fn kinds_step(open: Seq<Construct>, e: MdEvent) -> Option<Seq<Construct>> {
    match e.kind {
        MdEventKind::Start(t) => match construct_of(t) {
            Some(k) => Some(open.push(k)),
            None => Some(open),
        },
        MdEventKind::End(t) => match construct_of(t) {
            Some(k) => if open.len() > 0 && open.last() == k {
                Some(open.drop_last())
            } else {
                None
            },
            None => Some(open),
        },
        _ => Some(open),
    }
}

/// The constructs left open after the events, innermost last; `None` once an end mismatched.
pub open spec fn open_kinds(events: Seq<MdEvent>) -> Option<Seq<Construct>>
    decreases events.len(),
{
    if events.len() == 0 {
        Some(Seq::empty())
    } else {
        match open_kinds(events.drop_last()) {
            Some(open) => kinds_step(open, events.last()),
            None => None,
        }
    }
}

/// The text with a line feed added, unless it is empty or already ends with one.
pub open spec fn upserted(t: Seq<char>) -> Seq<char> {
    if t.len() > 0 && t.last() != '\n' {
        t.push('\n')
    } else {
        t
    }
}

/// `n` tab characters.
pub open spec fn tabs(n: nat) -> Seq<char> {
    Seq::new(n, |i: int| '\t')
}

/// The glyph that stands for an image in the flat text.
pub open spec fn image_glyph() -> Seq<char> {
    seq!['\u{1F4F7}']
}

/// The marker written before a list item's text.
pub open spec fn bullet() -> Seq<char> {
    seq!['\u{2022}', ' ']
}

/// The flat text, the list nesting and the image nesting after one more event.
pub open spec fn flat_step(st: (Seq<char>, nat, nat), e: MdEvent) -> (Seq<char>, nat, nat) {
    let (text, indent, ignore) = st;
    match e.kind {
        MdEventKind::Start(MdTag::Image) => (
            if ignore == 0 {
                text + image_glyph()
            } else {
                text
            },
            indent,
            ignore + 1,
        ),
        MdEventKind::Start(MdTag::Paragraph) => (upserted(text), indent, ignore),
        MdEventKind::Start(MdTag::Heading(_)) => (upserted(text), indent, ignore),
        MdEventKind::Start(MdTag::List) => (upserted(text), indent + 1, ignore),
        MdEventKind::Start(MdTag::Item) => (
            if ignore == 0 {
                upserted(text) + tabs(indent) + bullet()
            } else {
                upserted(text)
            },
            indent,
            ignore,
        ),
        MdEventKind::End(MdTag::Image) => (text, indent, if ignore > 0 {
            (ignore - 1) as nat
        } else {
            0
        }),
        MdEventKind::End(MdTag::List) => (text, if indent > 0 {
            (indent - 1) as nat
        } else {
            0
        }, ignore),
        MdEventKind::Text(s) => (
            if ignore == 0 {
                text + s@
            } else {
                text
            },
            indent,
            ignore,
        ),
        _ => st,
    }
}

/// The flat text, list nesting and image nesting after the events.
pub open spec fn flat_state(events: Seq<MdEvent>) -> (Seq<char>, nat, nat)
    decreases events.len(),
{
    if events.len() == 0 {
        (Seq::empty(), 0, 0)
    } else {
        flat_step(flat_state(events.drop_last()), events.last())
    }
}

/// The number of line feeds in `b`.
pub open spec fn newline_count(b: Seq<u8>) -> nat
    decreases b.len(),
{
    if b.len() == 0 {
        0
    } else {
        newline_count(b.drop_last()) + if b.last() == 10u8 {
            1nat
        } else {
            0nat
        }
    }
}

/// The number of lines in `b`, as `str::lines` counts them: one per line feed, and one more
/// for a last line without one.
pub open spec fn line_count(b: Seq<u8>) -> nat {
    newline_count(b) + if b.len() > 0 && b.last() != 10u8 {
        1nat
    } else {
        0nat
    }
}

/// The 1-based line of `hay` on which byte `needle` stands: one more than the number of line
/// feeds before it (the last line when `needle` is past the end).
pub open spec fn source_line(hay: Seq<char>, needle: int) -> usize {
    let b = encode_utf8(hay);
    let n = newline_count(b.take(if needle <= b.len() { needle } else { b.len() as int }));
    if n < usize::MAX {
        (n + 1) as usize
    } else {
        n as usize
    }
}

/// The 1-based line of `hay` on which byte `needle` stands.
pub fn line_offset(hay: &str, needle: usize) -> (r: usize)
    ensures
        r == source_line(hay@, needle as int),
{
    let b = hay.as_bytes();
    let end = if needle <= b.len() {
        needle
    } else {
        b.len()
    };
    let mut count: usize = 0;
    let mut i: usize = 0;
    while i < end
        invariant
            end <= b@.len(),
            i <= end,
            count <= i,
            count == newline_count(b@.take(i as int)),
        decreases end - i,
    {
        proof {
            assert(b@.take(i + 1).drop_last() =~= b@.take(i as int));
        }
        if b[i] == 10u8 {
            count += 1;
        }
        i += 1;
    }
    proof {
        assert(b@ == encode_utf8(hay@));
    }
    if count < usize::MAX {
        count + 1
    } else {
        count
    }
}

/// The number of lines of `hay`, as `str::lines` counts them.
pub fn line_total(hay: &str) -> (r: usize)
    ensures
        r == line_count(encode_utf8(hay@)),
{
    let b = hay.as_bytes();
    let mut count: usize = 0;
    let mut i: usize = 0;
    while i < b.len()
        invariant
            i <= b@.len(),
            count <= i,
            count == newline_count(b@.take(i as int)),
        decreases b@.len() - i,
    {
        proof {
            assert(b@.take(i + 1).drop_last() =~= b@.take(i as int));
        }
        if b[i] == 10u8 {
            count += 1;
        }
        i += 1;
    }
    proof {
        assert(b@ == encode_utf8(hay@));
        assert(b@.take(b@.len() as int) =~= b@);
        lemma_line_count_bound(b@);
    }
    let n = b.len();
    if n > 0 && b[n - 1] != 10u8 {
        count + 1
    } else {
        count
    }
}

proof fn lemma_line_count_bound(b: Seq<u8>)
    ensures
        line_count(b) <= b.len(),
        newline_count(b) <= b.len(),
    decreases b.len(),
{
    if b.len() > 0 {
        lemma_line_count_bound(b.drop_last());
    }
}

/// Adds a line feed to `s` unless it is empty or already ends with one.
pub fn upsert_newline(s: &mut String)
    ensures
        final(s)@ == upserted(old(s)@),
{
    let needs = {
        let b = s.as_str().as_bytes();
        let n = b.len();
        proof {
            if s@.len() > 0 {
                lemma_last_byte_newline(s@);
            } else {
                assert(encode_utf8(s@) =~= Seq::<u8>::empty());
            }
        }
        n > 0 && b[n - 1] != 10u8
    };
    if needs {
        proof {
            reveal_strlit("\n");
        }
        s.append("\n");
    }
}

/// An annotation that has begun and not yet ended.
#[derive(Clone, Copy, Debug, PartialEq, Eq, Structural)]
pub struct OpenAnnotation {
    pub start: usize,
    pub start_line: usize,
    pub depth: usize,
}

/// An annotation under construction, with what is known of it before it ends.
#[derive(Clone, Debug)]
pub enum MdAnnotationBuilder {
    Paragraph(OpenAnnotation),
    Heading(OpenAnnotation, u8),
    Link(OpenAnnotation, String, Option<String>),
    List(OpenAnnotation),
    ListItem(OpenAnnotation),
}

impl MdAnnotationBuilder {
    /// The line on which the construct began.
    pub fn opened_line(&self) -> (r: usize)
        ensures
            r == self.opened().start_line,
    {
        match self {
            MdAnnotationBuilder::Paragraph(o) => o.start_line,
            MdAnnotationBuilder::Heading(o, _) => o.start_line,
            MdAnnotationBuilder::Link(o, _, _) => o.start_line,
            MdAnnotationBuilder::List(o) => o.start_line,
            MdAnnotationBuilder::ListItem(o) => o.start_line,
        }
    }

    /// The construct being built.
    pub open spec fn kind(self) -> Construct {
        match self {
            MdAnnotationBuilder::Paragraph(_) => Construct::Paragraph,
            MdAnnotationBuilder::Heading(_, _) => Construct::Heading,
            MdAnnotationBuilder::Link(_, _, _) => Construct::Link,
            MdAnnotationBuilder::List(_) => Construct::List,
            MdAnnotationBuilder::ListItem(_) => Construct::Item,
        }
    }

    /// Where the construct began.
    pub open spec fn opened(self) -> OpenAnnotation {
        match self {
            MdAnnotationBuilder::Paragraph(o) => o,
            MdAnnotationBuilder::Heading(o, _) => o,
            MdAnnotationBuilder::Link(o, _, _) => o,
            MdAnnotationBuilder::List(o) => o,
            MdAnnotationBuilder::ListItem(o) => o,
        }
    }
}

/// Whether annotation `a` lies within the flat text `t`: both ends are offsets between
/// characters of `t`, and, but for a heading section, it does not end before it starts.
pub open spec fn placed(t: Seq<char>, a: MdAnnotation) -> bool {
    let b = a.spec_base();
    &&& b.start <= byte_len(t)
    &&& b.end <= byte_len(t)
    &&& char_offset(t, b.start as int)
    &&& char_offset(t, b.end as int)
    &&& !(a is HeadingSection) ==> b.start <= b.end
}

/// The order of the annotation list: by start, then depth, then end.
pub open spec fn ann_le(a: MdAnnotation, b: MdAnnotation) -> bool {
    let x = a.spec_base();
    let y = b.spec_base();
    x.start < y.start || (x.start == y.start && (x.depth < y.depth || (x.depth == y.depth && x.end
        <= y.end)))
}

/// The byte length of `s`.
fn byte_length(s: &String) -> (r: usize)
    ensures
        r == byte_len(s@),
{
    s.as_str().as_bytes().len()
}

/// Appends `u` to the flat text, keeping every offset between characters.
fn push_text(text: &mut String, u: &str)
    ensures
        final(text)@ == old(text)@ + u@,
        byte_len(old(text)@) <= byte_len(final(text)@),
        forall|o: int| char_offset(old(text)@, o) ==> #[trigger] char_offset(final(text)@, o),
{
    let ghost before = text@;
    text.append(u);
    proof {
        lemma_encode_concat(before, u@);
        assert forall|o: int| char_offset(before, o) implies #[trigger] char_offset(text@, o) by {
            lemma_char_offset_extend(before, u@, o);
        }
    }
}

/// Appends `n` tabs to the flat text, keeping every offset between characters.
fn push_indent(text: &mut String, n: usize)
    ensures
        final(text)@ == old(text)@ + tabs(n as nat),
        byte_len(old(text)@) <= byte_len(final(text)@),
        forall|o: int| char_offset(old(text)@, o) ==> #[trigger] char_offset(final(text)@, o),
{
    let ghost base = text@;
    let mut k: usize = 0;
    proof {
        assert(text@ =~= base + tabs(0));
    }
    while k < n
        invariant
            k <= n,
            text@ == base + tabs(k as nat),
            byte_len(base) <= byte_len(text@),
            forall|o: int| char_offset(base, o) ==> #[trigger] char_offset(text@, o),
        decreases n - k,
    {
        proof {
            reveal_strlit("\t");
        }
        push_text(text, "\t");
        k += 1;
        proof {
            assert(text@ =~= base + tabs(k as nat));
        }
    }
}

/// Starts a new line in the flat text unless it is empty or at a line start already.
fn new_line(text: &mut String)
    ensures
        final(text)@ == upserted(old(text)@),
        byte_len(old(text)@) <= byte_len(final(text)@),
        forall|o: int| char_offset(old(text)@, o) ==> #[trigger] char_offset(final(text)@, o),
{
    let ghost before = text@;
    upsert_newline(text);
    proof {
        if text@ != before {
            assert(text@ == before + seq!['\n']);
            lemma_encode_concat(before, seq!['\n']);
            assert forall|o: int| char_offset(before, o) implies #[trigger] char_offset(text@, o) by {
                lemma_char_offset_extend(before, seq!['\n'], o);
            }
        }
    }
}

/// One more than `n`, or `n` where that does not fit.
fn next_line(n: usize) -> (r: usize)
    ensures
        n < usize::MAX ==> r == n + 1,
        r >= n,
{
    if n < usize::MAX {
        n + 1
    } else {
        n
    }
}

/// The annotation that a builder becomes when its construct ends at `end`, on line `end_line`.
pub open spec fn finish_spec(b: MdAnnotationBuilder, end: usize, end_line: usize) -> MdAnnotation {
    let o = b.opened();
    let base = BaseAnnotation { start: o.start, end, depth: o.depth };
    let pos = SourcePosition { start_line: o.start_line, end_line };
    match b {
        MdAnnotationBuilder::Paragraph(_) => MdAnnotation::Paragraph(MdParagraph { base, pos }),
        MdAnnotationBuilder::Heading(_, level) => MdAnnotation::Heading(MdHeading { base, pos, level }),
        MdAnnotationBuilder::Link(_, href, title) => MdAnnotation::Link(MdLink { base, pos, href, title }),
        MdAnnotationBuilder::List(_) => MdAnnotation::List(MdList { base, pos }),
        MdAnnotationBuilder::ListItem(_) => MdAnnotation::ListItem(MdListItem { base, pos }),
    }
}

/// One more than `n`, where that fits.
pub open spec fn line_after(n: usize) -> usize {
    if n < usize::MAX {
        (n + 1) as usize
    } else {
        n
    }
}

/// The end line of a construct that began on line `start_line` and ends with event `e`: the
/// line after the one holding the end of `e`'s source range, and never before `start_line`.
pub open spec fn close_line(md: Seq<char>, e: MdEvent, start_line: usize) -> usize {
    let l = line_after(source_line(md, e.end as int));
    if l < start_line {
        start_line
    } else {
        l
    }
}

/// Where a construct that event `e` opens begins, when the flat text is `t` and `open` is open.
pub open spec fn opened_at(md: Seq<char>, t: Seq<char>, open: Seq<MdAnnotationBuilder>, e: MdEvent) -> OpenAnnotation {
    OpenAnnotation { start: byte_len(t) as usize, start_line: source_line(md, e.start as int), depth: open.len() as usize }
}

/// The open constructs and the finished annotations after one more event, given the flat text,
/// list nesting and image nesting before it; `None` when the event closes a construct that is
/// not the innermost open one.
pub open spec fn ann_step(
    md: Seq<char>,
    st: (Seq<char>, nat, nat),
    open: Seq<MdAnnotationBuilder>,
    done: Seq<MdAnnotation>,
    e: MdEvent,
) -> Option<(Seq<MdAnnotationBuilder>, Seq<MdAnnotation>)> {
    let o = opened_at(md, upserted(st.0), open, e);
    match e.kind {
        MdEventKind::Start(t) => match t {
            MdTag::Paragraph => Some((open.push(MdAnnotationBuilder::Paragraph(o)), done)),
            MdTag::Heading(level) => Some((open.push(MdAnnotationBuilder::Heading(o, level)), done)),
            MdTag::List => Some((open.push(MdAnnotationBuilder::List(o)), done)),
            MdTag::Item => Some((open.push(MdAnnotationBuilder::ListItem(o)), done)),
            MdTag::Link(href, title) => Some((
                open.push(
                    MdAnnotationBuilder::Link(
                        opened_at(md, st.0, open, e),
                        href,
                        if title@.len() == 0 {
                            None
                        } else {
                            Some(title)
                        },
                    ),
                ),
                done,
            )),
            _ => Some((open, done)),
        },
        MdEventKind::End(t) => match construct_of(t) {
            Some(k) => if open.len() > 0 && open.last().kind() == k {
                let b = open.last();
                Some((
                    open.drop_last(),
                    done.push(finish_spec(b, byte_len(st.0) as usize, close_line(md, e, b.opened().start_line))),
                ))
            } else {
                None
            },
            None => Some((open, done)),
        },
        _ => Some((open, done)),
    }
}

/// The open constructs and the finished annotations, in the order they finished, after the
/// events; `None` once an end mismatched.
pub open spec fn ann_state(md: Seq<char>, events: Seq<MdEvent>) -> Option<
    (Seq<MdAnnotationBuilder>, Seq<MdAnnotation>),
>
    decreases events.len(),
{
    if events.len() == 0 {
        Some((Seq::empty(), Seq::empty()))
    } else {
        match ann_state(md, events.drop_last()) {
            Some(st) => ann_step(md, flat_state(events.drop_last()), st.0, st.1, events.last()),
            None => None,
        }
    }
}

/// The annotations of a document: the constructs that its events finish, in the order they
/// finish, followed by the sections of its headings, in the order of the headings.
pub open spec fn annotations_of(md: Seq<char>, events: Seq<MdEvent>) -> Seq<MdAnnotation> {
    let c = closed_of(md, events);
    c + sections_upto(c, c.len() as int, byte_len(flat_state(events).0) as usize, line_count(encode_utf8(md)) as usize)
}

/// The constructs that the events finish, in the order they finish.
pub open spec fn closed_of(md: Seq<char>, events: Seq<MdEvent>) -> Seq<MdAnnotation> {
    match ann_state(md, events) {
        Some(st) => st.1,
        None => Seq::empty(),
    }
}

/// The annotation that a builder becomes when its construct ends at `end`.
fn finish(b: MdAnnotationBuilder, end: usize, end_line: usize) -> (r: MdAnnotation)
    ensures
        r == finish_spec(b, end, end_line),
        r.spec_base() == (BaseAnnotation { start: b.opened().start, end, depth: b.opened().depth }),
        r.spec_pos() == (SourcePosition { start_line: b.opened().start_line, end_line }),
        !(r is HeadingSection),
        (r is Heading) == (b.kind() == Construct::Heading),
        (r is Heading) == (b is Heading),
{
    match b {
        MdAnnotationBuilder::Paragraph(o) => MdAnnotation::Paragraph(MdParagraph {
            base: BaseAnnotation { start: o.start, end, depth: o.depth },
            pos: SourcePosition { start_line: o.start_line, end_line },
        }),
        MdAnnotationBuilder::Heading(o, level) => MdAnnotation::Heading(MdHeading {
            base: BaseAnnotation { start: o.start, end, depth: o.depth },
            pos: SourcePosition { start_line: o.start_line, end_line },
            level,
        }),
        MdAnnotationBuilder::Link(o, href, title) => MdAnnotation::Link(MdLink {
            base: BaseAnnotation { start: o.start, end, depth: o.depth },
            pos: SourcePosition { start_line: o.start_line, end_line },
            href,
            title,
        }),
        MdAnnotationBuilder::List(o) => MdAnnotation::List(MdList {
            base: BaseAnnotation { start: o.start, end, depth: o.depth },
            pos: SourcePosition { start_line: o.start_line, end_line },
        }),
        MdAnnotationBuilder::ListItem(o) => MdAnnotation::ListItem(MdListItem {
            base: BaseAnnotation { start: o.start, end, depth: o.depth },
            pos: SourcePosition { start_line: o.start_line, end_line },
        }),
    }
}

/// Whether two annotations are nested or disjoint: one lies inside the other, or one ends where
/// the other starts or before.
pub open spec fn nested_or_disjoint(a: BaseAnnotation, b: BaseAnnotation) -> bool {
    ||| a.end <= b.start
    ||| b.end <= a.start
    ||| (a.start <= b.start && b.end <= a.end)
    ||| (b.start <= a.start && a.end <= b.end)
}

/// Whether an annotation's source lines do not run backwards.
pub open spec fn lines_ordered(a: MdAnnotation) -> bool {
    a.spec_pos().start_line <= a.spec_pos().end_line
}

/// Whether no heading starts while another heading is open, as in any markdown document.
pub open spec fn headings_flat(events: Seq<MdEvent>) -> bool {
    forall|i: int|
        0 <= i < events.len() && starts_heading(#[trigger] events[i]) ==> no_open_heading(open_kinds(events.take(i)))
}

/// Whether the event starts a heading.
pub open spec fn starts_heading(e: MdEvent) -> bool {
    match e.kind {
        MdEventKind::Start(MdTag::Heading(_)) => true,
        _ => false,
    }
}

/// Whether no heading is among the open constructs.
pub open spec fn no_open_heading(open: Option<Seq<Construct>>) -> bool {
    match open {
        Some(st) => !st.contains(Construct::Heading),
        None => true,
    }
}

/// Once an end mismatches, every longer run of events mismatches too.
proof fn lemma_mismatch_stays(events: Seq<MdEvent>, j: int)
    requires
        0 <= j <= events.len(),
        open_kinds(events.take(j)) is None,
    ensures
        open_kinds(events) is None,
    decreases events.len() - j,
{
    if j < events.len() {
        assert(events.take(j + 1).drop_last() =~= events.take(j));
        lemma_mismatch_stays(events, j + 1);
    } else {
        assert(events.take(j) =~= events);
    }
}

/// Turns the event stream of the markdown `md` into its flat text and its annotations, sorted
/// by start, depth and end. Fails when a construct ends that is not the innermost one open.
#[verifier::rlimit(100)]
#[verifier::spinoff_prover]
pub fn annotate(md: &str, events: &Vec<MdEvent>) -> (r: Result<(String, Vec<MdAnnotation>), ParserError>)
    ensures
        r is Err <==> open_kinds(events@) is None,
        r matches Err(e) ==> e == ParserError::MismatchedTags,
        r matches Ok(res) ==> {
            &&& res.0@ == flat_state(events@).0
            &&& exists|perm: Seq<int>| #[trigger] arrangement(annotations_of(md@, events@), res.1@, perm)
            &&& byte_len(res.0@) <= usize::MAX
            &&& forall|k: int| 0 <= k < res.1@.len() ==> placed(res.0@, #[trigger] res.1@[k])
            &&& forall|a: int, b: int| 0 <= a < b < res.1@.len() ==> ann_le(#[trigger] res.1@[a], #[trigger] res.1@[b])
            &&& forall|a: int, b: int|
                0 <= a < res.1@.len() && 0 <= b < res.1@.len() && !(res.1@[a] is HeadingSection)
                    && !(res.1@[b] is HeadingSection) ==> nested_or_disjoint(
                    #[trigger] res.1@[a].spec_base(),
                    #[trigger] res.1@[b].spec_base(),
                )
            &&& forall|k: int|
                0 <= k < res.1@.len() && !(res.1@[k] is HeadingSection) ==> lines_ordered(#[trigger] res.1@[k])
            &&& headings_flat(events@) ==> forall|k: int|
                0 <= k < res.1@.len() && res.1@[k] is HeadingSection ==> (#[trigger] res.1@[k]).spec_base().start
                    <= res.1@[k].spec_base().end
            &&& headings_flat(events@) ==> forall|a: int, b: int|
                0 <= a < res.1@.len() && 0 <= b < res.1@.len() && res.1@[a] is HeadingSection
                    && res.1@[b] is HeadingSection ==> nested_or_disjoint(
                    #[trigger] res.1@[a].spec_base(),
                    #[trigger] res.1@[b].spec_base(),
                )
        },
{
    let mut text = String::new();
    let mut open: Vec<MdAnnotationBuilder> = Vec::new();
    let mut done: Vec<MdAnnotation> = Vec::new();
    let mut indent: usize = 0;
    let mut ignore: usize = 0;
    let mut i: usize = 0;
    proof {
        assert(events@.take(0) =~= Seq::<MdEvent>::empty());
        assert(open@.map_values(|b: MdAnnotationBuilder| b.kind()) =~= Seq::<Construct>::empty());
    }
    while i < events.len()
        invariant
            i <= events@.len(),
            open_kinds(events@.take(i as int)) == Some(open@.map_values(|b: MdAnnotationBuilder| b.kind())),
            flat_state(events@.take(i as int)) == (text@, indent as nat, ignore as nat),
            indent <= i,
            ignore <= i,
            forall|k: int| 0 <= k < done@.len() ==> placed(text@, #[trigger] done@[k]),
            forall|k: int| 0 <= k < done@.len() ==> !(#[trigger] done@[k] is HeadingSection),
            forall|k: int| 0 <= k < open@.len() ==> (#[trigger] open@[k]).opened().start <= byte_len(text@)
                && char_offset(text@, open@[k].opened().start as int),
            forall|a: int, b: int| 0 <= a < done@.len() && 0 <= b < done@.len() ==> nested_or_disjoint(
                (#[trigger] done@[a]).spec_base(),
                (#[trigger] done@[b]).spec_base(),
            ),
            forall|k: int, j: int| 0 <= k < open@.len() && 0 <= j < done@.len() ==>
                (#[trigger] done@[j]).spec_base().end <= (#[trigger] open@[k]).opened().start
                || open@[k].opened().start <= done@[j].spec_base().start,
            forall|a: int, b: int| 0 <= a < b < open@.len() ==> (#[trigger] open@[a]).opened().start <= (#[trigger] open@[b]).opened().start,
            forall|j: int| 0 <= j < done@.len() ==> lines_ordered(#[trigger] done@[j]),
            ann_state(md@, events@.take(i as int)) == Some((open@, done@)),
            headings_flat(events@) ==> headings_in_order(done@),
            headings_flat(events@) ==> forall|a: int, b: int| 0 <= a < b < open@.len() ==> !((#[trigger] open@[a]) is Heading && (#[trigger] open@[b]) is Heading),
            headings_flat(events@) ==> forall|k: int, j: int| 0 <= k < open@.len() && 0 <= j < done@.len() && (#[trigger] open@[k]) is Heading
                && (#[trigger] done@[j]) is Heading ==> done@[j].spec_base().start <= open@[k].opened().start,
        decreases events@.len() - i,
    {
        let ghost text0 = text@;
        let ghost open0 = open@;
        let ghost kinds0 = open@.map_values(|b: MdAnnotationBuilder| b.kind());
        proof {
            assert(events@.take(i + 1).drop_last() =~= events@.take(i as int));
            assert(events@.take(i + 1).last() == events@[i as int]);
        }
        let e = &events[i];
        match &e.kind {
            MdEventKind::Start(tag) => {
                match tag {
                    MdTag::Image => {
                        if ignore == 0 {
                            proof {
                                reveal_strlit("\u{1F4F7}");
                            }
                            push_text(&mut text, "\u{1F4F7}");
                        }
                        ignore += 1;
                    },
                    MdTag::Other => {},
                    MdTag::Link(href, title) => {
                        let tlen = byte_length(&text);
                        let o = OpenAnnotation { start: tlen, start_line: line_offset(md, e.start), depth: open.len() };
                        let t = if title.as_str().is_empty() {
                            None
                        } else {
                            Some(title.clone())
                        };
                        open.push(MdAnnotationBuilder::Link(o, href.clone(), t));
                        proof {
                            lemma_char_offset_end(text@);
                        }
                    },
                    _ => {
                        new_line(&mut text);
                        let tlen = byte_length(&text);
                        let o = OpenAnnotation { start: tlen, start_line: line_offset(md, e.start), depth: open.len() };
                        proof {
                            lemma_char_offset_end(text@);
                        }
                        match tag {
                            MdTag::Paragraph => open.push(MdAnnotationBuilder::Paragraph(o)),
                            MdTag::Heading(level) => {
                                let ghost op0 = open@;
                                open.push(MdAnnotationBuilder::Heading(o, *level));
                                proof {
                                    if headings_flat(events@) {
                                        assert(starts_heading(events@[i as int]));
                                        assert(!kinds0.contains(Construct::Heading));
                                        assert forall|a: int| 0 <= a < op0.len() implies !(op0[a] is Heading) by {
                                            assert(kinds0[a] == op0[a].kind());
                                        }
                                        assert forall|j: int| 0 <= j < done@.len() && (#[trigger] done@[j]) is Heading implies
                                            done@[j].spec_base().start <= tlen by {
                                            assert(placed(text@, done@[j]));
                                        }
                                    }
                                }
                            },
                            MdTag::List => {
                                open.push(MdAnnotationBuilder::List(o));
                                indent += 1;
                            },
                            _ => {
                                open.push(MdAnnotationBuilder::ListItem(o));
                                if ignore == 0 {
                                    push_indent(&mut text, indent);
                                    proof {
                                        reveal_strlit("\u{2022} ");
                                    }
                                    push_text(&mut text, "\u{2022} ");
                                }
                            },
                        }
                    },
                }
            },
            MdEventKind::End(tag) => {
                match tag {
                    MdTag::Image => {
                        if ignore > 0 {
                            ignore -= 1;
                        }
                    },
                    MdTag::Other => {},
                    _ => {
                        let b = match open.pop() {
                            Some(b) => b,
                            None => {
                                proof {
                                    lemma_mismatch_stays(events@, i + 1);
                                }
                                return Err(ParserError::MismatchedTags);
                            },
                        };
                        let matches = match (tag, &b) {
                            (MdTag::Paragraph, MdAnnotationBuilder::Paragraph(_)) => true,
                            (MdTag::Heading(_), MdAnnotationBuilder::Heading(_, _)) => true,
                            (MdTag::Link(_, _), MdAnnotationBuilder::Link(_, _, _)) => true,
                            (MdTag::List, MdAnnotationBuilder::List(_)) => true,
                            (MdTag::Item, MdAnnotationBuilder::ListItem(_)) => true,
                            _ => false,
                        };
                        if !matches {
                            proof {
                                assert(kinds0.last() == b.kind());
                                lemma_mismatch_stays(events@, i + 1);
                            }
                            return Err(ParserError::MismatchedTags);
                        }
                        let tlen = byte_length(&text);
                        let after = next_line(line_offset(md, e.end));
                        let end_line = if after < b.opened_line() {
                            b.opened_line()
                        } else {
                            after
                        };
                        let ann = finish(b, tlen, end_line);
                        let ghost done0 = done@;
                        proof {
                            assert(open0[open0.len() - 1] == b);
                            lemma_char_offset_end(text@);
                            assert forall|j: int| 0 <= j < done0.len() implies nested_or_disjoint(
                                ann.spec_base(),
                                (#[trigger] done0[j]).spec_base(),
                            ) by {
                                assert(placed(text@, done0[j]));
                            }
                        }
                        done.push(ann);
                        proof {
                            assert forall|a: int, c: int| 0 <= a < done@.len() && 0 <= c < done@.len() implies nested_or_disjoint(
                                (#[trigger] done@[a]).spec_base(),
                                (#[trigger] done@[c]).spec_base(),
                            ) by {
                                if a < done0.len() && c < done0.len() {
                                    assert(done@[a] == done0[a] && done@[c] == done0[c]);
                                } else if a < done0.len() {
                                    assert(nested_or_disjoint(ann.spec_base(), done0[a].spec_base()));
                                } else if c < done0.len() {
                                    assert(nested_or_disjoint(ann.spec_base(), done0[c].spec_base()));
                                }
                            }
                            assert forall|k: int, j: int| 0 <= k < open@.len() && 0 <= j < done@.len() implies
                                (#[trigger] done@[j]).spec_base().end <= (#[trigger] open@[k]).opened().start
                                || open@[k].opened().start <= done@[j].spec_base().start by {
                                assert(open@[k] == open0[k]);
                                if j == done0.len() {
                                    assert(open0[k].opened().start <= open0[open0.len() - 1].opened().start);
                                } else {
                                    assert(done@[j] == done0[j]);
                                }
                            }
                            if headings_flat(events@) {
                                assert forall|a: int, c: int|
                                    0 <= a < c < done@.len() && done@[a] is Heading && done@[c] is Heading implies (#[trigger] done@[a]).spec_base().start
                                        <= (#[trigger] done@[c]).spec_base().start by {
                                    if c == done0.len() {
                                        assert(b is Heading);
                                        assert(open0[open0.len() - 1] is Heading);
                                        assert(done0[a].spec_base().start <= open0[open0.len() - 1].opened().start);
                                    } else {
                                        assert(done@[a] == done0[a] && done@[c] == done0[c]);
                                    }
                                }
                                assert forall|k: int, j: int| 0 <= k < open@.len() && 0 <= j < done@.len() && (#[trigger] open@[k]) is Heading
                                    && (#[trigger] done@[j]) is Heading implies done@[j].spec_base().start <= open@[k].opened().start by {
                                    assert(open@[k] == open0[k]);
                                    if j == done0.len() {
                                        assert(open0[open0.len() - 1] is Heading);
                                        assert(!(open0[k] is Heading && open0[open0.len() - 1] is Heading));
                                    } else {
                                        assert(done@[j] == done0[j]);
                                    }
                                }
                            }
                        }
                        if let MdTag::List = tag {
                            if indent > 0 {
                                indent -= 1;
                            }
                        }
                        proof {
                            assert(open@.map_values(|b: MdAnnotationBuilder| b.kind()) =~= kinds0.drop_last());
                        }
                    },
                }
            },
            MdEventKind::Text(s) => {
                if ignore == 0 {
                    push_text(&mut text, s.as_str());
                }
            },
            MdEventKind::Other => {},
        }
        i += 1;
    }
    proof {
        assert(events@.take(events@.len() as int) =~= events@);
    }
    let mut sections = heading_sections(&text, md, &done);
    let ghost closed = done@;
    let ghost secs = sections@;
    done.append(&mut sections);
    let anns = sort_annotations(&text, &done);
    proof {
        assert(closed == closed_of(md@, events@));
        assert(done@ =~= annotations_of(md@, events@));
        let perm = choose|perm: Seq<int>| arrangement(done@, anns@, perm);
        assert(arrangement(annotations_of(md@, events@), anns@, perm));
        assert forall|k: int| 0 <= k < anns@.len() && !(anns@[k] is HeadingSection) implies #[trigger] has_source(anns@[k], closed) by {
            assert(has_source(anns@[k], done@));
            let j = choose|j: int| 0 <= j < done@.len() && same_place(anns@[k], done@[j]);
            if j >= closed.len() {
                assert(done@[j] is HeadingSection);
            }
            assert(done@[j] == closed[j]);
            assert(same_place(anns@[k], closed[j]));
        }
        assert forall|a: int, b: int|
            0 <= a < anns@.len() && 0 <= b < anns@.len() && !(anns@[a] is HeadingSection)
                && !(anns@[b] is HeadingSection) implies nested_or_disjoint(
                #[trigger] anns@[a].spec_base(),
                #[trigger] anns@[b].spec_base(),
            ) by {
            assert(has_source(anns@[a], closed) && has_source(anns@[b], closed));
            let ja = choose|j: int| 0 <= j < closed.len() && same_place(anns@[a], closed[j]);
            let jb = choose|j: int| 0 <= j < closed.len() && same_place(anns@[b], closed[j]);
            assert(nested_or_disjoint(closed[ja].spec_base(), closed[jb].spec_base()));
        }
        assert forall|k: int| 0 <= k < anns@.len() && anns@[k] is HeadingSection implies exists|j: int|
            0 <= j < secs.len() && same_place(#[trigger] anns@[k], secs[j]) by {
            assert(has_source(anns@[k], done@));
            let j = choose|j: int| 0 <= j < done@.len() && same_place(anns@[k], done@[j]);
            if j < closed.len() {
                assert(done@[j] == closed[j]);
                assert(!(closed[j] is HeadingSection));
            }
            assert(done@[j] == secs[j - closed.len()]);
            assert(same_place(anns@[k], secs[j - closed.len()]));
        }
        if headings_flat(events@) {
            assert(headings_in_order(closed));
            let tl = byte_len(text@) as usize;
            let dl = line_count(encode_utf8(md@)) as usize;
            lemma_sections_upto(closed, closed.len() as int, tl, dl);
            assert forall|m: int| 0 <= m < closed.len() implies (#[trigger] closed[m]).spec_base().start <= tl by {
                assert(placed(text@, closed[m]));
            }
            assert forall|k: int| 0 <= k < anns@.len() && anns@[k] is HeadingSection implies (#[trigger] anns@[k]).spec_base().start
                <= anns@[k].spec_base().end by {
                let j = choose|j: int| 0 <= j < secs.len() && same_place(anns@[k], secs[j]);
                let i = choose|i: int| 0 <= i < closed.len() && closed[i] is Heading && #[trigger] secs[j] == section_for(closed, i, tl, dl);
                lemma_sections_nest(closed, i, i, tl, dl);
            }
            assert forall|a: int, b: int|
                0 <= a < anns@.len() && 0 <= b < anns@.len() && anns@[a] is HeadingSection
                    && anns@[b] is HeadingSection implies nested_or_disjoint(
                    #[trigger] anns@[a].spec_base(),
                    #[trigger] anns@[b].spec_base(),
                ) by {
                let ja = choose|j: int| 0 <= j < secs.len() && same_place(anns@[a], secs[j]);
                let jb = choose|j: int| 0 <= j < secs.len() && same_place(anns@[b], secs[j]);
                let ia = choose|i: int| 0 <= i < closed.len() && closed[i] is Heading && #[trigger] secs[ja] == section_for(closed, i, tl, dl);
                let ib = choose|i: int| 0 <= i < closed.len() && closed[i] is Heading && #[trigger] secs[jb] == section_for(closed, i, tl, dl);
                lemma_sections_nest(closed, ia, ib, tl, dl);
            }
        }
        assert forall|k: int| 0 <= k < anns@.len() && !(anns@[k] is HeadingSection) implies lines_ordered(
            #[trigger] anns@[k],
        ) by {
            assert(has_source(anns@[k], closed));
            let j = choose|j: int| 0 <= j < closed.len() && same_place(anns@[k], closed[j]);
            assert(lines_ordered(closed[j]));
        }
    }
    Ok((text, anns))
}

/// The position of the first heading of `c`, from position `j` on, whose level is at most
/// `level`.
pub open spec fn next_cut(c: Seq<MdAnnotation>, level: u8, j: int) -> Option<int>
    decreases c.len() - j,
{
    if j < 0 || j >= c.len() {
        None
    } else if c[j] is Heading && c[j]->Heading_0.level <= level {
        Some(j)
    } else {
        next_cut(c, level, j + 1)
    }
}

/// The section of the heading at position `i` of `c`: from the heading's start to the start of
/// the next heading of the same or a shallower level, or to `text_len` (on the document's last
/// line `doc_lines`) when there is none.
pub open spec fn section_for(c: Seq<MdAnnotation>, i: int, text_len: usize, doc_lines: usize) -> MdAnnotation {
    let h = c[i]->Heading_0;
    let (end, line) = match next_cut(c, h.level, i + 1) {
        Some(j) => (c[j].spec_base().start, c[j].spec_pos().start_line),
        None => (text_len, doc_lines),
    };
    MdAnnotation::HeadingSection(
        MdHeadingSection {
            base: BaseAnnotation { start: h.base.start, end, depth: h.base.depth },
            pos: SourcePosition {
                start_line: h.pos.start_line,
                end_line: if line < h.pos.start_line {
                    h.pos.start_line
                } else {
                    line
                },
            },
        },
    )
}

/// The sections of the headings among the first `n` annotations of `c`, in their order.
pub open spec fn sections_upto(c: Seq<MdAnnotation>, n: int, text_len: usize, doc_lines: usize) -> Seq<MdAnnotation>
    decreases n,
{
    if n <= 0 {
        Seq::empty()
    } else {
        let rest = sections_upto(c, n - 1, text_len, doc_lines);
        if c[n - 1] is Heading {
            rest.push(section_for(c, n - 1, text_len, doc_lines))
        } else {
            rest
        }
    }
}

/// Whether the headings among `done` start in the order they come.
pub open spec fn headings_in_order(done: Seq<MdAnnotation>) -> bool {
    forall|a: int, b: int|
        0 <= a < b < done.len() && done[a] is Heading && done[b] is Heading ==> (#[trigger] done[a]).spec_base().start
            <= (#[trigger] done[b]).spec_base().start
}

proof fn lemma_next_cut(c: Seq<MdAnnotation>, level: u8, j: int)
    requires
        0 <= j,
    ensures
        next_cut(c, level, j) matches Some(r) ==> j <= r < c.len() && c[r] is Heading && c[r]->Heading_0.level <= level,
        forall|m: int| j <= m < c.len() && (next_cut(c, level, j) matches Some(r) ==> m < r) ==> !(#[trigger] c[m] is Heading
            && c[m]->Heading_0.level <= level),
    decreases c.len() - j,
{
    if j < c.len() && !(c[j] is Heading && c[j]->Heading_0.level <= level) {
        lemma_next_cut(c, level, j + 1);
    }
}

proof fn lemma_sections_upto(c: Seq<MdAnnotation>, n: int, text_len: usize, doc_lines: usize)
    requires
        0 <= n <= c.len(),
    ensures
        forall|k: int| 0 <= k < sections_upto(c, n, text_len, doc_lines).len() ==> exists|i: int|
            0 <= i < n && c[i] is Heading && #[trigger] sections_upto(c, n, text_len, doc_lines)[k] == section_for(
                c,
                i,
                text_len,
                doc_lines,
            ),
    decreases n,
{
    if n > 0 {
        lemma_sections_upto(c, n - 1, text_len, doc_lines);
        let rest = sections_upto(c, n - 1, text_len, doc_lines);
        let all = sections_upto(c, n, text_len, doc_lines);
        assert forall|k: int| 0 <= k < all.len() implies exists|i: int|
            0 <= i < n && c[i] is Heading && #[trigger] all[k] == section_for(c, i, text_len, doc_lines) by {
            if k < rest.len() {
                let i = choose|i: int| 0 <= i < n - 1 && c[i] is Heading && #[trigger] rest[k] == section_for(c, i, text_len, doc_lines);
                assert(all[k] == rest[k]);
                assert(0 <= i < n && c[i] is Heading && all[k] == section_for(c, i, text_len, doc_lines));
            } else {
                assert(c[n - 1] is Heading);
                assert(all[k] == section_for(c, n - 1, text_len, doc_lines));
            }
        }
    }
}

/// Two sections of headings that start in order are nested or disjoint, and none ends before it
/// starts.
proof fn lemma_sections_nest(c: Seq<MdAnnotation>, i: int, k: int, text_len: usize, doc_lines: usize)
    requires
        headings_in_order(c),
        0 <= i < c.len(),
        0 <= k < c.len(),
        c[i] is Heading,
        c[k] is Heading,
        forall|m: int| 0 <= m < c.len() ==> (#[trigger] c[m]).spec_base().start <= text_len,
    ensures
        section_for(c, i, text_len, doc_lines).spec_base().start <= section_for(c, i, text_len, doc_lines).spec_base().end,
        nested_or_disjoint(
            section_for(c, i, text_len, doc_lines).spec_base(),
            section_for(c, k, text_len, doc_lines).spec_base(),
        ),
{
    let li = c[i]->Heading_0.level;
    let lk = c[k]->Heading_0.level;
    lemma_next_cut(c, li, i + 1);
    lemma_next_cut(c, lk, k + 1);
    if i < k {
        if lk <= li {
            assert(next_cut(c, li, i + 1) is Some);
        } else {
            match next_cut(c, li, i + 1) {
                Some(r) => {
                    if r > k {
                        assert(next_cut(c, lk, k + 1) is Some);
                        let r2 = next_cut(c, lk, k + 1)->Some_0;
                        assert(r2 <= r);
                        if r2 < r {
                            assert(c[r2].spec_base().start <= c[r].spec_base().start);
                        }
                    }
                },
                None => {},
            }
        }
    } else if k < i {
        if li <= lk {
            assert(next_cut(c, lk, k + 1) is Some);
        } else {
            match next_cut(c, lk, k + 1) {
                Some(r) => {
                    if r > i {
                        assert(next_cut(c, li, i + 1) is Some);
                        let r2 = next_cut(c, li, i + 1)->Some_0;
                        assert(r2 <= r);
                        if r2 < r {
                            assert(c[r2].spec_base().start <= c[r].spec_base().start);
                        }
                    }
                },
                None => {},
            }
        }
    }
}

/// The heading sections of the finished annotations `done`, in the order of their headings.
fn heading_sections(text: &String, md: &str, done: &Vec<MdAnnotation>) -> (r: Vec<MdAnnotation>)
    requires
        forall|k: int| 0 <= k < done@.len() ==> placed(text@, #[trigger] done@[k]),
    ensures
        r@ == sections_upto(done@, done@.len() as int, byte_len(text@) as usize, line_count(encode_utf8(md@)) as usize),
        forall|k: int| 0 <= k < r@.len() ==> placed(text@, #[trigger] r@[k]) && r@[k] is HeadingSection,
        byte_len(text@) <= usize::MAX,
{
    let tlen = byte_length(text);
    let doc_lines = line_total(md);
    proof {
        lemma_char_offset_end(text@);
    }
    let n = done.len();
    let mut sections: Vec<MdAnnotation> = Vec::new();
    let mut i: usize = 0;
    while i < n
        invariant
            n == done@.len(),
            i <= n,
            tlen == byte_len(text@),
            char_offset(text@, tlen as int),
            forall|k: int| 0 <= k < done@.len() ==> placed(text@, #[trigger] done@[k]),
            sections@ == sections_upto(done@, i as int, tlen, doc_lines),
            forall|k: int| 0 <= k < sections@.len() ==> placed(text@, #[trigger] sections@[k]) && sections@[k] is HeadingSection,
        decreases n - i,
    {
        if let MdAnnotation::Heading(h) = &done[i] {
            let mut j: usize = i + 1;
            let mut found: Option<usize> = None;
            while j < n && found.is_none()
                invariant
                    n == done@.len(),
                    i < j <= n,
                    done@[i as int] is Heading,
                    h.level == done@[i as int]->Heading_0.level,
                    found is None ==> next_cut(done@, h.level, i + 1) == next_cut(done@, h.level, j as int),
                    found matches Some(f) ==> next_cut(done@, h.level, i + 1) == Some(f as int) && f < n,
                decreases n - j + if found is None { 1int } else { 0int },
            {
                let cut = match &done[j] {
                    MdAnnotation::Heading(h2) => h2.level <= h.level,
                    _ => false,
                };
                if cut {
                    found = Some(j);
                } else {
                    j += 1;
                }
            }
            proof {
                if found is None {
                    assert(next_cut(done@, h.level, j as int) is None);
                }
                assert(placed(text@, done@[i as int]));
            }
            let (end, line) = match found {
                Some(f) => {
                    proof {
                        assert(placed(text@, done@[f as int]));
                    }
                    (done[f].base().start, done[f].pos().start_line)
                },
                None => (tlen, doc_lines),
            };
            let end_line = if line < h.pos.start_line {
                h.pos.start_line
            } else {
                line
            };
            let sec = MdAnnotation::HeadingSection(MdHeadingSection {
                base: BaseAnnotation { start: h.base.start, end, depth: h.base.depth },
                pos: SourcePosition { start_line: h.pos.start_line, end_line },
            });
            proof {
                assert(sec == section_for(done@, i as int, tlen, doc_lines));
            }
            sections.push(sec);
        }
        i += 1;
    }
    sections
}

/// The annotations sorted by start, then depth, then end; ties keep their order.
fn sort_annotations(text: &String, all: &Vec<MdAnnotation>) -> (r: Vec<MdAnnotation>)
    requires
        forall|k: int| 0 <= k < all@.len() ==> placed(text@, #[trigger] all@[k]),
    ensures
        forall|k: int| 0 <= k < r@.len() ==> placed(text@, #[trigger] r@[k]),
        forall|a: int, b: int| 0 <= a < b < r@.len() ==> ann_le(#[trigger] r@[a], #[trigger] r@[b]),
        forall|k: int| 0 <= k < r@.len() ==> #[trigger] has_source(r@[k], all@),
        exists|perm: Seq<int>| #[trigger] arrangement(all@, r@, perm),
{
    let mut keys: Vec<(usize, usize, usize, usize)> = Vec::new();
    let mut i: usize = 0;
    while i < all.len()
        invariant
            i <= all@.len(),
            keys@.len() == i,
            forall|k: int| 0 <= k < i ==> #[trigger] keys@[k] == ann_key(all@[k], k),
        decreases all@.len() - i,
    {
        let b = all[i].base();
        keys.push((b.start, b.depth, b.end, i));
        i += 1;
    }
    proof {
        assert(keys@.no_duplicates()) by {
            assert forall|a: int, b: int| 0 <= a < keys@.len() && 0 <= b < keys@.len() && a != b implies keys@[a] != keys@[b] by {
                assert(keys@[a].3 == a && keys@[b].3 == b);
            }
        }
    }
    let ghost unsorted = keys@;
    let sorted = sort_unique_keys(keys);
    let n = all.len();
    let mut r: Vec<MdAnnotation> = Vec::new();
    let mut j: usize = 0;
    while j < sorted.len()
        invariant
            n == all@.len(),
            j <= sorted@.len(),
            r@.len() == j,
            keys_sorted(sorted@),
            forall|x: (usize, usize, usize, usize)| sorted@.contains(x) <==> unsorted.contains(x),
            forall|k: int| 0 <= k < unsorted.len() ==> #[trigger] unsorted[k] == ann_key(all@[k], k),
            unsorted.len() == all@.len(),
            forall|k: int| 0 <= k < all@.len() ==> placed(text@, #[trigger] all@[k]),
            forall|k: int| 0 <= k < j ==> (#[trigger] r@[k]).spec_base() == all@[sorted@[k].3 as int].spec_base()
                && r@[k].spec_kind() == all@[sorted@[k].3 as int].spec_kind()
                && r@[k].spec_pos() == all@[sorted@[k].3 as int].spec_pos() && sorted@[k] == ann_key(all@[sorted@[k].3 as int], sorted@[k].3 as int)
                && sorted@[k].3 < all@.len() && r@[k] == all@[sorted@[k].3 as int],
            sorted@.len() == unsorted.len(),
            sorted@.no_duplicates(),
        decreases sorted@.len() - j,
    {
        let key = sorted[j];
        proof {
            assert(sorted@.contains(sorted@[j as int]));
            assert(unsorted.contains(key));
            let k = choose|k: int| 0 <= k < unsorted.len() && unsorted[k] == key;
            assert(unsorted[k] == ann_key(all@[k], k));
            assert(key.3 as int == k);
        }
        r.push(all[key.3].duplicate());
        j += 1;
    }
    proof {
        assert forall|k: int| 0 <= k < r@.len() implies placed(text@, #[trigger] r@[k]) by {
            assert(placed(text@, all@[sorted@[k].3 as int]));
            assert((r@[k] is HeadingSection) == (all@[sorted@[k].3 as int] is HeadingSection));
        }
        assert forall|a: int, b: int| 0 <= a < b < r@.len() implies ann_le(#[trigger] r@[a], #[trigger] r@[b]) by {
            assert(key_le(sorted@[a], sorted@[b]));
        }
        assert forall|k: int| 0 <= k < r@.len() implies #[trigger] has_source(r@[k], all@) by {
            assert(same_place(r@[k], all@[sorted@[k].3 as int]));
        }
        let perm = Seq::new(sorted@.len(), |k: int| sorted@[k].3 as int);
        assert forall|a: int, b: int| 0 <= a < perm.len() && 0 <= b < perm.len() && a != b implies perm[a] != perm[b] by {
            assert(sorted@[a] != sorted@[b]);
            assert(r@[a].spec_base() == all@[sorted@[a].3 as int].spec_base());
            assert(r@[b].spec_base() == all@[sorted@[b].3 as int].spec_base());
            if perm[a] == perm[b] {
                assert(sorted@[a] == ann_key(all@[perm[a]], perm[a]));
                assert(sorted@[b] == ann_key(all@[perm[b]], perm[b]));
            }
        }
        assert(perm.no_duplicates());
        assert forall|k: int| 0 <= k < r@.len() implies 0 <= #[trigger] perm[k] < all@.len() && r@[k] == all@[perm[k]] by {
            assert(r@[k].spec_base() == all@[sorted@[k].3 as int].spec_base());
        }
        assert forall|a: int, b: int| 0 <= a < b < r@.len() implies key_le(ann_key(#[trigger] r@[a], perm[a]), ann_key(#[trigger] r@[b], perm[b])) by {
            assert(key_le(sorted@[a], sorted@[b]));
            assert(r@[a].spec_base() == all@[sorted@[a].3 as int].spec_base());
            assert(r@[b].spec_base() == all@[sorted@[b].3 as int].spec_base());
        }
        assert(arrangement(all@, r@, perm));
    }
    r
}

/// Whether `r` holds the annotations of `all`, each once (the one at `all[perm[k]]` at `r[k]`),
/// sorted by start, depth, end and then position in `all`.
pub open spec fn arrangement(all: Seq<MdAnnotation>, r: Seq<MdAnnotation>, perm: Seq<int>) -> bool {
    &&& perm.len() == all.len()
    &&& r.len() == all.len()
    &&& perm.no_duplicates()
    &&& forall|k: int| 0 <= k < r.len() ==> 0 <= #[trigger] perm[k] < all.len() && r[k] == all[perm[k]]
    &&& forall|a: int, b: int| 0 <= a < b < r.len() ==> key_le(ann_key(#[trigger] r[a], perm[a]), ann_key(#[trigger] r[b], perm[b]))
}

/// Whether some annotation of `all` is of the same variant as `a`, at the same place, on the
/// same lines.
pub open spec fn has_source(a: MdAnnotation, all: Seq<MdAnnotation>) -> bool {
    exists|j: int| 0 <= j < all.len() && same_place(a, #[trigger] all[j])
}

/// Whether two annotations are of the same variant, at the same place, on the same lines.
pub open spec fn same_place(a: MdAnnotation, b: MdAnnotation) -> bool {
    &&& a.spec_kind() == b.spec_kind()
    &&& a.spec_base() == b.spec_base()
    &&& a.spec_pos() == b.spec_pos()
}

/// The sort key of the annotation at position `k`.
pub open spec fn ann_key(a: MdAnnotation, k: int) -> (usize, usize, usize, usize) {
    (a.spec_base().start, a.spec_base().depth, a.spec_base().end, k as usize)
}

} // verus!
