//! The markdown tokenizer and the URL parser: the two outside computations that the library
//! builds on, each named by what it returns.
use crate::anns::{Annotation, MdAnnotation};
use crate::awesome_links::{entries_listed, extract_from_annotations, AwesomeLink, LinkUrl};
use crate::parser::MdEventKind::{End, Start, Text};
use crate::parser::MdTag::{Heading, Image, Item, Link, List, Paragraph};
use crate::parser::{
    annotate, annotations_of, arrangement, flat_state, headings_flat, open_kinds, placed, MdEvent,
    MdEventKind, MdTag, ParserError,
};
use crate::text::byte_len;
use pulldown_cmark::{Event, Options, Parser, Tag};
use vstd::prelude::*;

verus! {

/// The events that the CommonMark tokenizer yields for a document, with strikethrough and
/// tables enabled, each with the byte range of the source that it came from.
pub uninterp spec fn cmark_events_of(md: Seq<char>) -> Seq<MdEvent>;

/// What parsing a string as an absolute URL gives: its serialization, its domain when its host
/// is one, and its path; `None` when the string is no absolute URL.
pub uninterp spec fn url_parse_of(s: Seq<char>) -> Option<(Seq<char>, Option<Seq<char>>, Seq<char>)>;

/// Relies on `pulldown_cmark::Parser::new_ext` with strikethrough and tables, and its
/// `into_offset_iter`: the events depend on the text alone. Each event becomes an `MdEvent` by
/// its variant: starts, ends and text, with a heading's level and a link's target and title.
/// As `Event::Start` documents, start and end events are balanced, so no end closes anything
/// but the innermost open construct; and a heading holds inline content only, so no heading
/// starts inside another.
#[verifier::external_body]
fn cmark_events(md: &str) -> (r: Vec<MdEvent>)
    ensures
        r@ == cmark_events_of(md@),
        open_kinds(r@) is Some,
        headings_flat(r@),
{
    let tag = |t| match t {
        Tag::Paragraph => Paragraph,
        Tag::List(_) => List,
        Tag::Item => Item,
        Tag::Heading(level, _, _) => Heading(level as u8),
        Tag::Link(_, href, title) => Link(href.to_string(), title.to_string()),
        Tag::Image(..) => Image,
        _ => MdTag::Other,
    };
    Parser::new_ext(md, Options::ENABLE_STRIKETHROUGH | Options::ENABLE_TABLES).into_offset_iter().map(|(event, range)| MdEvent {
        kind: match event { Event::Start(t) => Start(tag(t)), Event::End(t) => End(tag(t)), Event::Text(s) => Text(s.to_string()), _ => MdEventKind::Other },
        start: range.start, end: range.end,
    }).collect()
}

/// The view of a parsed URL.
pub open spec fn url_view(u: Option<LinkUrl>) -> Option<(Seq<char>, Option<Seq<char>>, Seq<char>)> {
    match u {
        Some(u) => Some(
            (
                u.url@,
                match u.domain {
                    Some(d) => Some(d@),
                    None => None,
                },
                u.path@,
            ),
        ),
        None => None,
    }
}

/// Relies on `url::Url::parse` and, on the parsed URL, `to_string`, `domain` and `path`: the
/// result depends on the string alone.
#[verifier::external_body]
fn parse_url(s: &str) -> (r: Option<LinkUrl>)
    ensures
        url_view(r) == url_parse_of(s@),
{
    url::Url::parse(s).ok().map(|u| LinkUrl {
        url: u.to_string(),
        domain: u.domain().map(String::from),
        path: u.path().to_string(),
    })
}

/// The tokenizer's events for a document.
pub open spec fn standard_events(md: Seq<char>) -> Seq<MdEvent> {
    cmark_events_of(md)
}

/// Whether `anns` are the annotations of `md`, sorted by start, depth, end and then position.
pub open spec fn sorted_annotations(md: Seq<char>, anns: Seq<MdAnnotation>) -> bool {
    exists|perm: Seq<int>| #[trigger] arrangement(annotations_of(md, standard_events(md)), anns, perm)
}

/// The flat text and the annotations of a markdown document, sorted by start, depth, end and
/// then position; it would fail if the tokenizer's events closed a construct that is not the
/// innermost one open, which they never do.
pub fn parse_md(md: &str) -> (r: Result<(String, Vec<MdAnnotation>), ParserError>)
    ensures
        r is Err <==> open_kinds(standard_events(md@)) is None,
        r is Ok,
        r matches Ok(res) ==> {
            &&& res.0@ == flat_state(standard_events(md@)).0
            &&& sorted_annotations(md@, res.1@)
            &&& byte_len(res.0@) <= usize::MAX
            &&& forall|k: int| 0 <= k < res.1@.len() ==> placed(res.0@, #[trigger] res.1@[k])
            &&& forall|a: int, b: int|
                0 <= a < b < res.1@.len() ==> crate::parser::ann_le(#[trigger] res.1@[a], #[trigger] res.1@[b])
            &&& forall|a: int, b: int|
                0 <= a < res.1@.len() && 0 <= b < res.1@.len() && !(res.1@[a] is HeadingSection)
                    && !(res.1@[b] is HeadingSection) ==> crate::parser::nested_or_disjoint(
                    #[trigger] res.1@[a].spec_base(),
                    #[trigger] res.1@[b].spec_base(),
                )
            &&& forall|k: int|
                0 <= k < res.1@.len() && !(res.1@[k] is HeadingSection) ==> crate::parser::lines_ordered(#[trigger] res.1@[k])
            &&& forall|k: int|
                0 <= k < res.1@.len() && res.1@[k] is HeadingSection ==> (#[trigger] res.1@[k]).spec_base().start
                    <= res.1@[k].spec_base().end
            &&& forall|a: int, b: int|
                0 <= a < res.1@.len() && 0 <= b < res.1@.len() && res.1@[a] is HeadingSection
                    && res.1@[b] is HeadingSection ==> crate::parser::nested_or_disjoint(
                    #[trigger] res.1@[a].spec_base(),
                    #[trigger] res.1@[b].spec_base(),
                )
        },
{
    let events = cmark_events(md);
    let r = annotate(md, &events);
    proof {
        if r is Ok {
            let perm = choose|perm: Seq<int>| arrangement(annotations_of(md@, events@), r->Ok_0.1@, perm);
            assert(arrangement(annotations_of(md@, standard_events(md@)), r->Ok_0.1@, perm));
        }
    }
    r
}

/// Whether `urls[k]` is what parsing the target of link annotation `k` gives, and `None` for
/// the other annotations.
pub open spec fn targets_parsed(anns: Seq<MdAnnotation>, urls: Seq<Option<LinkUrl>>) -> bool {
    &&& urls.len() == anns.len()
    &&& forall|k: int|
        0 <= k < anns.len() ==> url_view(#[trigger] urls[k]) == if anns[k] is Link {
            url_parse_of(anns[k]->Link_0.href@)
        } else {
            None
        }
}

/// The parsed target of each link annotation, `None` for the other annotations.
fn link_targets(anns: &Vec<MdAnnotation>) -> (r: Vec<Option<LinkUrl>>)
    ensures
        targets_parsed(anns@, r@),
{
    let mut r: Vec<Option<LinkUrl>> = Vec::new();
    let mut i: usize = 0;
    while i < anns.len()
        invariant
            i <= anns@.len(),
            r@.len() == i,
            forall|k: int|
                0 <= k < i ==> url_view(#[trigger] r@[k]) == if anns@[k] is Link {
                    url_parse_of(anns@[k]->Link_0.href@)
                } else {
                    None
                },
        decreases anns@.len() - i,
    {
        let target = match &anns[i] {
            MdAnnotation::Link(l) => parse_url(l.href.as_str()),
            _ => None,
        };
        r.push(target);
        i += 1;
    }
    r
}

/// Whether `entries` are the entries that the flat text and the annotations of `md` give, with
/// each link target parsed as an absolute URL.
pub open spec fn extracted_from(md: Seq<char>, entries: Seq<AwesomeLink>) -> bool {
    exists|anns: Seq<MdAnnotation>, urls: Seq<Option<LinkUrl>>, pos: Seq<int>|
        #[trigger] entries_listed(flat_state(standard_events(md)).0, anns, urls, entries, pos)
            && sorted_annotations(md, anns) && targets_parsed(anns, urls)
}

/// The catalog entries of a markdown document: for each link, in order, the entry that it
/// leads, if any; fails where `parse_md` fails.
pub fn extract_awesome_links(md: &str) -> (r: Result<Vec<AwesomeLink>, ParserError>)
    ensures
        r is Ok,
        r matches Ok(entries) ==> extracted_from(md@, entries@),
{
    let (text, anns) = match parse_md(md) {
        Ok(parsed) => parsed,
        Err(e) => return Err(e),
    };
    let urls = link_targets(&anns);
    let entries = extract_from_annotations(&text, &anns, &urls);
    proof {
        let pos = choose|pos: Seq<int>| entries_listed(text@, anns@, urls@, entries@, pos);
        assert(entries_listed(text@, anns@, urls@, entries@, pos));
        assert(targets_parsed(anns@, urls@));
        assert(text@ == flat_state(standard_events(md@)).0);
        assert(sorted_annotations(md@, anns@));
        assert(extracted_from(md@, entries@)) by {
            assert(entries_listed(flat_state(standard_events(md@)).0, anns@, urls@, entries@, pos)
                && sorted_annotations(md@, anns@) && targets_parsed(anns@, urls@));
        }
    }
    Ok(entries)
}

} // verus!
