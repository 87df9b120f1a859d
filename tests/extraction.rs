use epiclist_scraper::anns::MdAnnotation;
use epiclist_scraper::awesome_links::{extract_from_annotations, AwesomeLink, AwesomeLinkType, LinkUrl};
use epiclist_scraper::parser::{annotate, MdEvent, MdEventKind, MdTag};

fn start(tag: MdTag, s: usize, e: usize) -> MdEvent {
    MdEvent { kind: MdEventKind::Start(tag), start: s, end: e }
}

fn end(tag: MdTag, s: usize, e: usize) -> MdEvent {
    MdEvent { kind: MdEventKind::End(tag), start: s, end: e }
}

fn text(t: &str, s: usize, e: usize) -> MdEvent {
    MdEvent { kind: MdEventKind::Text(t.to_string()), start: s, end: e }
}

fn link(href: &str) -> MdTag {
    MdTag::Link(href.to_string(), String::new())
}

fn url(full: &str, domain: Option<&str>, path: &str) -> LinkUrl {
    LinkUrl { url: full.to_string(), domain: domain.map(|d| d.to_string()), path: path.to_string() }
}

/// What parsing each link target as an absolute URL gives, for the targets these tests use.
fn parse_target(href: &str) -> Option<LinkUrl> {
    match href {
        "https://github.com/o/r" => Some(url(href, Some("github.com"), "/o/r")),
        "https://example.com/n" => Some(url(href, Some("example.com"), "/n")),
        "https://example.com/a" => Some(url(href, Some("example.com"), "/a")),
        "https://example.com/b" => Some(url(href, Some("example.com"), "/b")),
        "https://www.youtube.com/watch" => Some(url(href, Some("www.youtube.com"), "/watch")),
        "https://example.org/rust-book" => Some(url(href, Some("example.org"), "/rust-book")),
        _ => None,
    }
}

fn extract(md: &str, events: &Vec<MdEvent>) -> Vec<AwesomeLink> {
    let (flat, anns) = annotate(md, events).unwrap();
    let urls: Vec<Option<LinkUrl>> = anns
        .iter()
        .map(|a| match a {
            MdAnnotation::Link(l) => parse_target(&l.href),
            _ => None,
        })
        .collect();
    extract_from_annotations(&flat, &anns, &urls)
}

const CATALOG: &str = "# Awesome X\n## Section\n- [Foo](https://github.com/o/r) - a tool for doing X\n    - [Nested](https://example.com/n)\n";

fn catalog_events() -> Vec<MdEvent> {
    vec![
        start(MdTag::Heading(1), 0, 12),
        text("Awesome X", 2, 11),
        end(MdTag::Heading(1), 0, 12),
        start(MdTag::Heading(2), 12, 23),
        text("Section", 15, 22),
        end(MdTag::Heading(2), 12, 23),
        start(MdTag::List, 23, 114),
        start(MdTag::Item, 23, 114),
        start(link("https://github.com/o/r"), 25, 54),
        text("Foo", 26, 29),
        end(link("https://github.com/o/r"), 25, 54),
        text(" - a tool for doing X", 54, 75),
        start(MdTag::List, 80, 114),
        start(MdTag::Item, 80, 114),
        start(link("https://example.com/n"), 82, 113),
        text("Nested", 83, 89),
        end(link("https://example.com/n"), 82, 113),
        end(MdTag::Item, 80, 114),
        end(MdTag::List, 80, 114),
        end(MdTag::Item, 23, 114),
        end(MdTag::List, 23, 114),
    ]
}

#[test]
fn catalog_entry_end_to_end() {
    let entries = extract(CATALOG, &catalog_events());
    let foo = &entries[0];
    assert_eq!(foo.title, "Foo");
    assert_eq!(foo.url.url, "https://github.com/o/r");
    assert_eq!(foo.breadcrumbs.to_vec(), vec!["Awesome X".to_string(), "Section".to_string()]);
    assert_eq!(foo.link_type, AwesomeLinkType::Repo);
    assert_eq!(foo.description.as_deref(), Some("a tool for doing X"));
    assert!(!foo.description.as_deref().unwrap().contains("Nested"));
    assert_eq!(foo.source_lines, 3..4);
    assert_eq!(foo.as_github_repo(), Some(("o".to_string(), "r".to_string())));
    // The nested link leads a bullet of its own, so it is a second entry.
    assert_eq!(entries.len(), 2);
    assert_eq!(entries[1].title, "Nested");
    assert_eq!(entries[1].description, None);
}

#[test]
fn flat_text_of_catalog() {
    let (flat, anns) = annotate(CATALOG, &catalog_events()).unwrap();
    assert_eq!(flat, "Awesome X\nSection\n\t\u{2022} Foo - a tool for doing X\n\t\t\u{2022} Nested");
    for a in &anns {
        let r = match a {
            MdAnnotation::Link(l) => l.base,
            MdAnnotation::Heading(h) => h.base,
            MdAnnotation::HeadingSection(h) => h.base,
            MdAnnotation::List(l) => l.base,
            MdAnnotation::ListItem(l) => l.base,
            MdAnnotation::Paragraph(p) => p.base,
            _ => unreachable!(),
        };
        assert!(r.start <= r.end && r.end <= flat.len());
    }
    assert_eq!(anns.len(), 10);
}

#[test]
fn anchor_links_and_links_outside_items_give_no_entry() {
    let md = "See [a](https://example.com/a).\n\n- [b](#b)\n";
    let events = vec![
        start(MdTag::Paragraph, 0, 31),
        text("See ", 0, 4),
        start(link("https://example.com/a"), 4, 30),
        text("a", 5, 6),
        end(link("https://example.com/a"), 4, 30),
        text(".", 30, 31),
        end(MdTag::Paragraph, 0, 31),
        start(MdTag::List, 33, 42),
        start(MdTag::Item, 33, 42),
        start(link("#b"), 35, 41),
        text("b", 36, 37),
        end(link("#b"), 35, 41),
        end(MdTag::Item, 33, 42),
        end(MdTag::List, 33, 42),
    ];
    assert!(extract(md, &events).is_empty());
}

#[test]
fn second_link_of_an_item_gives_no_entry() {
    let md = "- [a](https://example.com/a) [b](https://example.com/b)\n";
    let events = vec![
        start(MdTag::List, 0, 56),
        start(MdTag::Item, 0, 56),
        start(link("https://example.com/a"), 2, 28),
        text("a", 3, 4),
        end(link("https://example.com/a"), 2, 28),
        text(" ", 28, 29),
        start(link("https://example.com/b"), 29, 55),
        text("b", 30, 31),
        end(link("https://example.com/b"), 29, 55),
        end(MdTag::Item, 0, 56),
        end(MdTag::List, 0, 56),
    ];
    let entries = extract(md, &events);
    assert_eq!(entries.len(), 1);
    assert_eq!(entries[0].title, "a");
    assert_eq!(entries[0].description.as_deref(), Some("b"));
    assert_eq!(entries[0].link_type, AwesomeLinkType::Other);
    assert_eq!(entries[0].as_github_repo(), None);
}

#[test]
fn unparsable_target_gives_no_entry() {
    let md = "- [a](not a url)\n";
    let events = vec![
        start(MdTag::List, 0, 17),
        start(MdTag::Item, 0, 17),
        start(link("not a url"), 2, 16),
        text("a", 3, 4),
        end(link("not a url"), 2, 16),
        end(MdTag::Item, 0, 17),
        end(MdTag::List, 0, 17),
    ];
    assert!(extract(md, &events).is_empty());
}

#[test]
fn link_label_before_dash_is_left_out_of_description() {
    let md = "- **[Tube](https://www.youtube.com/watch)** — talks\n";
    let events = vec![
        start(MdTag::List, 0, 52),
        start(MdTag::Item, 0, 52),
        start(link("https://www.youtube.com/watch"), 4, 40),
        text("Tube", 5, 9),
        end(link("https://www.youtube.com/watch"), 4, 40),
        text(" \u{2014} talks", 42, 51),
        end(MdTag::Item, 0, 52),
        end(MdTag::List, 0, 52),
    ];
    let entries = extract(md, &events);
    assert_eq!(entries.len(), 1);
    assert_eq!(entries[0].title, "Tube");
    assert_eq!(entries[0].link_type, AwesomeLinkType::Video);
    assert_eq!(entries[0].description.as_deref(), Some("talks"));
    assert_eq!(entries[0].breadcrumbs.len(), 0);
}

#[test]
fn words_of_the_title_decide_the_type_off_known_domains() {
    let md = "- [the book](https://example.org/rust-book)\n";
    let events = vec![
        start(MdTag::List, 0, 44),
        start(MdTag::Item, 0, 44),
        start(link("https://example.org/rust-book"), 2, 43),
        text("the book", 3, 11),
        end(link("https://example.org/rust-book"), 2, 43),
        end(MdTag::Item, 0, 44),
        end(MdTag::List, 0, 44),
    ];
    let entries = extract(md, &events);
    assert_eq!(entries.len(), 1);
    assert_eq!(entries[0].link_type, AwesomeLinkType::Book);
    assert_eq!(entries[0].description, None);
}
