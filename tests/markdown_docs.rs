use epiclist_scraper::anns::MdAnnotation;
use epiclist_scraper::awesome_links::AwesomeLinkType;
use epiclist_scraper::markdown::{extract_awesome_links, parse_md};

#[test]
fn test_parse_md() {
    let md = r#"
# Awesome Rust [![build badge](https://github.com/rust-unofficial/awesome-rust/actions/workflows/rust.yml/badge.svg?branch=main)](https://github.com/rust-unofficial/awesome-rust/actions/workflows/rust.yml) [![Track Awesome List](https://www.trackawesomelist.com/badge.svg)](https://www.trackawesomelist.com/rust-unofficial/awesome-rust/)

## Items

- Item 1
    - Item 1.1
    - Item 1.2
- Item 2

## Other Items

- Item 1
    - Item 1.1
    - Item 1.2
- Item 2
    - Item 2.1
    - Item 2.2
"#;

    let (text, annotations) = parse_md(md).unwrap();

    println!("{} {:?}", text, annotations);
}

#[test]
fn test_extract_awesome_links() {
    let md = r#"
# Awesome Rust

## Table of Contents

* Item 1
    * Item 2
    * Item 3
"#;

    let (text, annotations) = parse_md(md).unwrap();
    assert!(text.starts_with("Awesome Rust\nTable of Contents\n"));
    assert!(!annotations.is_empty());
}

#[test]
fn catalog_from_markdown() {
    let md = "# Awesome X\n## Section\n- [Foo](https://github.com/o/r) - a tool for doing X\n    - [Nested](https://example.com/n)\n";
    let entries = extract_awesome_links(md).unwrap();
    let foo = &entries[0];
    assert_eq!(foo.title, "Foo");
    assert_eq!(foo.breadcrumbs.to_vec(), vec!["Awesome X".to_string(), "Section".to_string()]);
    assert_eq!(foo.link_type, AwesomeLinkType::Repo);
    assert_eq!(foo.description.as_deref(), Some("a tool for doing X"));
    assert_eq!(foo.as_github_repo(), Some(("o".to_string(), "r".to_string())));
    // The nested link leads a bullet of its own, so it is a second entry.
    assert_eq!(entries.len(), 2);
    assert_eq!(entries[1].title, "Nested");
    assert_eq!(entries[1].breadcrumbs.to_vec(), vec!["Awesome X".to_string(), "Section".to_string()]);
}

#[test]
fn anchors_and_paragraph_links_from_markdown() {
    let md = "See [a](https://example.com/a).\n\n- [b](#b)\n- [c](https://example.com/c) and [d](https://example.com/d)\n";
    let entries = extract_awesome_links(md).unwrap();
    let titles: Vec<&str> = entries.iter().map(|e| e.title.as_str()).collect();
    assert_eq!(titles, vec!["c"]);
    assert_eq!(entries[0].description.as_deref(), Some("and d"));
}

#[test]
fn images_in_headings_are_dropped_from_breadcrumbs() {
    let md = "# Awesome ![logo](logo.png) List\n\n- [x](https://youtu.be/v) - clip\n";
    let entries = extract_awesome_links(md).unwrap();
    assert_eq!(entries.len(), 1);
    assert_eq!(entries[0].breadcrumbs.to_vec(), vec!["Awesome  List".to_string()]);
    assert_eq!(entries[0].link_type, AwesomeLinkType::Video);
}

#[test]
fn parsed_urls_give_domain_and_path() {
    let md = "- [r](https://github.com/rust-lang/rust) x\n- [s](HTTPS://Example.COM/a/../b) y\n- [t](relative/path) z\n";
    let entries = extract_awesome_links(md).unwrap();
    assert_eq!(entries.len(), 2);
    assert_eq!(entries[0].url.domain.as_deref(), Some("github.com"));
    assert_eq!(entries[0].url.path, "/rust-lang/rust");
    assert_eq!(entries[1].url.url, "https://example.com/b");
    assert_eq!(entries[1].url.domain.as_deref(), Some("example.com"));
    assert_eq!(entries[1].url.path, "/b");
    let (text, anns) = parse_md("# T\n").unwrap();
    assert_eq!(text, "T");
    assert!(matches!(anns[0], MdAnnotation::Heading(_)));
}

fn place(a: &MdAnnotation) -> (usize, usize, usize, usize, bool) {
    let (b, p, section) = match a {
        MdAnnotation::Paragraph(x) => (x.base, x.pos, false),
        MdAnnotation::Heading(x) => (x.base, x.pos, false),
        MdAnnotation::HeadingSection(x) => (x.base, x.pos, true),
        MdAnnotation::Link(x) => (x.base, x.pos, false),
        MdAnnotation::List(x) => (x.base, x.pos, false),
        MdAnnotation::ListItem(x) => (x.base, x.pos, false),
        MdAnnotation::Emphasis(x) => (x.base, x.pos, false),
        MdAnnotation::Strong(x) => (x.base, x.pos, false),
        MdAnnotation::Strikethrough(x) => (x.base, x.pos, false),
    };
    (b.start, b.end, p.start_line, p.end_line, section)
}

#[test]
fn annotations_are_nested_or_disjoint() {
    let md = "# A\n\nIntro [x](https://example.com/x).\n\n## B\n\n- one\n  - [two](https://example.com/2) - 2\n- three\n\n# C\n\ntext\n";
    let (text, anns) = parse_md(md).unwrap();
    for a in &anns {
        let (s, e, sl, el, _) = place(a);
        assert!(s <= e && e <= text.len());
        assert!(sl <= el);
    }
    for a in &anns {
        for b in &anns {
            let (s1, e1, _, _, sec1) = place(a);
            let (s2, e2, _, _, sec2) = place(b);
            if sec1 == sec2 {
                assert!(e1 <= s2 || e2 <= s1 || (s1 <= s2 && e2 <= e1) || (s2 <= s1 && e1 <= e2));
            }
        }
    }
    let keys: Vec<(usize, usize)> = anns.iter().map(|a| (place(a).0, place(a).1)).collect();
    assert!(keys.windows(2).all(|w| w[0].0 <= w[1].0));
}

#[test]
fn last_sections_end_on_the_last_source_line() {
    let md = "\n\n\n# A\n";
    let (_, anns) = parse_md(md).unwrap();
    let section = anns.iter().find(|a| matches!(a, MdAnnotation::HeadingSection(_))).unwrap();
    let (_, _, start_line, end_line, _) = place(section);
    assert_eq!((start_line, end_line), (4, 4));
}

#[test]
fn headings_and_their_sections() {
    let (text, anns) = parse_md("# A\n## B\n").unwrap();
    assert_eq!(text, "A\nB");
    let got: Vec<(&str, usize, usize, usize)> = anns
        .iter()
        .map(|a| match a {
            MdAnnotation::Heading(h) => ("heading", h.base.start, h.base.end, h.base.depth),
            MdAnnotation::HeadingSection(s) => ("section", s.base.start, s.base.end, s.base.depth),
            _ => ("other", 0, 0, 0),
        })
        .collect();
    assert_eq!(
        got,
        vec![("heading", 0, 1, 0), ("section", 0, 3, 0), ("heading", 2, 3, 0), ("section", 2, 3, 0)]
    );
    match &anns[0] {
        MdAnnotation::Heading(h) => {
            assert_eq!(h.level, 1);
            assert_eq!((h.pos.start_line, h.pos.end_line), (1, 3));
        }
        _ => panic!("expected a heading"),
    }
}

#[test]
fn a_lone_link_is_in_a_paragraph() {
    let (text, anns) = parse_md("[Foo](https://a.b)").unwrap();
    assert_eq!(text, "Foo");
    assert_eq!(anns.len(), 2);
    match (&anns[0], &anns[1]) {
        (MdAnnotation::Paragraph(p), MdAnnotation::Link(l)) => {
            assert_eq!((p.base.start, p.base.end, p.base.depth), (0, 3, 0));
            assert_eq!((l.base.start, l.base.end, l.base.depth), (0, 3, 1));
            assert_eq!(l.href, "https://a.b");
            assert_eq!(l.title, None);
        }
        _ => panic!("expected a paragraph and a link"),
    }
}

#[test]
fn anchors_and_bare_links_give_no_entries() {
    assert!(extract_awesome_links("- [A](#a)\n").unwrap().is_empty());
    assert!(extract_awesome_links("[A](https://github.com/o/r)\n").unwrap().is_empty());
}

#[test]
fn second_link_becomes_the_description() {
    let entries = extract_awesome_links("- [A](https://a.com/x) [B](https://b.com/y)\n").unwrap();
    assert_eq!(entries.len(), 1);
    assert_eq!(entries[0].title, "A");
    assert_eq!(entries[0].description.as_deref(), Some("B"));
}

#[test]
fn unicode_white_space_is_trimmed() {
    let entries = extract_awesome_links("- [A](https://a.com/x) - tool\u{3000}\u{a0}\n").unwrap();
    assert_eq!(entries[0].description.as_deref(), Some("tool"));
}

#[test]
fn one_breadcrumb_per_enclosing_section() {
    let entries = extract_awesome_links("# A\n#\n## B\n- [x](https://a.com/x) y\n").unwrap();
    assert_eq!(entries.len(), 1);
    assert_eq!(entries[0].breadcrumbs.to_vec(), vec!["B".to_string(), "B".to_string()]);
}

#[test]
fn annotation_text_is_its_slice_of_the_flat_text() {
    let (text, anns) = parse_md("# Hello world\n\n- [x](https://a.com/x)\n").unwrap();
    let texts: Vec<String> = anns.iter().map(|a| a.text(&text)).collect();
    assert_eq!(texts[0], "Hello world");
    assert!(texts.contains(&"x".to_string()));
}
