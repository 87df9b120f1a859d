use epiclist_scraper::anns::MdAnnotation;
use epiclist_scraper::parser::{annotate, line_offset, upsert_newline, MdEvent, MdEventKind, MdTag, ParserError};

fn ev(kind: MdEventKind, start: usize, end: usize) -> MdEvent {
    MdEvent { kind, start, end }
}

#[test]
fn mismatched_end_is_an_error() {
    let events = vec![
        ev(MdEventKind::Start(MdTag::Paragraph), 0, 3),
        ev(MdEventKind::End(MdTag::Item), 0, 3),
    ];
    assert_eq!(annotate("abc", &events).err(), Some(ParserError::MismatchedTags));
    let lone_end = vec![ev(MdEventKind::End(MdTag::List), 0, 0)];
    assert_eq!(annotate("", &lone_end).err(), Some(ParserError::MismatchedTags));
}

#[test]
fn images_become_one_glyph() {
    let events = vec![
        ev(MdEventKind::Start(MdTag::Paragraph), 0, 20),
        ev(MdEventKind::Start(MdTag::Image), 0, 20),
        ev(MdEventKind::Text("alt".to_string()), 2, 5),
        ev(MdEventKind::Start(MdTag::Image), 0, 20),
        ev(MdEventKind::End(MdTag::Image), 0, 20),
        ev(MdEventKind::End(MdTag::Image), 0, 20),
        ev(MdEventKind::Text(" x".to_string()), 18, 20),
        ev(MdEventKind::End(MdTag::Paragraph), 0, 20),
    ];
    let (flat, anns) = annotate("![alt](i.png) x", &events).unwrap();
    assert_eq!(flat, "\u{1F4F7} x");
    assert_eq!(anns.len(), 1);
    match &anns[0] {
        MdAnnotation::Paragraph(p) => {
            assert_eq!((p.base.start, p.base.end, p.base.depth), (0, 6, 0));
            assert_eq!((p.pos.start_line, p.pos.end_line), (1, 2));
        }
        _ => panic!("expected a paragraph"),
    }
}

#[test]
fn heading_sections_end_at_next_heading_of_same_level() {
    let md = "# A\n## B\n# C\n";
    let events = vec![
        ev(MdEventKind::Start(MdTag::Heading(1)), 0, 4),
        ev(MdEventKind::Text("A".to_string()), 2, 3),
        ev(MdEventKind::End(MdTag::Heading(1)), 0, 4),
        ev(MdEventKind::Start(MdTag::Heading(2)), 4, 9),
        ev(MdEventKind::Text("B".to_string()), 7, 8),
        ev(MdEventKind::End(MdTag::Heading(2)), 4, 9),
        ev(MdEventKind::Start(MdTag::Heading(1)), 9, 13),
        ev(MdEventKind::Text("C".to_string()), 11, 12),
        ev(MdEventKind::End(MdTag::Heading(1)), 9, 13),
    ];
    let (flat, anns) = annotate(md, &events).unwrap();
    assert_eq!(flat, "A\nB\nC");
    let sections: Vec<(usize, usize)> = anns
        .iter()
        .filter_map(|a| match a {
            MdAnnotation::HeadingSection(s) => Some((s.base.start, s.base.end)),
            _ => None,
        })
        .collect();
    assert_eq!(sections, vec![(0, 4), (2, 4), (4, 5)]);
    let starts: Vec<usize> = anns
        .iter()
        .map(|a| match a {
            MdAnnotation::Heading(h) => h.base.start,
            MdAnnotation::HeadingSection(s) => s.base.start,
            _ => unreachable!(),
        })
        .collect();
    assert_eq!(starts, vec![0, 0, 2, 2, 4, 4]);
}

#[test]
fn line_offsets_are_one_based_source_lines() {
    let md = "ab\ncd\n\nef";
    assert_eq!(line_offset(md, 0), 1);
    assert_eq!(line_offset(md, 1), 1);
    assert_eq!(line_offset(md, 3), 2);
    assert_eq!(line_offset(md, 4), 2);
    assert_eq!(line_offset(md, 6), 3);
    assert_eq!(line_offset(md, 7), 4);
    assert_eq!(line_offset(md, 9), 4);
    assert_eq!(line_offset(md, 100), 4);
    assert_eq!(line_offset("a\nb", 2), 2);
}

#[test]
fn upsert_newline_adds_only_where_needed() {
    let mut s = String::new();
    upsert_newline(&mut s);
    assert_eq!(s, "");
    let mut s = String::from("ab");
    upsert_newline(&mut s);
    assert_eq!(s, "ab\n");
    upsert_newline(&mut s);
    assert_eq!(s, "ab\n");
    let mut s = String::from("\u{1F4F7}");
    upsert_newline(&mut s);
    assert_eq!(s, "\u{1F4F7}\n");
}
