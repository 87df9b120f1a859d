//! The structural annotations that the annotator produces over a document's flat text.
use std::ops::Range;
use vstd::prelude::*;

verus! {

/// Where an annotation lies in the flat text (byte offsets), and how deep it was nested.
#[derive(Clone, Copy, Debug, PartialEq, Eq, Structural)]
pub struct BaseAnnotation {
    pub start: usize,
    pub end: usize,
    pub depth: usize,
}

/// The lines of the source markdown that an annotation spans: `start_line` is the 1-based line
/// of its first byte, `end_line` the line after the one holding its last byte.
#[derive(Clone, Copy, Debug, PartialEq, Eq, Structural)]
pub struct SourcePosition {
    pub start_line: usize,
    pub end_line: usize,
}

/// A heading, with its level (1 to 6).
#[derive(Clone, Debug)]
pub struct MdHeading {
    pub base: BaseAnnotation,
    pub pos: SourcePosition,
    pub level: u8,
}

/// The span from a heading to the next heading of the same or a shallower level.
#[derive(Clone, Debug)]
pub struct MdHeadingSection {
    pub base: BaseAnnotation,
    pub pos: SourcePosition,
}

/// A paragraph.
#[derive(Clone, Debug)]
pub struct MdParagraph {
    pub base: BaseAnnotation,
    pub pos: SourcePosition,
}

/// A link, with its target and its title when it has one.
#[derive(Clone, Debug)]
pub struct MdLink {
    pub base: BaseAnnotation,
    pub pos: SourcePosition,
    pub href: String,
    pub title: Option<String>,
}

/// A list.
#[derive(Clone, Debug)]
pub struct MdList {
    pub base: BaseAnnotation,
    pub pos: SourcePosition,
}

/// An item of a list.
#[derive(Clone, Debug)]
pub struct MdListItem {
    pub base: BaseAnnotation,
    pub pos: SourcePosition,
}

/// An emphasised span.
#[derive(Clone, Debug)]
pub struct MdEmphasis {
    pub base: BaseAnnotation,
    pub pos: SourcePosition,
}

/// A strongly emphasised span.
#[derive(Clone, Debug)]
pub struct MdStrong {
    pub base: BaseAnnotation,
    pub pos: SourcePosition,
}

/// A struck-through span.
#[derive(Clone, Debug)]
pub struct MdStrikethrough {
    pub base: BaseAnnotation,
    pub pos: SourcePosition,
}

/// One structural annotation of a document.
#[derive(Clone, Debug)]
pub enum MdAnnotation {
    Paragraph(MdParagraph),
    Heading(MdHeading),
    HeadingSection(MdHeadingSection),
    Link(MdLink),
    List(MdList),
    ListItem(MdListItem),
    Emphasis(MdEmphasis),
    Strong(MdStrong),
    Strikethrough(MdStrikethrough),
}

/// Read access to what every annotation has: its place in the flat text and its depth.
pub trait Annotation {
    /// The place and depth of the annotation.
    spec fn spec_base(&self) -> BaseAnnotation;

    fn base(&self) -> (r: BaseAnnotation)
        ensures
            r == self.spec_base(),
    ;

    fn as_range(&self) -> (r: Range<usize>)
        ensures
            r.start == self.spec_base().start,
            r.end == self.spec_base().end,
    ;

    fn depth(&self) -> (r: usize)
        ensures
            r == self.spec_base().depth,
    ;
}

impl MdAnnotation {
    /// The lines of the source markdown that the annotation spans.
    pub open spec fn spec_pos(&self) -> SourcePosition {
        match self {
            MdAnnotation::Paragraph(a) => a.pos,
            MdAnnotation::Heading(a) => a.pos,
            MdAnnotation::HeadingSection(a) => a.pos,
            MdAnnotation::Link(a) => a.pos,
            MdAnnotation::List(a) => a.pos,
            MdAnnotation::ListItem(a) => a.pos,
            MdAnnotation::Emphasis(a) => a.pos,
            MdAnnotation::Strong(a) => a.pos,
            MdAnnotation::Strikethrough(a) => a.pos,
        }
    }

    /// The lines of the source markdown that the annotation spans.
    pub fn pos(&self) -> (r: SourcePosition)
        ensures
            r == self.spec_pos(),
    {
        match self {
            MdAnnotation::Paragraph(a) => a.pos,
            MdAnnotation::Heading(a) => a.pos,
            MdAnnotation::HeadingSection(a) => a.pos,
            MdAnnotation::Link(a) => a.pos,
            MdAnnotation::List(a) => a.pos,
            MdAnnotation::ListItem(a) => a.pos,
            MdAnnotation::Emphasis(a) => a.pos,
            MdAnnotation::Strong(a) => a.pos,
            MdAnnotation::Strikethrough(a) => a.pos,
        }
    }
}

/// The variants of annotation.
#[derive(Clone, Copy, Debug, PartialEq, Eq, Structural)]
pub enum AnnotationKind {
    Paragraph,
    Heading,
    HeadingSection,
    Link,
    List,
    ListItem,
    Emphasis,
    Strong,
    Strikethrough,
}

impl MdAnnotation {
    /// Which variant the annotation is.
    pub open spec fn spec_kind(&self) -> AnnotationKind {
        match self {
            MdAnnotation::Paragraph(_) => AnnotationKind::Paragraph,
            MdAnnotation::Heading(_) => AnnotationKind::Heading,
            MdAnnotation::HeadingSection(_) => AnnotationKind::HeadingSection,
            MdAnnotation::Link(_) => AnnotationKind::Link,
            MdAnnotation::List(_) => AnnotationKind::List,
            MdAnnotation::ListItem(_) => AnnotationKind::ListItem,
            MdAnnotation::Emphasis(_) => AnnotationKind::Emphasis,
            MdAnnotation::Strong(_) => AnnotationKind::Strong,
            MdAnnotation::Strikethrough(_) => AnnotationKind::Strikethrough,
        }
    }

    /// Which variant the annotation is.
    pub fn kind(&self) -> (r: AnnotationKind)
        ensures
            r == self.spec_kind(),
    {
        match self {
            MdAnnotation::Paragraph(_) => AnnotationKind::Paragraph,
            MdAnnotation::Heading(_) => AnnotationKind::Heading,
            MdAnnotation::HeadingSection(_) => AnnotationKind::HeadingSection,
            MdAnnotation::Link(_) => AnnotationKind::Link,
            MdAnnotation::List(_) => AnnotationKind::List,
            MdAnnotation::ListItem(_) => AnnotationKind::ListItem,
            MdAnnotation::Emphasis(_) => AnnotationKind::Emphasis,
            MdAnnotation::Strong(_) => AnnotationKind::Strong,
            MdAnnotation::Strikethrough(_) => AnnotationKind::Strikethrough,
        }
    }

    /// A copy of the annotation: the same variant, place, lines and link target.
    pub fn duplicate(&self) -> (r: MdAnnotation)
        ensures
            r == *self,
            r.spec_kind() == self.spec_kind(),
            r.spec_base() == self.spec_base(),
            r.spec_pos() == self.spec_pos(),
            self is Link ==> r is Link && r->Link_0.href@ == self->Link_0.href@,
            self is Heading ==> r is Heading && r->Heading_0.level == self->Heading_0.level,
    {
        match self {
            MdAnnotation::Paragraph(a) => MdAnnotation::Paragraph(MdParagraph { base: a.base, pos: a.pos }),
            MdAnnotation::Heading(a) => MdAnnotation::Heading(MdHeading { base: a.base, pos: a.pos, level: a.level }),
            MdAnnotation::HeadingSection(a) => MdAnnotation::HeadingSection(MdHeadingSection { base: a.base, pos: a.pos }),
            MdAnnotation::Link(a) => MdAnnotation::Link(MdLink {
                base: a.base,
                pos: a.pos,
                href: a.href.clone(),
                title: match &a.title {
                    Some(t) => Some(t.clone()),
                    None => None,
                },
            }),
            MdAnnotation::List(a) => MdAnnotation::List(MdList { base: a.base, pos: a.pos }),
            MdAnnotation::ListItem(a) => MdAnnotation::ListItem(MdListItem { base: a.base, pos: a.pos }),
            MdAnnotation::Emphasis(a) => MdAnnotation::Emphasis(MdEmphasis { base: a.base, pos: a.pos }),
            MdAnnotation::Strong(a) => MdAnnotation::Strong(MdStrong { base: a.base, pos: a.pos }),
            MdAnnotation::Strikethrough(a) => MdAnnotation::Strikethrough(MdStrikethrough { base: a.base, pos: a.pos }),
        }
    }
}

impl Annotation for MdAnnotation {
    open spec fn spec_base(&self) -> BaseAnnotation {
        match self {
            MdAnnotation::Paragraph(a) => a.base,
            MdAnnotation::Heading(a) => a.base,
            MdAnnotation::HeadingSection(a) => a.base,
            MdAnnotation::Link(a) => a.base,
            MdAnnotation::List(a) => a.base,
            MdAnnotation::ListItem(a) => a.base,
            MdAnnotation::Emphasis(a) => a.base,
            MdAnnotation::Strong(a) => a.base,
            MdAnnotation::Strikethrough(a) => a.base,
        }
    }

    fn base(&self) -> (r: BaseAnnotation) {
        match self {
            MdAnnotation::Paragraph(a) => a.base,
            MdAnnotation::Heading(a) => a.base,
            MdAnnotation::HeadingSection(a) => a.base,
            MdAnnotation::Link(a) => a.base,
            MdAnnotation::List(a) => a.base,
            MdAnnotation::ListItem(a) => a.base,
            MdAnnotation::Emphasis(a) => a.base,
            MdAnnotation::Strong(a) => a.base,
            MdAnnotation::Strikethrough(a) => a.base,
        }
    }

    fn as_range(&self) -> (r: Range<usize>) {
        let b = self.base();
        b.start..b.end
    }

    fn depth(&self) -> (r: usize) {
        self.base().depth
    }
}

} // verus!
