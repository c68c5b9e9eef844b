//! Rich message body segments.
use vstd::prelude::*;

verus! {

/// One piece of a rendered message body.
#[derive(Debug, Clone, PartialEq, Eq)]
pub enum RichSegment {
    Text(String),
    Link { text: String, url: String },
    CodeBlock { lines: Vec<String> },
}

pub enum SegmentView {
    Text(Seq<char>),
    Link { text: Seq<char>, url: Seq<char> },
    CodeBlock { lines: Seq<Seq<char>> },
}

impl View for RichSegment {
    type V = SegmentView;

    open spec fn view(&self) -> SegmentView {
        match self {
            RichSegment::Text(t) => SegmentView::Text(t@),
            RichSegment::Link { text, url } => SegmentView::Link { text: text@, url: url@ },
            RichSegment::CodeBlock { lines } => SegmentView::CodeBlock {
                lines: lines@.map_values(|l: String| l@),
            },
        }
    }
}

} // verus!
