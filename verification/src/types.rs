use vstd::prelude::*;

verus! {

/// A location in the source text.
///
/// `line` counts line terminators seen before this location (0-based).
/// `character` counts codepoints since the start of the current line
/// (0-based). `offset` is the absolute byte offset into the source.
#[derive(Copy, Clone, Debug, Default, PartialEq, Eq, Structural)]
pub struct Position {
    pub line: usize,
    pub character: usize,
    pub offset: usize,
}

/// A contiguous region of the source text, with `start.offset <= end.offset`.
#[derive(Copy, Clone, Debug, PartialEq, Eq, Structural)]
pub struct Range {
    pub start: Position,
    pub end: Position,
}

/// Heading level, meaningful in `[1, 6]`.
#[derive(Copy, Clone, Debug, PartialEq, Eq, Structural)]
pub struct HeadingLevel(u8);

impl HeadingLevel {
    /// The numeric level.
    pub closed spec fn spec_value(&self) -> u8 {
        self.0
    }

    pub fn value(&self) -> (r: u8)
        ensures
            r == self.spec_value(),
    {
        self.0
    }
}

/// The combined result of the block pass and the (stubbed) inline pass.
#[derive(Debug, Clone, PartialEq)]
pub struct Document {
    pub block_elements: Vec<BlockElement>,
    pub inline_elements: Vec<InlineElement>,
}

/// Structural element that can contain other blocks or inline content.
///
/// There are two kinds of blocks: container blocks, which can hold other
/// blocks as children (`Root`, `BlockQuote`), and leaf blocks, which cannot.
/// The parser produces blocks as a flat sequence in the order they were
/// opened; containment is implicit in that order.
#[derive(Debug, Clone, PartialEq)]
pub enum BlockElement {
    /// Document root. Present exactly once, always first in the sequence.
    Root,

    /// Block quote: a container introduced by a `>` marker.
    BlockQuote,

    /// Paragraph. Each range in `lines` covers one source line (or lazy
    /// continuation line) belonging to the paragraph, in source order.
    Paragraph { lines: Vec<Range> },

    /// ATX heading. `content_range` spans the heading text with the leading
    /// `#` markers, trailing `#` markers and surrounding whitespace excluded.
    AtxHeading { content_range: Range },

    /// Setext heading. Reserved: the current algorithm never produces it.
    SetextHeading { level: HeadingLevel, content_range: Range },

    /// Fenced code block. Reserved: the current algorithm never produces it.
    FencedCodeBlock,

    /// Indented code block. Recognized, but its text is not captured.
    IndentedCodeBlock,
}

impl BlockElement {
    /// A block is a container when it may hold child blocks.
    pub open spec fn container_spec(&self) -> bool {
        match self {
            BlockElement::Root | BlockElement::BlockQuote => true,
            _ => false,
        }
    }

    /// A block is a leaf when it is not a container.
    pub open spec fn leaf_spec(&self) -> bool {
        !self.container_spec()
    }

    pub fn is_container(&self) -> (r: bool)
        ensures
            r == self.container_spec(),
    {
        match self {
            BlockElement::Root | BlockElement::BlockQuote => true,

            BlockElement::Paragraph { .. }
            | BlockElement::AtxHeading { .. }
            | BlockElement::SetextHeading { .. }
            | BlockElement::FencedCodeBlock
            | BlockElement::IndentedCodeBlock => false,
        }
    }

    pub fn is_leaf(&self) -> (r: bool)
        ensures
            r == self.leaf_spec(),
    {
        !self.is_container()
    }
}

/// For every variant, `container_spec` and `leaf_spec` are complements:
/// a block element is either a container or a leaf, never both and never
/// neither.
pub proof fn lemma_container_leaf_complement(b: BlockElement)
    ensures
        b.container_spec() <==> !b.leaf_spec(),
{
}

/// Inline content, such as raw text, a link, a code span etc.
///
/// Some inline elements can contain other inline elements, but an inline
/// element cannot contain a block element. The inline pass is not yet
/// implemented, so none of these are currently produced.
#[derive(Debug, Clone, PartialEq)]
pub enum InlineElement {
    /// Inline link: `[text](destination)`, optionally with a title.
    InlineLink { text_range: Range, destination_range: Range, title_range: Option<Range> },

    /// Reference link: `[text][reference]`.
    ReferenceLink {},

    /// Inline code span.
    CodeSpan,

    /// Raw text.
    Text,
}

/// The bracketed text of a reference link.
#[derive(Debug, Clone, PartialEq)]
pub struct ReferenceLinkText {
    content_range: Range,
}

/// The label of a reference link.
#[derive(Debug, Clone, PartialEq)]
pub struct Reference {
    content_range: Range,
}

} // verus!
