//! Markdown block-structure parser.
//!
//! Parsing follows the CommonMark parsing strategy: the input is consumed one
//! line at a time; each line first re-matches the stack of currently open
//! blocks, then tries to start new blocks, then hands the remaining text to
//! the innermost open block.

use crate::coords::{
    at_line_end, char_at, columns_to, hash_run, is_blank_byte, is_terminator, lemma_char_at_le,
    lemma_columns_to_snoc, lemma_line_at_le, lemma_line_at_nondecreasing, lemma_line_end_from,
    heading_content_end, lemma_line_end_from_skip, lemma_same_line, lemma_spaces_end,
    lemma_spaces_end_idempotent,
    lemma_step_crlf, lemma_step_line_end, lemma_step_non_terminator, line_at, line_end_from,
    next_line_start, spaces_end, trim_back_hashes, trim_back_ws,
};
use crate::types::{BlockElement, Document, InlineElement, Position, Range};
use crate::utf8::{is_continuation_byte, is_continuation_byte_spec};
use vstd::prelude::*;
use vstd::string::StringSliceAdditionalSpecFns;

verus! {

/// A position is canonical for source bytes `s` when its fields are exactly
/// the coordinates determined by its byte offset: the line index counts line
/// terminators before the offset, and the character index counts codepoints
/// since the start of the line.
pub open spec fn pos_wf(s: Seq<u8>, p: Position) -> bool {
    &&& p.offset <= s.len()
    &&& p.line == line_at(s, p.offset as int)
    &&& p.character == char_at(s, p.offset as int)
}

/// A range is well formed when both endpoints are canonical positions, the
/// start does not lie after the end, and the region lies within one source
/// line: it holds no line terminator, so both endpoints share a line.
pub open spec fn range_wf(s: Seq<u8>, r: Range) -> bool {
    &&& pos_wf(s, r.start)
    &&& pos_wf(s, r.end)
    &&& r.start.offset <= r.end.offset
    &&& forall|i: int|
        r.start.offset <= i < r.end.offset ==> !is_terminator(#[trigger] s[i])
    &&& r.start.line == r.end.line
}

/// The positions recorded in one block element.
pub open spec fn pos_in_block(b: BlockElement, p: Position) -> bool {
    match b {
        BlockElement::Paragraph { lines } => exists|i: int|
            0 <= i < lines@.len() && ((#[trigger] lines@[i]).start == p || lines@[i].end == p),
        BlockElement::AtxHeading { content_range } => content_range.start == p
            || content_range.end == p,
        BlockElement::SetextHeading { content_range, .. } => content_range.start == p
            || content_range.end == p,
        _ => false,
    }
}

/// Per-element well-formedness: every recorded range is well formed, and a
/// paragraph's lines appear in source order.
pub open spec fn block_wf(s: Seq<u8>, b: BlockElement) -> bool {
    match b {
        BlockElement::Paragraph { lines } => {
            &&& lines@.len() >= 1
            &&& forall|i: int| 0 <= i < lines@.len() ==> range_wf(s, #[trigger] lines@[i])
            &&& forall|i: int|
                0 <= i < lines@.len() ==> (#[trigger] lines@[i]).start.offset
                    < lines@[i].end.offset
            &&& forall|i: int, j: int|
                0 <= i < j < lines@.len() ==> (#[trigger] lines@[i]).end.offset <= (
                #[trigger] lines@[j]).start.offset
        },
        BlockElement::AtxHeading { content_range } => range_wf(s, content_range),
        _ => true,
    }
}

/// Well-formedness of a block sequence produced for source bytes `s`:
/// the sequence starts with `Root`, which occurs exactly once; the reserved
/// variants are never produced; every recorded range is well formed; and all
/// recorded positions appear in non-decreasing offset order across the
/// sequence.
pub open spec fn blocks_wf(s: Seq<u8>, blocks: Seq<BlockElement>) -> bool {
    &&& blocks.len() >= 1
    &&& blocks[0] is Root
    &&& forall|i: int| 1 <= i < blocks.len() ==> !((#[trigger] blocks[i]) is Root)
    &&& forall|i: int|
        0 <= i < blocks.len() ==> !((#[trigger] blocks[i]) is SetextHeading) && !(
        blocks[i] is FencedCodeBlock)
    &&& forall|i: int| 0 <= i < blocks.len() ==> block_wf(s, #[trigger] blocks[i])
    &&& forall|i: int, j: int, p: Position, q: Position|
        #![trigger pos_in_block(blocks[i], p), pos_in_block(blocks[j], q)]
        0 <= i < j < blocks.len() && pos_in_block(blocks[i], p) && pos_in_block(blocks[j], q)
            ==> p.offset <= q.offset
}

/// The contract of the block pass: the produced sequence is well formed, and
/// it consists of `Root` alone exactly when the input holds nothing but
/// spaces, tabs and line terminators.
pub open spec fn parse_result_wf(s: Seq<u8>, blocks: Seq<BlockElement>) -> bool {
    &&& blocks_wf(s, blocks)
    &&& (blocks.len() == 1 <==> (forall|i: int|
        0 <= i < s.len() ==> is_blank_byte(#[trigger] s[i])))
}

/// A block quote can start at this scan position: the line's indent is below
/// the code-block threshold and the next byte is a `>` marker.
pub open spec fn quote_start_cond(s: Seq<u8>, offset: int, indent: int) -> bool {
    indent < 4 && offset < s.len() && s[offset] == 62
}

/// An ATX heading can start at this scan position: the line's indent is
/// below the code-block threshold, a run of one to six `#` markers begins
/// here, and a space or tab follows the run.
pub open spec fn atx_start_cond(s: Seq<u8>, offset: int, indent: int) -> bool {
    &&& indent < 4
    &&& offset < s.len()
    &&& s[offset] == 35
    &&& hash_run(s, offset) <= 6
    &&& offset + hash_run(s, offset) < s.len()
    &&& (s[offset + hash_run(s, offset)] == 32 || s[offset + hash_run(s, offset)] == 9)
}

/// The scan state `(offset, column, indent, tab_leftovers)` that consuming
/// leading whitespace produces from the given state: any pending tab width
/// is finished first, then spaces and tabs are consumed up to the first
/// other byte, tabs advancing to the next multiple-of-4 column; the columns
/// consumed are added to the line's indent.
pub open spec fn ws_state(s: Seq<u8>, offset: int, column: int, indent: int, leftovers: int) -> (
    int,
    int,
    int,
    int,
) {
    let o1 = if leftovers > 0 {
        offset + 1
    } else {
        offset
    };
    let c1 = column + leftovers;
    let o2 = spaces_end(s, o1);
    let c2 = columns_to(s, o1, o2, c1);
    (o2, c2, indent + (c2 - column), 0)
}

/// Whether an open block's conditions for remaining open hold at the given
/// whitespace-consumed scan position.
pub open spec fn open_block_matches(s: Seq<u8>, b: BlockElement, offset: int, indent: int) -> bool {
    match b {
        BlockElement::Root => true,
        BlockElement::BlockQuote => offset < s.len() && s[offset] == 62 && indent < 4,
        BlockElement::Paragraph { .. } => !at_line_end(s, offset),
        BlockElement::IndentedCodeBlock => indent >= 4 || at_line_end(s, offset),
        _ => false,
    }
}

/// The scan state `(offset, column, leftovers)` after consuming a matched
/// block quote's `>` marker and, when one follows, a single space or tab of
/// width (a tab's remaining width stays pending).
pub open spec fn quote_match_state(s: Seq<u8>, offset: int, column: int) -> (int, int, int) {
    let o1 = offset + 1;
    let c1 = column + 1;
    if o1 < s.len() && s[o1] == 32 {
        (o1 + 1, c1 + 1, 0)
    } else if o1 < s.len() && s[o1] == 9 {
        if c1 % 4 == 3 {
            (o1 + 1, c1, 0)
        } else {
            (o1, c1, 3 - (c1 % 4))
        }
    } else {
        (o1, c1, 0)
    }
}

/// The continuation-match walk over the open blocks, from open index `k`
/// inward: each step consumes leading whitespace and the matched block's own
/// marker; the walk stops before the first open block that no longer
/// matches. Returns the index of the innermost match and the final scan
/// state `(index, offset, column, indent, leftovers)`.
pub open spec fn match_walk(
    s: Seq<u8>,
    blocks: Seq<BlockElement>,
    opens: Seq<usize>,
    k: int,
    offset: int,
    column: int,
    indent: int,
    leftovers: int,
) -> (int, int, int, int, int)
    decreases opens.len() - k,
{
    if k >= opens.len() {
        (opens.len() - 1, offset, column, indent, leftovers)
    } else {
        let (o, c, ind, lv) = ws_state(s, offset, column, indent, leftovers);
        let b = blocks[opens[k] as int];
        if !open_block_matches(s, b, o, ind) {
            (k - 1, o, c, ind, lv)
        } else if b is BlockQuote {
            let (o2, c2, lv2) = quote_match_state(s, o, c);
            match_walk(s, blocks, opens, k + 1, o2, c2, ind, lv2)
        } else {
            match_walk(s, blocks, opens, k + 1, o, c, ind, lv)
        }
    }
}

/// Whether processing the current line finds a new block to open: after
/// re-matching the open blocks (the walk) and consuming leading whitespace,
/// a block-quote marker, a heading marker or code-block indentation stands
/// at the scan position.
pub open spec fn line_opens_block(
    s: Seq<u8>,
    blocks: Seq<BlockElement>,
    opens: Seq<usize>,
    offset: int,
    column: int,
    indent: int,
    leftovers: int,
) -> bool {
    let w = match_walk(s, blocks, opens, 0, offset, column, indent, leftovers);
    let ws = ws_state(s, w.1, w.2, w.3, w.4);
    quote_start_cond(s, ws.0, ws.2) || atx_start_cond(s, ws.0, ws.2) || (!(blocks[opens[opens.len()
        - 1] as int] is Paragraph) && ws.2 >= 4 && !at_line_end(s, ws.0))
}

/// Whether the innermost matched open block can accept a new block start: it
/// is a container, or a paragraph, which yields to any new block.
pub open spec fn line_match_viable(
    s: Seq<u8>,
    blocks: Seq<BlockElement>,
    opens: Seq<usize>,
    offset: int,
    column: int,
    indent: int,
    leftovers: int,
) -> bool {
    let w = match_walk(s, blocks, opens, 0, offset, column, indent, leftovers);
    blocks[opens[w.0] as int].container_spec() || blocks[opens[w.0] as int] is Paragraph
}

/// The shape of the open-block stack after new blocks were opened: the
/// outermost `m` entries survive (a yielding paragraph is closed, so its
/// entry does not), and the newly appended blocks are all open, innermost
/// last, at consecutive indices starting at the old block count.
pub open spec fn opens_shape(
    old_opens: Seq<usize>,
    old_blocks_len: int,
    m: int,
    new_opens: Seq<usize>,
    new_blocks_len: int,
) -> bool {
    &&& new_opens.len() == m + (new_blocks_len - old_blocks_len)
    &&& forall|i: int| 0 <= i < m ==> new_opens[i] == old_opens[i]
    &&& forall|i: int|
        m <= i < new_opens.len() ==> (#[trigger] new_opens[i]) as int == old_blocks_len + (i - m)
}

/// In a well-formed block sequence every recorded position is canonical:
/// its `line` and `character` fields are exactly the coordinates that its
/// byte offset determines.
pub proof fn lemma_pos_in_block_canonical(s: Seq<u8>, blocks: Seq<BlockElement>, i: int, p: Position)
    requires
        blocks_wf(s, blocks),
        0 <= i < blocks.len(),
        pos_in_block(blocks[i], p),
    ensures
        pos_wf(s, p),
{
    match blocks[i] {
        BlockElement::Paragraph { lines } => {
            let k = choose|k: int|
                0 <= k < lines@.len() && ((#[trigger] lines@[k]).start == p || lines@[k].end == p);
            assert(range_wf(s, lines@[k]));
        },
        BlockElement::AtxHeading { content_range } => {
            assert(block_wf(s, blocks[i]));
        },
        _ => {},
    }
}

/// Law: the line index is non-decreasing across the whole block sequence.
/// For any two recorded positions, the one recorded in a later block (or at
/// the same or a later offset) lies on the same or a later line.
pub proof fn lemma_lines_nondecreasing(
    s: Seq<u8>,
    blocks: Seq<BlockElement>,
    i: int,
    j: int,
    p: Position,
    q: Position,
)
    requires
        blocks_wf(s, blocks),
        0 <= i <= j < blocks.len(),
        pos_in_block(blocks[i], p),
        pos_in_block(blocks[j], q),
        i < j || p.offset <= q.offset,
    ensures
        p.line <= q.line,
{
    lemma_pos_in_block_canonical(s, blocks, i, p);
    lemma_pos_in_block_canonical(s, blocks, j, q);
    assert(p.offset <= q.offset);
    lemma_line_at_nondecreasing(s, p.offset as int, q.offset as int);
}

/// Parser that splits input text into block elements (the first phase).
///
/// The CommonMark parsing strategy assumes block elements are stored as a
/// tree. Instead, a flat vector of blocks is kept, together with a separate
/// stack of indices of the currently open blocks: the parser does not need a
/// tree, and a vector has better cache locality.
pub struct BlockParser<'a> {
    input: &'a str,

    offset: usize,
    character: usize,
    column: usize,
    line: usize,

    indent: usize,

    tab_leftovers: usize,

    blocks: Vec<BlockElement>,
    open_blocks: Vec<usize>,
}

impl<'a> BlockParser<'a> {
    /// The input as a byte sequence; all coordinates refer to it.
    pub closed spec fn src(&self) -> Seq<u8> {
        self.input.spec_bytes()
    }

    /// The parser invariant, preserved by every step of the scan.
    pub closed spec fn wf(&self) -> bool {
        let s = self.src();
        let blocks = self.blocks@;
        let opens = self.open_blocks@;
        // Scan state.
        &&& s.len() <= usize::MAX as int / 4
        &&& self.offset <= s.len()
        &&& self.line == line_at(s, self.offset as int)
        &&& self.character == char_at(s, self.offset as int)
        &&& self.column <= 4 * self.offset
        &&& self.indent <= self.column
        &&& self.tab_leftovers <= 4
        &&& (self.tab_leftovers > 0 ==> self.offset < s.len() && s[self.offset as int] == 9)
        // Produced blocks.
        &&& blocks_wf(s, blocks)
        &&& forall|i: int, p: Position|
            #![trigger pos_in_block(blocks[i], p)]
            0 <= i < blocks.len() && pos_in_block(blocks[i], p) ==> p.offset <= self.offset
        // Open-block stack: indices into `blocks`, strictly increasing,
        // starting at the root; every open block except possibly the
        // innermost is a container, and an open leaf is the newest block.
        &&& opens.len() >= 1
        &&& opens[0] == 0
        &&& forall|i: int| 0 <= i < opens.len() ==> (#[trigger] opens[i]) < blocks.len()
        &&& forall|i: int, j: int|
            0 <= i < j < opens.len() ==> (#[trigger] opens[i]) < (#[trigger] opens[j])
        &&& forall|i: int|
            0 <= i < opens.len() - 1 ==> (#[trigger] blocks[opens[i] as int]).container_spec()
        &&& (blocks[opens[opens.len() - 1] as int].leaf_spec() ==> opens[opens.len() - 1]
            == blocks.len() - 1)
    }

    /// Scan-state transitions that leave the produced blocks and the open
    /// stack untouched.
    pub closed spec fn same_blocks(pre: Self, post: Self) -> bool {
        &&& post.input@ == pre.input@
        &&& post.blocks@ == pre.blocks@
        &&& post.open_blocks@ == pre.open_blocks@
    }

    /// The block elements produced so far.
    pub closed spec fn blocks_view(&self) -> Seq<BlockElement> {
        self.blocks@
    }

    /// The current byte offset of the scan.
    pub closed spec fn scan_offset(&self) -> int {
        self.offset as int
    }

    /// A parser that has not consumed anything yet: the scan position is at
    /// offset 0 and only the root block exists and is open.
    pub closed spec fn at_start(&self) -> bool {
        &&& self.offset == 0
        &&& self.character == 0
        &&& self.column == 0
        &&& self.line == 0
        &&& self.indent == 0
        &&& self.tab_leftovers == 0
        &&& self.blocks@.len() == 1
        &&& self.open_blocks@.len() == 1
    }

    #[must_use]
    pub fn new(input: &'a str) -> (r: Self)
        requires
            input.spec_bytes().len() <= usize::MAX as int / 4,
        ensures
            r.wf(),
            r.src() == input.spec_bytes(),
            r.at_start(),
            r.blocks_view() =~= seq![BlockElement::Root],
    {
        let mut blocks: Vec<BlockElement> = Vec::new();
        blocks.push(BlockElement::Root);
        let mut open_blocks: Vec<usize> = Vec::new();
        open_blocks.push(0);

        Self {
            input,

            offset: 0,
            character: 0,
            column: 0,
            line: 0,

            indent: 0,
            tab_leftovers: 0,

            blocks,
            open_blocks,
        }
    }

    #[inline]
    fn peek(&self) -> (r: Option<u8>)
        ensures
            self.offset < self.src().len() ==> r == Some(self.src()[self.offset as int]),
            self.offset >= self.src().len() ==> r is None,
    {
        let bytes = self.input.as_bytes();
        if self.offset < bytes.len() {
            Some(bytes[self.offset])
        } else {
            None
        }
    }

    #[inline]
    fn position(&self) -> (r: Position)
        ensures
            r == (Position { line: self.line, character: self.character, offset: self.offset }),
    {
        Position { line: self.line, character: self.character, offset: self.offset }
    }

    #[inline]
    fn set_position(&mut self, position: Position)
        requires
            old(self).wf(),
            pos_wf(old(self).src(), position),
            old(self).offset <= position.offset,
            old(self).tab_leftovers > 0 ==> position.offset == old(self).offset,
        ensures
            final(self).wf(),
            Self::same_blocks(*old(self), *final(self)),
            final(self).offset == position.offset,
            final(self).line == position.line,
            final(self).character == position.character,
            final(self).column == old(self).column,
            final(self).indent == old(self).indent,
            final(self).tab_leftovers == old(self).tab_leftovers,
    {
        self.line = position.line;
        self.character = position.character;
        self.offset = position.offset;
    }

    #[inline]
    fn is_indented(&self) -> (r: bool)
        ensures
            r == (self.indent >= 4),
    {
        self.indent >= 4
    }

    #[inline]
    fn is_at_line_end(&self) -> (r: bool)
        ensures
            r == at_line_end(self.src(), self.offset as int),
    {
        match self.peek() {
            Some(c) => c == 10 || c == 13,
            None => true,
        }
    }

    /// The position of the end of the current line: the first offset at or
    /// after the scan position that holds a line terminator or ends the
    /// input.
    fn peek_line(&self) -> (r: Position)
        requires
            self.wf(),
        ensures
            pos_wf(self.src(), r),
            r.offset == line_end_from(self.src(), self.offset as int),
            self.offset <= r.offset,
            r.line == self.line,
            at_line_end(self.src(), r.offset as int),
            forall|i: int|
                self.offset <= i < r.offset ==> !is_terminator(#[trigger] self.src()[i]),
    {
        let ghost s = self.src();
        let bytes = self.input.as_bytes();
        let mut position = self.position();
        proof {
            lemma_line_end_from(s, self.offset as int);
        }
        while position.offset < bytes.len() && !(bytes[position.offset] == 10
            || bytes[position.offset] == 13)
            invariant
                self.wf(),
                s == self.src(),
                bytes@ == s,
                pos_wf(s, position),
                position.line == self.line,
                self.offset <= position.offset <= s.len(),
                forall|i: int|
                    self.offset <= i < position.offset ==> !is_terminator(#[trigger] s[i]),
                line_end_from(s, position.offset as int) == line_end_from(s, self.offset as int),
            decreases s.len() - position.offset,
        {
            let b = bytes[position.offset];
            proof {
                lemma_step_non_terminator(s, position.offset as int);
                lemma_char_at_le(s, position.offset as int);
            }
            position.offset = position.offset + 1;
            if !is_continuation_byte(b) {
                position.character = position.character + 1;
            }
        }
        position
    }

    /// Consume the rest of the current line, up to (not including) its
    /// terminator.
    fn consume_line(&mut self)
        requires
            old(self).wf(),
        ensures
            final(self).wf(),
            Self::same_blocks(*old(self), *final(self)),
            final(self).offset == line_end_from(old(self).src(), old(self).offset as int),
            old(self).offset <= final(self).offset,
            at_line_end(final(self).src(), final(self).offset as int),
            forall|i: int|
                old(self).offset <= i < final(self).offset ==> !is_terminator(
                    #[trigger] old(self).src()[i],
                ),
            final(self).line == old(self).line,
            final(self).column == old(self).column,
            final(self).indent == old(self).indent,
            final(self).tab_leftovers == 0,
    {
        let ghost s = old(self).src();
        self.tab_leftovers = 0;

        proof {
            lemma_line_end_from(s, self.offset as int);
        }
        loop
            invariant
                self.wf(),
                s == self.src(),
                Self::same_blocks(*old(self), *self),
                old(self).offset <= self.offset <= s.len(),
                self.line == old(self).line,
                self.column == old(self).column,
                self.indent == old(self).indent,
                self.tab_leftovers == 0,
                forall|i: int|
                    old(self).offset <= i < self.offset ==> !is_terminator(#[trigger] s[i]),
                line_end_from(s, self.offset as int) == line_end_from(s, old(self).offset as int),
            ensures
                self.offset == line_end_from(s, old(self).offset as int),
                at_line_end(s, self.offset as int),
            decreases s.len() - self.offset,
        {
            match self.peek() {
                Some(b) => {
                    if b == 10 || b == 13 {
                        break ;
                    }
                    proof {
                        lemma_step_non_terminator(s, self.offset as int);
                        lemma_char_at_le(s, self.offset as int);
                    }
                    self.offset = self.offset + 1;
                    if !is_continuation_byte(b) {
                        self.character = self.character + 1;
                    }
                },
                None => {
                    break ;
                },
            }
        }
    }

    /// Run the block pass over the whole input, one line at a time.
    ///
    /// Afterwards the produced block sequence is well formed; when the
    /// parser started fresh, the sequence also consists of `Root` alone
    /// exactly for blank input.
    pub fn parse(&mut self)
        requires
            old(self).wf(),
        ensures
            final(self).wf(),
            final(self).src() == old(self).src(),
            blocks_wf(final(self).src(), final(self).blocks_view()),
            final(self).scan_offset() == final(self).src().len(),
            old(self).at_start() ==> parse_result_wf(old(self).src(), final(self).blocks_view()),
    {
        let ghost s = old(self).src();
        let inp = self.input;
        let bytes = inp.as_bytes();
        while self.offset < bytes.len()
            invariant
                self.wf(),
                s == self.src(),
                bytes@ == s,
                self.input@ == old(self).input@,
                self.blocks@.len() >= old(self).blocks@.len(),
                old(self).at_start() ==> ((forall|i: int|
                    0 <= i < self.offset ==> is_blank_byte(#[trigger] s[i]))
                    ==> self.blocks@.len() == 1),
                old(self).at_start() ==> ((exists|i: int|
                    0 <= i < self.offset && !is_blank_byte(#[trigger] s[i]))
                    ==> self.blocks@.len() >= 2),
            decreases s.len() - self.offset,
        {
            let ghost pre = *self;
            self.parse_line();
            proof {
                if old(self).at_start() {
                    if forall|i: int| 0 <= i < self.offset ==> is_blank_byte(#[trigger] s[i]) {
                        assert(forall|i: int|
                            pre.offset <= i < self.offset ==> is_blank_byte(#[trigger] s[i]));
                        assert(self.blocks@ == pre.blocks@);
                    }
                    if exists|i: int| 0 <= i < self.offset && !is_blank_byte(#[trigger] s[i]) {
                        let k = choose|k: int|
                            0 <= k < self.offset && !is_blank_byte(#[trigger] s[k]);
                        if k < pre.offset {
                            assert(pre.blocks@.len() >= 2);
                        } else {
                            assert(self.blocks@.len() >= 2);
                        }
                    }
                }
            }
        }
    }

    /// The block elements produced so far.
    pub fn blocks(&self) -> (r: &Vec<BlockElement>)
        ensures
            r@ == self.blocks_view(),
    {
        &self.blocks
    }

    /// Process one line of input.
    ///
    /// Strategy outline:
    ///
    /// 1. Find the innermost open block whose conditions for remaining open
    ///    are met.
    /// 2. If the last match is a container (or a paragraph, which yields
    ///    immediately), try to find new block starts.
    /// 3. Otherwise, if the innermost open block is a paragraph and the line
    ///    still has content, add it to the paragraph as a continuation line.
    /// 4. Otherwise, close every block deeper than the last match.
    /// 5. The rest of the line becomes a new paragraph or text content of
    ///    the innermost open block.
    /// 6. Consume the line terminator.
    #[verifier::rlimit(100)]
    fn parse_line(&mut self)
        requires
            old(self).wf(),
            old(self).offset < old(self).src().len(),
        ensures
            final(self).wf(),
            final(self).input@ == old(self).input@,
            old(self).offset < final(self).offset,
            final(self).offset <= final(self).src().len(),
            final(self).blocks@.len() >= old(self).blocks@.len(),
            (forall|i: int|
                old(self).offset <= i < final(self).offset ==> is_blank_byte(
                    #[trigger] old(self).src()[i],
                )) ==> final(self).blocks@ == old(self).blocks@,
            (exists|i: int|
                old(self).offset <= i < final(self).offset && !is_blank_byte(
                    #[trigger] old(self).src()[i],
                )) ==> final(self).blocks@.len() >= 2,
            final(self).offset == next_line_start(old(self).src(), old(self).offset as int),
            forall|i: int|
                0 <= i < old(self).blocks@.len() - 1 ==> final(self).blocks@[i] == old(self).blocks@[i],
            final(self).blocks@[old(self).blocks@.len() - 1] == old(self).blocks@[old(self).blocks@.len() - 1] || (old(self).blocks@[old(self).blocks@.len() - 1] is Paragraph
                && final(self).blocks@[old(self).blocks@.len() - 1] is Paragraph && old(self).blocks@[old(self).blocks@.len() - 1]->Paragraph_lines@.is_prefix_of(
                final(self).blocks@[old(self).blocks@.len() - 1]->Paragraph_lines@,
            )),
            forall|i: int|
                old(self).blocks@.len() <= i < final(self).blocks@.len() ==> ((
                #[trigger] final(self).blocks@[i]) matches BlockElement::AtxHeading { content_range }
                    ==> content_range.end.offset == heading_content_end(
                    old(self).src(),
                    content_range.start.offset as int,
                    line_end_from(old(self).src(), old(self).offset as int),
                )),
            forall|i: int|
                old(self).blocks@.len() < i < final(self).blocks@.len() - 1
                    ==> (#[trigger] final(self).blocks@[i]) is BlockQuote
                    || final(self).blocks@[i] is Paragraph,
            line_match_viable(
                old(self).src(),
                old(self).blocks@,
                old(self).open_blocks@,
                old(self).offset as int,
                old(self).column as int,
                old(self).indent as int,
                old(self).tab_leftovers as int,
            ) ==> ((exists|i: int|
                old(self).blocks@.len() <= i < final(self).blocks@.len() && ((
                #[trigger] final(self).blocks@[i]) is BlockQuote || final(self).blocks@[i]
                    is AtxHeading || final(self).blocks@[i] is IndentedCodeBlock)) <==> line_opens_block(
                old(self).src(),
                old(self).blocks@,
                old(self).open_blocks@,
                old(self).offset as int,
                old(self).column as int,
                old(self).indent as int,
                old(self).tab_leftovers as int,
            )),
    {
        let ghost s = old(self).src();
        let ghost off0 = old(self).offset as int;

        let last_match_open_index = self.last_match();
        let ghost st1 = *self;

        let opened = self.parse_block(last_match_open_index);
        let ghost st2 = *self;

        let continued = !opened && self.parse_continuation_line();
        let ghost st3 = *self;

        if !opened && !continued {
            self.close_children_of(last_match_open_index);
        }
        let ghost st4 = *self;

        let line_end = self.peek_line();

        let t = self.open_blocks[self.open_blocks.len() - 1];
        let tip_is_paragraph = matches!(&self.blocks[t], BlockElement::Paragraph { .. });
        let tip_is_atx = matches!(&self.blocks[t], BlockElement::AtxHeading { .. });
        let tip_is_container = self.blocks[t].is_container();

        proof {
            // The scan never crosses a line terminator before the end of the
            // current line.
            lemma_line_end_from(s, st2.offset as int);
            assert forall|i: int| off0 <= i < st4.offset implies !is_terminator(
                #[trigger] s[i],
            ) by {
                if i < st1.offset {
                } else if i < st2.offset {
                } else {
                    assert(continued);
                }
            }
            if !opened && !continued && (self.blocks@[t as int] is Paragraph) {
                // The last matched block is this paragraph; a paragraph is a
                // leaf, so it was the innermost open block all along, and
                // the continuation attempt saw it and reported the line as
                // already exhausted.
                assert(last_match_open_index as int == st1.open_blocks@.len() - 1);
                assert(at_line_end(s, self.offset as int));
            }
        }

        let mut appended = false;

        if tip_is_paragraph {
            proof {
                if opened {
                    assert(false);
                } else if continued {
                    assert(at_line_end(s, self.offset as int));
                }
            }
        } else if tip_is_atx {
            proof {
                // An ATX heading never matches an existing line and is never
                // reached by closing, so it was opened on this line.
                assert(opened);
                assert(t as int == self.blocks@.len() - 1);
                assert(t >= 1);
            }
            let ghost pre_blocks = self.blocks@;
            proof {
                assert(forall|i: int, p: Position|
                    #![trigger pos_in_block(pre_blocks[i], p)]
                    0 <= i < pre_blocks.len() && pos_in_block(pre_blocks[i], p) ==> p.offset
                        <= line_end.offset);
            }
            self.set_position(line_end);
            let inp = self.input;
            let bytes = inp.as_bytes();
            let elem = self.blocks.pop().unwrap();
            match elem {
                BlockElement::AtxHeading { content_range } => {
                    let start = content_range.start;
                    proof {
                        assert(pos_in_block(pre_blocks[t as int], start));
                        // The heading's content lies within the current
                        // line: no terminator stands between its start and
                        // the line end.
                        lemma_line_end_from(s, st4.offset as int);
                        assert(off0 <= start.offset <= st4.offset);
                        assert forall|i: int|
                            start.offset <= i < line_end.offset implies !is_terminator(
                            #[trigger] s[i],
                        ) by {}
                        assert(block_wf(s, pre_blocks[t as int]));
                        lemma_same_line(s, start.offset as int, st4.offset as int);
                        lemma_same_line(s, st4.offset as int, line_end.offset as int);
                        assert(start.line == line_end.line);
                    }
                    let mut content_end = line_end;

                    // Trim trailing spaces and tabs, then trailing `#`
                    // markers, then the whitespace between the content and
                    // the markers, never passing the content start.
                    let ghost st_off = start.offset as int;
                    while content_end.offset > start.offset && (bytes[content_end.offset - 1]
                        == 32 || bytes[content_end.offset - 1] == 9)
                        invariant
                            bytes@ == s,
                            pos_wf(s, content_end),
                            start.offset <= content_end.offset <= line_end.offset,
                            content_end.line == line_end.line,
                            st_off == start.offset as int,
                            trim_back_ws(s, st_off, content_end.offset as int) == trim_back_ws(
                                s,
                                st_off,
                                line_end.offset as int,
                            ),
                        decreases content_end.offset,
                    {
                        proof {
                            lemma_step_non_terminator(s, content_end.offset - 1);
                            lemma_char_at_le(s, content_end.offset - 1);
                        }
                        content_end.offset = content_end.offset - 1;
                        content_end.character = content_end.character - 1;
                    }
                    proof {
                        assert(content_end.offset as int == trim_back_ws(
                            s,
                            st_off,
                            line_end.offset as int,
                        ));
                    }
                    let ghost t1 = content_end.offset as int;
                    while content_end.offset > start.offset && bytes[content_end.offset - 1] == 35
                        invariant
                            bytes@ == s,
                            pos_wf(s, content_end),
                            start.offset <= content_end.offset <= line_end.offset,
                            content_end.line == line_end.line,
                            st_off == start.offset as int,
                            trim_back_hashes(s, st_off, content_end.offset as int)
                                == trim_back_hashes(s, st_off, t1),
                        decreases content_end.offset,
                    {
                        proof {
                            lemma_step_non_terminator(s, content_end.offset - 1);
                            lemma_char_at_le(s, content_end.offset - 1);
                        }
                        content_end.offset = content_end.offset - 1;
                        content_end.character = content_end.character - 1;
                    }
                    proof {
                        assert(content_end.offset as int == trim_back_hashes(s, st_off, t1));
                    }
                    let ghost t2 = content_end.offset as int;
                    while content_end.offset > start.offset && (bytes[content_end.offset - 1]
                        == 32 || bytes[content_end.offset - 1] == 9)
                        invariant
                            bytes@ == s,
                            pos_wf(s, content_end),
                            start.offset <= content_end.offset <= line_end.offset,
                            content_end.line == line_end.line,
                            st_off == start.offset as int,
                            trim_back_ws(s, st_off, content_end.offset as int) == trim_back_ws(
                                s,
                                st_off,
                                t2,
                            ),
                        decreases content_end.offset,
                    {
                        proof {
                            lemma_step_non_terminator(s, content_end.offset - 1);
                            lemma_char_at_le(s, content_end.offset - 1);
                        }
                        content_end.offset = content_end.offset - 1;
                        content_end.character = content_end.character - 1;
                    }
                    proof {
                        assert(content_end.offset as int == heading_content_end(
                            s,
                            st_off,
                            line_end.offset as int,
                        ));
                    }

                    self.blocks.push(
                        BlockElement::AtxHeading {
                            content_range: Range { start, end: content_end },
                        },
                    );
                    proof {
                        let nb = self.blocks@;
                        assert(nb.len() == pre_blocks.len());
                        assert(forall|i: int| 0 <= i < t ==> nb[i] == pre_blocks[i]);
                        assert(nb[t as int] matches BlockElement::AtxHeading { content_range }
                            && content_range.start == start && content_range.end == content_end);
                        assert(content_end.offset as int == heading_content_end(
                            s,
                            start.offset as int,
                            line_end.offset as int,
                        ));
                        assert(content_end.line == line_end.line);
                        assert(range_wf(s, (Range { start, end: content_end })));
                        assert forall|q: Position| pos_in_block(nb[t as int], q) implies (q
                            == start || q == content_end) by {}
                        assert(blocks_wf(s, nb)) by {
                            assert forall|i: int, j: int, p: Position, q: Position|
                                #![trigger pos_in_block(nb[i], p), pos_in_block(nb[j], q)]
                                0 <= i < j < nb.len() && pos_in_block(nb[i], p) && pos_in_block(
                                    nb[j],
                                    q,
                                ) implies p.offset <= q.offset by {
                                if j < t {
                                    assert(pos_in_block(pre_blocks[i], p));
                                    assert(pos_in_block(pre_blocks[j], q));
                                } else {
                                    assert(j == t);
                                    assert(pos_in_block(pre_blocks[i], p));
                                    assert(q == start || q == content_end);
                                    assert(pos_in_block(pre_blocks[t as int], start));
                                }
                            }
                        }
                        assert forall|i: int, p: Position|
                            #![trigger pos_in_block(nb[i], p)]
                            0 <= i < nb.len() && pos_in_block(nb[i], p) implies p.offset
                            <= self.offset by {
                            if i < t {
                                assert(pos_in_block(pre_blocks[i], p));
                            }
                        }
                    }
                },
                _ => {
                    proof {
                        assert(false);
                    }
                },
            }
        } else if tip_is_container {
            if !self.is_at_line_end() {
                let start = self.position();
                let ghost pre_blocks = self.blocks@;
                proof {
                    assert(forall|i: int, p: Position|
                        #![trigger pos_in_block(pre_blocks[i], p)]
                        0 <= i < pre_blocks.len() && pos_in_block(pre_blocks[i], p) ==> p.offset
                            <= start.offset);
                }
                self.consume_line();
                let end = self.position();

                let mut lines: Vec<Range> = Vec::new();
                lines.push(Range { start, end });
                let child = BlockElement::Paragraph { lines };
                proof {
                    assert forall|p: Position| pos_in_block(child, p) implies (p == start || p
                        == end) by {
                        let k = choose|k: int|
                            0 <= k < child->Paragraph_lines@.len() && ((
                            #[trigger] child->Paragraph_lines@[k]).start == p
                                || child->Paragraph_lines@[k].end == p);
                    }
                    assert(block_wf(s, child));
                }
                self.append_child(child);
                proof {
                    assert(self.blocks@[self.blocks@.len() - 1] is Paragraph);
                }
                appended = true;
            }
        } else {
            // The innermost open block is an indented code block (the
            // reserved variants are never produced): its text is consumed
            // without being recorded.
            self.consume_line();
        }

        let ghost st5 = *self;
        self.consume_line_end();

        proof {
            let offf = self.offset as int;
            assert(self.blocks@ == st5.blocks@);
            // The whole call consumes exactly this line and its terminator.
            if tip_is_paragraph {
                assert(at_line_end(s, st4.offset as int));
                assert(st5.offset == line_end_from(s, st4.offset as int));
            } else if tip_is_atx {
                assert(st5.offset == line_end_from(s, st4.offset as int));
            } else if tip_is_container {
                if appended {
                    assert(st5.offset == line_end_from(s, st4.offset as int));
                } else {
                    assert(at_line_end(s, st4.offset as int));
                    assert(st5.offset == line_end_from(s, st4.offset as int));
                }
            } else {
                assert(st5.offset == line_end_from(s, st4.offset as int));
            }
            lemma_line_end_from_skip(s, off0, st4.offset as int);
            assert(st5.offset == line_end_from(s, off0));
            assert(self.offset == next_line_start(s, off0));
            // A structural block was opened on this line exactly when a
            // recognizer condition held at the walk-determined position.
            let w = match_walk(
                s,
                old(self).blocks@,
                old(self).open_blocks@,
                0,
                old(self).offset as int,
                old(self).column as int,
                old(self).indent as int,
                old(self).tab_leftovers as int,
            );
            assert((last_match_open_index as int, st1.offset as int, st1.column as int, st1.indent as int, st1.tab_leftovers as int)
                == w);
            if opened {
                assert(st2.blocks@.len() - 1 >= old(self).blocks@.len());
                assert(self.blocks@[st2.blocks@.len() - 1] == st2.blocks@[st2.blocks@.len() - 1]
                    || tip_is_atx);
                assert(exists|i: int|
                    old(self).blocks@.len() <= i < self.blocks@.len() && ((
                    #[trigger] self.blocks@[i]) is BlockQuote || self.blocks@[i] is AtxHeading
                        || self.blocks@[i] is IndentedCodeBlock));
            } else {
                assert forall|i: int|
                    old(self).blocks@.len() <= i < self.blocks@.len() implies !((
                #[trigger] self.blocks@[i]) is BlockQuote || self.blocks@[i] is AtxHeading
                    || self.blocks@[i] is IndentedCodeBlock) by {
                    assert(appended && i == st2.blocks@.len());
                    assert(self.blocks@[i] is Paragraph);
                }
            }
            // Any heading produced on this line had its content end set to
            // the line end trimmed back over markers and whitespace.
            assert forall|i: int|
                old(self).blocks@.len() <= i < self.blocks@.len() implies ((
            #[trigger] self.blocks@[i]) matches BlockElement::AtxHeading { content_range }
                ==> content_range.end.offset == heading_content_end(
                s,
                content_range.start.offset as int,
                line_end_from(s, off0),
            )) by {
                if opened {
                    if i < st2.blocks@.len() - 1 {
                        assert(st2.blocks@[i] is BlockQuote);
                        assert(self.blocks@[i] == st2.blocks@[i]);
                    } else if i == st2.blocks@.len() - 1 {
                        if tip_is_atx {
                            assert(line_end.offset == line_end_from(s, off0));
                        } else {
                            assert(self.blocks@[i] == st2.blocks@[i]);
                            assert(!(self.blocks@[i] is AtxHeading));
                        }
                    } else {
                        assert(appended && i == st2.blocks@.len());
                        assert(self.blocks@[i] is Paragraph);
                    }
                } else {
                    assert(appended && i == st2.blocks@.len());
                    assert(self.blocks@[i] is Paragraph);
                }
            }
            // Blocks already produced before this call are preserved: new
            // blocks are only appended, and only the innermost open
            // paragraph may gain a line.
            assert(st2.blocks@.len() >= old(self).blocks@.len());
            assert forall|i: int| 0 <= i < old(self).blocks@.len() implies st2.blocks@[i]
                == old(self).blocks@[i] by {
                assert(st2.blocks@[i] == old(self).blocks@.subrange(
                    0,
                    old(self).blocks@.len() as int,
                )[i]);
            }
            if opened {
                assert(self.blocks@.len() >= 2);
                if st2.blocks@[st2.blocks@.len() - 1] is IndentedCodeBlock {
                    // The code-block line itself holds a non-blank byte,
                    // consumed when the line was drained.
                    assert(!is_blank_byte(s[st2.offset as int]));
                    assert(!tip_is_paragraph && !tip_is_atx && !tip_is_container);
                    assert(st5.offset == line_end_from(s, st4.offset as int));
                    lemma_line_end_from(s, st4.offset as int);
                    assert(off0 <= st2.offset as int && (st2.offset as int) < offf);
                } else {
                    assert(exists|i: int|
                        st1.offset <= i < st2.offset && !is_blank_byte(#[trigger] s[i]));
                }
            } else if continued {
                // The continuation consumed the non-blank byte that made the
                // paragraph match.
                let lm = last_match_open_index as int;
                let arg = st1.open_blocks@[lm] as int;
                assert(!at_line_end(s, st2.offset as int));
                if !(st1.blocks@[arg].container_spec() || st1.blocks@[arg] is Paragraph) {
                    // A leaf that is not a paragraph at the last match would
                    // itself be the innermost open block, contradicting the
                    // paragraph tip the continuation saw.
                    assert(st1.blocks@[arg].leaf_spec());
                    assert(lm == st1.open_blocks@.len() - 1);
                    assert(false);
                }
                assert(st2.offset == spaces_end(s, st2.offset as int));
                if s[st2.offset as int] == 32 || s[st2.offset as int] == 9 {
                    lemma_spaces_end(s, st2.offset as int + 1);
                    assert(false);
                }
                assert(!is_blank_byte(s[st2.offset as int]));
                assert(off0 <= st2.offset as int && (st2.offset as int) < offf);
                assert(self.blocks@.len() >= 2);
            } else {
                assert(st4.blocks@ == old(self).blocks@);
                if tip_is_paragraph {
                    assert(t >= 1);
                    assert(self.blocks@ == old(self).blocks@);
                    assert(self.blocks@.len() >= 2);
                } else if tip_is_container {
                    if appended {
                        let lm = last_match_open_index as int;
                        let arg = st1.open_blocks@[lm] as int;
                        assert(st4.offset == st2.offset);
                        assert(t as int == arg);
                        assert(st1.blocks@[arg].container_spec());
                        assert(st4.offset == spaces_end(s, st4.offset as int));
                        if s[st4.offset as int] == 32 || s[st4.offset as int] == 9 {
                            lemma_spaces_end(s, st4.offset as int + 1);
                            assert(false);
                        }
                        assert(!at_line_end(s, st4.offset as int));
                        assert(!is_blank_byte(s[st4.offset as int]));
                        assert(off0 <= st4.offset as int && (st4.offset as int) < offf);
                        assert(self.blocks@.len() >= 2);
                    } else {
                        assert(self.blocks@ == old(self).blocks@);
                        if exists|i: int|
                            off0 <= i < offf && !is_blank_byte(#[trigger] s[i]) {
                            let k = choose|k: int|
                                off0 <= k < offf && !is_blank_byte(#[trigger] s[k]);
                            assert(s[k] == 62);
                            assert(old(self).open_blocks@.len() >= 2);
                            assert(old(self).open_blocks@[1] >= 1);
                            assert(self.blocks@.len() >= 2);
                        }
                    }
                } else {
                    // Indented code block: an earlier line already produced
                    // it, so the sequence holds more than the root.
                    assert(self.blocks@[t as int] is IndentedCodeBlock);
                    assert(t >= 1);
                    assert(self.blocks@.len() >= 2);
                }
            }
        }
    }

    /// Walk the open blocks from the outermost inward, consuming leading
    /// whitespace and each block's own continuation marker, and report the
    /// index (into the open-block stack) of the innermost block that still
    /// matches. The root always matches, so the result is well defined.
    fn last_match(&mut self) -> (r: usize)
        requires
            old(self).wf(),
        ensures
            final(self).wf(),
            final(self).input@ == old(self).input@,
            final(self).blocks@ == old(self).blocks@,
            final(self).open_blocks@ == old(self).open_blocks@,
            r < old(self).open_blocks@.len(),
            !(final(self).blocks@[final(self).open_blocks@[r as int] as int] is AtxHeading),
            old(self).offset <= final(self).offset,
            final(self).line == old(self).line,
            forall|i: int|
                old(self).offset <= i < final(self).offset ==> (#[trigger] old(self).src()[i] == 32
                    || old(self).src()[i] == 9 || old(self).src()[i] == 62),
            old(self).open_blocks@.len() == 1 ==> forall|i: int|
                old(self).offset <= i < final(self).offset ==> (#[trigger] old(self).src()[i] == 32
                    || old(self).src()[i] == 9),
            final(self).tab_leftovers == 0 || final(self).blocks@[final(self).open_blocks@[
                r as int] as int] is BlockQuote,
            (r as int, final(self).offset as int, final(self).column as int, final(self).indent as int, final(self).tab_leftovers as int) == match_walk(
                old(self).src(),
                old(self).blocks@,
                old(self).open_blocks@,
                0,
                old(self).offset as int,
                old(self).column as int,
                old(self).indent as int,
                old(self).tab_leftovers as int,
            ),
    {
        let ghost s = old(self).src();
        let mut block_open_index: usize = 0;
        while block_open_index < self.open_blocks.len()
            invariant
                self.wf(),
                s == self.src(),
                Self::same_blocks(*old(self), *self),
                self.line == old(self).line,
                old(self).offset <= self.offset,
                block_open_index <= self.open_blocks@.len(),
                forall|k: int|
                    0 <= k < block_open_index ==> !((
                    #[trigger] self.blocks@[self.open_blocks@[k] as int]) is AtxHeading),
                forall|i: int|
                    old(self).offset <= i < self.offset ==> (#[trigger] s[i] == 32 || s[i] == 9
                        || s[i] == 62),
                self.open_blocks@.len() == 1 ==> forall|i: int|
                    old(self).offset <= i < self.offset ==> (#[trigger] s[i] == 32 || s[i] == 9),
                block_open_index == 0 || self.tab_leftovers == 0 || (block_open_index >= 1
                    && self.blocks@[self.open_blocks@[block_open_index - 1] as int]
                    is BlockQuote),
                match_walk(
                    s,
                    self.blocks@,
                    self.open_blocks@,
                    block_open_index as int,
                    self.offset as int,
                    self.column as int,
                    self.indent as int,
                    self.tab_leftovers as int,
                ) == match_walk(
                    s,
                    old(self).blocks@,
                    old(self).open_blocks@,
                    0,
                    old(self).offset as int,
                    old(self).column as int,
                    old(self).indent as int,
                    old(self).tab_leftovers as int,
                ),
            decreases self.open_blocks@.len() - block_open_index,
        {
            let ghost pre = *self;
            self.consume_spaces();
            proof {
                if pre.tab_leftovers > 0 {
                    assert(spaces_end(s, pre.offset as int) == spaces_end(
                        s,
                        pre.offset as int + 1,
                    ));
                }
                assert((self.offset as int, self.column as int, self.indent as int, self.tab_leftovers as int) == ws_state(
                    s,
                    pre.offset as int,
                    pre.column as int,
                    pre.indent as int,
                    pre.tab_leftovers as int,
                ));
            }

            let ghost mut pre_quote_offset: usize = 0;
            let ghost mut pre_quote_column: usize = 0;

            let block_index = self.open_blocks[block_open_index];
            let b_root = matches!(&self.blocks[block_index], BlockElement::Root);
            let b_quote = matches!(&self.blocks[block_index], BlockElement::BlockQuote);
            let b_para = matches!(&self.blocks[block_index], BlockElement::Paragraph { .. });
            let b_icb = matches!(&self.blocks[block_index], BlockElement::IndentedCodeBlock);

            let matched: bool;
            if b_root {
                matched = true;
            } else if b_quote {
                let has_marker = match self.peek() {
                    Some(b) => b == 62,
                    None => false,
                };
                if has_marker && !self.is_indented() {
                    proof {
                        pre_quote_offset = self.offset;
                        pre_quote_column = self.column;
                    }
                    self.consume_columns(1);
                    let follow = match self.peek() {
                        Some(b) => b == 32 || b == 9,
                        None => false,
                    };
                    if follow {
                        self.consume_columns(1);
                    }
                    proof {
                        assert((self.offset as int, self.column as int, self.tab_leftovers as int)
                            == quote_match_state(s, pre_quote_offset as int, pre_quote_column as int));
                    }
                    matched = true;
                } else {
                    matched = false;
                }
            } else if b_para {
                matched = !self.is_at_line_end();
            } else if b_icb {
                matched = self.is_indented() || self.is_at_line_end();
            } else {
                // An ATX heading occupies exactly one line and never matches;
                // the reserved variants are never produced.
                matched = false;
            }

            proof {
                assert(matched == open_block_matches(
                    s,
                    self.blocks@[block_index as int],
                    (if b_quote && matched {
                        pre_quote_offset as int
                    } else {
                        self.offset as int
                    }),
                    self.indent as int,
                ));
            }

            if !matched {
                assert(block_open_index >= 1);
                return block_open_index - 1;
            }

            block_open_index = block_open_index + 1;
        }

        self.open_blocks.len() - 1
    }

    /// Starting from the innermost matched open block, try to open new
    /// blocks as long as the current block can accept one (it is a container,
    /// or a paragraph, which yields to any new block start). Each success
    /// closes everything deeper, appends the new block as a child, and
    /// continues from it. Reports whether any block was opened.
    fn parse_block(&mut self, block_open_index: usize) -> (r: bool)
        requires
            old(self).wf(),
            block_open_index < old(self).open_blocks@.len(),
            !(old(self).blocks@[old(self).open_blocks@[block_open_index as int] as int]
                is AtxHeading),
            old(self).tab_leftovers == 0 || old(self).blocks@[old(self).open_blocks@[
                block_open_index as int] as int] is BlockQuote,
        ensures
            final(self).wf(),
            final(self).input@ == old(self).input@,
            old(self).offset <= final(self).offset,
            final(self).line == old(self).line,
            final(self).blocks@.len() >= old(self).blocks@.len(),
            !r ==> final(self).blocks@ == old(self).blocks@,
            !r ==> final(self).open_blocks@ == old(self).open_blocks@,
            !r ==> forall|i: int|
                old(self).offset <= i < final(self).offset ==> (#[trigger] old(self).src()[i] == 32
                    || old(self).src()[i] == 9),
            !r ==> (final(self).offset == spaces_end(old(self).src(), final(self).offset as int)
                || !(old(self).blocks@[old(self).open_blocks@[block_open_index as int] as int]
                    .container_spec()
                || old(self).blocks@[old(self).open_blocks@[block_open_index as int] as int]
                    is Paragraph)),
            r ==> final(self).blocks@.len() >= 2,
            r ==> final(self).blocks@.len() > old(self).blocks@.len(),
            r ==> final(self).open_blocks@[final(self).open_blocks@.len() - 1]
                == final(self).blocks@.len() - 1,
            r ==> (final(self).blocks@[final(self).blocks@.len() - 1] is BlockQuote || final(self).blocks@[final(self).blocks@.len() - 1] is AtxHeading || final(self).blocks@[final(self).blocks@.len() - 1] is IndentedCodeBlock),
            r ==> (final(self).blocks@[final(self).blocks@.len() - 1] is IndentedCodeBlock ==> (
            final(self).offset < final(self).src().len() && !is_terminator(
                final(self).src()[final(self).offset as int],
            ) && final(self).src()[final(self).offset as int] != 32 && final(self).src()[final(self).offset as int] != 9)),
            r ==> (!(final(self).blocks@[final(self).blocks@.len() - 1] is IndentedCodeBlock)
                ==> exists|i: int|
                old(self).offset <= i < final(self).offset && !is_blank_byte(
                    #[trigger] old(self).src()[i],
                )),
            final(self).tab_leftovers == 0,
            old(self).blocks@.is_prefix_of(final(self).blocks@),
            r ==> forall|i: int|
                old(self).blocks@.len() <= i < final(self).blocks@.len() - 1 ==> (
                #[trigger] final(self).blocks@[i]) is BlockQuote,
            r ==> (final(self).blocks@[final(self).blocks@.len() - 1] matches BlockElement::AtxHeading { content_range }
                ==> old(self).offset <= content_range.start.offset <= final(self).offset),
            r ==> opens_shape(
                old(self).open_blocks@,
                old(self).blocks@.len() as int,
                (if old(self).blocks@[old(self).open_blocks@[block_open_index as int] as int]
                    is Paragraph {
                    block_open_index as int
                } else {
                    block_open_index + 1
                }),
                final(self).open_blocks@,
                final(self).blocks@.len() as int,
            ),
            r ==> ((final(self).blocks@[old(self).blocks@.len() as int] is BlockQuote
                <==> quote_start_cond(
                old(self).src(),
                ws_state(
                    old(self).src(),
                    old(self).offset as int,
                    old(self).column as int,
                    old(self).indent as int,
                    old(self).tab_leftovers as int,
                ).0,
                ws_state(
                    old(self).src(),
                    old(self).offset as int,
                    old(self).column as int,
                    old(self).indent as int,
                    old(self).tab_leftovers as int,
                ).2,
            )) && (final(self).blocks@[old(self).blocks@.len() as int] is AtxHeading
                ==> atx_start_cond(
                old(self).src(),
                ws_state(
                    old(self).src(),
                    old(self).offset as int,
                    old(self).column as int,
                    old(self).indent as int,
                    old(self).tab_leftovers as int,
                ).0,
                ws_state(
                    old(self).src(),
                    old(self).offset as int,
                    old(self).column as int,
                    old(self).indent as int,
                    old(self).tab_leftovers as int,
                ).2,
            ))),
            (old(self).blocks@[old(self).open_blocks@[block_open_index as int] as int]
                .container_spec()
                || old(self).blocks@[old(self).open_blocks@[block_open_index as int] as int]
                    is Paragraph) ==> (r <==> (quote_start_cond(
                old(self).src(),
                ws_state(
                    old(self).src(),
                    old(self).offset as int,
                    old(self).column as int,
                    old(self).indent as int,
                    old(self).tab_leftovers as int,
                ).0,
                ws_state(
                    old(self).src(),
                    old(self).offset as int,
                    old(self).column as int,
                    old(self).indent as int,
                    old(self).tab_leftovers as int,
                ).2,
            ) || atx_start_cond(
                old(self).src(),
                ws_state(
                    old(self).src(),
                    old(self).offset as int,
                    old(self).column as int,
                    old(self).indent as int,
                    old(self).tab_leftovers as int,
                ).0,
                ws_state(
                    old(self).src(),
                    old(self).offset as int,
                    old(self).column as int,
                    old(self).indent as int,
                    old(self).tab_leftovers as int,
                ).2,
            ) || (!(
            old(self).blocks@[old(self).open_blocks@[old(self).open_blocks@.len() - 1] as int]
                is Paragraph) && ws_state(
                old(self).src(),
                old(self).offset as int,
                old(self).column as int,
                old(self).indent as int,
                old(self).tab_leftovers as int,
            ).2 >= 4 && !at_line_end(
                old(self).src(),
                ws_state(
                    old(self).src(),
                    old(self).offset as int,
                    old(self).column as int,
                    old(self).indent as int,
                    old(self).tab_leftovers as int,
                ).0,
            )))),
            forall|i: int|
                old(self).offset <= i < final(self).offset ==> !is_terminator(
                    #[trigger] old(self).src()[i],
                ),
            !r ==> ((old(self).blocks@[old(self).open_blocks@[block_open_index as int] as int]
                .container_spec()
                || old(self).blocks@[old(self).open_blocks@[block_open_index as int] as int]
                    is Paragraph) ==> (!quote_start_cond(
                old(self).src(),
                final(self).offset as int,
                final(self).indent as int,
            ) && !atx_start_cond(
                old(self).src(),
                final(self).offset as int,
                final(self).indent as int,
            ) && (final(self).blocks@[final(self).open_blocks@[final(self).open_blocks@.len()
                - 1] as int] is Paragraph || final(self).indent < 4 || at_line_end(
                old(self).src(),
                final(self).offset as int,
            )))),
    {
        let ghost s = old(self).src();
        let ghost arg_index = block_open_index as int;
        let ghost entry_ws = ws_state(
            s,
            old(self).offset as int,
            old(self).column as int,
            old(self).indent as int,
            old(self).tab_leftovers as int,
        );
        let ghost start_conds = quote_start_cond(s, entry_ws.0, entry_ws.2) || atx_start_cond(
            s,
            entry_ws.0,
            entry_ws.2,
        ) || (!(
        old(self).blocks@[old(self).open_blocks@[old(self).open_blocks@.len() - 1] as int]
            is Paragraph) && entry_ws.2 >= 4 && !at_line_end(s, entry_ws.0));
        let mut result = false;
        let mut block_open_index = block_open_index;
        let mut block_index = self.open_blocks[block_open_index];

        let mut is_paragraph = matches!(&self.blocks[block_index], BlockElement::Paragraph { .. });

        proof {
            if is_paragraph {
                assert(block_open_index as int == self.open_blocks@.len() - 1);
                assert(block_open_index >= 1);
            }
        }

        while self.blocks[block_index].is_container() || is_paragraph
            invariant_except_break
                !result ==> (self.offset == old(self).offset && self.column == old(self).column
                    && self.indent == old(self).indent && self.tab_leftovers == old(self).tab_leftovers),
            invariant
                self.wf(),
                s == self.src(),
                self.input@ == old(self).input@,
                self.line == old(self).line,
                old(self).offset <= self.offset,
                block_open_index < self.open_blocks@.len(),
                self.open_blocks@[block_open_index as int] == block_index,
                is_paragraph <==> self.blocks@[block_index as int] is Paragraph,
                is_paragraph ==> block_open_index >= 1,
                is_paragraph ==> block_open_index as int == self.open_blocks@.len() - 1,
                self.blocks@.len() >= old(self).blocks@.len(),
                !result ==> self.blocks@ == old(self).blocks@,
                !result ==> self.open_blocks@ == old(self).open_blocks@,
                !result ==> forall|i: int|
                    old(self).offset <= i < self.offset ==> (#[trigger] s[i] == 32 || s[i] == 9),
                !result ==> (block_open_index as int == arg_index && is_paragraph == (
                old(self).blocks@[old(self).open_blocks@[arg_index] as int] is Paragraph)),
                result ==> self.blocks@.len() >= 2,
                result ==> self.blocks@.len() > old(self).blocks@.len(),
                result ==> self.open_blocks@[self.open_blocks@.len() - 1] == self.blocks@.len()
                    - 1,
                result ==> block_open_index as int == self.open_blocks@.len() - 1,
                result ==> (self.blocks@[self.blocks@.len() - 1] is BlockQuote
                    || self.blocks@[self.blocks@.len() - 1] is AtxHeading
                    || self.blocks@[self.blocks@.len() - 1] is IndentedCodeBlock),
                result ==> (self.blocks@[self.blocks@.len() - 1] is IndentedCodeBlock ==> (
                self.offset < s.len() && !is_terminator(s[self.offset as int])
                    && s[self.offset as int] != 32 && s[self.offset as int] != 9)),
                result ==> (!(self.blocks@[self.blocks@.len() - 1] is IndentedCodeBlock)
                    ==> exists|i: int|
                    old(self).offset <= i < self.offset && !is_blank_byte(#[trigger] s[i])),
                self.tab_leftovers == 0 || self.blocks@[block_index as int] is BlockQuote,
                old(self).blocks@.is_prefix_of(self.blocks@),
                result ==> forall|i: int|
                    old(self).blocks@.len() <= i < self.blocks@.len() - 1 ==> (
                    #[trigger] self.blocks@[i]) is BlockQuote,
                result ==> (self.blocks@[self.blocks@.len() - 1] matches BlockElement::AtxHeading { content_range }
                    ==> old(self).offset <= content_range.start.offset <= self.offset),
                result ==> opens_shape(
                    old(self).open_blocks@,
                    old(self).blocks@.len() as int,
                    (if old(self).blocks@[old(self).open_blocks@[arg_index] as int]
                        is Paragraph {
                        arg_index
                    } else {
                        arg_index + 1
                    }),
                    self.open_blocks@,
                    self.blocks@.len() as int,
                ),
                entry_ws == ws_state(
                    s,
                    old(self).offset as int,
                    old(self).column as int,
                    old(self).indent as int,
                    old(self).tab_leftovers as int,
                ),

                start_conds == (quote_start_cond(s, entry_ws.0, entry_ws.2) || atx_start_cond(
                    s,
                    entry_ws.0,
                    entry_ws.2,
                ) || (!(
                old(self).blocks@[old(self).open_blocks@[old(self).open_blocks@.len()
                    - 1] as int] is Paragraph) && entry_ws.2 >= 4 && !at_line_end(
                    s,
                    entry_ws.0,
                ))),
                result ==> start_conds,
                result ==> ((self.blocks@[old(self).blocks@.len() as int] is BlockQuote
                    <==> quote_start_cond(s, entry_ws.0, entry_ws.2)) && (
                self.blocks@[old(self).blocks@.len() as int] is AtxHeading ==> atx_start_cond(
                    s,
                    entry_ws.0,
                    entry_ws.2,
                ))),
                forall|i: int|
                    old(self).offset <= i < self.offset ==> !is_terminator(#[trigger] s[i]),
            ensures
                self.tab_leftovers == 0,
                !result ==> ((self.offset as int == entry_ws.0 && self.indent as int
                    == entry_ws.2) || !(
                self.blocks@[self.open_blocks@[block_open_index as int] as int].container_spec()
                    || self.blocks@[self.open_blocks@[block_open_index as int] as int]
                    is Paragraph)),
                !result ==> (!quote_start_cond(s, self.offset as int, self.indent as int)
                    && !atx_start_cond(s, self.offset as int, self.indent as int) && (
                self.blocks@[self.open_blocks@[self.open_blocks@.len() - 1] as int] is Paragraph
                    || self.indent < 4 || at_line_end(s, self.offset as int))) || !(
                self.blocks@[self.open_blocks@[block_open_index as int] as int].container_spec()
                    || self.blocks@[self.open_blocks@[block_open_index as int] as int]
                    is Paragraph),
                !result ==> (self.offset == spaces_end(s, self.offset as int) || !(
                self.blocks@[block_index as int].container_spec()
                    || self.blocks@[block_index as int] is Paragraph)),
            decreases s.len() - self.offset, (if (self.blocks@[block_index as int].container_spec()
                || self.blocks@[block_index as int] is Paragraph) {
                1int
            } else {
                0int
            }),
        {
            let ghost pre_result = result;
            let ghost head_tip = block_index;
            let ghost cs_entry = self.offset as int;
            let ghost pre_cs = *self;
            self.consume_spaces();
            proof {
                lemma_spaces_end_idempotent(s, cs_entry);
                if !pre_result {
                    if pre_cs.tab_leftovers > 0 {
                        assert(spaces_end(s, pre_cs.offset as int) == spaces_end(
                            s,
                            pre_cs.offset as int + 1,
                        ));
                    }
                    assert(self.offset as int == entry_ws.0);
                    assert(self.column as int == entry_ws.1);
                    assert(self.indent as int == entry_ws.2);
                    assert(self.tab_leftovers as int == entry_ws.3);
                }
            }
            let ghost pre_start = *self;
            let new_block = self.block_start_start();

            match new_block {
                Some(new_block) => {
                    if is_paragraph {
                        block_open_index = block_open_index - 1;
                        is_paragraph = false;
                    }

                    proof {
                        // The insertion parent is a container: either the
                        // current block itself, or, when a paragraph yields,
                        // the paragraph's own parent.
                        assert(self.blocks@[self.open_blocks@[block_open_index as int] as int]
                            .container_spec());
                        // Every recorded position lies at or before the scan
                        // position, which is where the new block's positions
                        // (if any) sit.
                        assert(forall|p: Position| #[trigger]
                            pos_in_block(new_block, p) ==> p.offset <= self.offset);
                        assert(forall|i: int, p: Position, q: Position|
                            #![trigger pos_in_block(self.blocks@[i], p), pos_in_block(new_block, q)]
                            0 <= i < self.blocks@.len() && pos_in_block(self.blocks@[i], p)
                                && pos_in_block(new_block, q) ==> p.offset <= q.offset);
                    }
                    let ghost inserted = new_block;
                    let ghost pre_insert = *self;
                    self.insert_child(block_open_index, new_block);
                    block_open_index = self.open_blocks.len() - 1;
                    block_index = self.open_blocks[block_open_index];
                    result = true;
                    self.indent = 0;
                    proof {
                        assert(self.open_blocks@.len() == block_open_index + 1);
                        assert(self.open_blocks@[block_open_index as int]
                            == pre_insert.blocks@.len());
                        assert(self.blocks@.len() == pre_insert.blocks@.len() + 1);
                        assert(self.blocks@[self.blocks@.len() - 1] == inserted);
                        assert forall|i: int|
                            old(self).blocks@.len() <= i < self.blocks@.len() - 1 implies (
                        #[trigger] self.blocks@[i]) is BlockQuote by {
                            assert(pre_result);
                            assert(self.blocks@[i] == pre_insert.blocks@[i]);
                            if i == pre_insert.blocks@.len() - 1 {
                                // The block the loop continued from was both a
                                // newly opened block and a container, hence a
                                // block quote.
                                assert(head_tip as int == pre_insert.blocks@.len() - 1);
                                assert(pre_insert.blocks@[i] is BlockQuote);
                            }
                        }
                        if inserted is IndentedCodeBlock {
                            assert(self.offset == pre_start.offset);
                        } else if inserted is BlockQuote {
                            assert(s[pre_start.offset as int] == 62);
                            assert(!is_blank_byte(s[pre_start.offset as int]));
                            assert(old(self).offset <= pre_start.offset < self.offset);
                        } else {
                            assert(s[pre_start.offset as int] == 35);
                            assert(!is_blank_byte(s[pre_start.offset as int]));
                            assert(old(self).offset <= pre_start.offset < self.offset);
                        }
                    }
                },
                None => {
                    break ;
                },
            }
        }

        result
    }

    /// Try to start a block quote at the scan position: a `>` marker outside
    /// code-block indentation, optionally followed by one space or tab of
    /// consumed width.
    fn parse_block_quote_start(&mut self) -> (r: Option<BlockElement>)
        requires
            old(self).wf(),
        ensures
            final(self).wf(),
            Self::same_blocks(*old(self), *final(self)),
            final(self).line == old(self).line,
            old(self).offset <= final(self).offset,
            r is None ==> (final(self).offset == old(self).offset && final(self).character == old(self).character && final(self).column == old(self).column && final(self).indent == old(self).indent && final(self).tab_leftovers == old(self).tab_leftovers),
            r is Some ==> (r == Some(BlockElement::BlockQuote) && old(self).offset < old(self).src().len() && old(self).src()[old(self).offset as int] == 62 && final(self).offset
                > old(self).offset),
            final(self).indent == old(self).indent,
            r is Some <==> quote_start_cond(
                old(self).src(),
                old(self).offset as int,
                old(self).indent as int,
            ),
            forall|i: int|
                old(self).offset <= i < final(self).offset ==> !is_terminator(
                    #[trigger] old(self).src()[i],
                ),
            (r is Some && (old(self).offset + 1 >= old(self).src().len() || (old(self).src()[
                old(self).offset as int + 1] != 32 && old(self).src()[old(self).offset as int + 1]
                != 9))) ==> (final(self).offset == old(self).offset + 1 && final(self).character
                == old(self).character + 1 && final(self).column == old(self).column && final(self).tab_leftovers == 0),
            (r is Some && old(self).offset + 1 < old(self).src().len() && old(self).src()[old(self).offset as int + 1] == 32) ==> (final(self).offset == old(self).offset + 2 && final(self).character == old(self).character + 2 && final(self).column == old(self).column + 1
                && final(self).tab_leftovers == 0),
            (r is Some && old(self).offset + 1 < old(self).src().len() && old(self).src()[old(self).offset as int + 1] == 9) ==> (final(self).column == old(self).column && (old(self).column
                % 4 == 3 ==> final(self).offset == old(self).offset + 2 && final(self).character
                == old(self).character + 2 && final(self).tab_leftovers == 0) && (old(self).column
                % 4 != 3 ==> final(self).offset == old(self).offset + 1 && final(self).character
                == old(self).character + 1 && final(self).tab_leftovers == 3 - (old(self).column
                % 4))),
    {
        let ghost s = old(self).src();
        let has_marker = match self.peek() {
            Some(b) => b == 62,
            None => false,
        };
        if !self.is_indented() && has_marker {
            proof {
                lemma_step_non_terminator(s, self.offset as int);
                lemma_char_at_le(s, self.offset as int);
            }
            self.offset = self.offset + 1;
            self.character = self.character + 1;
            self.tab_leftovers = 0;

            let follow = match self.peek() {
                Some(b) => b == 32 || b == 9,
                None => false,
            };
            if follow {
                self.consume_columns(1);
            }
            Some(BlockElement::BlockQuote)
        } else {
            None
        }
    }

    /// Try to start an ATX heading at the scan position: one to six `#`
    /// characters outside code-block indentation, followed by a space or
    /// tab. On success the scan moves to the start of the heading content;
    /// on failure the consumed `#` run is restored.
    fn parse_atx_heading_start(&mut self) -> (r: Option<BlockElement>)
        requires
            old(self).wf(),
        ensures
            final(self).wf(),
            Self::same_blocks(*old(self), *final(self)),
            final(self).line == old(self).line,
            old(self).offset <= final(self).offset,
            r is None ==> (final(self).offset == old(self).offset && final(self).character == old(self).character && final(self).column == old(self).column && final(self).indent == old(self).indent && final(self).tab_leftovers == old(self).tab_leftovers),
            r matches Some(b) ==> (b matches BlockElement::AtxHeading { content_range }
                && content_range.start == content_range.end && pos_wf(
                old(self).src(),
                content_range.start,
            ) && content_range.start.offset == final(self).offset && old(self).offset < old(self).src().len() && old(self).src()[old(self).offset as int] == 35 && final(self).offset
                > old(self).offset),
            r is Some ==> final(self).tab_leftovers == 0,
            r is Some <==> atx_start_cond(
                old(self).src(),
                old(self).offset as int,
                old(self).indent as int,
            ),
            r is Some ==> final(self).offset == spaces_end(
                old(self).src(),
                old(self).offset + hash_run(old(self).src(), old(self).offset as int),
            ),
            forall|i: int|
                old(self).offset <= i < final(self).offset ==> !is_terminator(
                    #[trigger] old(self).src()[i],
                ),
    {
        let ghost s = old(self).src();
        let has_hash = match self.peek() {
            Some(b) => b == 35,
            None => false,
        };
        if !self.is_indented() && has_hash {
            let level = self.consume_hashes();

            let mut is_heading = false;
            if level <= 6 {
                match self.peek() {
                    Some(b) => {
                        if b == 32 || b == 9 {
                            is_heading = true;
                        }
                    },
                    None => {},
                }
            }

            if is_heading {
                self.consume_spaces();
                let position = self.position();
                Some(
                    BlockElement::AtxHeading {
                        content_range: Range { start: position, end: position },
                    },
                )
            } else {
                // Restore the previous position.
                self.offset = self.offset - level;
                self.character = self.character - level;
                None
            }
        } else {
            None
        }
    }

    /// Try to start an indented code block at the scan position: at least
    /// four columns of indent, some content left on the line, and no
    /// paragraph open (an indented line continues an open paragraph).
    fn parse_indented_code_block_start(&mut self) -> (r: Option<BlockElement>)
        requires
            old(self).wf(),
        ensures
            final(self).wf(),
            *final(self) == *old(self),
            r is Some ==> r == Some(BlockElement::IndentedCodeBlock),
            r is Some <==> (!(
            old(self).blocks@[old(self).open_blocks@[old(self).open_blocks@.len() - 1] as int]
                is Paragraph) && old(self).indent >= 4 && !at_line_end(
                old(self).src(),
                old(self).offset as int,
            )),
    {
        let tip_index = self.open_blocks[self.open_blocks.len() - 1];
        let tip_is_para = matches!(&self.blocks[tip_index], BlockElement::Paragraph { .. });
        if !tip_is_para && self.is_indented() && !self.is_at_line_end() {
            Some(BlockElement::IndentedCodeBlock)
        } else {
            None
        }
    }

    /// Try each block-start recognizer in priority order: block quote, then
    /// ATX heading, then indented code block.
    fn block_start_start(&mut self) -> (r: Option<BlockElement>)
        requires
            old(self).wf(),
            old(self).offset == spaces_end(old(self).src(), old(self).offset as int),
        ensures
            final(self).wf(),
            Self::same_blocks(*old(self), *final(self)),
            final(self).line == old(self).line,
            old(self).offset <= final(self).offset,
            r is None ==> (final(self).offset == old(self).offset && final(self).character == old(self).character && final(self).column == old(self).column && final(self).indent == old(self).indent && final(self).tab_leftovers == old(self).tab_leftovers),
            r matches Some(b) ==> (b is BlockQuote || b is AtxHeading || b is IndentedCodeBlock),
            r matches Some(b) ==> (b is BlockQuote || final(self).tab_leftovers == old(self).tab_leftovers || final(self).tab_leftovers == 0),
            r == Some(BlockElement::BlockQuote) ==> (old(self).offset < old(self).src().len()
                && old(self).src()[old(self).offset as int] == 62 && final(self).offset > old(self).offset),
            r matches Some(BlockElement::AtxHeading { content_range }) ==> (content_range.start
                == content_range.end && pos_wf(old(self).src(), content_range.start)
                && content_range.start.offset == final(self).offset && old(self).offset < old(self).src().len() && old(self).src()[old(self).offset as int] == 35 && final(self).offset
                > old(self).offset),
            r == Some(BlockElement::IndentedCodeBlock) ==> (final(self).offset == old(self).offset
                && final(self).character == old(self).character && final(self).column == old(self).column && final(self).indent == old(self).indent && final(self).tab_leftovers == old(self).tab_leftovers && !(
            old(self).blocks@[old(self).open_blocks@[old(self).open_blocks@.len() - 1] as int]
                is Paragraph) && old(self).offset < old(self).src().len() && !is_terminator(
                old(self).src()[old(self).offset as int],
            ) && old(self).src()[old(self).offset as int] != 32 && old(self).src()[old(self).offset as int] != 9),
            r == Some(BlockElement::BlockQuote) <==> quote_start_cond(
                old(self).src(),
                old(self).offset as int,
                old(self).indent as int,
            ),
            (r matches Some(b) && b is AtxHeading) <==> (!quote_start_cond(
                old(self).src(),
                old(self).offset as int,
                old(self).indent as int,
            ) && atx_start_cond(old(self).src(), old(self).offset as int, old(self).indent as int)),
            r == Some(BlockElement::IndentedCodeBlock) <==> (!quote_start_cond(
                old(self).src(),
                old(self).offset as int,
                old(self).indent as int,
            ) && !atx_start_cond(
                old(self).src(),
                old(self).offset as int,
                old(self).indent as int,
            ) && !(
            old(self).blocks@[old(self).open_blocks@[old(self).open_blocks@.len() - 1] as int]
                is Paragraph) && old(self).indent >= 4 && !at_line_end(
                old(self).src(),
                old(self).offset as int,
            )),
            forall|i: int|
                old(self).offset <= i < final(self).offset ==> !is_terminator(
                    #[trigger] old(self).src()[i],
                ),
    {
        proof {
            let s = old(self).src();
            let o = old(self).offset as int;
            if o < s.len() && (s[o] == 32 || s[o] == 9) {
                lemma_spaces_end(s, o + 1);
                assert(spaces_end(s, o) == spaces_end(s, o + 1));
                assert(false);
            }
        }
        match self.parse_block_quote_start() {
            Some(b) => Some(b),
            None => match self.parse_atx_heading_start() {
                Some(b) => Some(b),
                None => self.parse_indented_code_block_start(),
            },
        }
    }

    /// If the innermost open block is a paragraph and the line still has
    /// content, append the rest of the line to the paragraph as a (possibly
    /// lazy) continuation line and advance to the end of the line.
    fn parse_continuation_line(&mut self) -> (r: bool)
        requires
            old(self).wf(),
            old(self).tab_leftovers == 0,
        ensures
            final(self).wf(),
            final(self).input@ == old(self).input@,
            !r ==> (final(self).blocks@ == old(self).blocks@ && final(self).open_blocks@ == old(self).open_blocks@ && final(self).offset == old(self).offset && final(self).character
                == old(self).character && final(self).column == old(self).column && final(self).line == old(self).line && final(self).indent == old(self).indent && final(self).tab_leftovers == old(self).tab_leftovers),
            !r ==> (!(
            old(self).blocks@[old(self).open_blocks@[old(self).open_blocks@.len() - 1] as int]
                is Paragraph) || at_line_end(old(self).src(), old(self).offset as int)),
            r ==> (
            old(self).blocks@[old(self).open_blocks@[old(self).open_blocks@.len() - 1] as int]
                is Paragraph && !at_line_end(old(self).src(), old(self).offset as int) && final(self).offset == line_end_from(old(self).src(), old(self).offset as int) && at_line_end(
                old(self).src(),
                final(self).offset as int,
            ) && final(self).offset > old(self).offset && final(self).blocks@.len() == old(self).blocks@.len() && old(self).blocks@.len() >= 2 && final(self).open_blocks@ == old(self).open_blocks@ && final(self).blocks@[final(self).open_blocks@[final(self).open_blocks@.len() - 1] as int] is Paragraph),
            r ==> forall|i: int|
                0 <= i < old(self).blocks@.len() - 1 ==> final(self).blocks@[i] == old(self).blocks@[i],
            r ==> (old(self).blocks@[old(self).blocks@.len() - 1] is Paragraph && final(self).blocks@[old(self).blocks@.len() - 1] is Paragraph && final(self).blocks@[old(self).blocks@.len() - 1]->Paragraph_lines@ =~= old(self).blocks@[old(self).blocks@.len()
                - 1]->Paragraph_lines@.push(
                (Range {
                    start: (Position {
                        line: old(self).line,
                        character: old(self).character,
                        offset: old(self).offset,
                    }),
                    end: (Position {
                        line: old(self).line,
                        character: char_at(
                            old(self).src(),
                            line_end_from(old(self).src(), old(self).offset as int),
                        ) as usize,
                        offset: line_end_from(old(self).src(), old(self).offset as int) as usize,
                    }),
                }),
            )),
    {
        let ghost s = old(self).src();
        let is_at_line_end = self.is_at_line_end();
        let tip_index = self.open_blocks[self.open_blocks.len() - 1];

        let start = self.position();
        let end = self.peek_line();

        let tip_is_para = matches!(&self.blocks[tip_index], BlockElement::Paragraph { .. });
        if tip_is_para && !is_at_line_end {
            let ghost pre_blocks = self.blocks@;
            let ghost t = tip_index as int;
            proof {
                // A paragraph is a leaf, so the open paragraph is the newest
                // block, and the root (a container) is not it.
                assert(tip_index == self.blocks@.len() - 1);
                assert(tip_index >= 1);
                lemma_line_end_from(s, self.offset as int);
                if end.offset == self.offset as int {
                    assert(at_line_end(s, self.offset as int));
                }
                // Every position recorded so far lies at or before the start
                // of the new continuation range.
                assert(forall|i: int, p: Position|
                    #![trigger pos_in_block(pre_blocks[i], p)]
                    0 <= i < pre_blocks.len() && pos_in_block(pre_blocks[i], p) ==> p.offset
                        <= start.offset);
            }
            self.set_position(end);
            let elem = self.blocks.pop().unwrap();
            match elem {
                BlockElement::Paragraph { lines } => {
                    let ghost old_lines = lines@;
                    let mut lines = lines;
                    proof {
                        assert forall|k: int| 0 <= k < old_lines.len() implies (
                        #[trigger] old_lines[k]).end.offset <= start.offset by {
                            assert(pos_in_block(pre_blocks[t], old_lines[k].end));
                        }
                        // The new continuation range stays within the line.
                        assert(forall|i: int|
                            start.offset <= i < end.offset ==> !is_terminator(#[trigger] s[i]));
                        assert(start.line == end.line);
                        assert(range_wf(s, (Range { start, end })));
                    }
                    lines.push(Range { start, end });
                    self.blocks.push(BlockElement::Paragraph { lines });
                    proof {
                        let nb = self.blocks@;
                        let new_lines = old_lines.push(Range { start, end });
                        assert(nb.len() == pre_blocks.len());
                        assert(forall|i: int| 0 <= i < t ==> nb[i] == pre_blocks[i]);
                        assert(nb[t] == (BlockElement::Paragraph { lines }));
                        assert(lines@ =~= new_lines);
                        // Positions of the updated paragraph are the old ones
                        // plus the endpoints of the new range.
                        assert forall|q: Position| pos_in_block(nb[t], q) implies (pos_in_block(
                            pre_blocks[t],
                            q,
                        ) || q == start || q == end) by {
                            let k = choose|k: int|
                                0 <= k < new_lines.len() && ((#[trigger] new_lines[k]).start == q
                                    || new_lines[k].end == q);
                            if k < new_lines.len() - 1 {
                                assert(old_lines[k] == new_lines[k]);
                                assert(pos_in_block(pre_blocks[t], q));
                            }
                        }
                        assert(block_wf(s, nb[t]));
                        assert(blocks_wf(s, nb)) by {
                            assert forall|i: int, j: int, p: Position, q: Position|
                                #![trigger pos_in_block(nb[i], p), pos_in_block(nb[j], q)]
                                0 <= i < j < nb.len() && pos_in_block(nb[i], p) && pos_in_block(
                                    nb[j],
                                    q,
                                ) implies p.offset <= q.offset by {
                                if j < t {
                                    assert(pos_in_block(pre_blocks[i], p));
                                    assert(pos_in_block(pre_blocks[j], q));
                                } else {
                                    assert(j == t);
                                    assert(pos_in_block(pre_blocks[i], p));
                                    assert(pos_in_block(pre_blocks[t], q) || q == start || q
                                        == end);
                                }
                            }
                        }
                        assert forall|i: int, p: Position|
                            #![trigger pos_in_block(nb[i], p)]
                            0 <= i < nb.len() && pos_in_block(nb[i], p) implies p.offset
                            <= self.offset by {
                            if i < t {
                                assert(pos_in_block(pre_blocks[i], p));
                            } else {
                                assert(pos_in_block(pre_blocks[t], p) || p == start || p == end);
                            }
                        }
                    }
                },
                _ => {
                    proof {
                        assert(false);
                    }
                },
            }
            true
        } else {
            false
        }
    }

    /// Close every open block deeper than `parent_open_index` by truncating
    /// the open-block stack. The block sequence itself is untouched: closing
    /// is purely a matter of which blocks can still receive children.
    fn close_children_of(&mut self, parent_open_index: usize)
        requires
            old(self).wf(),
            parent_open_index < old(self).open_blocks@.len(),
        ensures
            final(self).wf(),
            final(self).input@ == old(self).input@,
            final(self).blocks@ == old(self).blocks@,
            final(self).open_blocks@ == old(self).open_blocks@.subrange(
                0,
                parent_open_index + 1,
            ),
            final(self).offset == old(self).offset,
            final(self).character == old(self).character,
            final(self).column == old(self).column,
            final(self).line == old(self).line,
            final(self).indent == old(self).indent,
            final(self).tab_leftovers == old(self).tab_leftovers,
    {
        let n = self.open_blocks.len();
        assert(parent_open_index < n);
        self.open_blocks.truncate(parent_open_index + 1);
    }

    /// Append `child` to the block sequence as a child of the innermost open
    /// block, and open it.
    fn append_child(&mut self, child: BlockElement)
        requires
            old(self).wf(),
            old(self).blocks@[old(self).open_blocks@[old(self).open_blocks@.len() - 1] as int]
                .container_spec(),
            !(child is Root),
            !(child is SetextHeading),
            !(child is FencedCodeBlock),
            block_wf(old(self).src(), child),
            forall|p: Position| pos_in_block(child, p) ==> p.offset <= old(self).offset,
            forall|i: int, p: Position, q: Position|
                #![trigger pos_in_block(old(self).blocks@[i], p), pos_in_block(child, q)]
                0 <= i < old(self).blocks@.len() && pos_in_block(old(self).blocks@[i], p)
                    && pos_in_block(child, q) ==> p.offset <= q.offset,
        ensures
            final(self).wf(),
            final(self).input@ == old(self).input@,
            final(self).blocks@ == old(self).blocks@.push(child),
            final(self).open_blocks@ == old(self).open_blocks@.push(
                old(self).blocks@.len() as usize,
            ),
            final(self).open_blocks@[final(self).open_blocks@.len() - 1] as int == old(self).blocks@.len(),
            final(self).offset == old(self).offset,
            final(self).character == old(self).character,
            final(self).column == old(self).column,
            final(self).line == old(self).line,
            final(self).indent == old(self).indent,
            final(self).tab_leftovers == old(self).tab_leftovers,
    {
        let idx = self.blocks.len();
        self.open_blocks.push(idx);
        self.blocks.push(child);
    }

    /// Close every block deeper than `parent_open_index`, then append and
    /// open `child` under the block at `parent_open_index`.
    fn insert_child(&mut self, parent_open_index: usize, child: BlockElement)
        requires
            old(self).wf(),
            parent_open_index < old(self).open_blocks@.len(),
            old(self).blocks@[old(self).open_blocks@[parent_open_index as int] as int]
                .container_spec(),
            !(child is Root),
            !(child is SetextHeading),
            !(child is FencedCodeBlock),
            block_wf(old(self).src(), child),
            forall|p: Position| pos_in_block(child, p) ==> p.offset <= old(self).offset,
            forall|i: int, p: Position, q: Position|
                #![trigger pos_in_block(old(self).blocks@[i], p), pos_in_block(child, q)]
                0 <= i < old(self).blocks@.len() && pos_in_block(old(self).blocks@[i], p)
                    && pos_in_block(child, q) ==> p.offset <= q.offset,
        ensures
            final(self).wf(),
            final(self).input@ == old(self).input@,
            final(self).blocks@ == old(self).blocks@.push(child),
            final(self).open_blocks@ == old(self).open_blocks@.subrange(
                0,
                parent_open_index + 1,
            ).push(old(self).blocks@.len() as usize),
            final(self).open_blocks@[final(self).open_blocks@.len() - 1] as int == old(self).blocks@.len(),
            final(self).offset == old(self).offset,
            final(self).character == old(self).character,
            final(self).column == old(self).column,
            final(self).line == old(self).line,
            final(self).indent == old(self).indent,
            final(self).tab_leftovers == old(self).tab_leftovers,
    {
        self.close_children_of(parent_open_index);
        self.append_child(child);
    }

    /// Consume the run of spaces and tabs at the scan position, counting
    /// display columns and accumulating the line's indent. The remaining
    /// width of a partially consumed tab is finished first, and a fresh tab
    /// advances the column to the next multiple-of-4 tab stop.
    fn consume_spaces(&mut self)
        requires
            old(self).wf(),
        ensures
            final(self).wf(),
            Self::same_blocks(*old(self), *final(self)),
            final(self).offset == spaces_end(old(self).src(), old(self).offset as int),
            old(self).offset <= final(self).offset,
            forall|i: int|
                old(self).offset <= i < final(self).offset ==> (#[trigger] old(self).src()[i] == 32
                    || old(self).src()[i] == 9),
            final(self).tab_leftovers == 0,
            final(self).line == old(self).line,
            final(self).character == old(self).character + (final(self).offset - old(self).offset),
            final(self).column == columns_to(
                old(self).src(),
                (if old(self).tab_leftovers > 0 {
                    old(self).offset + 1
                } else {
                    old(self).offset as int
                }),
                final(self).offset as int,
                old(self).column + old(self).tab_leftovers,
            ),
            old(self).column <= final(self).column,
            final(self).indent == old(self).indent + (final(self).column - old(self).column),
    {
        let ghost s = old(self).src();
        let bytes = self.input.as_bytes();
        let old_column = self.column;

        if self.tab_leftovers > 0 {
            // Finish the pending tab: its remaining width belongs to this
            // whitespace phase, and its byte is now fully spent.
            proof {
                lemma_step_non_terminator(s, self.offset as int);
                lemma_char_at_le(s, self.offset as int);
            }
            self.column = self.column + self.tab_leftovers;
            self.offset = self.offset + 1;
            self.character = self.character + 1;
            self.tab_leftovers = 0;
        }
        let ghost o1 = self.offset as int;
        let ghost c1 = self.column as int;

        proof {
            lemma_spaces_end(s, self.offset as int);
        }
        while self.offset < bytes.len() && (bytes[self.offset] == 32 || bytes[self.offset] == 9)
            invariant
                self.wf(),
                s == self.src(),
                bytes@ == s,
                Self::same_blocks(*old(self), *self),
                old(self).offset <= self.offset <= s.len(),
                o1 <= self.offset,
                self.line == old(self).line,
                self.indent == old(self).indent,
                self.tab_leftovers == 0,
                old_column == old(self).column,
                self.character == old(self).character + (self.offset - old(self).offset),
                self.column == columns_to(s, o1, self.offset as int, c1),
                c1 <= self.column,
                c1 == old(self).column + old(self).tab_leftovers,
                o1 == (if old(self).tab_leftovers > 0 {
                    old(self).offset + 1
                } else {
                    old(self).offset as int
                }),
                forall|i: int|
                    old(self).offset <= i < self.offset ==> (#[trigger] s[i] == 32 || s[i] == 9),
                spaces_end(s, self.offset as int) == spaces_end(s, old(self).offset as int),
            decreases s.len() - self.offset,
        {
            let byte = bytes[self.offset];
            proof {
                lemma_step_non_terminator(s, self.offset as int);
                lemma_char_at_le(s, self.offset as int);
                lemma_columns_to_snoc(s, o1, self.offset as int, c1);
            }
            if byte == 32 {
                self.offset = self.offset + 1;
                self.character = self.character + 1;
                self.column = self.column + 1;
            } else {
                let width = 4 - (self.column % 4);
                self.offset = self.offset + 1;
                self.character = self.character + 1;
                self.column = self.column + width;
            }
        }

        self.indent = self.indent + (self.column - old_column);
    }

    /// Consume the run of `#` characters at the scan position and report its
    /// length.
    fn consume_hashes(&mut self) -> (r: usize)
        requires
            old(self).wf(),
        ensures
            final(self).wf(),
            Self::same_blocks(*old(self), *final(self)),
            final(self).offset == old(self).offset + r,
            final(self).character == old(self).character + r,
            forall|i: int|
                old(self).offset <= i < final(self).offset ==> #[trigger] old(self).src()[i] == 35,
            final(self).offset == old(self).src().len()
                || old(self).src()[final(self).offset as int] != 35,
            r as int == hash_run(old(self).src(), old(self).offset as int),
            final(self).tab_leftovers == 0,
            final(self).line == old(self).line,
            final(self).column == old(self).column,
            final(self).indent == old(self).indent,
    {
        let ghost s = old(self).src();
        self.tab_leftovers = 0;
        let old_offset = self.offset;

        loop
            invariant
                self.wf(),
                s == self.src(),
                Self::same_blocks(*old(self), *self),
                old_offset == old(self).offset,
                old(self).offset <= self.offset <= s.len(),
                self.character == old(self).character + (self.offset - old(self).offset),
                self.line == old(self).line,
                self.column == old(self).column,
                self.indent == old(self).indent,
                self.tab_leftovers == 0,
                forall|i: int| old(self).offset <= i < self.offset ==> #[trigger] s[i] == 35,
                hash_run(s, old(self).offset as int) == (self.offset - old(self).offset)
                    + hash_run(s, self.offset as int),
            ensures
                self.offset == s.len() || s[self.offset as int] != 35,
                hash_run(s, old(self).offset as int) == self.offset - old(self).offset,
            decreases s.len() - self.offset,
        {
            let p = self.peek();
            let is_hash = match p {
                Some(b) => b == 35,
                None => false,
            };
            if !is_hash {
                break ;
            }
            proof {
                lemma_step_non_terminator(s, self.offset as int);
                lemma_char_at_le(s, self.offset as int);
            }
            self.offset = self.offset + 1;
            self.character = self.character + 1;
        }

        self.offset - old_offset
    }

    /// The exact effect of consuming one display column at the scan
    /// position: spending one pending tab column (the tab byte itself is
    /// spent when its last column is), splitting a fresh tab into its
    /// remaining width up to the next multiple-of-4 tab stop, or consuming a
    /// single plain byte.
    pub closed spec fn one_column_outcome(pre: Self, post: Self) -> bool {
        let s = pre.src();
        &&& post.line == pre.line
        &&& post.indent == pre.indent
        &&& (pre.tab_leftovers > 0 ==> {
            &&& post.tab_leftovers == pre.tab_leftovers - 1
            &&& post.column == pre.column
            &&& (pre.tab_leftovers == 1 ==> post.offset == pre.offset + 1 && post.character
                == pre.character + 1)
            &&& (pre.tab_leftovers > 1 ==> post.offset == pre.offset && post.character
                == pre.character)
        })
        &&& (pre.tab_leftovers == 0 && pre.offset < s.len() && s[pre.offset as int] == 9 ==> {
            &&& post.column == pre.column
            &&& (pre.column % 4 == 3 ==> post.offset == pre.offset + 1 && post.character
                == pre.character + 1 && post.tab_leftovers == 0)
            &&& (pre.column % 4 != 3 ==> post.offset == pre.offset && post.character
                == pre.character && post.tab_leftovers == 3 - (pre.column % 4))
        })
        &&& (pre.tab_leftovers == 0 && pre.offset < s.len() && s[pre.offset as int] != 9 ==> {
            &&& post.offset == pre.offset + 1
            &&& post.character == pre.character + 1
            &&& post.column == pre.column + 1
            &&& post.tab_leftovers == 0
        })
    }

    /// Consume one display column at the scan position: a pending tab stop,
    /// a fresh tab (splitting its width into leftovers), or a single byte.
    /// All callers consume a single column, so the contract fixes `count` to
    /// one and pins the exact outcome.
    fn consume_columns(&mut self, count: usize)
        requires
            old(self).wf(),
            count == 1,
            old(self).tab_leftovers > 0 || (old(self).offset < old(self).src().len()
                && !is_terminator(old(self).src()[old(self).offset as int])
                && !is_continuation_byte_spec(old(self).src()[old(self).offset as int])),
        ensures
            final(self).wf(),
            Self::same_blocks(*old(self), *final(self)),
            old(self).offset <= final(self).offset <= old(self).offset + 1,
            final(self).line == old(self).line,
            final(self).indent == old(self).indent,
            (old(self).tab_leftovers == 0 && old(self).src()[old(self).offset as int] != 9)
                ==> final(self).offset == old(self).offset + 1,
            Self::one_column_outcome(*old(self), *final(self)),
    {
        let ghost s = old(self).src();
        let mut count = count;
        while count > 0
            invariant
                self.wf(),
                s == self.src(),
                Self::same_blocks(*old(self), *self),
                self.line == old(self).line,
                self.indent == old(self).indent,
                old(self).offset <= self.offset <= old(self).offset + 1,
                count <= 1,
                count == 1 ==> (self.offset == old(self).offset && self.character == old(self).character && self.column == old(self).column),
                count == 1 ==> (self.tab_leftovers == old(self).tab_leftovers || (
                old(self).tab_leftovers == 0 && old(self).offset < s.len() && s[old(self).offset as int] == 9 && self.tab_leftovers == 4 - (old(self).column % 4))),
                count == 1 ==> (self.tab_leftovers > 0 || (self.offset < s.len()
                    && !is_terminator(s[self.offset as int]) && !is_continuation_byte_spec(
                    s[self.offset as int],
                ))),
                count == 0 ==> Self::one_column_outcome(*old(self), *self),
            decreases count, (if self.tab_leftovers == 0 {
                1int
            } else {
                0int
            }),
        {
            if self.tab_leftovers > 0 {
                let columns_to_consume = if count < self.tab_leftovers {
                    count
                } else {
                    self.tab_leftovers
                };
                count = count - columns_to_consume;
                self.tab_leftovers = self.tab_leftovers - columns_to_consume;
                if self.tab_leftovers == 0 {
                    proof {
                        lemma_step_non_terminator(s, self.offset as int);
                        lemma_char_at_le(s, self.offset as int);
                    }
                    self.offset = self.offset + 1;
                    self.character = self.character + 1;
                }
            } else {
                match self.peek() {
                    Some(b) => {
                        if b == 9 {
                            self.tab_leftovers = 4 - (self.column % 4);
                        } else {
                            proof {
                                lemma_step_non_terminator(s, self.offset as int);
                                lemma_char_at_le(s, self.offset as int);
                            }
                            self.offset = self.offset + 1;
                            if !is_continuation_byte(b) {
                                self.character = self.character + 1;
                                self.column = self.column + 1;
                                count = count - 1;
                            }
                        }
                    },
                    None => {
                        return ;
                    },
                }
            }
        }
    }

    /// Advance past the line terminator at the scan position: an LF, a lone
    /// CR, or a CR LF pair, incrementing the line counter and resetting the
    /// codepoint-in-line counter. At the end of the input, do nothing.
    fn consume_line_end(&mut self)
        requires
            old(self).wf(),
            at_line_end(old(self).src(), old(self).offset as int),
        ensures
            final(self).wf(),
            Self::same_blocks(*old(self), *final(self)),
            final(self).indent == 0,
            final(self).tab_leftovers == 0,
            final(self).column == old(self).column,
            old(self).offset <= final(self).offset <= final(self).src().len(),
            old(self).offset == old(self).src().len() ==> (final(self).offset == old(self).offset
                && final(self).line == old(self).line && final(self).character == old(self).character),
            old(self).offset < old(self).src().len() ==> (final(self).line == old(self).line + 1
                && final(self).character == 0 && final(self).offset == (
            if old(self).src()[old(self).offset as int] == 13 && old(self).offset + 1 < old(self).src().len() && old(self).src()[old(self).offset as int + 1] == 10 {
                old(self).offset + 2
            } else {
                old(self).offset + 1
            })),
            forall|i: int|
                old(self).offset <= i < final(self).offset ==> is_terminator(
                    #[trigger] old(self).src()[i],
                ),
    {
        let ghost s = old(self).src();
        self.tab_leftovers = 0;
        self.indent = 0;
        let b = self.peek();
        match b {
            Some(c) => {
                if c == 10 || c == 13 {
                    proof {
                        lemma_line_at_le(s, self.offset as int);
                    }
                    let first_offset = self.offset;
                    self.offset = self.offset + 1;
                    self.line = self.line + 1;
                    self.character = 0;

                    let second = self.peek();
                    if c == 13 && second == Some(10) {
                        self.offset = self.offset + 1;
                        proof {
                            lemma_step_crlf(s, first_offset as int);
                        }
                    } else {
                        proof {
                            assert(crate::coords::ends_line(s, first_offset as int));
                            lemma_step_line_end(s, first_offset as int);
                        }
                    }
                } else {
                    proof {
                        assert(false);
                    }
                }
            },
            None => {},
        }
    }
}

/// Parse the block elements of the given Markdown source: the ordered flat
/// sequence described by [`blocks_wf`], with `Root` first and every recorded
/// position canonical for the input bytes.
pub fn parse_block_elements(input: &str) -> (r: Vec<BlockElement>)
    requires
        input.spec_bytes().len() <= usize::MAX as int / 4,
    ensures
        parse_result_wf(input.spec_bytes(), r@),
{
    let mut block_parser = BlockParser::new(input);
    block_parser.parse();
    block_parser.blocks
}

/// Parse block elements and then parse inline elements within them.
pub fn parse_document(input: &str) -> (r: Document)
    requires
        input.spec_bytes().len() <= usize::MAX as int / 4,
    ensures
        parse_result_wf(input.spec_bytes(), r.block_elements@),
        r.inline_elements@.len() == 0,
{
    let block_elements = parse_block_elements(input);
    let inline_elements = parse_inline_elements(input, block_elements.as_slice());

    Document { block_elements, inline_elements }
}

/// Parser for inline elements (the second phase). Not yet implemented.
pub struct InlineParser<'a> {
    #[allow(dead_code)]
    input: &'a str,
}

/// Parse inline elements within the given block elements. The inline pass is
/// not yet implemented, so the result is always empty.
pub fn parse_inline_elements(_input: &str, _block_elements: &[BlockElement]) -> (r: Vec<
    InlineElement,
>)
    ensures
        r@.len() == 0,
{
    Vec::new()
}

} // verus!
