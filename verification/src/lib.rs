//! Markdown block-structure parser for language servers.
//!
//! The parser splits Markdown source into a flat, ordered sequence of typed
//! block elements, each annotated with exact source positions (line index,
//! codepoint index within the line, absolute byte offset). The block pass is
//! the only implemented phase; the inline pass is a placeholder that returns
//! an empty sequence.

mod coords;
mod parser;
mod types;
mod utf8;

pub use parser::{parse_block_elements, parse_document, parse_inline_elements};
pub use parser::{blocks_wf, parse_result_wf, pos_in_block, pos_wf, range_wf};
pub use parser::{lemma_lines_nondecreasing, lemma_pos_in_block_canonical};
pub use parser::{BlockParser, InlineParser};

pub use types::lemma_container_leaf_complement;
pub use types::{BlockElement, Document, HeadingLevel, InlineElement, Position, Range};
pub use types::{Reference, ReferenceLinkText};
pub use utf8::is_continuation_byte;
pub use coords::{
    char_at, lemma_character_reset_iff, lemma_line_at_nondecreasing, line_at, line_start_at,
};
