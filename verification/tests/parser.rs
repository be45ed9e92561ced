use macaroni::{parse_block_elements, parse_document, parse_inline_elements};
use macaroni::{BlockElement, Position, Range};

#[test]
fn paragraph_test() {
    let block_elements = parse_block_elements("foo\n    bar\n\nbaz");
    assert_eq!(block_elements.len(), 3); // Root, paragraph (with lazy continuation), paragraph.
}

#[test]
fn block_quote_test() {
    let block_elements = parse_block_elements("> foo\nbar\n>baz");
    assert_eq!(block_elements.len(), 3); // Root, block quote, paragraph.
}

#[test]
fn nested_block_quote_test() {
    let block_elements = parse_block_elements("> foo\n> > bar");
    assert_eq!(block_elements.len(), 5);
}

#[test]
fn lazy_continuation_positions() {
    // "foo", an indented lazy continuation "bar", a blank line, then "baz".
    let blocks = parse_block_elements("foo\n    bar\n\nbaz");
    assert_eq!(blocks.len(), 3);
    assert!(matches!(blocks[0], BlockElement::Root));
    match &blocks[1] {
        BlockElement::Paragraph { lines } => {
            assert_eq!(lines.len(), 2);
            assert_eq!(
                lines[0],
                Range {
                    start: Position { line: 0, character: 0, offset: 0 },
                    end: Position { line: 0, character: 3, offset: 3 },
                }
            );
            assert_eq!(
                lines[1],
                Range {
                    start: Position { line: 1, character: 4, offset: 8 },
                    end: Position { line: 1, character: 7, offset: 11 },
                }
            );
        }
        other => panic!("expected a paragraph, got {:?}", other),
    }
    match &blocks[2] {
        BlockElement::Paragraph { lines } => {
            assert_eq!(lines.len(), 1);
            assert_eq!(
                lines[0],
                Range {
                    start: Position { line: 3, character: 0, offset: 13 },
                    end: Position { line: 3, character: 3, offset: 16 },
                }
            );
        }
        other => panic!("expected a paragraph, got {:?}", other),
    }
}

#[test]
fn block_quote_lazy_continuation_detail() {
    // One block quote whose paragraph spans "foo", the lazy line "bar",
    // and the marker-prefixed "baz".
    let blocks = parse_block_elements("> foo\nbar\n>baz");
    assert_eq!(blocks.len(), 3);
    assert!(matches!(blocks[0], BlockElement::Root));
    assert!(matches!(blocks[1], BlockElement::BlockQuote));
    match &blocks[2] {
        BlockElement::Paragraph { lines } => {
            assert_eq!(lines.len(), 3);
            assert_eq!(lines[0].start.offset, 2);
            assert_eq!(lines[0].end.offset, 5);
            assert_eq!(lines[1].start.offset, 6);
            assert_eq!(lines[1].end.offset, 9);
            assert_eq!(lines[2].start.offset, 11);
            assert_eq!(lines[2].end.offset, 14);
        }
        other => panic!("expected a paragraph, got {:?}", other),
    }
}

#[test]
fn nested_block_quote_detail() {
    let blocks = parse_block_elements("> foo\n> > bar");
    assert_eq!(blocks.len(), 5);
    assert!(matches!(blocks[0], BlockElement::Root));
    assert!(matches!(blocks[1], BlockElement::BlockQuote));
    assert!(matches!(blocks[2], BlockElement::Paragraph { .. }));
    assert!(matches!(blocks[3], BlockElement::BlockQuote));
    match &blocks[4] {
        BlockElement::Paragraph { lines } => {
            assert_eq!(lines.len(), 1);
            assert_eq!(lines[0].start.offset, 10);
            assert_eq!(lines[0].end.offset, 13);
        }
        other => panic!("expected a paragraph, got {:?}", other),
    }
}

#[test]
fn atx_heading_content_trimmed() {
    // The content range spans exactly "Heading": the leading marker and
    // space, and the trailing "##" with surrounding spaces, are excluded.
    let input = "# Heading ##  ";
    let blocks = parse_block_elements(input);
    assert_eq!(blocks.len(), 2);
    assert!(matches!(blocks[0], BlockElement::Root));
    match &blocks[1] {
        BlockElement::AtxHeading { content_range } => {
            assert_eq!(content_range.start.offset, 2);
            assert_eq!(content_range.end.offset, 9);
            assert_eq!(&input[content_range.start.offset..content_range.end.offset], "Heading");
        }
        other => panic!("expected a heading, got {:?}", other),
    }
}

#[test]
fn atx_heading_empty_content() {
    // A heading with nothing after the marker has an empty content range.
    let blocks = parse_block_elements("# ");
    assert_eq!(blocks.len(), 2);
    match &blocks[1] {
        BlockElement::AtxHeading { content_range } => {
            assert_eq!(content_range.start, content_range.end);
        }
        other => panic!("expected a heading, got {:?}", other),
    }
}

#[test]
fn empty_input_root_only() {
    let blocks = parse_block_elements("");
    assert_eq!(blocks.len(), 1);
    assert!(matches!(blocks[0], BlockElement::Root));
}

#[test]
fn blank_input_root_only() {
    let blocks = parse_block_elements("   \n\t\n\r\n  ");
    assert_eq!(blocks.len(), 1);
    assert!(matches!(blocks[0], BlockElement::Root));
}

#[test]
fn multi_byte_character_advances_once() {
    // A line holding a single four-byte character advances `character` by 1
    // and `offset` by the byte length.
    let input = "\u{1F980}";
    assert_eq!(input.len(), 4);
    let blocks = parse_block_elements(input);
    assert_eq!(blocks.len(), 2);
    match &blocks[1] {
        BlockElement::Paragraph { lines } => {
            assert_eq!(lines.len(), 1);
            assert_eq!(lines[0].start, Position { line: 0, character: 0, offset: 0 });
            assert_eq!(lines[0].end, Position { line: 0, character: 1, offset: 4 });
        }
        other => panic!("expected a paragraph, got {:?}", other),
    }
}

#[test]
fn parse_is_deterministic_and_idempotent() {
    let inputs =
        ["foo\n    bar\n\nbaz", "> foo\nbar\n>baz", "> foo\n> > bar", "# Heading ##  ", "", "a\r\nb"];
    for input in inputs {
        let first = parse_block_elements(input);
        let second = parse_block_elements(input);
        assert_eq!(first, second);
    }
}

#[test]
fn ranges_ordered_and_within_input() {
    let inputs = ["foo\n    bar\n\nbaz", "> foo\nbar\n>baz", "> foo\n> > bar", "# A #\n> b\n\tc"];
    for input in inputs {
        let blocks = parse_block_elements(input);
        assert!(matches!(blocks[0], BlockElement::Root));
        let mut roots: usize = 0;
        let mut last_offset: usize = 0;
        let mut last_line: usize = 0;
        for block in &blocks {
            if matches!(block, BlockElement::Root) {
                roots += 1;
            }
            let ranges: Vec<Range> = match block {
                BlockElement::Paragraph { lines } => lines.clone(),
                BlockElement::AtxHeading { content_range } => vec![*content_range],
                _ => vec![],
            };
            for range in ranges {
                assert!(range.start.offset <= range.end.offset);
                assert!(range.end.offset <= input.len());
                assert!(last_offset <= range.start.offset);
                assert!(last_line <= range.start.line);
                assert!(range.start.line <= range.end.line);
                last_offset = range.end.offset;
                last_line = range.end.line;
            }
        }
        assert_eq!(roots, 1);
    }
}

#[test]
fn character_resets_at_line_starts() {
    let blocks = parse_block_elements("one\ntwo\nthree");
    match &blocks[1] {
        BlockElement::Paragraph { lines } => {
            assert_eq!(lines.len(), 3);
            for range in lines {
                assert_eq!(range.start.character, 0);
            }
            assert_eq!(lines[0].start.line, 0);
            assert_eq!(lines[1].start.line, 1);
            assert_eq!(lines[2].start.line, 2);
        }
        other => panic!("expected a paragraph, got {:?}", other),
    }
}

#[test]
fn is_container_and_is_leaf_are_complements() {
    let range = Range {
        start: Position { line: 0, character: 0, offset: 0 },
        end: Position { line: 0, character: 0, offset: 0 },
    };
    let variants = vec![
        BlockElement::Root,
        BlockElement::BlockQuote,
        BlockElement::Paragraph { lines: vec![range] },
        BlockElement::AtxHeading { content_range: range },
        BlockElement::FencedCodeBlock,
        BlockElement::IndentedCodeBlock,
    ];
    for block in &variants {
        assert_ne!(block.is_container(), block.is_leaf());
    }
    assert!(BlockElement::Root.is_container());
    assert!(BlockElement::BlockQuote.is_container());
    assert!(BlockElement::IndentedCodeBlock.is_leaf());
}

#[test]
fn indented_code_block_recognized() {
    let blocks = parse_block_elements("    code");
    assert_eq!(blocks.len(), 2);
    assert!(matches!(blocks[1], BlockElement::IndentedCodeBlock));
}

#[test]
fn quoted_heading_on_one_line() {
    // A single line can open a block quote and then a heading inside it.
    let blocks = parse_block_elements("> # title");
    assert_eq!(blocks.len(), 3);
    assert!(matches!(blocks[1], BlockElement::BlockQuote));
    assert!(matches!(blocks[2], BlockElement::AtxHeading { .. }));
}

#[test]
fn seven_hashes_is_a_paragraph() {
    // More than six markers is not a heading.
    let blocks = parse_block_elements("####### nope");
    assert_eq!(blocks.len(), 2);
    assert!(matches!(blocks[1], BlockElement::Paragraph { .. }));
}

#[test]
fn crlf_counts_as_one_terminator() {
    let blocks = parse_block_elements("a\r\nb");
    assert_eq!(blocks.len(), 2);
    match &blocks[1] {
        BlockElement::Paragraph { lines } => {
            assert_eq!(lines.len(), 2);
            assert_eq!(lines[1].start, Position { line: 1, character: 0, offset: 3 });
        }
        other => panic!("expected a paragraph, got {:?}", other),
    }
}

#[test]
fn document_has_empty_inline_elements() {
    let document = parse_document("# h\ntext");
    assert_eq!(document.block_elements.len(), 3);
    assert_eq!(document.inline_elements.len(), 0);
    let inline = parse_inline_elements("anything", &document.block_elements);
    assert_eq!(inline.len(), 0);
}

#[test]
fn tab_width_split_across_quote_marker() {
    // In ">\tx" the tab spans columns 1 to 4: one column is consumed as the
    // space after the marker, leaving 3 columns of indent — not enough for a
    // code block, so "x" is a paragraph.
    let blocks = parse_block_elements(">\tx");
    assert_eq!(blocks.len(), 3);
    assert!(matches!(blocks[1], BlockElement::BlockQuote));
    match &blocks[2] {
        BlockElement::Paragraph { lines } => {
            assert_eq!(lines.len(), 1);
            assert_eq!(lines[0].start, Position { line: 0, character: 2, offset: 2 });
            assert_eq!(lines[0].end, Position { line: 0, character: 3, offset: 3 });
        }
        other => panic!("expected a paragraph, got {:?}", other),
    }
}
