use crate::utf8::is_continuation_byte_spec;
use vstd::prelude::*;

verus! {

/// Line terminator bytes: LF (`\n`) and CR (`\r`).
pub open spec fn is_terminator(b: u8) -> bool {
    b == 10 || b == 13
}

/// Bytes that a blank line may consist of: space, tab, LF, CR.
pub open spec fn is_blank_byte(b: u8) -> bool {
    b == 32 || b == 9 || b == 10 || b == 13
}

/// True when byte `i` of `s` ends a line: it is an LF, or a CR that is not
/// immediately followed by an LF (a CR LF pair is a single terminator, which
/// ends its line at the LF).
pub open spec fn ends_line(s: Seq<u8>, i: int) -> bool {
    s[i] == 10 || (s[i] == 13 && (i + 1 >= s.len() || s[i + 1] != 10))
}

/// The byte offset of the start of the line containing offset `o`: the
/// largest `i <= o` such that `i` is 0 or the byte before `i` is a line
/// terminator.
pub open spec fn line_start_at(s: Seq<u8>, o: int) -> int
    decreases o,
{
    if o <= 0 {
        0
    } else if is_terminator(s[o - 1]) {
        o
    } else {
        line_start_at(s, o - 1)
    }
}

/// The 0-based line index of byte offset `o`: the number of line ends
/// strictly before `o`, counting a CR LF pair as one terminator.
pub open spec fn line_at(s: Seq<u8>, o: int) -> int
    decreases o,
{
    if o <= 0 {
        0
    } else {
        line_at(s, o - 1) + if ends_line(s, o - 1) {
            1int
        } else {
            0int
        }
    }
}

/// The number of non-continuation bytes of `s` in `[lo, hi)`.
pub open spec fn count_chars(s: Seq<u8>, lo: int, hi: int) -> int
    decreases hi - lo,
{
    if hi <= lo {
        0
    } else {
        count_chars(s, lo, hi - 1) + if is_continuation_byte_spec(s[hi - 1]) {
            0int
        } else {
            1int
        }
    }
}

/// The 0-based codepoint index of offset `o` within its line: the number of
/// non-continuation bytes between the line start and `o`.
pub open spec fn char_at(s: Seq<u8>, o: int) -> int {
    count_chars(s, line_start_at(s, o), o)
}

/// The byte offset of the end of the line containing `o` (scanning forward):
/// the first offset at or after `o` that is the end of input or holds a line
/// terminator.
pub open spec fn line_end_from(s: Seq<u8>, o: int) -> int
    decreases s.len() - o,
{
    if o < 0 || o >= s.len() || is_terminator(s[o]) {
        o
    } else {
        line_end_from(s, o + 1)
    }
}

/// The first offset at or after `o` that is the end of input or holds a byte
/// other than space or tab.
pub open spec fn spaces_end(s: Seq<u8>, o: int) -> int
    decreases s.len() - o,
{
    if o < 0 || o >= s.len() || !(s[o] == 32 || s[o] == 9) {
        o
    } else {
        spaces_end(s, o + 1)
    }
}

/// True when offset `o` sits at the end of a line: at the end of input or on
/// a line terminator byte.
pub open spec fn at_line_end(s: Seq<u8>, o: int) -> bool {
    o >= s.len() || is_terminator(s[o])
}

pub proof fn lemma_line_start_at_bounds(s: Seq<u8>, o: int)
    requires
        0 <= o,
    ensures
        0 <= line_start_at(s, o) <= o,
    decreases o,
{
    if o > 0 && !is_terminator(s[o - 1]) {
        lemma_line_start_at_bounds(s, o - 1);
    }
}

pub proof fn lemma_count_chars_nonneg(s: Seq<u8>, lo: int, hi: int)
    ensures
        0 <= count_chars(s, lo, hi),
    decreases hi - lo,
{
    if hi > lo {
        lemma_count_chars_nonneg(s, lo, hi - 1);
    }
}

pub proof fn lemma_line_at_nonneg(s: Seq<u8>, o: int)
    ensures
        0 <= line_at(s, o),
    decreases o,
{
    if o > 0 {
        lemma_line_at_nonneg(s, o - 1);
    }
}

pub proof fn lemma_count_chars_le(s: Seq<u8>, lo: int, hi: int)
    requires
        lo <= hi,
    ensures
        0 <= count_chars(s, lo, hi) <= hi - lo,
    decreases hi - lo,
{
    if hi > lo {
        lemma_count_chars_le(s, lo, hi - 1);
    }
}

pub proof fn lemma_char_at_le(s: Seq<u8>, o: int)
    requires
        0 <= o,
    ensures
        0 <= char_at(s, o) <= o,
{
    lemma_line_start_at_bounds(s, o);
    lemma_count_chars_le(s, line_start_at(s, o), o);
}

pub proof fn lemma_line_at_le(s: Seq<u8>, o: int)
    requires
        0 <= o,
    ensures
        0 <= line_at(s, o) <= o,
    decreases o,
{
    if o > 0 {
        lemma_line_at_le(s, o - 1);
    }
}

/// Advancing the scan position over a byte that is not a line terminator
/// keeps the line index and the line start, and advances the codepoint index
/// exactly when the byte is not a continuation byte.
pub proof fn lemma_step_non_terminator(s: Seq<u8>, o: int)
    requires
        0 <= o < s.len(),
        !is_terminator(s[o]),
    ensures
        line_start_at(s, o + 1) == line_start_at(s, o),
        line_at(s, o + 1) == line_at(s, o),
        char_at(s, o + 1) == char_at(s, o) + if is_continuation_byte_spec(s[o]) {
            0int
        } else {
            1int
        },
{
    lemma_line_start_at_bounds(s, o);
    assert(!ends_line(s, o));
}

/// Advancing past an LF, or past a CR that is not followed by an LF,
/// increments the line index and resets the codepoint index to 0.
pub proof fn lemma_step_line_end(s: Seq<u8>, o: int)
    requires
        0 <= o < s.len(),
        is_terminator(s[o]),
        ends_line(s, o),
    ensures
        line_start_at(s, o + 1) == o + 1,
        line_at(s, o + 1) == line_at(s, o) + 1,
        char_at(s, o + 1) == 0,
{
}

/// Advancing over a full CR LF pair increments the line index once and
/// resets the codepoint index to 0.
pub proof fn lemma_step_crlf(s: Seq<u8>, o: int)
    requires
        0 <= o,
        o + 1 < s.len(),
        s[o] == 13,
        s[o + 1] == 10,
    ensures
        line_start_at(s, o + 2) == o + 2,
        line_at(s, o + 2) == line_at(s, o) + 1,
        char_at(s, o + 2) == 0,
{
    assert(!ends_line(s, o));
    assert(ends_line(s, o + 1));
    assert(line_at(s, o + 1) == line_at(s, o));
    assert(line_at(s, o + 2) == line_at(s, o + 1) + 1);
}

/// Between `o1` and `o2` with no line terminator in `[o1, o2)`, the line
/// index and the line start do not change.
pub proof fn lemma_same_line(s: Seq<u8>, o1: int, o2: int)
    requires
        0 <= o1 <= o2 <= s.len(),
        forall|i: int| o1 <= i < o2 ==> !is_terminator(#[trigger] s[i]),
    ensures
        line_at(s, o2) == line_at(s, o1),
        line_start_at(s, o2) == line_start_at(s, o1),
    decreases o2 - o1,
{
    if o1 < o2 {
        lemma_same_line(s, o1, o2 - 1);
        lemma_step_non_terminator(s, o2 - 1);
    }
}

/// The line index is non-decreasing in the byte offset.
pub proof fn lemma_line_at_nondecreasing(s: Seq<u8>, o1: int, o2: int)
    requires
        o1 <= o2,
    ensures
        line_at(s, o1) <= line_at(s, o2),
    decreases o2 - o1,
{
    if o1 < o2 {
        lemma_line_at_nondecreasing(s, o1, o2 - 1);
        if o2 > 0 {
            lemma_line_at_nonneg(s, o2 - 1);
        }
    }
}

/// The codepoint index resets to 0 exactly when a line terminator was just
/// crossed: at any offset `o` that does not sit in the middle of a multi-byte
/// codepoint, the codepoint index is 0 if and only if the previous byte is a
/// line terminator.
pub proof fn lemma_character_reset_iff(s: Seq<u8>, o: int)
    requires
        1 <= o <= s.len(),
        !is_continuation_byte_spec(s[o - 1]),
    ensures
        char_at(s, o) == 0 <==> is_terminator(s[o - 1]),
{
    if is_terminator(s[o - 1]) {
        assert(line_start_at(s, o) == o);
    } else {
        lemma_line_start_at_bounds(s, o - 1);
        assert(line_start_at(s, o) == line_start_at(s, o - 1));
        lemma_count_chars_nonneg(s, line_start_at(s, o), o - 1);
        assert(char_at(s, o) >= 1);
    }
}

/// Bounds and contents of `line_end_from`: the scan stops at the first line
/// terminator or the end of input.
pub proof fn lemma_line_end_from(s: Seq<u8>, o: int)
    requires
        0 <= o <= s.len(),
    ensures
        o <= line_end_from(s, o) <= s.len(),
        forall|i: int| o <= i < line_end_from(s, o) ==> !is_terminator(#[trigger] s[i]),
        at_line_end(s, line_end_from(s, o)),
    decreases s.len() - o,
{
    if o < s.len() && !is_terminator(s[o]) {
        lemma_line_end_from(s, o + 1);
    }
}

/// Bounds and contents of `spaces_end`: the scan stops at the first byte
/// that is neither a space nor a tab, or at the end of input.
pub proof fn lemma_spaces_end(s: Seq<u8>, o: int)
    requires
        0 <= o <= s.len(),
    ensures
        o <= spaces_end(s, o) <= s.len(),
        forall|i: int| o <= i < spaces_end(s, o) ==> (#[trigger] s[i] == 32 || s[i] == 9),
        spaces_end(s, o) == s.len() || !(s[spaces_end(s, o)] == 32 || s[spaces_end(s, o)] == 9),
    decreases s.len() - o,
{
    if o < s.len() && (s[o] == 32 || s[o] == 9) {
        lemma_spaces_end(s, o + 1);
    }
}

/// The length of the run of `#` bytes starting at offset `o`.
pub open spec fn hash_run(s: Seq<u8>, o: int) -> int
    decreases s.len() - o,
{
    if o < 0 || o >= s.len() || s[o] != 35 {
        0
    } else {
        1 + hash_run(s, o + 1)
    }
}

/// The byte offset of the start of the next line as seen from `o`: the end
/// of the current line plus its terminator (an LF, a lone CR, or a CR LF
/// pair), or the end of input.
pub open spec fn next_line_start(s: Seq<u8>, o: int) -> int {
    let le = line_end_from(s, o);
    if le >= s.len() {
        le
    } else if s[le] == 13 && le + 1 < s.len() && s[le + 1] == 10 {
        le + 2
    } else {
        le + 1
    }
}

/// Scanning for the line end gives the same answer from anywhere in the
/// terminator-free region before it.
pub proof fn lemma_line_end_from_skip(s: Seq<u8>, o: int, o2: int)
    requires
        0 <= o <= o2 <= s.len(),
        forall|i: int| o <= i < o2 ==> !is_terminator(#[trigger] s[i]),
    ensures
        line_end_from(s, o) == line_end_from(s, o2),
    decreases o2 - o,
{
    if o < o2 {
        lemma_line_end_from_skip(s, o + 1, o2);
    }
}

/// The display column after consuming bytes `[lo, hi)` starting at column
/// `c`: a tab advances to the next multiple-of-4 column, any other byte
/// advances by one.
pub open spec fn columns_to(s: Seq<u8>, lo: int, hi: int, c: int) -> int
    decreases hi - lo,
{
    if lo >= hi {
        c
    } else {
        columns_to(s, lo + 1, hi, c + (if s[lo] == 9 {
            4 - (c % 4)
        } else {
            1int
        }))
    }
}

/// Consuming one more byte advances the column from wherever the previous
/// bytes left it.
pub proof fn lemma_columns_to_snoc(s: Seq<u8>, lo: int, hi: int, c: int)
    requires
        lo <= hi,
    ensures
        columns_to(s, lo, hi + 1, c) == columns_to(s, lo, hi, c) + (if s[hi] == 9 {
            4 - (columns_to(s, lo, hi, c) % 4)
        } else {
            1int
        }),
    decreases hi - lo,
{
    if lo < hi {
        lemma_columns_to_snoc(s, lo + 1, hi, c + (if s[lo] == 9 {
            4 - (c % 4)
        } else {
            1int
        }));
    } else {
        let d = if s[lo] == 9 {
            4 - (c % 4)
        } else {
            1int
        };
        assert(columns_to(s, lo, hi + 1, c) == columns_to(s, lo + 1, hi + 1, c + d));
        assert(columns_to(s, lo + 1, hi + 1, c + d) == c + d);
    }
}

/// Scanning backward from `o`, the largest offset at or above `lo` with no
/// trailing spaces or tabs before it.
pub open spec fn trim_back_ws(s: Seq<u8>, lo: int, o: int) -> int
    decreases o - lo,
{
    if o > lo && 0 < o <= s.len() && (s[o - 1] == 32 || s[o - 1] == 9) {
        trim_back_ws(s, lo, o - 1)
    } else {
        o
    }
}

/// Scanning backward from `o`, the largest offset at or above `lo` with no
/// trailing `#` markers before it.
pub open spec fn trim_back_hashes(s: Seq<u8>, lo: int, o: int) -> int
    decreases o - lo,
{
    if o > lo && 0 < o <= s.len() && s[o - 1] == 35 {
        trim_back_hashes(s, lo, o - 1)
    } else {
        o
    }
}

/// The end of an ATX heading's content: the line end moved back over
/// trailing whitespace, then the closing `#` run, then the whitespace before
/// it, never passing the content start `lo`.
pub open spec fn heading_content_end(s: Seq<u8>, lo: int, le: int) -> int {
    trim_back_ws(s, lo, trim_back_hashes(s, lo, trim_back_ws(s, lo, le)))
}

/// `spaces_end` is a fixpoint: scanning again from where a whitespace scan
/// stopped does not move.
pub proof fn lemma_spaces_end_idempotent(s: Seq<u8>, o: int)
    requires
        0 <= o <= s.len(),
    ensures
        spaces_end(s, spaces_end(s, o)) == spaces_end(s, o),
{
    lemma_spaces_end(s, o);
}

} // verus!
