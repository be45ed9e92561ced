use vstd::prelude::*;

verus! {

/// A byte is a UTF-8 continuation byte when its two high bits are `10`,
/// i.e. it is a non-leading byte of a multi-byte encoded codepoint.
pub open spec fn is_continuation_byte_spec(byte: u8) -> bool {
    128 <= byte && byte < 192
}

/// Decide whether `byte` is a UTF-8 continuation byte (not the first byte of
/// a codepoint). Such bytes advance the byte offset without advancing the
/// codepoint counter.
pub fn is_continuation_byte(byte: u8) -> (r: bool)
    ensures
        r == is_continuation_byte_spec(byte),
{
    128 <= byte && byte < 192
}

} // verus!
