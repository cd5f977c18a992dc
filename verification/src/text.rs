//! Turning bytes of the source into text.

use vstd::prelude::*;
use vstd::utf8::{valid_utf8, decode_utf8, valid_first_scalar, pop_first_scalar};

verus! {

/// What `String::from_utf8_lossy` makes of a sequence of bytes: the decoded
/// text, with each invalid sequence replaced by U+FFFD.
pub uninterp spec fn lossy_text(bytes: Seq<u8>) -> Seq<char>;

/// `text` is what `String::from_utf8_lossy` makes of `bytes`: `lossy_text`
/// of them, which for valid UTF-8 is their decoding.
pub open spec fn lossy_decoding(text: Seq<char>, bytes: Seq<u8>) -> bool {
    &&& text == lossy_text(bytes)
    &&& valid_utf8(bytes) ==> text == decode_utf8(bytes)
}

/// The characters that ASCII bytes stand for.
pub open spec fn ascii_chars(bytes: Seq<u8>) -> Seq<char> {
    Seq::new(bytes.len(), |i: int| bytes[i] as char)
}

/// Every byte is below 0x80.
pub open spec fn all_ascii(bytes: Seq<u8>) -> bool {
    forall|i: int| 0 <= i < bytes.len() ==> #[trigger] bytes[i] < 0x80
}

/// `String::from_utf8_lossy` on `bytes[start..end]`, made an owned `String`.
/// Claimed: the result is `lossy_text` of those bytes (a function of the
/// bytes alone), and where they are valid UTF-8 it is their decoding, as the
/// std documentation says.
#[verifier::external_body]
pub(crate) fn lossy_string(bytes: &[u8], start: usize, end: usize) -> (text: String)
    requires
        start <= end <= bytes@.len(),
    ensures
        text@ == lossy_text(bytes@.subrange(start as int, end as int)),
        valid_utf8(bytes@.subrange(start as int, end as int)) ==> text@ == decode_utf8(
            bytes@.subrange(start as int, end as int),
        ),
{
    String::from_utf8_lossy(&bytes[start..end]).to_string()
}

/// `std::str::from_utf8` on `bytes[start..end]`. Claimed, as std documents
/// it: the result is the text of the bytes where they are valid UTF-8, and
/// an error otherwise.
#[verifier::external_body]
pub(crate) fn utf8_str(bytes: &[u8], start: usize, end: usize) -> (text: Result<&str, std::str::Utf8Error>)
    requires
        start <= end <= bytes@.len(),
    ensures
        text is Ok <==> valid_utf8(bytes@.subrange(start as int, end as int)),
        text matches Ok(s) ==> s@ == decode_utf8(bytes@.subrange(start as int, end as int)),
{
    std::str::from_utf8(&bytes[start..end])
}

/// Bytes below 0x80 are valid UTF-8.
pub proof fn lemma_ascii_valid_utf8(bytes: Seq<u8>)
    requires
        all_ascii(bytes),
    ensures
        valid_utf8(bytes),
        decode_utf8(bytes) == ascii_chars(bytes),
    decreases bytes.len(),
{
    if bytes.len() != 0 {
        let b = bytes[0];
        assert(b < 0x80);
        assert((b & 0x7f) as u32 <= 0x7f) by (bit_vector);
        assert((b & 0x7f) as u32 == b as u32) by (bit_vector)
            requires
                b < 0x80,
        ;
        assert(valid_first_scalar(bytes));
        let rest = pop_first_scalar(bytes);
        assert(rest =~= bytes.subrange(1, bytes.len() as int));
        assert forall|i: int| 0 <= i < rest.len() implies #[trigger] rest[i] < 0x80 by {
            assert(rest[i] == bytes[i + 1]);
        }
        lemma_ascii_valid_utf8(rest);
        assert(decode_utf8(bytes) =~= ascii_chars(bytes));
    } else {
        assert(decode_utf8(bytes) =~= ascii_chars(bytes));
    }
}

} // verus!
