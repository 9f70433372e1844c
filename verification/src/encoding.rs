//! Holiday sources as they are published: bytes in the Shift_JIS encoding.

use vstd::prelude::*;

verus! {

/// The text that a byte string stands for when it is read as Shift_JIS: what
/// `encoding_rs::SHIFT_JIS.decode` gives for it. A byte order mark at the
/// start selects UTF-8 or UTF-16 in place of Shift_JIS and is left out of the
/// text; bytes that encode no character become U+FFFD.
pub uninterp spec fn shift_jis_text(bytes: Seq<u8>) -> Seq<char>;

/// Calls `encoding_rs::SHIFT_JIS.decode` and keeps the text, as an owned
/// string. The decoder sizes its buffer at up to three bytes for each byte
/// of input, rounded up to a power of two, and panics where that overflows:
/// the limit on the input's length rules that out.
#[verifier::external_body]
fn decode_shift_jis(bytes: &[u8]) -> (text: String)
    requires
        bytes@.len() <= usize::MAX / 8,
    ensures
        text@ == shift_jis_text(bytes@),
{
    let (text, _, _) = encoding_rs::SHIFT_JIS.decode(bytes);
    text.into_owned()
}

/// The text of a holiday source that was published in Shift_JIS.
pub fn decode_holiday_source(bytes: &[u8]) -> (text: String)
    requires
        bytes@.len() <= usize::MAX / 8,
    ensures
        text@ == shift_jis_text(bytes@),
{
    decode_shift_jis(bytes)
}

} // verus!
