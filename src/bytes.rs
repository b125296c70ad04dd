//! Little-endian integers and UTF-8 text read out of byte buffers.

use byteorder::{ByteOrder, LittleEndian};
use vstd::prelude::*;

verus! {

/// The `u16` stored little-endian at `b[i]`, `b[i + 1]`.
pub open spec fn le16(b: Seq<u8>, i: int) -> u16 {
    (b[i] as int + 256 * b[i + 1] as int) as u16
}

/// The `u32` stored little-endian at `b[i] ..= b[i + 3]`.
pub open spec fn le32(b: Seq<u8>, i: int) -> u32 {
    (b[i] as int + 256 * b[i + 1] as int + 65536 * b[i + 2] as int + 16777216 * b[i
        + 3] as int) as u32
}

/// What `String::from_utf8` makes of a byte sequence: the decoded
/// characters, or `None` where the bytes are not well-formed UTF-8.
pub uninterp spec fn utf8_text(b: Seq<u8>) -> Option<Seq<char>>;

/// Relies on byteorder's `LittleEndian::read_u16`: the first two bytes of the
/// slice, low byte first (it panics on fewer than two).
#[verifier::external_body]
pub(crate) fn read_le16(data: &[u8], pos: usize) -> (r: u16)
    requires
        pos + 2 <= data@.len(),
    ensures
        r == le16(data@, pos as int),
{
    LittleEndian::read_u16(&data[pos..])
}

/// Relies on byteorder's `LittleEndian::read_u32`: the first four bytes of the
/// slice, low byte first (it panics on fewer than four).
#[verifier::external_body]
pub(crate) fn read_le32(data: &[u8], pos: usize) -> (r: u32)
    requires
        pos + 4 <= data@.len(),
    ensures
        r == le32(data@, pos as int),
{
    LittleEndian::read_u32(&data[pos..])
}

/// Relies on `String::from_utf8`: the text of the bytes when they are valid
/// UTF-8, and an error otherwise.
#[verifier::external_body]
pub(crate) fn decode_utf8(b: Vec<u8>) -> (r: Option<String>)
    ensures
        r.is_some() == utf8_text(b@).is_some(),
        r.is_some() ==> r.unwrap()@ == utf8_text(b@).unwrap(),
{
    String::from_utf8(b).ok()
}

} // verus!
