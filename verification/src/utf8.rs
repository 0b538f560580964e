//! Text from bytes.

use vstd::prelude::*;
use vstd::utf8::{decode_utf8, valid_utf8};

verus! {

/// What `String::from_utf8_lossy` makes of bytes.
pub uninterp spec fn lossy(bytes: Seq<u8>) -> Seq<char>;

/// `String::from_utf8_lossy` of std: bytes that are UTF-8 become the text that they encode, and
/// what is not UTF-8 gives way to replacement characters. What becomes of bytes does not depend on text
/// in front of them, which stays as it is.
#[verifier::external_body]
pub(crate) fn lossy_text(bytes: &[u8]) -> (r: String)
    ensures
        r@ == lossy(bytes@),
        valid_utf8(bytes@) ==> r@ == decode_utf8(bytes@),
        forall|a: Seq<u8>|
            valid_utf8(a) ==> #[trigger] lossy(a + bytes@) == decode_utf8(a) + r@,
{
    String::from_utf8_lossy(bytes).into_owned()
}

/// `std::str::from_utf8`, and where it fails `Utf8Error::valid_up_to`: the length of the longest
/// prefix that is UTF-8.
#[verifier::external_body]
pub(crate) fn valid_len(bytes: &[u8]) -> (r: usize)
    ensures
        r <= bytes@.len(),
        valid_utf8(bytes@.take(r as int)),
        forall|k: int| r < k <= bytes@.len() ==> !valid_utf8(#[trigger] bytes@.take(k)),
{
    match std::str::from_utf8(bytes) {
        Ok(text) => text.len(),
        Err(err) => err.valid_up_to(),
    }
}

/// The text that bytes are, where they are UTF-8.
pub fn text_of(bytes: &[u8]) -> (r: Option<String>)
    ensures
        match r {
            Some(text) => valid_utf8(bytes@) && text@ == decode_utf8(bytes@),
            None => !valid_utf8(bytes@),
        },
{
    assert(bytes@.take(bytes@.len() as int) =~= bytes@);
    if valid_len(bytes) == bytes.len() {
        Some(lossy_text(bytes))
    } else {
        None
    }
}

} // verus!
