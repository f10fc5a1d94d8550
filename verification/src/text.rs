//! Text in byte strings.

use vstd::prelude::*;

verus! {

/// The text that `bytes` write in UTF-8, by `core::str::from_utf8`.
///
/// Trusted: the call succeeds exactly on valid UTF-8, and the string it returns has the
/// characters that the bytes write.
#[verifier::external_body]
pub(crate) fn utf8_str(bytes: &[u8]) -> (r: Option<&str>)
    ensures
        match r {
            Some(text) => vstd::utf8::valid_utf8(bytes@) && text@ == vstd::utf8::decode_utf8(
                bytes@,
            ),
            None => !vstd::utf8::valid_utf8(bytes@),
        },
{
    core::str::from_utf8(bytes).ok()
}

} // verus!
