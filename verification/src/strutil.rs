//! Trusted bridges to the two `std` string operations the codec needs and
//! that vstd gives no specification for.

use vstd::prelude::*;
use vstd::utf8::valid_utf8;
use vstd::string::StringSliceAdditionalSpecFns;

verus! {

/// Relies on `String::push`: appends the given character to the end of the
/// string.
#[verifier::external_body]
pub fn push_char(s: &mut String, c: char)
    ensures
        final(s)@ == old(s)@.push(c),
{
    s.push(c);
}

/// Relies on `str::len`: the length of the text in bytes. vstd's own
/// specification gives this length only truncated through `usize`; std
/// documents that a slice is never longer than `isize::MAX` bytes, so the
/// returned length is the untruncated byte count.
#[verifier::external_body]
pub fn str_byte_len(s: &str) -> (r: usize)
    ensures
        r == s.spec_bytes().len(),
{
    s.len()
}

/// Relies on `str::from_utf8`: returns the string viewing the given bytes
/// exactly when they are valid UTF-8, and an error otherwise.
#[verifier::external_body]
pub fn try_str_from_bytes(v: &[u8]) -> (r: Option<&str>)
    ensures
        r is Some <==> valid_utf8(v@),
        r matches Some(s) ==> s.spec_bytes() == v@,
{
    match std::str::from_utf8(v) {
        Ok(s) => Some(s),
        Err(_) => Option::None,
    }
}

} // verus!
