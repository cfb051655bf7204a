//! UTF-8: what the standard library does when bytes are taken as a string.

use vstd::prelude::*;
use vstd::string::StringSliceAdditionalSpecFns;
use vstd::utf8::valid_utf8;

verus! {

/// The error of `core::str::from_utf8`: why bytes are no UTF-8 string.
#[verifier::external_type_specification]
#[verifier::external_body]
pub struct ExUtf8Error(core::str::Utf8Error);

/// `core::str::from_utf8` succeeds on the byte strings that are valid UTF-8
/// and on no others, and the string it returns has the bytes it was given.
pub assume_specification[ core::str::from_utf8 ](v: &[u8]) -> (r: Result<
    &str,
    core::str::Utf8Error,
>)
    ensures
        r is Ok <==> valid_utf8(v@),
        r matches Ok(s) ==> s.spec_bytes() == v@,
;

/// `core::str::from_utf8_mut` succeeds on the byte strings that are valid
/// UTF-8 and on no others. The string it returns is the same memory seen as
/// a string: it has the bytes that were given, and the bytes end as the
/// string ends. Bytes that are refused stay as they are.
pub assume_specification[ core::str::from_utf8_mut ](v: &mut [u8]) -> (r: Result<
    &mut str,
    core::str::Utf8Error,
>)
    ensures
        r is Ok <==> valid_utf8(old(v)@),
        r matches Ok(s) ==> s.spec_bytes() == old(v)@ && final(v)@ == final(s).spec_bytes(),
        r is Err ==> final(v)@ == old(v)@,
;

} // verus!
