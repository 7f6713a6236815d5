//! Small string helpers: an in-place greeting suffix and a byte count.

use vstd::prelude::*;

verus! {

use vstd::string::StringExecFns;
use vstd::string::StringSliceAdditionalSpecFns;
use vstd::utf8::encode_utf8;

/// Append ", world!" to the string in place.
pub fn change_string(s: &mut String)
    ensures
        final(s)@ == old(s)@ + ", world!"@,
{
    s.append(", world!");
}

/// The length of the string in bytes: the length of its UTF-8 encoding.
/// (A `String` held in memory always has a byte length that fits `usize`,
/// but that bound is not axiomatized, so the first clause casts as
/// `str::len`'s own specification does.)
pub fn calculate_length(s: &String) -> (r: usize)
    ensures
        r == encode_utf8(s@).len() as usize,
        encode_utf8(s@).len() <= usize::MAX ==> r == encode_utf8(s@).len(),
{
    let slice = s.as_str();
    proof {
        assert(slice.spec_bytes() == encode_utf8(s@));
    }
    slice.len()
}

} // verus!
