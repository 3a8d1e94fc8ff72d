//! What the codec assumes of the standard library's `String`, and the one
//! helper built on it.

use vstd::prelude::*;

verus! {

/// The most bytes that are reserved ahead for one output.
pub(crate) const MAX_RESERVE: usize = 0x4000_0000;

/// `String::push` appends the given character to the end of the string and
/// leaves the characters before it as they were. This is assumed of the
/// standard library, not proved.
pub assume_specification[ String::push ](s: &mut String, ch: char)
    ensures
        final(s)@ == old(s)@.push(ch),
;

/// `String::with_capacity` returns an empty string, whatever room it
/// reserves. It is called only with a capacity of at most `isize::MAX`
/// bytes, beyond which the allocation is refused. This is assumed of the
/// standard library, not proved.
pub assume_specification[ String::with_capacity ](capacity: usize) -> (s: String)
    requires
        capacity <= isize::MAX,
    ensures
        s@ == Seq::<char>::empty(),
;

/// An empty string with room reserved for `bytes` bytes, or for
/// `MAX_RESERVE` bytes where `bytes` is more than that. The argument decides
/// only how much is allocated ahead, never what the string holds: its
/// content is empty for every argument, and that is all its callers use.
pub(crate) fn with_room(bytes: usize) -> (s: String)
    ensures
        s@ == Seq::<char>::empty(),
{
    if bytes <= MAX_RESERVE {
        String::with_capacity(bytes)
    } else {
        String::with_capacity(MAX_RESERVE)
    }
}

} // verus!
