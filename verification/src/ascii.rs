//! The characters of an ASCII byte sequence.

use vstd::prelude::*;

verus! {

/// The characters of a byte sequence, one character per byte.
pub open spec fn chars_of(s: Seq<u8>) -> Seq<char> {
    s.map_values(|b: u8| b as char)
}

} // verus!
