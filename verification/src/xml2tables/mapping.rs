//! Mappings as text.
use vstd::prelude::*;

use crate::text::{chars_of, drop_leading, string_of, without_leading, CharClass};

verus! {

/// The text of a mapping without the byte order marks in front of it.
pub fn without_bom(json: &str) -> (out: String)
    ensures
        out@ == drop_leading(json@, CharClass::Only('\u{feff}')),
{
    let chars = chars_of(json);
    string_of(without_leading(&chars, CharClass::Only('\u{feff}')))
}

} // verus!
