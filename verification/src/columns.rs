//! How many columns of a terminal text takes.

use vstd::prelude::*;

use crate::text;

verus! {

/// The columns a character takes, if it is no control character.
pub uninterp spec fn char_columns(c: char) -> Option<usize>;

/// The columns a string takes.
pub uninterp spec fn columns(s: Seq<char>) -> usize;

/// Whether every character is printable ASCII.
pub open spec fn is_plain(s: Seq<char>) -> bool {
    forall|i: int| 0 <= i < s.len() ==> 0x20 <= #[trigger] s[i] as u32 <= 0x7e
}

/// `unicode_width::UnicodeWidthChar::width`: none for a control character, one for printable ASCII,
/// and for all others what Unicode's tables say, which fits in a byte.
#[verifier::external_body]
fn char_width(c: char) -> (r: Option<usize>)
    ensures
        r == char_columns(c),
        0x20 <= c as u32 <= 0x7e ==> r == Some(1usize),
        text::is_control(c) ==> r is None,
        r matches Some(n) ==> n <= 255,
{
    unicode_width::UnicodeWidthChar::width(c)
}

/// `unicode_width::UnicodeWidthStr::width`: what Unicode's tables say of the characters and of the
/// sequences that take another width than their characters do. Printable ASCII takes one column a
/// character.
#[verifier::external_body]
pub(crate) fn width(s: &str) -> (r: usize)
    ensures
        r == columns(s@),
        is_plain(s@) ==> r == s@.len(),
{
    unicode_width::UnicodeWidthStr::width(s)
}

/// The columns a character takes; a control character takes none.
pub open spec fn char_cols(c: char) -> nat {
    match char_columns(c) {
        Some(n) => n as nat,
        None => 0,
    }
}

/// The columns a character takes; a control character takes none.
pub fn cols_of(c: char) -> (r: usize)
    ensures
        r == char_cols(c),
        r <= 255,
        0x20 <= c as u32 <= 0x7e ==> r == 1,
        text::is_control(c) ==> r == 0,
{
    match char_width(c) {
        Some(n) => n,
        None => 0,
    }
}

} // verus!
