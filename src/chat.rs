//! Name checking of the chat service: a name is made of letters and digits.
use vstd::prelude::*;
use vstd::string::StrSliceExecFns;

verus! {

/// Unicode's alphanumeric property of a character (letters and numbers of
/// every script).
pub uninterp spec fn alphanumeric(c: char) -> bool;

/// Relies on std's `char::is_alphanumeric`: whether `c` has Unicode's
/// Alphabetic or Numeric property, a function of `c` alone.
#[verifier::external_body]
pub(crate) fn char_is_alphanumeric(c: char) -> (r: bool)
    ensures
        r == alphanumeric(c),
{
    c.is_alphanumeric()
}

/// Whether every character of `text` is alphanumeric; true of the empty text.
pub fn is_alphanumeric(text: &str) -> (r: bool)
    ensures
        r == forall|i: int| 0 <= i < text@.len() ==> alphanumeric(#[trigger] text@[i]),
{
    let n = text.unicode_len();
    let mut i: usize = 0;
    while i < n
        invariant
            n == text@.len(),
            i <= n,
            forall|k: int| 0 <= k < i ==> alphanumeric(#[trigger] text@[k]),
        decreases n - i,
    {
        if !char_is_alphanumeric(text.get_char(i)) {
            return false;
        }
        i = i + 1;
    }
    true
}

} // verus!
