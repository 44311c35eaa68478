//! Comparing text with a fixed word.

use vstd::prelude::*;
use vstd::string::*;

verus! {

/// Decides whether `text` and `word` hold the same characters.
pub fn text_is(text: &str, word: &str) -> (same: bool)
    ensures
        same == (text@ == word@),
{
    let length: usize = text.unicode_len();
    if length != word.unicode_len() {
        return false;
    }
    let mut i: usize = 0;
    while i < length
        invariant
            i <= length,
            length == text@.len(),
            length == word@.len(),
            forall|j: int| 0 <= j < i ==> text@[j] == word@[j],
        decreases length - i,
    {
        if text.get_char(i) != word.get_char(i) {
            return false;
        }
        i += 1;
    }
    assert(text@ =~= word@);
    true
}

} // verus!
