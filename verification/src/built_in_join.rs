//! The built-in function join(), which joins words and punctuation.
use vstd::prelude::*;

verus! {

/// The punctuation that join() attaches to the previous word: , . ? !
pub open spec fn is_punctuation_spec(s: Seq<char>) -> bool {
    s == seq![','] || s == seq!['.'] || s == seq!['?'] || s == seq!['!']
}

/// Checks if the given string slice is punctuation: , . ? !
pub fn is_punctuation(s: &str) -> (b: bool)
    ensures
        b == is_punctuation_spec(s@),
{
    let v = crate::text::str_to_chars(s);
    if v.len() != 1 {
        return false;
    }
    let c = v[0];
    proof {
        assert(v@ =~= seq![c]);
    }
    c == ',' || c == '.' || c == '?' || c == '!'
}

} // verus!
