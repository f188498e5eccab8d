//! Comparisons of text that the engine needs, stated over sequences of
//! characters.

use vstd::prelude::*;

verus! {

/// Whether `tail` is what `whole` ends with.
pub open spec fn is_suffix(tail: Seq<char>, whole: Seq<char>) -> bool {
    tail.len() <= whole.len() && whole.subrange(whole.len() - tail.len(), whole.len() as int)
        == tail
}

/// Whether two texts hold the same characters.
pub fn same_text(a: &str, b: &str) -> (r: bool)
    ensures
        r == (a@ == b@),
{
    if a.len() != b.len() {
        return false;
    }
    let left: String = a.to_owned();
    let right: String = b.to_owned();
    left == right
}

/// Whether `whole` ends with `tail`.
pub fn ends_with(whole: &str, tail: &str) -> (r: bool)
    ensures
        r == is_suffix(tail@, whole@),
{
    let length: usize = whole.unicode_len();
    let wanted: usize = tail.unicode_len();
    if wanted > length {
        return false;
    }
    same_text(whole.substring_char(length - wanted, length), tail)
}

/// Whether `names` holds `name`.
pub fn contains_text(names: &Vec<String>, name: &str) -> (r: bool)
    ensures
        r == names.deep_view().contains(name@),
{
    let mut i: usize = 0;
    while i < names.len()
        invariant
            i <= names.len(),
            forall|k: int| 0 <= k < i ==> names.deep_view()[k] != name@,
        decreases names.len() - i,
    {
        if same_text(names[i].as_str(), name) {
            assert(names.deep_view()[i as int] == name@);
            return true;
        }
        i += 1;
    }
    false
}

} // verus!
