//! Small executable helpers over words (strings viewed as `Seq<char>`).

use vstd::prelude::*;
use vstd::string::StrSliceExecFns;

verus! {

/// Whether the word `w` contains the letter `c` anywhere.
pub fn contains_char(w: &str, c: char) -> (r: bool)
    ensures
        r == w@.contains(c),
{
    let n = w.unicode_len();
    let mut j: usize = 0;
    while j < n
        invariant
            n == w@.len(),
            j <= n,
            forall|k: int| 0 <= k < j ==> w@[k] != c,
        decreases n - j,
    {
        if w.get_char(j) == c {
            assert(w@[j as int] == c);
            return true;
        }
        j += 1;
    }
    assert(!w@.contains(c));
    false
}

} // verus!
