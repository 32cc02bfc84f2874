//! Searching byte strings.
use vstd::prelude::*;

verus! {

/// ASCII newline.
pub const NEWLINE: u8 = 10;

/// The first index at or after `from` that holds `c`, or the length when
/// there is none.
pub open spec fn index_from(b: Seq<u8>, c: u8, from: int) -> int
    decreases b.len() - from,
{
    if from >= b.len() {
        b.len() as int
    } else if b[from] == c {
        from
    } else {
        index_from(b, c, from + 1)
    }
}

/// `index_from` lands between its starting point and the length.
pub proof fn lemma_index_from_range(s: Seq<u8>, c: u8, from: int)
    requires
        0 <= from <= s.len(),
    ensures
        from <= index_from(s, c, from) <= s.len(),
        index_from(s, c, from) < s.len() ==> s[index_from(s, c, from)] == c,
    decreases s.len() - from,
{
    if from < s.len() && s[from] != c {
        lemma_index_from_range(s, c, from + 1);
    }
}

/// `index_from` finds the first `c` when nothing before it holds one.
pub proof fn lemma_index_from_first(s: Seq<u8>, c: u8, from: int, m: int)
    requires
        0 <= from <= m <= s.len(),
        forall|k: int| from <= k < m ==> s[k] != c,
        m < s.len() ==> s[m] == c,
    ensures
        index_from(s, c, from) == m,
    decreases m - from,
{
    if from < m {
        lemma_index_from_first(s, c, from + 1, m);
    }
}

} // verus!
