//! Searching and comparing byte strings.

use vstd::prelude::*;

verus! {

/// A position in a byte string, as the specifications count it.
pub open spec fn position(found: Option<usize>) -> Option<int> {
    match found {
        Some(i) => Some(i as int),
        None => None,
    }
}

/// The bytes that an optional buffer holds.
pub open spec fn contents(buffer: Option<Vec<u8>>) -> Option<Seq<u8>> {
    match buffer {
        Some(bytes) => Some(bytes@),
        None => None,
    }
}

/// An occurrence with no occurrence before it is the first one.
pub proof fn lemma_first_occurrence(s: Seq<u8>, b: u8, i: int)
    requires
        0 <= i < s.len(),
        s[i] == b,
        forall|j: int| 0 <= j < i ==> s[j] != b,
    ensures
        s.index_of_first(b) == Some(i),
{
    s.index_of_first_ensures(b);
    assert(s.contains(b));
}

/// An occurrence with no occurrence after it is the last one.
pub proof fn lemma_last_occurrence(s: Seq<u8>, b: u8, i: int)
    requires
        0 <= i < s.len(),
        s[i] == b,
        forall|j: int| i < j < s.len() ==> s[j] != b,
    ensures
        s.index_of_last(b) == Some(i),
{
    s.index_of_last_ensures(b);
    assert(s.contains(b));
}

/// A byte that occurs nowhere has neither a first nor a last occurrence.
pub proof fn lemma_no_occurrence(s: Seq<u8>, b: u8)
    requires
        forall|j: int| 0 <= j < s.len() ==> s[j] != b,
    ensures
        s.index_of_first(b) is None,
        s.index_of_last(b) is None,
{
    s.index_of_first_ensures(b);
    s.index_of_last_ensures(b);
}

/// The index of the first `b` in `s`.
pub fn find_first(s: &[u8], b: u8) -> (found: Option<usize>)
    ensures
        position(found) == s@.index_of_first(b),
        found matches Some(i) ==> i < s@.len() && s@[i as int] == b,
{
    let mut i: usize = 0;
    while i < s.len()
        invariant
            i <= s.len(),
            forall|j: int| 0 <= j < i ==> s@[j] != b,
        decreases s.len() - i,
    {
        if s[i] == b {
            proof {
                lemma_first_occurrence(s@, b, i as int);
            }
            return Some(i);
        }
        i += 1;
    }
    proof {
        lemma_no_occurrence(s@, b);
    }
    None
}

/// The index of the last `b` in `s`.
pub fn find_last(s: &[u8], b: u8) -> (found: Option<usize>)
    ensures
        position(found) == s@.index_of_last(b),
        found matches Some(i) ==> i < s@.len() && s@[i as int] == b,
{
    let mut i: usize = s.len();
    while i > 0
        invariant
            i <= s.len(),
            forall|j: int| i <= j < s.len() ==> s@[j] != b,
        decreases i,
    {
        i -= 1;
        if s[i] == b {
            proof {
                lemma_last_occurrence(s@, b, i as int);
            }
            return Some(i);
        }
    }
    proof {
        lemma_no_occurrence(s@, b);
    }
    None
}

/// Whether two byte strings hold the same bytes.
pub fn same(a: &[u8], b: &[u8]) -> (equal: bool)
    ensures
        equal == (a@ == b@),
{
    if a.len() != b.len() {
        return false;
    }
    let mut i: usize = 0;
    while i < a.len()
        invariant
            i <= a.len(),
            a.len() == b.len(),
            forall|j: int| 0 <= j < i ==> a@[j] == b@[j],
        decreases a.len() - i,
    {
        if a[i] != b[i] {
            return false;
        }
        i += 1;
    }
    assert(a@ =~= b@);
    true
}

} // verus!
