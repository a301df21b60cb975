//! The typo dictionary: misspellings and their corrections, kept strictly
//! sorted by the misspelling so that lookups can use binary search.

use vstd::prelude::*;
use crate::bytes::{bytes_lt, compare_bytes, lemma_bytes_lt_irreflexive, lemma_bytes_lt_transitive};

verus! {

/// One misspelling and the text that replaces it.
pub struct TypoEntry {
    pub typo: Vec<u8>,
    pub fix: Vec<u8>,
}

/// Why a list of entries cannot form a dictionary.
#[derive(Debug, Clone, Copy, PartialEq, Eq, Structural)]
pub enum DictionaryError {
    /// The entry at `index` has an empty misspelling.
    EmptyTypo { index: usize },
    /// The entry at `index` repeats the misspelling of the entry before it.
    DuplicateTypo { index: usize },
    /// The entry at `index` sorts before the entry before it.
    OutOfOrder { index: usize },
}

/// An immutable table of `(typo, fix)` pairs, strictly sorted by `typo`.
pub struct TypoDictionary {
    entries: Vec<TypoEntry>,
}

/// The pairs of byte strings that a list of entries holds.
pub open spec fn entries_view(s: Seq<TypoEntry>) -> Seq<(Seq<u8>, Seq<u8>)> {
    s.map_values(|e: TypoEntry| (e.typo@, e.fix@))
}

/// What is wrong with the entry at `i`, looking only at it and its predecessor.
pub open spec fn entry_defect(d: Seq<(Seq<u8>, Seq<u8>)>, i: int) -> Option<DictionaryError> {
    if d[i].0.len() == 0 {
        Some(DictionaryError::EmptyTypo { index: i as usize })
    } else if i > 0 && d[i - 1].0 == d[i].0 {
        Some(DictionaryError::DuplicateTypo { index: i as usize })
    } else if i > 0 && !bytes_lt(d[i - 1].0, d[i].0) {
        Some(DictionaryError::OutOfOrder { index: i as usize })
    } else {
        None
    }
}

/// Every misspelling is non-empty and the misspellings are strictly increasing.
pub open spec fn dictionary_wf(d: Seq<(Seq<u8>, Seq<u8>)>) -> bool {
    &&& forall|i: int| 0 <= i < d.len() ==> #[trigger] d[i].0.len() > 0
    &&& forall|i: int, j: int| 0 <= i < j < d.len() ==> bytes_lt(#[trigger] d[i].0, #[trigger] d[j].0)
}

/// `Some(i)` when entry `i` has exactly the misspelling `s`, `None` when none has.
pub open spec fn typo_index(d: Seq<(Seq<u8>, Seq<u8>)>, s: Seq<u8>) -> Option<int> {
    if exists|i: int| 0 <= i < d.len() && #[trigger] d[i].0 == s {
        Some(choose|i: int| 0 <= i < d.len() && #[trigger] d[i].0 == s)
    } else {
        None
    }
}

/// In a well-formed dictionary a misspelling names at most one entry.
pub proof fn lemma_typo_unique(d: Seq<(Seq<u8>, Seq<u8>)>, i: int, j: int)
    requires
        dictionary_wf(d),
        0 <= i < d.len(),
        0 <= j < d.len(),
        d[i].0 == d[j].0,
    ensures
        i == j,
{
    if i < j {
        lemma_bytes_lt_irreflexive(d[i].0);
    } else if j < i {
        lemma_bytes_lt_irreflexive(d[i].0);
    }
}

impl View for TypoDictionary {
    type V = Seq<(Seq<u8>, Seq<u8>)>;

    closed spec fn view(&self) -> Seq<(Seq<u8>, Seq<u8>)> {
        entries_view(self.entries@)
    }
}

impl TypoDictionary {
    pub open spec fn wf(&self) -> bool {
        &&& dictionary_wf(self@)
        &&& self@.len() <= usize::MAX
    }

    /// Builds a dictionary, checking that the misspellings are non-empty and
    /// strictly increasing; the first entry that breaks this is reported.
    pub fn new(entries: Vec<TypoEntry>) -> (r: Result<TypoDictionary, DictionaryError>)
        ensures
            r is Ok <==> dictionary_wf(entries_view(entries@)),
            r matches Ok(d) ==> d@ == entries_view(entries@) && d.wf(),
            r matches Err(e) ==> exists|i: int|
                0 <= i < entries@.len() && (forall|k: int| 0 <= k < i ==> entry_defect(entries_view(entries@), k) is None)
                    && entry_defect(entries_view(entries@), i) == Some(e),
    {
        let ghost d = entries_view(entries@);
        let mut i: usize = 0;
        while i < entries.len()
            invariant
                0 <= i <= entries@.len(),
                d == entries_view(entries@),
                forall|k: int| 0 <= k < i ==> entry_defect(d, k) is None,
                forall|k: int| 0 <= k < i ==> #[trigger] d[k].0.len() > 0,
                forall|a: int, b: int| 0 <= a < b < i ==> bytes_lt(#[trigger] d[a].0, #[trigger] d[b].0),
            decreases entries@.len() - i,
        {
            assert(d[i as int].0 == entries@[i as int].typo@);
            if entries[i].typo.len() == 0 {
                proof {
                    assert(entry_defect(d, i as int) == Some(DictionaryError::EmptyTypo { index: i }));
                }
                return Err(DictionaryError::EmptyTypo { index: i });
            }
            if i > 0 {
                assert(d[i - 1].0 == entries@[i - 1].typo@);
                let c = compare_bytes(entries[i - 1].typo.as_slice(), entries[i].typo.as_slice());
                if c == 0 {
                    proof {
                        assert(entry_defect(d, i as int) == Some(DictionaryError::DuplicateTypo { index: i }));
                    }
                    return Err(DictionaryError::DuplicateTypo { index: i });
                }
                if c > 0 {
                    proof {
                        lemma_bytes_lt_irreflexive(d[i as int].0);
                        if bytes_lt(d[i - 1].0, d[i as int].0) {
                            lemma_bytes_lt_transitive(d[i - 1].0, d[i as int].0, d[i - 1].0);
                        }
                        assert(entry_defect(d, i as int) == Some(DictionaryError::OutOfOrder { index: i }));
                    }
                    return Err(DictionaryError::OutOfOrder { index: i });
                }
                proof {
                    assert forall|a: int| 0 <= a < i implies bytes_lt(#[trigger] d[a].0, d[i as int].0) by {
                        if a < i - 1 {
                            lemma_bytes_lt_transitive(d[a].0, d[i - 1].0, d[i as int].0);
                        }
                    }
                }
            }
            assert(entry_defect(d, i as int) is None);
            i = i + 1;
        }
        Ok(TypoDictionary { entries })
    }

    /// The number of entries.
    pub fn len(&self) -> (r: usize)
        ensures
            r == self@.len(),
    {
        self.entries.len()
    }

    /// The misspelling of entry `i`.
    pub fn typo(&self, i: usize) -> (r: &[u8])
        requires
            i < self@.len(),
        ensures
            r@ == self@[i as int].0,
    {
        self.entries[i].typo.as_slice()
    }

    /// The correction of entry `i`.
    pub fn fix(&self, i: usize) -> (r: &[u8])
        requires
            i < self@.len(),
        ensures
            r@ == self@[i as int].1,
    {
        self.entries[i].fix.as_slice()
    }

    /// The index of the entry whose misspelling is exactly `candidate`, by
    /// binary search.
    pub fn lookup(&self, candidate: &[u8]) -> (r: Option<usize>)
        requires
            self.wf(),
        ensures
            r matches Some(i) ==> typo_index(self@, candidate@) == Some(i as int),
            r is None <==> typo_index(self@, candidate@) is None,
            r matches Some(i) ==> i < self@.len() && self@[i as int].0 == candidate@,
            r is None <==> forall|i: int| 0 <= i < self@.len() ==> self@[i].0 != candidate@,
    {
        let ghost d = self@;
        let mut lo: usize = 0;
        let mut hi: usize = self.entries.len();
        while lo < hi
            invariant
                d == self@,
                dictionary_wf(d),
                0 <= lo <= hi <= d.len(),
                forall|k: int| 0 <= k < lo ==> bytes_lt(#[trigger] d[k].0, candidate@),
                forall|k: int| hi <= k < d.len() ==> bytes_lt(candidate@, #[trigger] d[k].0),
            decreases hi - lo,
        {
            let mid = lo + (hi - lo) / 2;
            assert(d[mid as int].0 == self.entries@[mid as int].typo@);
            let c = compare_bytes(self.entries[mid].typo.as_slice(), candidate);
            if c == 0 {
                proof {
                    assert(d[mid as int].0 == candidate@);
                    let j = choose|j: int| 0 <= j < d.len() && #[trigger] d[j].0 == candidate@;
                    lemma_typo_unique(d, j, mid as int);
                }
                return Some(mid);
            } else if c < 0 {
                proof {
                    assert forall|k: int| 0 <= k < mid + 1 implies bytes_lt(#[trigger] d[k].0, candidate@) by {
                        if k < mid {
                            lemma_bytes_lt_transitive(d[k].0, d[mid as int].0, candidate@);
                        }
                    }
                }
                lo = mid + 1;
            } else {
                proof {
                    assert forall|k: int| mid <= k < d.len() implies bytes_lt(candidate@, #[trigger] d[k].0) by {
                        if k > mid {
                            lemma_bytes_lt_transitive(candidate@, d[mid as int].0, d[k].0);
                        }
                    }
                }
                hi = mid;
            }
        }
        proof {
            assert forall|i: int| 0 <= i < d.len() implies d[i].0 != candidate@ by {
                lemma_bytes_lt_irreflexive(candidate@);
            }
        }
        None
    }
}

} // verus!
