//! Occurrences of known misspellings in one file, and the collector that
//! keeps them in their total order and rejects repeated or overlapping spans.

use vstd::prelude::*;
use crate::dictionary::{TypoDictionary, typo_index};

verus! {

/// One located misspelling: the dictionary entry, the 1-based line and the
/// half-open byte span within that line. A list of occurrences belongs to
/// one file.
#[derive(Debug, Clone, Copy, PartialEq, Eq, Structural)]
pub struct Occurrence {
    pub index: usize,
    pub line_number: usize,
    pub match_start: usize,
    pub match_end: usize,
}

/// A broken consistency rule of the collection or patching pipeline.
#[derive(Debug, Clone, Copy, PartialEq, Eq, Structural)]
pub enum Violation {
    /// Line 0, or a span whose length is not that of the matched text.
    MalformedSpan { line_number: usize, match_start: usize, match_end: usize },
    /// A span that was already recorded on the same line.
    DuplicateOccurrence { line_number: usize, match_start: usize, match_end: usize },
    /// A span that overlaps one already recorded on the same line.
    OverlappingOccurrence { line_number: usize, match_start: usize, match_end: usize },
    /// An occurrence on a line past the end of the content.
    LineBeyondEnd { line_number: usize },
    /// A span that runs past the end of its line.
    SpanBeyondLine { line_number: usize, match_start: usize, match_end: usize },
}

/// `a` lies entirely before `b`: on an earlier line, or on the same line
/// ending where or before `b` starts.
pub open spec fn occ_before(a: Occurrence, b: Occurrence) -> bool {
    a.line_number < b.line_number || (a.line_number == b.line_number && a.match_end <= b.match_start)
}

/// The total order by `(line_number, match_start, match_end, index)`.
pub open spec fn occ_key_lt(a: Occurrence, b: Occurrence) -> bool {
    if a.line_number != b.line_number {
        a.line_number < b.line_number
    } else if a.match_start != b.match_start {
        a.match_start < b.match_start
    } else if a.match_end != b.match_end {
        a.match_end < b.match_end
    } else {
        a.index < b.index
    }
}

/// Same line and same span.
pub open spec fn same_span(a: Occurrence, b: Occurrence) -> bool {
    a.line_number == b.line_number && a.match_start == b.match_start && a.match_end == b.match_end
}

/// Same line and intersecting spans.
pub open spec fn overlaps(a: Occurrence, b: Occurrence) -> bool {
    a.line_number == b.line_number && a.match_start < b.match_end && b.match_start < a.match_end
}

/// The occurrence refers to an entry of `d` and spans exactly its misspelling.
pub open spec fn occ_valid(d: Seq<(Seq<u8>, Seq<u8>)>, o: Occurrence) -> bool {
    &&& o.line_number >= 1
    &&& o.index < d.len()
    &&& o.match_start < o.match_end
    &&& o.match_end - o.match_start == d[o.index as int].0.len()
}

/// Every occurrence is valid and each lies entirely before the next.
pub open spec fn occurrences_wf(d: Seq<(Seq<u8>, Seq<u8>)>, s: Seq<Occurrence>) -> bool {
    &&& forall|i: int| 0 <= i < s.len() ==> occ_valid(d, #[trigger] s[i])
    &&& forall|i: int, j: int| 0 <= i < j < s.len() ==> occ_before(#[trigger] s[i], #[trigger] s[j])
}

/// The occurrence that recording `text` at this span would add, if `text`
/// is a known misspelling.
pub open spec fn candidate(
    d: Seq<(Seq<u8>, Seq<u8>)>,
    line_number: usize,
    match_start: usize,
    match_end: usize,
    text: Seq<u8>,
) -> Option<Occurrence> {
    match typo_index(d, text) {
        Some(i) => Some(Occurrence { index: i as usize, line_number, match_start, match_end }),
        None => None,
    }
}

/// What recording a match returns: `Ok(false)` for text that is no known
/// misspelling, an error for a malformed, repeated or overlapping span, and
/// `Ok(true)` when the occurrence is added.
pub open spec fn record_result(
    d: Seq<(Seq<u8>, Seq<u8>)>,
    s: Seq<Occurrence>,
    line_number: usize,
    match_start: usize,
    match_end: usize,
    text: Seq<u8>,
) -> Result<bool, Violation> {
    match candidate(d, line_number, match_start, match_end, text) {
        None => Ok(false),
        Some(o) => if line_number == 0 || match_end < match_start || match_end - match_start != text.len() {
            Err(Violation::MalformedSpan { line_number, match_start, match_end })
        } else if exists|k: int| 0 <= k < s.len() && same_span(#[trigger] s[k], o) {
            Err(Violation::DuplicateOccurrence { line_number, match_start, match_end })
        } else if exists|k: int| 0 <= k < s.len() && overlaps(#[trigger] s[k], o) {
            Err(Violation::OverlappingOccurrence { line_number, match_start, match_end })
        } else {
            Ok(true)
        },
    }
}

/// The occurrences found in one file, always in their total order.
pub struct OccurrenceList {
    items: Vec<Occurrence>,
}

impl View for OccurrenceList {
    type V = Seq<Occurrence>;

    closed spec fn view(&self) -> Seq<Occurrence> {
        self.items@
    }
}

impl OccurrenceList {
    pub open spec fn wf(&self, d: Seq<(Seq<u8>, Seq<u8>)>) -> bool {
        occurrences_wf(d, self@)
    }

    /// An empty list.
    pub fn new() -> (r: OccurrenceList)
        ensures
            r@ == Seq::<Occurrence>::empty(),
    {
        OccurrenceList { items: Vec::new() }
    }

    /// The number of occurrences, which is the number of fixes for the file.
    pub fn len(&self) -> (r: usize)
        ensures
            r == self@.len(),
    {
        self.items.len()
    }

    pub fn is_empty(&self) -> (r: bool)
        ensures
            r <==> self@.len() == 0,
    {
        self.items.len() == 0
    }

    /// The occurrence at position `i` of the order.
    pub fn get(&self, i: usize) -> (r: Occurrence)
        requires
            i < self@.len(),
        ensures
            r == self@[i as int],
    {
        self.items[i]
    }

    /// All occurrences, in order.
    pub fn as_slice(&self) -> (r: &[Occurrence])
        ensures
            r@ == self@,
    {
        self.items.as_slice()
    }

    /// Records a match of `matched_text` at `[match_start, match_end)` on
    /// line `line_number`. Text that is no known misspelling is ignored;
    /// a new occurrence is inserted where the order puts it.
    pub fn record(
        &mut self,
        dict: &TypoDictionary,
        line_number: usize,
        match_start: usize,
        match_end: usize,
        matched_text: &[u8],
    ) -> (r: Result<bool, Violation>)
        requires
            dict.wf(),
            old(self).wf(dict@),
        ensures
            final(self).wf(dict@),
            r == record_result(dict@, old(self)@, line_number, match_start, match_end, matched_text@),
            r == Ok::<bool, Violation>(true) ==> exists|p: int|
                0 <= p <= old(self)@.len() && final(self)@ == old(self)@.insert(
                    p,
                    candidate(dict@, line_number, match_start, match_end, matched_text@)->Some_0,
                ),
            r != Ok::<bool, Violation>(true) ==> final(self)@ == old(self)@,
    {
        let ghost d = dict@;
        let ghost s = self@;
        let index = match dict.lookup(matched_text) {
            None => {
                return Ok(false);
            },
            Some(i) => i,
        };
        let o = Occurrence { index, line_number, match_start, match_end };
        assert(candidate(d, line_number, match_start, match_end, matched_text@) == Some(o));
        if line_number == 0 || match_end < match_start || match_end - match_start != matched_text.len() {
            return Err(Violation::MalformedSpan { line_number, match_start, match_end });
        }
        let n = self.items.len();
        let mut k: usize = 0;
        while k < n
            invariant
                n == s.len(),
                self@ == s,
                d == dict@,
                occurrences_wf(d, s),
                o == (Occurrence { index, line_number, match_start, match_end }),
                candidate(d, line_number, match_start, match_end, matched_text@) == Some(o),
                !(line_number == 0 || match_end < match_start || match_end - match_start != matched_text@.len()),
                0 <= k <= n,
                forall|j: int| 0 <= j < k ==> !same_span(#[trigger] s[j], o),
            decreases n - k,
        {
            let it = self.items[k];
            if it.line_number == line_number && it.match_start == match_start && it.match_end == match_end {
                assert(same_span(s[k as int], o));
                return Err(Violation::DuplicateOccurrence { line_number, match_start, match_end });
            }
            k = k + 1;
        }
        k = 0;
        while k < n
            invariant
                n == s.len(),
                self@ == s,
                d == dict@,
                occurrences_wf(d, s),
                o == (Occurrence { index, line_number, match_start, match_end }),
                candidate(d, line_number, match_start, match_end, matched_text@) == Some(o),
                !(line_number == 0 || match_end < match_start || match_end - match_start != matched_text@.len()),
                0 <= k <= n,
                forall|j: int| 0 <= j < k ==> !overlaps(#[trigger] s[j], o),
                forall|j: int| 0 <= j < n ==> !same_span(#[trigger] s[j], o),
            decreases n - k,
        {
            let it = self.items[k];
            if it.line_number == line_number && it.match_start < match_end && match_start < it.match_end {
                assert(overlaps(s[k as int], o));
                return Err(Violation::OverlappingOccurrence { line_number, match_start, match_end });
            }
            k = k + 1;
        }
        assert(occ_valid(d, o));
        let mut p: usize = 0;
        while p < n
            invariant_except_break
                forall|j: int| 0 <= j < p ==> occ_before(#[trigger] s[j], o),
            invariant
                n == s.len(),
                self@ == s,
                d == dict@,
                occurrences_wf(d, s),
                o == (Occurrence { index, line_number, match_start, match_end }),
                candidate(d, line_number, match_start, match_end, matched_text@) == Some(o),
                !(line_number == 0 || match_end < match_start || match_end - match_start != matched_text@.len()),
                0 <= p <= n,
            ensures
                forall|j: int| 0 <= j < p ==> occ_before(#[trigger] s[j], o),
                p < n ==> !occ_before(s[p as int], o),
            decreases n - p,
        {
            let it = self.items[p];
            if !(it.line_number < line_number || (it.line_number == line_number && it.match_end <= match_start)) {
                break;
            }
            p = p + 1;
        }
        proof {
            assert forall|j: int| p <= j < n implies occ_before(o, #[trigger] s[j]) by {
                assert(!overlaps(s[p as int], o));
                assert(occ_valid(d, s[p as int]));
                if j > p {
                    assert(occ_before(s[p as int], s[j]));
                }
            }
        }
        self.items.insert(p, o);
        assert(self@ == s.insert(p as int, o));
        assert(candidate(d, line_number, match_start, match_end, matched_text@)->Some_0 == o);
        proof {
            let t = self@;
            assert(t == s.insert(p as int, o));
            assert forall|i: int, j: int| 0 <= i < j < t.len() implies occ_before(#[trigger] t[i], #[trigger] t[j]) by {
                if j < p {
                } else if j == p {
                } else if i < p {
                    assert(occ_before(t[i], o));
                    assert(occ_before(o, t[j]));
                    assert(occ_valid(d, o));
                } else if i == p {
                } else {
                }
            }
            assert forall|i: int| 0 <= i < t.len() implies occ_valid(d, #[trigger] t[i]) by {
                if i < p {
                } else if i == p {
                } else {
                }
            }
        }
        Ok(true)
    }
}

} // verus!
