//! Finding the misspellings of one line with a literal matcher and recording
//! them.

use vstd::prelude::*;
use vstd::slice::{slice_subrange, slice_to_vec};
use grep::matcher::Matcher;
use grep::regex::{RegexMatcher, RegexMatcherBuilder};
use crate::dictionary::TypoDictionary;
use crate::occurrence::{Occurrence, OccurrenceList, Violation, candidate, occ_valid, record_result};

verus! {

#[verifier::external_type_specification]
#[verifier::external_body]
pub struct ExRegexMatcher(RegexMatcher);

/// `lit` occurs in `h` starting at offset `p`.
pub open spec fn occurs_at(h: Seq<u8>, p: int, lit: Seq<u8>) -> bool {
    0 <= p && p + lit.len() <= h.len() && h.subrange(p, p + lit.len()) == lit
}

/// Some literal of `lits` occurs in `h` starting at `p`.
pub open spec fn any_at(lits: Seq<Seq<u8>>, h: Seq<u8>, p: int) -> bool {
    exists|k: int| 0 <= k < lits.len() && occurs_at(h, p, #[trigger] lits[k])
}

/// `[s, e)` is the leftmost-first match of `lits` in `h` from `at`: no
/// literal starts in `[at, s)`, and among the literals that start at `s` the
/// first one in order ends at `e`.
pub open spec fn leftmost_ok(lits: Seq<Seq<u8>>, h: Seq<u8>, at: int, s: int, e: int) -> bool {
    &&& at <= s
    &&& exists|k: int|
        0 <= k < lits.len() && occurs_at(h, s, #[trigger] lits[k]) && e == s + lits[k].len() && (forall|j: int|
            0 <= j < k ==> !occurs_at(h, s, #[trigger] lits[j]))
    &&& forall|p: int| at <= p < s ==> !any_at(lits, h, p)
}

/// No literal of `lits` starts in `h` at or after `at`.
pub open spec fn no_literal_from(lits: Seq<Seq<u8>>, h: Seq<u8>, at: int) -> bool {
    forall|p: int| at <= p <= h.len() ==> !any_at(lits, h, p)
}

/// The leftmost-first match of `lits` in `h` from `at`, if there is one.
pub open spec fn leftmost(lits: Seq<Seq<u8>>, h: Seq<u8>, at: int) -> Option<(int, int)> {
    if exists|m: (int, int)| leftmost_ok(lits, h, at, m.0, m.1) {
        Some(choose|m: (int, int)| leftmost_ok(lits, h, at, m.0, m.1))
    } else {
        None
    }
}

/// Where a scan resumes after the match `m`: past it, or one byte further
/// after an empty match.
pub open spec fn resume_after(m: (int, int)) -> int {
    if m.1 > m.0 {
        m.1
    } else {
        m.1 + 1
    }
}

/// The matches that a left-to-right scan of `h` from `at` reports: the
/// leftmost-first match, then the scan from where it ends.
pub open spec fn scan(lits: Seq<Seq<u8>>, h: Seq<u8>, at: int) -> Seq<(int, int)>
    decreases h.len() + 1 - at,
{
    if at < 0 || at > h.len() {
        Seq::empty()
    } else {
        match leftmost(lits, h, at) {
            None => Seq::empty(),
            Some(m) => if at <= m.0 <= m.1 <= h.len() {
                seq![m] + scan(lits, h, resume_after(m))
            } else {
                Seq::empty()
            },
        }
    }
}

/// The leftmost-first match from a given offset is unique.
pub proof fn lemma_leftmost_unique(lits: Seq<Seq<u8>>, h: Seq<u8>, at: int, s1: int, e1: int, s2: int, e2: int)
    requires
        leftmost_ok(lits, h, at, s1, e1),
        leftmost_ok(lits, h, at, s2, e2),
    ensures
        s1 == s2 && e1 == e2,
{
    let k1 = choose|k: int|
        0 <= k < lits.len() && occurs_at(h, s1, #[trigger] lits[k]) && e1 == s1 + lits[k].len() && (forall|j: int|
            0 <= j < k ==> !occurs_at(h, s1, #[trigger] lits[j]));
    let k2 = choose|k: int|
        0 <= k < lits.len() && occurs_at(h, s2, #[trigger] lits[k]) && e2 == s2 + lits[k].len() && (forall|j: int|
            0 <= j < k ==> !occurs_at(h, s2, #[trigger] lits[j]));
    assert(any_at(lits, h, s1));
    assert(any_at(lits, h, s2));
    if s1 == s2 {
        if k1 < k2 {
            assert(!occurs_at(h, s2, lits[k1]));
        } else if k2 < k1 {
            assert(!occurs_at(h, s1, lits[k2]));
        }
    }
}

/// A literal matcher of grep, with the literals it searches for.
pub struct LiteralMatcher {
    matcher: RegexMatcher,
    literals: Ghost<Seq<Seq<u8>>>,
}

impl LiteralMatcher {
    /// The literals, in the order of preference among matches that start at
    /// the same offset.
    pub closed spec fn literals(&self) -> Seq<Seq<u8>> {
        self.literals@
    }

    /// Relies on `grep_regex::RegexMatcherBuilder` with `fixed_strings` set,
    /// and its `build_literals`: a matcher for exactly these strings, each
    /// matched byte for byte. `None` when a literal is not UTF-8 or the
    /// builder reports an error.
    #[verifier::external_body]
    pub fn from_literals(literals: Vec<Vec<u8>>) -> (r: Option<LiteralMatcher>)
        ensures
            r matches Some(m) ==> m.literals() == literals@.map_values(|l: Vec<u8>| l@),
    {
        let strs: Option<Vec<&str>> = literals.iter().map(|l| std::str::from_utf8(l).ok()).collect();
        let matcher = RegexMatcherBuilder::new().fixed_strings(true).build_literals(&strs?).ok()?;
        Some(LiteralMatcher { matcher, literals: Ghost(literals@.map_values(|l: Vec<u8>| l@)) })
    }

    /// A matcher for the misspellings of `dict`, in the dictionary's order.
    pub fn for_dictionary(dict: &TypoDictionary) -> (r: Option<LiteralMatcher>)
        ensures
            r matches Some(m) ==> m.literals() == dict@.map_values(|e: (Seq<u8>, Seq<u8>)| e.0),
    {
        let mut typos: Vec<Vec<u8>> = Vec::new();
        let n = dict.len();
        let mut i: usize = 0;
        while i < n
            invariant
                n == dict@.len(),
                0 <= i <= n,
                typos@.len() == i,
                forall|k: int| 0 <= k < i ==> (#[trigger] typos@[k])@ == dict@[k].0,
            decreases n - i,
        {
            typos.push(slice_to_vec(dict.typo(i)));
            i = i + 1;
        }
        let r = LiteralMatcher::from_literals(typos);
        proof {
            if r is Some {
                assert(typos@.map_values(|l: Vec<u8>| l@) =~= dict@.map_values(|e: (Seq<u8>, Seq<u8>)| e.0));
            }
        }
        r
    }

    /// The underlying grep matcher, for searching whole files.
    pub fn regex(&self) -> &RegexMatcher {
        &self.matcher
    }
}

/// Relies on `grep_matcher::Matcher::find_at` of `grep_regex::RegexMatcher`,
/// whose regex searches leftmost-first: the first match that starts at or
/// after `at`, as a byte range of `haystack`, or `None` when no literal
/// starts there. It panics when `at` lies past the end of `haystack`.
#[verifier::external_body]
fn find_at(m: &LiteralMatcher, haystack: &[u8], at: usize) -> (r: Option<(usize, usize)>)
    requires
        at <= haystack@.len(),
    ensures
        r matches Some(p) ==> leftmost_ok(m.literals(), haystack@, at as int, p.0 as int, p.1 as int),
        r is None ==> no_literal_from(m.literals(), haystack@, at as int),
{
    match m.matcher.find_at(haystack, at) {
        Ok(found) => found.map(|x| (x.start(), x.end())),
        Err(_) => None,
    }
}

/// The occurrence that the match `m` of line `line_number` stands for, if
/// its text is a misspelling of `d`.
pub open spec fn span_occurrence(d: Seq<(Seq<u8>, Seq<u8>)>, line_number: usize, h: Seq<u8>, m: (int, int)) -> Option<
    Occurrence,
> {
    candidate(d, line_number, m.0 as usize, m.1 as usize, h.subrange(m.0, m.1))
}

/// How many of `spans` have a misspelling as their text.
pub open spec fn typo_span_count(d: Seq<(Seq<u8>, Seq<u8>)>, line_number: usize, h: Seq<u8>, spans: Seq<(int, int)>) -> nat
    decreases spans.len(),
{
    if spans.len() == 0 {
        0
    } else {
        typo_span_count(d, line_number, h, spans.drop_last()) + if span_occurrence(d, line_number, h, spans.last()) is Some {
            1nat
        } else {
            0nat
        }
    }
}

/// `after` holds exactly the occurrences of `before` and those that `spans`
/// stand for.
pub open spec fn holds_exactly(
    d: Seq<(Seq<u8>, Seq<u8>)>,
    line_number: usize,
    h: Seq<u8>,
    before: Seq<Occurrence>,
    spans: Seq<(int, int)>,
    after: Seq<Occurrence>,
) -> bool {
    forall|o: Occurrence|
        #![trigger after.contains(o)]
        after.contains(o) <==> (before.contains(o) || exists|i: int|
            0 <= i < spans.len() && span_occurrence(d, line_number, h, #[trigger] spans[i]) == Some(o))
}

impl OccurrenceList {
    /// Scans `line`, the text of line `line_number`, from left to right with
    /// `matcher` and records every match whose text is a misspelling; returns
    /// how many were added. Stops at the first match that `record` rejects.
    pub fn record_line(
        &mut self,
        dict: &TypoDictionary,
        matcher: &LiteralMatcher,
        line_number: usize,
        line: &[u8],
    ) -> (r: Result<usize, Violation>)
        requires
            dict.wf(),
            old(self).wf(dict@),
        ensures
            final(self).wf(dict@),
            r matches Ok(k) ==> {
                let spans = scan(matcher.literals(), line@, 0);
                &&& holds_exactly(dict@, line_number, line@, old(self)@, spans, final(self)@)
                &&& k == typo_span_count(dict@, line_number, line@, spans)
                &&& final(self)@.len() == old(self)@.len() + k
            },
            r matches Err(v) ==> {
                let spans = scan(matcher.literals(), line@, 0);
                exists|i: int|
                    0 <= i < spans.len() && holds_exactly(dict@, line_number, line@, old(self)@, spans.take(i), final(self)@)
                        && record_result(
                        dict@,
                        final(self)@,
                        line_number,
                        spans[i].0 as usize,
                        spans[i].1 as usize,
                        line@.subrange(spans[i].0, spans[i].1),
                    ) == Err::<bool, Violation>(v)
            },
    {
        let ghost s0 = self@;
        let ghost lits = matcher.literals();
        let ghost h = line@;
        let ghost d = dict@;
        let ghost spans = scan(lits, h, 0);
        let ghost mut done: Seq<(int, int)> = Seq::empty();
        let mut added: usize = 0;
        let mut at: usize = 0;
        assert(spans == done + scan(lits, h, 0)) by {
            assert(spans =~= done + scan(lits, h, 0));
        }
        while at <= line.len()
            invariant_except_break
                spans == done + scan(lits, h, at as int),
            invariant
                self.wf(dict@),
                dict.wf(),
                s0 == old(self)@,
                lits == matcher.literals(),
                h == line@,
                d == dict@,
                spans == scan(lits, h, 0),
                holds_exactly(d, line_number, h, s0, done, self@),
                added == typo_span_count(d, line_number, h, done),
                self@.len() == s0.len() + added,
                added <= at,
            ensures
                spans == done,
                holds_exactly(d, line_number, h, s0, done, self@),
                added == typo_span_count(d, line_number, h, done),
                self@.len() == s0.len() + added,
                self.wf(dict@),
            decreases line@.len() + 1 - at,
        {
            let (start, end) = match find_at(matcher, line, at) {
                None => {
                    proof {
                        if exists|m: (int, int)| leftmost_ok(lits, h, at as int, m.0, m.1) {
                            let m = choose|m: (int, int)| leftmost_ok(lits, h, at as int, m.0, m.1);
                            let k = choose|k: int|
                                0 <= k < lits.len() && occurs_at(h, m.0, #[trigger] lits[k]) && m.1 == m.0
                                    + lits[k].len() && (forall|j: int| 0 <= j < k ==> !occurs_at(h, m.0, #[trigger] lits[j]));
                            assert(any_at(lits, h, m.0));
                        }
                        assert(scan(lits, h, at as int) =~= Seq::<(int, int)>::empty());
                        assert(spans =~= done);
                    }
                    break;
                },
                Some(m) => m,
            };
            let ghost m = (start as int, end as int);
            proof {
                let k = choose|k: int|
                    0 <= k < lits.len() && occurs_at(h, m.0, #[trigger] lits[k]) && m.1 == m.0 + lits[k].len() && (forall|j: int|
                        0 <= j < k ==> !occurs_at(h, m.0, #[trigger] lits[j]));
                assert(leftmost_ok(lits, h, at as int, m.0, m.1));
                let c = choose|c: (int, int)| leftmost_ok(lits, h, at as int, c.0, c.1);
                lemma_leftmost_unique(lits, h, at as int, c.0, c.1, m.0, m.1);
                assert(leftmost(lits, h, at as int) == Some(m));
                assert(scan(lits, h, at as int) == seq![m] + scan(lits, h, resume_after(m)));
                assert(spans =~= done.push(m) + scan(lits, h, resume_after(m)));
                assert(done.push(m).drop_last() =~= done);
            }
            let text = slice_subrange(line, start, end);
            let ghost before = self@;
            let ghost old_done = done;
            match self.record(dict, line_number, start, end, text) {
                Ok(true) => {
                    proof {
                        done = done.push(m);
                        let c = candidate(d, line_number, start, end, text@)->Some_0;
                        assert(span_occurrence(d, line_number, h, m) == Some(c));
                        let p = choose|p: int| 0 <= p <= before.len() && self@ == before.insert(p, c);
                        assert(self@[p] == c);
                        assert(occ_valid(d, c));
                        assert forall|o: Occurrence| #![trigger self@.contains(o)]
                            self@.contains(o) <==> (s0.contains(o) || exists|i: int|
                                0 <= i < done.len() && span_occurrence(d, line_number, h, #[trigger] done[i]) == Some(o)) by {
                            if self@.contains(o) {
                                let k = choose|k: int| 0 <= k < self@.len() && self@[k] == o;
                                if k < p {
                                    assert(before[k] == o);
                                    assert(before.contains(o));
                                } else if k > p {
                                    assert(before[k - 1] == o);
                                    assert(before.contains(o));
                                } else {
                                    assert(done[done.len() - 1] == m);
                                }
                                if before.contains(o) && !s0.contains(o) {
                                    let i = choose|i: int|
                                        0 <= i < old_done.len() && span_occurrence(d, line_number, h, #[trigger] old_done[i]) == Some(o);
                                    assert(done[i] == old_done[i]);
                                }
                            }
                            if s0.contains(o) || exists|i: int|
                                0 <= i < done.len() && span_occurrence(d, line_number, h, #[trigger] done[i]) == Some(o) {
                                if o == c {
                                } else {
                                    if !s0.contains(o) {
                                        let i = choose|i: int|
                                            0 <= i < done.len() && span_occurrence(d, line_number, h, #[trigger] done[i]) == Some(o);
                                        assert(i < old_done.len());
                                        assert(old_done[i] == done[i]);
                                    }
                                    assert(before.contains(o));
                                    let k = choose|k: int| 0 <= k < before.len() && before[k] == o;
                                    if k < p {
                                        assert(self@[k] == o);
                                    } else {
                                        assert(self@[k + 1] == o);
                                    }
                                }
                            }
                        }
                    }
                    added = added + 1;
                },
                Ok(false) => {
                    proof {
                        done = done.push(m);
                        assert(span_occurrence(d, line_number, h, m) is None);
                        assert forall|o: Occurrence| #![trigger self@.contains(o)]
                            self@.contains(o) <==> (s0.contains(o) || exists|i: int|
                                0 <= i < done.len() && span_occurrence(d, line_number, h, #[trigger] done[i]) == Some(o)) by {
                            if exists|i: int|
                                0 <= i < done.len() && span_occurrence(d, line_number, h, #[trigger] done[i]) == Some(o) {
                                let i = choose|i: int|
                                    0 <= i < done.len() && span_occurrence(d, line_number, h, #[trigger] done[i]) == Some(o);
                                assert(i < old_done.len());
                                assert(old_done[i] == done[i]);
                            }
                            if before.contains(o) && !s0.contains(o) {
                                let i = choose|i: int|
                                    0 <= i < old_done.len() && span_occurrence(d, line_number, h, #[trigger] old_done[i]) == Some(o);
                                assert(done[i] == old_done[i]);
                            }
                        }
                    }
                },
                Err(v) => {
                    proof {
                        assert(self@ == before);
                        let i = done.len() as int;
                        assert(spans.take(i) =~= done);
                        assert(spans[i] == m);
                    }
                    return Err(v);
                },
            }
            if end > start {
                at = end;
            } else if end < line.len() {
                at = end + 1;
            } else {
                proof {
                    assert(scan(lits, h, resume_after(m)) =~= Seq::<(int, int)>::empty());
                    assert(spans =~= done);
                }
                break;
            }
        }
        proof {
            if at > line.len() {
                assert(spans =~= done);
            }
        }
        Ok(added)
    }
}

} // verus!
