//! The line patch engine: splices the fix of every occurrence into a file's
//! content, copying all other bytes unchanged.

use vstd::prelude::*;
use crate::dictionary::TypoDictionary;
use crate::occurrence::{Occurrence, OccurrenceList, Violation, occ_before, occ_valid, occurrences_wf};

verus! {

/// Offsets at which the lines of `c` start: 0, and one past each newline.
/// Line `n` (1-based) starts at entry `n - 1`; a line includes its newline.
pub open spec fn line_starts(c: Seq<u8>) -> Seq<int>
    decreases c.len(),
{
    if c.len() == 0 {
        seq![0]
    } else {
        let s = line_starts(c.drop_last());
        if c.last() == 10 {
            s.push(c.len() as int)
        } else {
            s
        }
    }
}

/// The offset at which line `n` starts.
pub open spec fn line_start(c: Seq<u8>, n: int) -> int {
    line_starts(c)[n - 1]
}

/// The offset at which line `n` ends, its newline included.
pub open spec fn line_end(c: Seq<u8>, n: int) -> int {
    if n < line_starts(c).len() {
        line_starts(c)[n]
    } else {
        c.len() as int
    }
}

/// Why an occurrence cannot be placed in `c`, if it cannot.
pub open spec fn placement(c: Seq<u8>, o: Occurrence) -> Option<Violation> {
    if o.line_number > line_starts(c).len() {
        Some(Violation::LineBeyondEnd { line_number: o.line_number })
    } else if line_start(c, o.line_number as int) + o.match_end > line_end(c, o.line_number as int) {
        Some(
            Violation::SpanBeyondLine {
                line_number: o.line_number,
                match_start: o.match_start,
                match_end: o.match_end,
            },
        )
    } else {
        None
    }
}

/// Every occurrence of `s` can be placed in `c`.
pub open spec fn all_placed(c: Seq<u8>, s: Seq<Occurrence>) -> bool {
    forall|j: int| 0 <= j < s.len() ==> #[trigger] placement(c, s[j]) is None
}

/// Where the span of `o` starts in the whole content.
pub open spec fn abs_start(c: Seq<u8>, o: Occurrence) -> int {
    line_start(c, o.line_number as int) + o.match_start
}

/// Where the span of `o` ends in the whole content.
pub open spec fn abs_end(c: Seq<u8>, o: Occurrence) -> int {
    line_start(c, o.line_number as int) + o.match_end
}

/// Where copying resumes after the first `n` occurrences.
pub open spec fn resume(c: Seq<u8>, s: Seq<Occurrence>, n: int) -> int {
    if n <= 0 {
        0
    } else {
        abs_end(c, s[n - 1])
    }
}

/// The untouched bytes between occurrence `i - 1` and occurrence `i`
/// (between the last one and the end of `c` for `i == s.len()`).
pub open spec fn gap(c: Seq<u8>, s: Seq<Occurrence>, i: int) -> Seq<u8> {
    if i < s.len() {
        c.subrange(resume(c, s, i), abs_start(c, s[i]))
    } else {
        c.subrange(resume(c, s, i), c.len() as int)
    }
}

/// The output for the first `n` occurrences: each gap followed by the fix.
pub open spec fn spliced(c: Seq<u8>, d: Seq<(Seq<u8>, Seq<u8>)>, s: Seq<Occurrence>, n: int) -> Seq<u8>
    decreases n,
{
    if n <= 0 {
        Seq::empty()
    } else {
        spliced(c, d, s, n - 1) + gap(c, s, n - 1) + d[s[n - 1].index as int].1
    }
}

/// The corrected content: every span replaced by its fix, all else copied.
pub open spec fn patched(c: Seq<u8>, d: Seq<(Seq<u8>, Seq<u8>)>, s: Seq<Occurrence>) -> Seq<u8> {
    spliced(c, d, s, s.len() as int) + gap(c, s, s.len() as int)
}

/// Line starts begin at 0, strictly increase and stay within the content.
pub proof fn lemma_line_starts(c: Seq<u8>)
    ensures
        line_starts(c).len() >= 1,
        line_starts(c).len() <= c.len() + 1,
        line_starts(c)[0] == 0,
        forall|i: int, j: int| 0 <= i < j < line_starts(c).len() ==> line_starts(c)[i] < line_starts(c)[j],
        forall|i: int| 0 <= i < line_starts(c).len() ==> 0 <= #[trigger] line_starts(c)[i] <= c.len(),
    decreases c.len(),
{
    if c.len() > 0 {
        lemma_line_starts(c.drop_last());
    }
}

/// In a well-formed list whose occurrences all fit, the spans come in order
/// and lie within the content.
pub proof fn lemma_spans_ordered(c: Seq<u8>, d: Seq<(Seq<u8>, Seq<u8>)>, s: Seq<Occurrence>)
    requires
        occurrences_wf(d, s),
        all_placed(c, s),
    ensures
        forall|i: int| 0 <= i < s.len() ==> resume(c, s, i) <= abs_start(c, #[trigger] s[i]),
        forall|i: int| 0 <= i < s.len() ==> abs_start(c, #[trigger] s[i]) < abs_end(c, s[i]) <= c.len(),
{
    lemma_line_starts(c);
    assert forall|i: int| 0 <= i < s.len() implies abs_start(c, #[trigger] s[i]) < abs_end(c, s[i]) <= c.len() by {
        assert(placement(c, s[i]) is None);
        assert(occ_valid(d, s[i]));
    }
    assert forall|i: int| 0 <= i < s.len() implies resume(c, s, i) <= abs_start(c, #[trigger] s[i]) by {
        if i > 0 {
            let p = s[i - 1];
            let o = s[i];
            assert(occ_before(p, o));
            assert(placement(c, p) is None);
            assert(placement(c, o) is None);
            assert(occ_valid(d, p));
            if p.line_number < o.line_number {
                assert(line_end(c, p.line_number as int) <= line_start(c, o.line_number as int));
            }
        }
    }
}

/// Appends `src[from..to]` to `out`.
fn push_bytes(out: &mut Vec<u8>, src: &[u8], from: usize, to: usize)
    requires
        from <= to <= src@.len(),
    ensures
        final(out)@ == old(out)@ + src@.subrange(from as int, to as int),
{
    let mut i: usize = from;
    while i < to
        invariant
            from <= i <= to <= src@.len(),
            out@ == old(out)@ + src@.subrange(from as int, i as int),
        decreases to - i,
    {
        out.push(src[i]);
        assert(src@.subrange(from as int, i + 1) =~= src@.subrange(from as int, i as int).push(src@[i as int]));
        i = i + 1;
    }
}

/// The offset at which each line of `content` starts.
pub fn line_start_offsets(content: &[u8]) -> (r: Vec<usize>)
    ensures
        r@.len() == line_starts(content@).len(),
        forall|i: int| 0 <= i < r@.len() ==> r@[i] as int == #[trigger] line_starts(content@)[i],
{
    let mut r: Vec<usize> = Vec::new();
    r.push(0);
    let mut i: usize = 0;
    assert(content@.take(0) =~= Seq::<u8>::empty());
    while i < content.len()
        invariant
            0 <= i <= content@.len(),
            r@.len() == line_starts(content@.take(i as int)).len(),
            forall|k: int| 0 <= k < r@.len() ==> r@[k] as int == #[trigger] line_starts(content@.take(i as int))[k],
        decreases content@.len() - i,
    {
        assert(content@.take(i + 1).drop_last() =~= content@.take(i as int));
        if content[i] == 10 {
            r.push(i + 1);
        }
        i = i + 1;
    }
    assert(content@.take(i as int) =~= content@);
    r
}

/// Splices the fix of each occurrence of `list` into `content`. Fails with
/// the violation of the first occurrence whose line does not exist or whose
/// span runs past the end of its line.
pub fn patch(dict: &TypoDictionary, content: &[u8], list: &OccurrenceList) -> (r: Result<Vec<u8>, Violation>)
    requires
        dict.wf(),
        list.wf(dict@),
    ensures
        r is Ok <==> all_placed(content@, list@),
        r matches Ok(out) ==> out@ == patched(content@, dict@, list@),
        r matches Err(v) ==> exists|j: int|
            0 <= j < list@.len() && (forall|k: int| 0 <= k < j ==> placement(content@, #[trigger] list@[k]) is None)
                && placement(content@, list@[j]) == Some(v),
{
    let ghost c = content@;
    let ghost d = dict@;
    let ghost s = list@;
    let starts = line_start_offsets(content);
    proof {
        lemma_line_starts(c);
    }
    let n = list.len();
    let mut out: Vec<u8> = Vec::new();
    let mut copied: usize = 0;
    let mut j: usize = 0;
    while j < n
        invariant
            c == content@,
            d == dict@,
            s == list@,
            n == s.len(),
            occurrences_wf(d, s),
            starts@.len() == line_starts(c).len(),
            forall|i: int| 0 <= i < starts@.len() ==> starts@[i] as int == #[trigger] line_starts(c)[i],
            line_starts(c).len() <= c.len() + 1,
            forall|i: int, k: int| 0 <= i < k < line_starts(c).len() ==> line_starts(c)[i] < line_starts(c)[k],
            forall|i: int| 0 <= i < line_starts(c).len() ==> 0 <= #[trigger] line_starts(c)[i] <= c.len(),
            0 <= j <= n,
            forall|k: int| 0 <= k < j ==> #[trigger] placement(c, s[k]) is None,
            copied as int == resume(c, s, j as int),
            copied <= c.len(),
            out@ == spliced(c, d, s, j as int),
        decreases n - j,
    {
        let o = list.get(j);
        assert(occ_valid(d, o));
        if o.line_number > starts.len() {
            return Err(Violation::LineBeyondEnd { line_number: o.line_number });
        }
        let ls = starts[o.line_number - 1];
        let le = if o.line_number < starts.len() {
            starts[o.line_number]
        } else {
            content.len()
        };
        assert(ls as int == line_start(c, o.line_number as int));
        assert(le as int == line_end(c, o.line_number as int));
        if o.match_end > le - ls {
            return Err(
                Violation::SpanBeyondLine {
                    line_number: o.line_number,
                    match_start: o.match_start,
                    match_end: o.match_end,
                },
            );
        }
        assert(placement(c, o) is None);
        let from = ls + o.match_start;
        let to = ls + o.match_end;
        proof {
            if j > 0 {
                let p = s[j - 1];
                assert(occ_before(p, o));
                assert(placement(c, p) is None);
                assert(occ_valid(d, p));
                if p.line_number < o.line_number {
                    assert(line_end(c, p.line_number as int) <= line_start(c, o.line_number as int));
                }
            }
        }
        push_bytes(&mut out, content, copied, from);
        let fix = dict.fix(o.index);
        push_bytes(&mut out, fix, 0, fix.len());
        assert(fix@.subrange(0, fix@.len() as int) =~= fix@);
        assert(gap(c, s, j as int) == c.subrange(copied as int, from as int));
        copied = to;
        j = j + 1;
    }
    push_bytes(&mut out, content, copied, content.len());
    Ok(out)
}

/// What to do with a file: `None` when it has no occurrences and must not be
/// written, else the corrected content to write.
pub fn plan_rewrite(dict: &TypoDictionary, content: &[u8], list: &OccurrenceList) -> (r: Result<
    Option<Vec<u8>>,
    Violation,
>)
    requires
        dict.wf(),
        list.wf(dict@),
    ensures
        list@.len() == 0 <==> r == Ok::<Option<Vec<u8>>, Violation>(None),
        list@.len() > 0 ==> (r is Ok <==> all_placed(content@, list@)),
        r matches Ok(Some(out)) ==> out@ == patched(content@, dict@, list@),
        r matches Err(v) ==> exists|j: int|
            0 <= j < list@.len() && (forall|k: int| 0 <= k < j ==> placement(content@, #[trigger] list@[k]) is None)
                && placement(content@, list@[j]) == Some(v),
{
    if list.is_empty() {
        return Ok(None);
    }
    match patch(dict, content, list) {
        Ok(out) => Ok(Some(out)),
        Err(v) => Err(v),
    }
}

} // verus!
