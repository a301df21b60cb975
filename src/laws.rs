//! Properties that relate several calls or hold of every input.

use vstd::prelude::*;
use crate::occurrence::{Occurrence, occ_before, occ_key_lt, occ_valid, occurrences_wf};
use crate::patch::{abs_start, all_placed, gap, lemma_spans_ordered, line_start, patched, resume, spliced};

verus! {

/// A well-formed occurrence list is sorted by
/// `(line_number, match_start, match_end, index)`, strictly.
pub proof fn lemma_sorted_by_key(d: Seq<(Seq<u8>, Seq<u8>)>, s: Seq<Occurrence>)
    requires
        occurrences_wf(d, s),
    ensures
        forall|i: int, j: int| 0 <= i < j < s.len() ==> occ_key_lt(#[trigger] s[i], #[trigger] s[j]),
{
    assert forall|i: int, j: int| 0 <= i < j < s.len() implies occ_key_lt(#[trigger] s[i], #[trigger] s[j]) by {
        assert(occ_before(s[i], s[j]));
        assert(occ_valid(d, s[i]));
        assert(occ_valid(d, s[j]));
    }
}

/// Two well-formed lists that hold the same occurrences are the same list:
/// the collected order does not depend on the order in which matches arrive.
pub proof fn lemma_order_determined(d: Seq<(Seq<u8>, Seq<u8>)>, a: Seq<Occurrence>, b: Seq<Occurrence>)
    requires
        occurrences_wf(d, a),
        occurrences_wf(d, b),
        forall|o: Occurrence| a.contains(o) <==> b.contains(o),
    ensures
        a == b,
    decreases a.len(),
{
    if a.len() == 0 {
        if b.len() > 0 {
            assert(b.contains(b[0]));
        }
        assert(a =~= b);
    } else {
        assert(a.contains(a[0]));
        let j = choose|j: int| 0 <= j < b.len() && b[j] == a[0];
        assert(b.contains(b[0]));
        let k = choose|k: int| 0 <= k < a.len() && a[k] == b[0];
        assert(occ_valid(d, a[0]));
        assert(occ_valid(d, a[k]));
        if j > 0 {
            assert(occ_before(b[0], b[j]));
            if k > 0 {
                assert(occ_before(a[0], a[k]));
            }
        }
        assert(j == 0);
        let ta = a.drop_first();
        let tb = b.drop_first();
        assert forall|o: Occurrence| ta.contains(o) <==> tb.contains(o) by {
            if ta.contains(o) {
                let x = choose|x: int| 0 <= x < ta.len() && ta[x] == o;
                assert(occ_before(a[0], a[x + 1]));
                assert(occ_valid(d, a[0]));
                assert(a.contains(o));
                let y = choose|y: int| 0 <= y < b.len() && b[y] == o;
                assert(y != 0);
                assert(tb[y - 1] == o);
            }
            if tb.contains(o) {
                let x = choose|x: int| 0 <= x < tb.len() && tb[x] == o;
                assert(occ_before(b[0], b[x + 1]));
                assert(occ_valid(d, b[0]));
                assert(b.contains(o));
                let y = choose|y: int| 0 <= y < a.len() && a[y] == o;
                assert(y != 0);
                assert(ta[y - 1] == o);
            }
        }
        assert forall|i: int, k: int| 0 <= i < k < ta.len() implies occ_before(#[trigger] ta[i], #[trigger] ta[k]) by {
            assert(occ_before(a[i + 1], a[k + 1]));
        }
        assert forall|i: int, k: int| 0 <= i < k < tb.len() implies occ_before(#[trigger] tb[i], #[trigger] tb[k]) by {
            assert(occ_before(b[i + 1], b[k + 1]));
        }
        assert forall|i: int| 0 <= i < ta.len() implies occ_valid(d, #[trigger] ta[i]) by {
            assert(occ_valid(d, a[i + 1]));
        }
        assert forall|i: int| 0 <= i < tb.len() implies occ_valid(d, #[trigger] tb[i]) by {
            assert(occ_valid(d, b[i + 1]));
        }
        lemma_order_determined(d, ta, tb);
        assert(a =~= seq![a[0]] + ta);
        assert(b =~= seq![b[0]] + tb);
    }
}

/// The output of the first `i` occurrences begins the output of the first `m`.
proof fn lemma_spliced_prefix(c: Seq<u8>, d: Seq<(Seq<u8>, Seq<u8>)>, s: Seq<Occurrence>, i: int, m: int)
    requires
        0 <= i <= m,
    ensures
        spliced(c, d, s, i).len() <= spliced(c, d, s, m).len(),
        spliced(c, d, s, m).subrange(0, spliced(c, d, s, i).len() as int) == spliced(c, d, s, i),
    decreases m,
{
    if i < m {
        lemma_spliced_prefix(c, d, s, i, m - 1);
        let a = spliced(c, d, s, m - 1);
        let b = spliced(c, d, s, m);
        let p = spliced(c, d, s, i);
        assert(b.subrange(0, p.len() as int) =~= a.subrange(0, p.len() as int));
    } else {
        assert(spliced(c, d, s, m).subrange(0, spliced(c, d, s, m).len() as int) =~= spliced(c, d, s, m));
    }
}

/// Patching leaves every byte outside the matched spans as it was: the
/// stretch of content before each span, and after the last one, appears
/// unchanged in the output, directly after the fix that precedes it, and
/// each fix stands directly after its stretch.
pub proof fn lemma_exact_locality(c: Seq<u8>, d: Seq<(Seq<u8>, Seq<u8>)>, s: Seq<Occurrence>)
    requires
        occurrences_wf(d, s),
        all_placed(c, s),
    ensures
        forall|i: int| 0 <= i < s.len() ==> resume(c, s, i) <= abs_start(c, #[trigger] s[i]),
        forall|i: int| #![trigger gap(c, s, i)] 0 <= i <= s.len() ==> {
            let p = spliced(c, d, s, i).len() as int;
            patched(c, d, s).subrange(p, p + gap(c, s, i).len()) == gap(c, s, i)
        },
        forall|i: int| #![trigger spliced(c, d, s, i)] 0 <= i < s.len() ==> {
            let p = (spliced(c, d, s, i).len() + gap(c, s, i).len()) as int;
            let f = d[s[i].index as int].1;
            patched(c, d, s).subrange(p, p + f.len()) == f
        },
{
    lemma_spans_ordered(c, d, s);
    let n = s.len() as int;
    let out = patched(c, d, s);
    assert forall|i: int| #![trigger gap(c, s, i)] 0 <= i <= s.len() implies {
        let p = spliced(c, d, s, i).len() as int;
        out.subrange(p, p + gap(c, s, i).len()) == gap(c, s, i)
    } by {
        let p = spliced(c, d, s, i).len() as int;
        let g = gap(c, s, i);
        if i < n {
            lemma_spliced_prefix(c, d, s, i + 1, n);
            let q = spliced(c, d, s, i + 1);
            assert(out.subrange(0, q.len() as int) =~= q);
            assert(out.subrange(p, p + g.len()) =~= q.subrange(p, p + g.len()));
            assert(q.subrange(p, p + g.len()) =~= g);
        } else {
            assert(out.subrange(p, p + g.len()) =~= g);
        }
    }
    assert forall|i: int| #![trigger spliced(c, d, s, i)] 0 <= i < s.len() implies {
        let p = (spliced(c, d, s, i).len() + gap(c, s, i).len()) as int;
        let f = d[s[i].index as int].1;
        out.subrange(p, p + f.len()) == f
    } by {
        let p = (spliced(c, d, s, i).len() + gap(c, s, i).len()) as int;
        let f = d[s[i].index as int].1;
        lemma_spliced_prefix(c, d, s, i + 1, n);
        let q = spliced(c, d, s, i + 1);
        assert(out.subrange(0, q.len() as int) =~= q);
        assert(out.subrange(p, p + f.len()) =~= q.subrange(p, p + f.len()));
        assert(q.subrange(p, p + f.len()) =~= f);
    }
}

/// Two occurrences on one line, the first ending where or before the second
/// starts, are both fixed, left to right: the line's text before the first,
/// its fix, the text between the two spans, the second fix, then the rest.
/// Copying resumes past each typo, whatever the length of its fix.
pub proof fn lemma_two_on_one_line(c: Seq<u8>, d: Seq<(Seq<u8>, Seq<u8>)>, a: Occurrence, b: Occurrence)
    requires
        occurrences_wf(d, seq![a, b]),
        a.line_number == b.line_number,
        all_placed(c, seq![a, b]),
    ensures
        ({
            let ls = line_start(c, a.line_number as int);
            patched(c, d, seq![a, b]) == c.subrange(0, ls + a.match_start) + d[a.index as int].1 + c.subrange(
                ls + a.match_end,
                ls + b.match_start,
            ) + d[b.index as int].1 + c.subrange(ls + b.match_end, c.len() as int)
        }),
{
    let s = seq![a, b];
    lemma_spans_ordered(c, d, s);
    assert(s[0] == a && s[1] == b);
    assert(spliced(c, d, s, 0) =~= Seq::<u8>::empty());
    assert(spliced(c, d, s, 1) =~= gap(c, s, 0) + d[a.index as int].1);
    let ls = line_start(c, a.line_number as int);
    assert(patched(c, d, s) =~= c.subrange(0, ls + a.match_start) + d[a.index as int].1 + c.subrange(
        ls + a.match_end,
        ls + b.match_start,
    ) + d[b.index as int].1 + c.subrange(ls + b.match_end, c.len() as int));
}

} // verus!
