use ktf::dictionary::{DictionaryError, TypoDictionary, TypoEntry};
use ktf::occurrence::{Occurrence, OccurrenceList, Violation};
use ktf::patch::{line_start_offsets, patch, plan_rewrite};
use ktf::search::LiteralMatcher;

fn entry(typo: &str, fix: &str) -> TypoEntry {
    TypoEntry { typo: typo.as_bytes().to_vec(), fix: fix.as_bytes().to_vec() }
}

fn known() -> TypoDictionary {
    TypoDictionary::new(vec![entry("can;t", "can't"), entry("don;t", "don't"), entry("won;t", "won't")]).unwrap()
}

fn dict_of(pairs: &[(&str, &str)]) -> TypoDictionary {
    TypoDictionary::new(pairs.iter().map(|(t, f)| entry(t, f)).collect()).unwrap()
}

/// Searches every line of `content` with a literal matcher built from the
/// dictionary and records each match.
fn matcher_for(dict: &TypoDictionary) -> LiteralMatcher {
    LiteralMatcher::for_dictionary(dict).unwrap()
}

fn collect(dict: &TypoDictionary, content: &str) -> OccurrenceList {
    let matcher = matcher_for(dict);
    let mut list = OccurrenceList::new();
    for (n, line) in content.split_inclusive('\n').enumerate() {
        list.record_line(dict, &matcher, n + 1, line.as_bytes()).unwrap();
    }
    list
}

fn fix_all(dict: &TypoDictionary, content: &str) -> (String, usize) {
    let list = collect(dict, content);
    let out = patch(dict, content.as_bytes(), &list).unwrap();
    (String::from_utf8(out).unwrap(), list.len())
}

#[test]
fn lookup_finds_each_typo() {
    let d = known();
    assert_eq!(d.lookup(b"can;t"), Some(0));
    assert_eq!(d.lookup(b"don;t"), Some(1));
    assert_eq!(d.lookup(b"won;t"), Some(2));
    assert_eq!(d.lookup(b"don't"), None);
    assert_eq!(d.lookup(b"don;"), None);
    assert_eq!(d.lookup(b""), None);
    assert_eq!(d.lookup(b"zzz"), None);
}

#[test]
fn dictionary_rejects_bad_tables() {
    let r = TypoDictionary::new(vec![entry("a", "b"), entry("", "x")]);
    assert!(matches!(r, Err(DictionaryError::EmptyTypo { index: 1 })));
    let r = TypoDictionary::new(vec![entry("a", "b"), entry("a", "c")]);
    assert!(matches!(r, Err(DictionaryError::DuplicateTypo { index: 1 })));
    let r = TypoDictionary::new(vec![entry("b", "x"), entry("a", "y")]);
    assert!(matches!(r, Err(DictionaryError::OutOfOrder { index: 1 })));
    // Uppercase sorts before lowercase in byte order.
    assert!(TypoDictionary::new(vec![entry("Teh ", "The "), entry("teh ", "the ")]).is_ok());
    assert!(TypoDictionary::new(vec![]).is_ok());
}

#[test]
fn record_ignores_unknown_text() {
    let d = known();
    let mut list = OccurrenceList::new();
    assert_eq!(list.record(&d, 1, 0, 5, b"hello"), Ok(false));
    assert!(list.is_empty());
}

#[test]
fn duplicate_is_a_violation() {
    let d = known();
    let mut list = OccurrenceList::new();
    assert_eq!(list.record(&d, 3, 2, 7, b"don;t"), Ok(true));
    assert_eq!(
        list.record(&d, 3, 2, 7, b"don;t"),
        Err(Violation::DuplicateOccurrence { line_number: 3, match_start: 2, match_end: 7 })
    );
    assert_eq!(list.len(), 1);
}

#[test]
fn overlap_and_malformed_are_violations() {
    let d = known();
    let mut list = OccurrenceList::new();
    assert_eq!(list.record(&d, 1, 2, 7, b"don;t"), Ok(true));
    assert_eq!(
        list.record(&d, 1, 5, 10, b"won;t"),
        Err(Violation::OverlappingOccurrence { line_number: 1, match_start: 5, match_end: 10 })
    );
    assert_eq!(
        list.record(&d, 0, 0, 5, b"won;t"),
        Err(Violation::MalformedSpan { line_number: 0, match_start: 0, match_end: 5 })
    );
    assert_eq!(
        list.record(&d, 2, 0, 4, b"won;t"),
        Err(Violation::MalformedSpan { line_number: 2, match_start: 0, match_end: 4 })
    );
    assert_eq!(
        list.record(&d, 2, 6, 1, b"won;t"),
        Err(Violation::MalformedSpan { line_number: 2, match_start: 6, match_end: 1 })
    );
    // Adjacent spans do not overlap.
    assert_eq!(list.record(&d, 1, 7, 12, b"won;t"), Ok(true));
    assert_eq!(list.len(), 2);
}

#[test]
fn order_does_not_depend_on_delivery() {
    let d = known();
    let matches: [(usize, usize, usize, &[u8]); 4] =
        [(2, 6, 11, b"won;t"), (1, 0, 5, b"can;t"), (2, 0, 5, b"don;t"), (5, 2, 7, b"don;t")];
    let mut a = OccurrenceList::new();
    for &(l, s, e, t) in matches.iter() {
        a.record(&d, l, s, e, t).unwrap();
    }
    let mut b = OccurrenceList::new();
    for &(l, s, e, t) in matches.iter().rev() {
        b.record(&d, l, s, e, t).unwrap();
    }
    assert_eq!(a.as_slice(), b.as_slice());
    let expected = [
        Occurrence { index: 0, line_number: 1, match_start: 0, match_end: 5 },
        Occurrence { index: 1, line_number: 2, match_start: 0, match_end: 5 },
        Occurrence { index: 2, line_number: 2, match_start: 6, match_end: 11 },
        Occurrence { index: 1, line_number: 5, match_start: 2, match_end: 7 },
    ];
    assert_eq!(a.as_slice(), &expected[..]);
    assert_eq!(a.get(2), expected[2]);
    let content = "can;t\ndon;t won;t\n\n\nx don;t y\n";
    let pa = patch(&d, content.as_bytes(), &a).unwrap();
    let pb = patch(&d, content.as_bytes(), &b).unwrap();
    assert_eq!(pa, pb);
    assert_eq!(String::from_utf8(pa).unwrap(), "can't\ndon't won't\n\n\nx don't y\n");
}

#[test]
fn multi_match_line() {
    let d = dict_of(&[("don;t", "don't"), ("won;t", "won't")]);
    let (out, n) = fix_all(&d, "don;t won;t");
    assert_eq!(out, "don't won't");
    assert_eq!(n, 2);
}

#[test]
fn end_to_end_example() {
    let d = known();
    let content = "I don;t know why.\nIt's fine.\nWe won;t go.\n";
    let (out, n) = fix_all(&d, content);
    assert_eq!(out, "I don't know why.\nIt's fine.\nWe won't go.\n");
    assert_eq!(n, 2);
}

#[test]
fn fixes_of_other_lengths() {
    let d = dict_of(&[("sicne", "since"), ("u", "you"), ("witohut", "w/o")]);
    let (out, n) = fix_all(&d, "u go witohut me sicne u said\nend");
    assert_eq!(out, "you go w/o me since you said\nend");
    assert_eq!(n, 4);
}

#[test]
fn untouched_bytes_are_kept() {
    let d = known();
    let content = "\r\n  can;t\t\r\nplain line\nlast don;t";
    let (out, n) = fix_all(&d, content);
    assert_eq!(out, "\r\n  can't\t\r\nplain line\nlast don't");
    assert_eq!(n, 2);
}

#[test]
fn running_twice_finds_nothing() {
    let d = known();
    let (once, n1) = fix_all(&d, "don;t can;t\nwon;t\nnone\n");
    assert_eq!(n1, 3);
    let list = collect(&d, &once);
    assert!(list.is_empty());
    assert_eq!(plan_rewrite(&d, once.as_bytes(), &list), Ok(None));
}

#[test]
fn no_matches_means_no_write() {
    let d = known();
    let list = collect(&d, "nothing to see\nhere\n");
    assert_eq!(plan_rewrite(&d, b"nothing to see\nhere\n", &list), Ok(None));
    let list = collect(&d, "a don;t\n");
    assert_eq!(plan_rewrite(&d, b"a don;t\n", &list), Ok(Some(b"a don't\n".to_vec())));
}

#[test]
fn line_past_the_end_is_a_violation() {
    let d = known();
    let mut list = OccurrenceList::new();
    list.record(&d, 3, 0, 5, b"don;t").unwrap();
    assert_eq!(patch(&d, b"one\ntwo", &list), Err(Violation::LineBeyondEnd { line_number: 3 }));
    assert_eq!(
        plan_rewrite(&d, b"one\ntwo", &list),
        Err(Violation::LineBeyondEnd { line_number: 3 })
    );
}

#[test]
fn span_past_the_line_is_a_violation() {
    let d = known();
    let mut list = OccurrenceList::new();
    list.record(&d, 1, 2, 7, b"don;t").unwrap();
    assert_eq!(
        patch(&d, b"abcd\ndon;t\n", &list),
        Err(Violation::SpanBeyondLine { line_number: 1, match_start: 2, match_end: 7 })
    );
    // A span may end at the end of the line, terminator included.
    assert_eq!(patch(&d, b"abdon;t", &list), Ok(b"abdon't".to_vec()));
}

#[test]
fn line_offsets() {
    assert_eq!(line_start_offsets(b""), vec![0]);
    assert_eq!(line_start_offsets(b"ab\ncd\n"), vec![0, 3, 6]);
    assert_eq!(line_start_offsets(b"\n\nx"), vec![0, 1, 2]);
}

#[test]
fn dictionary_accessors() {
    let d = known();
    assert_eq!(d.len(), 3);
    assert_eq!(d.typo(1), b"don;t");
    assert_eq!(d.fix(2), b"won't");
}

#[test]
fn record_line_records_each_match() {
    let d = known();
    let m = matcher_for(&d);
    let mut list = OccurrenceList::new();
    assert_eq!(list.record_line(&d, &m, 4, b"won;t, can;t and don;t\n"), Ok(3));
    let expected = [
        Occurrence { index: 2, line_number: 4, match_start: 0, match_end: 5 },
        Occurrence { index: 0, line_number: 4, match_start: 7, match_end: 12 },
        Occurrence { index: 1, line_number: 4, match_start: 17, match_end: 22 },
    ];
    assert_eq!(list.as_slice(), &expected[..]);
    assert_eq!(list.record_line(&d, &m, 5, b"nothing here\n"), Ok(0));
    assert_eq!(
        list.record_line(&d, &m, 4, b"won;t again"),
        Err(Violation::DuplicateOccurrence { line_number: 4, match_start: 0, match_end: 5 })
    );
    assert_eq!(list.len(), 3);
}

#[test]
fn record_line_skips_matches_outside_the_dictionary() {
    let d = dict_of(&[("teh ", "the ")]);
    let m = LiteralMatcher::from_literals(vec![b"teh ".to_vec(), b"xyz".to_vec()]).unwrap();
    let mut list = OccurrenceList::new();
    assert_eq!(list.record_line(&d, &m, 1, b"xyz teh cat"), Ok(1));
    assert_eq!(list.get(0), Occurrence { index: 0, line_number: 1, match_start: 4, match_end: 8 });
}

#[test]
fn literals_are_matched_byte_for_byte() {
    let d = dict_of(&[("a.c", "x"), ("d+", "y")]);
    let m = matcher_for(&d);
    let mut list = OccurrenceList::new();
    assert_eq!(list.record_line(&d, &m, 1, b"abc ddd a.c d+"), Ok(2));
    assert_eq!(list.get(0), Occurrence { index: 0, line_number: 1, match_start: 8, match_end: 11 });
    assert_eq!(list.get(1), Occurrence { index: 1, line_number: 1, match_start: 12, match_end: 14 });
}

#[test]
fn earlier_literal_wins_at_the_same_start() {
    let d = dict_of(&[("ab", "X"), ("abc", "Y")]);
    let m = matcher_for(&d);
    let mut list = OccurrenceList::new();
    assert_eq!(list.record_line(&d, &m, 1, b"zabcab"), Ok(2));
    assert_eq!(list.get(0), Occurrence { index: 0, line_number: 1, match_start: 1, match_end: 3 });
    assert_eq!(list.get(1), Occurrence { index: 0, line_number: 1, match_start: 4, match_end: 6 });
}

#[test]
fn matcher_rejects_text_that_is_not_utf8() {
    assert!(LiteralMatcher::from_literals(vec![vec![0xff, 0xfe]]).is_none());
}
