use qa_timestamps::align::{align, index_video, AlignmentResult};
use qa_timestamps::captions::CaptionEntry;
use qa_timestamps::description::Question;
use qa_timestamps::normalize::normalize;

fn question(full: &str) -> Question {
    Question { full: full.to_string(), searchable: normalize(full), shortened: full.to_string() }
}

fn timeline(words: &[(&str, u64)]) -> Vec<CaptionEntry> {
    words.iter().map(|(w, s)| CaptionEntry { text: w.to_string(), start: *s }).collect()
}

fn starts(rs: &[AlignmentResult]) -> Vec<Option<u64>> {
    rs.iter().map(|r| r.start).collect()
}

#[test]
fn end_to_end_scenario() {
    let description = "Intro\n\n1. What is caching?\n\n2. Why use eviction?\n\n";
    let captions = "WEBVTT\n\n00:00:12.000 --> 00:00:14.000\nwhat is caching\n\n00:00:45.000 --> 00:00:47.000\nwhy use eviction\n";
    let rs = index_video(description, captions);
    assert_eq!(rs[0].question.full, "1. What is caching?");
    let got: Vec<(String, Option<u64>)> = rs.into_iter().map(|r| (r.question.shortened, r.start)).collect();
    assert_eq!(
        got,
        vec![("What is caching?".to_string(), Some(12000)), ("Why use eviction?".to_string(), Some(45000))]
    );
}

#[test]
fn unmatched_question_not_found() {
    let tl = timeline(&[("hello", 0), ("world", 1000)]);
    let rs = align(&vec![question("What is quantum gravity?")], &tl);
    assert_eq!(starts(&rs), vec![None]);
}

#[test]
fn every_question_gets_one_result() {
    let tl = timeline(&[("a", 0), ("b", 10)]);
    let qs = vec![question("a"), question("zzz"), question("b"), question("")];
    let rs = align(&qs, &tl);
    assert_eq!(rs.len(), 4);
    assert_eq!(starts(&rs), vec![Some(0), None, Some(10), None]);
    assert_eq!(rs[1].question.full, "zzz");
}

#[test]
fn cursor_keeps_order() {
    // "alpha" occurs before "beta" and again after it; the second question
    // must not resolve before the first.
    let tl = timeline(&[("alpha", 0), ("beta", 10), ("alpha", 20)]);
    let rs = align(&vec![question("beta"), question("alpha")], &tl);
    assert_eq!(starts(&rs), vec![Some(10), Some(20)]);
}

#[test]
fn missed_question_keeps_cursor() {
    let tl = timeline(&[("one", 5), ("two", 6), ("three", 7)]);
    let rs = align(&vec![question("missing words here"), question("one two")], &tl);
    assert_eq!(starts(&rs), vec![None, Some(5)]);
}

#[test]
fn fuzzy_match_three_quarters() {
    // Three of four words in the window: accepted.
    let tl = timeline(&[("so", 0), ("what", 100), ("is", 100), ("cashing", 200), ("today", 300)]);
    let rs = align(&vec![question("what is caching today")], &tl);
    assert_eq!(starts(&rs), vec![Some(100)]);
    // Two of four: refused.
    let rs2 = align(&vec![question("what was caching then")], &tl);
    assert_eq!(starts(&rs2), vec![None]);
}

#[test]
fn exact_match_preferred_over_earlier_fuzzy() {
    let tl = timeline(&[("why", 0), ("use", 0), ("x", 0), ("why", 50), ("use", 50), ("eviction", 50)]);
    let rs = align(&vec![question("why use eviction")], &tl);
    assert_eq!(starts(&rs), vec![Some(50)]);
}

#[test]
fn resolved_times_nondecreasing() {
    let tl = timeline(&[("a", 0), ("b", 1), ("c", 2), ("d", 3), ("e", 4)]);
    let qs = vec![question("d"), question("b"), question("e"), question("a c")];
    let rs = align(&qs, &tl);
    let found: Vec<u64> = rs.iter().filter_map(|r| r.start).collect();
    assert!(found.windows(2).all(|w| w[0] <= w[1]));
    assert_eq!(starts(&rs), vec![Some(3), None, Some(4), None]);
}

#[test]
fn empty_inputs() {
    assert!(align(&vec![], &timeline(&[("a", 0)])).is_empty());
    assert_eq!(starts(&align(&vec![question("a")], &vec![])), vec![None]);
}

#[test]
fn question_words_absent_from_timeline() {
    let tl = timeline(&[("alpha", 0), ("beta", 1), ("gamma", 2)]);
    let rs = align(&vec![question("delta epsilon zeta eta")], &tl);
    assert_eq!(starts(&rs), vec![None]);
}

#[test]
fn exact_match_is_a_substring_match() {
    let tl = timeline(&[("caching", 0), ("cach", 5000)]);
    let rs = align(&vec![question("cach")], &tl);
    assert_eq!(starts(&rs), vec![Some(0)]);
}

#[test]
fn exact_match_spans_entries() {
    let tl = timeline(&[("so", 0), ("what", 100), ("is", 200), ("caching", 300)]);
    let rs = align(&vec![question("at is cach")], &tl);
    assert_eq!(starts(&rs), vec![Some(100)]);
}
