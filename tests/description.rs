use qa_timestamps::description::extract_comments;

fn fulls(text: &str) -> Vec<String> {
    extract_comments(text).into_iter().map(|q| q.full).collect()
}

#[test]
fn description_window_rejects_out_of_sequence() {
    let text = "1. What is X here?\n\n2. Why is Y so?\n\n7. unrelated price list item";
    assert_eq!(fulls(text), vec!["1. What is X here?", "2. Why is Y so?"]);
}

#[test]
fn description_literal_items_from_scenario() {
    // "2. Why Y?" holds nine characters, under the paragraph minimum.
    let text = "1. What is X?\n\n2. Why Y?\n\n7. unrelated price list item";
    assert_eq!(fulls(text), vec!["1. What is X?"]);
}

#[test]
fn description_short_paragraphs_dropped() {
    let text = "1. Short\n\n2. A longer question?\n\n3. Tiny";
    assert_eq!(fulls(text), vec!["2. A longer question?"]);
}

#[test]
fn description_empty_gives_nothing() {
    assert!(extract_comments("").is_empty());
    assert!(extract_comments("No numbered list here at all.\n\nJust prose.").is_empty());
}

#[test]
fn description_two_digit_ordinal() {
    let text = "5. Fifth question here\n\n9. Ninth question here\n\n10. Tenth question here\n\n11) Eleventh question";
    assert_eq!(
        fulls(text),
        vec!["5. Fifth question here", "9. Ninth question here", "10. Tenth question here", "11) Eleventh question"]
    );
}

#[test]
fn description_first_item_within_window_of_one() {
    let text = "8. Too far from the start\n\n1. First real question";
    assert_eq!(fulls(text), vec!["1. First real question"]);
}

#[test]
fn description_heading_line_dropped() {
    let text = "Questions for today:\n1. What is a heap?\n\n2. What is a stack?";
    assert_eq!(fulls(text), vec!["1. What is a heap?", "2. What is a stack?"]);
}

#[test]
fn description_space_only_lines_separate() {
    let text = "1. First question text\n   \n2. Second question text\n \n\n  \n3. Third question text";
    assert_eq!(
        fulls(text),
        vec!["1. First question text", "2. Second question text", "3. Third question text"]
    );
}

#[test]
fn description_fields() {
    let qs = extract_comments("1. What IS caching, really?\nMore detail on a second line");
    assert_eq!(qs.len(), 1);
    assert_eq!(qs[0].full, "1. What IS caching, really?\nMore detail on a second line");
    assert_eq!(qs[0].searchable, "what is caching really more detail on a second line");
    assert_eq!(qs[0].shortened, "What IS caching, really?");
}

#[test]
fn description_shortened_cut() {
    let long = "1. ".to_string() + &"a".repeat(100);
    let qs = extract_comments(&long);
    assert_eq!(qs[0].shortened.chars().count(), 60);
}

#[test]
fn description_ordinals_far_apart_in_text_kept_by_marker() {
    let text = "1. 20 things to know\n\n2. 30 more things here";
    assert_eq!(fulls(text), vec!["1. 20 things to know", "2. 30 more things here"]);
    let qs = searchables(text);
    assert_eq!(qs, vec!["20 things to know", "30 more things here"]);
}

fn searchables(text: &str) -> Vec<String> {
    extract_comments(text).into_iter().map(|q| q.searchable).collect()
}

#[test]
fn description_twelve_is_one_ordinal() {
    let text = "1. First question here\n\n5. Fifth question here\n\n9. Ninth question here\n\n12. Twelfth question here";
    assert_eq!(
        fulls(text),
        vec!["1. First question here", "5. Fifth question here", "9. Ninth question here", "12. Twelfth question here"]
    );
}

#[test]
fn description_unicode_whitespace_trimmed() {
    let text = "\u{a0}1. What is a cache line?\u{3000}";
    assert_eq!(fulls(text), vec!["1. What is a cache line?"]);
}
