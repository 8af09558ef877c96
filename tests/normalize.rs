use qa_timestamps::normalize::normalize;

#[test]
fn normalize_lowercases_and_collapses() {
    assert_eq!(normalize("  What IS   caching?! "), "what is caching");
}

#[test]
fn normalize_punctuation_separates_words() {
    assert_eq!(normalize("cache-line,size...of\t\n64"), "cache line size of 64");
}

#[test]
fn normalize_empty_and_blank() {
    assert_eq!(normalize(""), "");
    assert_eq!(normalize("  ?!  \n"), "");
}

#[test]
fn normalize_keeps_non_ascii() {
    assert_eq!(normalize("Café Über"), "café Über");
}

#[test]
fn normalize_is_idempotent_on_examples() {
    for s in ["Hello, World!", "  a  b  ", "Why use eviction?", "x--y__z", ""] {
        let once = normalize(s);
        assert_eq!(normalize(&once), once);
    }
}

#[test]
fn normalize_unicode_space_separates() {
    assert_eq!(normalize("What\u{a0}IS\u{2003}this"), "what is this");
}
