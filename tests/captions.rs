use qa_timestamps::captions::{extract_subtitles, parse_cues, CaptionEntry};

fn entry(t: &str, start: u64) -> CaptionEntry {
    CaptionEntry { text: t.to_string(), start }
}

#[test]
fn captions_rolling_cues_deduplicated() {
    let vtt = "WEBVTT\n\n00:00:00.000 --> 00:00:01.000\nhello there\n\n00:00:01.000 --> 00:00:02.000\nthere friends\n\n00:00:02.000 --> 00:00:03.000\nfriends today\n";
    assert_eq!(
        extract_subtitles(vtt),
        vec![entry("hello", 0), entry("there", 0), entry("friends", 1000), entry("today", 2000)]
    );
}

#[test]
fn captions_tags_stripped_and_two_line_repeat() {
    let vtt = "WEBVTT\nKind: captions\nLanguage: en\n\n00:00:01.500 --> 00:00:03.000 align:start position:0%\nSo<00:00:02.000><c> today</c>\n\n00:00:03.000 --> 00:00:03.010\nso today\n \n\n00:00:03.010 --> 00:00:05.000\nso today\nWe talk<00:00:04.000><c> caching</c>\n";
    assert_eq!(
        extract_subtitles(vtt),
        vec![entry("so", 1500), entry("today", 1500), entry("we", 3010), entry("talk", 3010), entry("caching", 3010)]
    );
}

#[test]
fn captions_bad_timestamp_skipped() {
    let vtt = "WEBVTT\n\n00:0x:00.000 --> 00:00:01.000\nlost words\n\n01:00:02.250 --> 01:00:03.000\nkept words\n";
    assert_eq!(extract_subtitles(vtt), vec![entry("kept", 3602250), entry("words", 3602250)]);
}

#[test]
fn captions_short_time_form() {
    let cues = parse_cues("WEBVTT\n\n01:02.345 --> 01:03.000\nHi\n");
    assert_eq!(cues.len(), 1);
    assert_eq!(cues[0].start, Some(62345));
    assert_eq!(cues[0].words, vec!["hi".to_string()]);
}

#[test]
fn captions_minutes_out_of_range() {
    let cues = parse_cues("00:61:00.000 --> 00:62:00.000\nhi\n");
    assert_eq!(cues[0].start, None);
}

#[test]
fn captions_earlier_cue_ordered_by_start() {
    let vtt = "00:00:05.000 --> 00:00:06.000\nalpha\n\n00:00:02.000 --> 00:00:03.000\nbeta\n\n00:00:05.000 --> 00:00:07.000\ngamma\n";
    assert_eq!(
        extract_subtitles(vtt),
        vec![entry("beta", 2000), entry("alpha", 5000), entry("gamma", 5000)]
    );
}

#[test]
fn captions_empty_track() {
    assert!(extract_subtitles("").is_empty());
    assert!(extract_subtitles("WEBVTT\n\n").is_empty());
}

#[test]
fn captions_timeline_chronological() {
    let vtt = "00:00:03.000 --> 00:00:04.000\na b\n\n00:00:01.000 --> 00:00:02.000\nb c\n\n00:00:09.000 --> 00:00:10.000\nd\n";
    let tl = extract_subtitles(vtt);
    assert!(tl.windows(2).all(|w| w[0].start <= w[1].start));
}

#[test]
fn captions_words_are_normalized() {
    let vtt = "00:00:01.000 --> 00:00:02.000\nHello, WORLD! It's <c>me</c>\n";
    let tl = extract_subtitles(vtt);
    let texts: Vec<&str> = tl.iter().map(|e| e.text.as_str()).collect();
    assert_eq!(texts, vec!["hello", "world", "it", "s", "me"]);
    for e in &tl {
        assert_eq!(qa_timestamps::normalize::normalize(&e.text), e.text);
    }
}
