//! The aligner: gives each question the start time of the earliest place,
//! after the previous match, where it is spoken.
//!
//! The timeline is a sequence of words; its joined text puts one space
//! between them. From a cursor into the timeline, the aligner looks at the
//! next `LOOKAHEAD` positions for the first word inside which an occurrence
//! of the question's searchable form begins in the joined text. Failing that,
//! it takes the first position in the same range whose window of as many
//! words as the question holds at least three quarters of the question's
//! words, rounded up. A match moves the cursor past as many words as the
//! question has; a miss leaves it in place.
use vstd::prelude::*;
use crate::captions::{entry_views, extract_subtitles, is_chronological, timeline_of, CaptionEntry};
use crate::description::{extract_comments, questions_of, Question};
use crate::text::{append_chars, chars_of, split_words, views, words};

verus! {

/// How many timeline positions past the cursor a question may start at.
pub const LOOKAHEAD: usize = 5000;

/// A question paired with the time at which it is spoken, or `None` when it
/// was not found.
#[derive(Clone, Debug, PartialEq, Eq)]
pub struct AlignmentResult {
    pub question: Question,
    pub start: Option<u64>,
}

pub open spec fn timeline_words(tl: Seq<CaptionEntry>) -> Seq<Seq<char>> {
    tl.map_values(|e: CaptionEntry| e.text@)
}

/// The timeline's words joined by single spaces.
pub open spec fn joined(w: Seq<Seq<char>>) -> Seq<char>
    decreases w.len(),
{
    if w.len() == 0 {
        Seq::empty()
    } else if w.len() == 1 {
        w[0]
    } else {
        joined(w.drop_last()) + seq![' '] + w.last()
    }
}

/// Where word `j` begins in the joined text.
pub open spec fn word_start(w: Seq<Seq<char>>, j: int) -> int {
    if j <= 0 { 0 } else { joined(w.take(j)).len() as int + 1 }
}

/// The joined text holds `q` at offset `o`.
pub open spec fn occurs_at(q: Seq<char>, t: Seq<char>, o: int) -> bool {
    0 <= o && o + q.len() <= t.len() && t.subrange(o, o + q.len()) == q
}

/// The searchable form `q` occurs in the joined text of the run of words
/// from `j` on, starting inside word `j`.
pub open spec fn exact_at(q: Seq<char>, w: Seq<Seq<char>>, j: int) -> bool {
    &&& q.len() > 0
    &&& 0 <= j < w.len()
    &&& exists|o: int| word_start(w, j) <= o < word_start(w, j) + w[j].len() && #[trigger] occurs_at(q, joined(w), o)
}

/// The words from `j` on, as many as the question has (fewer at the end).
pub open spec fn window(q: Seq<Seq<char>>, w: Seq<Seq<char>>, j: int) -> Seq<Seq<char>> {
    w.subrange(j, if j + q.len() <= w.len() { j + q.len() } else { w.len() as int })
}

/// How many of the first `k` words of the question occur in the window at `j`.
pub open spec fn hits(q: Seq<Seq<char>>, w: Seq<Seq<char>>, j: int, k: int) -> nat
    decreases k,
{
    if k <= 0 {
        0
    } else {
        hits(q, w, j, k - 1) + if window(q, w, j).contains(q[k - 1]) { 1nat } else { 0nat }
    }
}

/// At least three quarters of the question's words, rounded up, occur in the
/// window at `j`.
pub open spec fn fuzzy_at(q: Seq<Seq<char>>, w: Seq<Seq<char>>, j: int) -> bool {
    &&& q.len() > 0
    &&& 0 <= j < w.len()
    &&& hits(q, w, j, q.len() as int) >= q.len() - q.len() / 4
}

pub open spec fn first_exact(q: Seq<char>, w: Seq<Seq<char>>, j: int, end: int) -> Option<int>
    decreases end - j,
{
    if j >= end {
        None
    } else if exact_at(q, w, j) {
        Some(j)
    } else {
        first_exact(q, w, j + 1, end)
    }
}

pub open spec fn first_fuzzy(q: Seq<Seq<char>>, w: Seq<Seq<char>>, j: int, end: int) -> Option<int>
    decreases end - j,
{
    if j >= end {
        None
    } else if fuzzy_at(q, w, j) {
        Some(j)
    } else {
        first_fuzzy(q, w, j + 1, end)
    }
}

pub open spec fn search_end(w: Seq<Seq<char>>, cursor: int) -> int {
    if cursor + LOOKAHEAD <= w.len() { cursor + LOOKAHEAD } else { w.len() as int }
}

/// Where the question (its searchable form and its words) matches from
/// `cursor` on: the first exact match in range, else the first fuzzy one.
pub open spec fn find_match(q: (Seq<char>, Seq<Seq<char>>), w: Seq<Seq<char>>, cursor: int) -> Option<int> {
    if q.1.len() == 0 {
        None
    } else {
        match first_exact(q.0, w, cursor, search_end(w, cursor)) {
            Some(j) => Some(j),
            None => first_fuzzy(q.1, w, cursor, search_end(w, cursor)),
        }
    }
}

/// The cursor after a match at `j`: just past the matched words, at most the
/// end of the timeline.
pub open spec fn advance(q: Seq<Seq<char>>, w: Seq<Seq<char>>, j: int) -> int {
    if j + q.len() <= w.len() { j + q.len() } else { w.len() as int }
}

/// The matched positions of the questions `qs` (each as its searchable form
/// and its words), and the cursor after the last of them.
pub open spec fn alignment(qs: Seq<(Seq<char>, Seq<Seq<char>>)>, w: Seq<Seq<char>>) -> (Seq<Option<int>>, int)
    decreases qs.len(),
{
    if qs.len() == 0 {
        (Seq::empty(), 0)
    } else {
        let (ps, c) = alignment(qs.drop_last(), w);
        match find_match(qs.last(), w, c) {
            Some(j) => (ps.push(Some(j)), advance(qs.last().1, w, j)),
            None => (ps.push(None), c),
        }
    }
}

pub open spec fn question_forms(qs: Seq<Question>) -> Seq<(Seq<char>, Seq<Seq<char>>)> {
    qs.map_values(|q: Question| (q.searchable@, words(q.searchable@)))
}

/// What `align` returns for `qs` against the timeline `tl`.
pub open spec fn aligned(qs: Seq<Question>, tl: Seq<CaptionEntry>, r: Seq<AlignmentResult>) -> bool {
    let ps = alignment(question_forms(qs), timeline_words(tl)).0;
    &&& r.len() == qs.len()
    &&& forall|i: int| #![trigger r[i]] 0 <= i < r.len() ==> {
        &&& r[i].question.full@ == qs[i].full@
        &&& r[i].question.searchable@ == qs[i].searchable@
        &&& r[i].question.shortened@ == qs[i].shortened@
        &&& r[i].start == match ps[i] {
            Some(j) => Some(tl[j].start),
            None => None::<u64>,
        }
    }
}

proof fn lemma_first_exact(q: Seq<char>, w: Seq<Seq<char>>, j: int, end: int)
    ensures
        first_exact(q, w, j, end) matches Some(k) ==> j <= k < end && exact_at(q, w, k),
    decreases end - j,
{
    if j < end && !exact_at(q, w, j) {
        lemma_first_exact(q, w, j + 1, end);
    }
}

proof fn lemma_first_fuzzy(q: Seq<Seq<char>>, w: Seq<Seq<char>>, j: int, end: int)
    ensures
        first_fuzzy(q, w, j, end) matches Some(k) ==> j <= k < end && fuzzy_at(q, w, k),
    decreases end - j,
{
    if j < end && !fuzzy_at(q, w, j) {
        lemma_first_fuzzy(q, w, j + 1, end);
    }
}

proof fn lemma_find_match(q: (Seq<char>, Seq<Seq<char>>), w: Seq<Seq<char>>, c: int)
    requires
        0 <= c,
    ensures
        find_match(q, w, c) matches Some(j) ==> c <= j < w.len() && q.1.len() > 0 && c < advance(q.1, w, j),
{
    lemma_first_exact(q.0, w, c, search_end(w, c));
    lemma_first_fuzzy(q.1, w, c, search_end(w, c));
}

/// Matched positions lie in the timeline, before the cursor, and strictly
/// increase.
proof fn lemma_alignment_increasing(qs: Seq<(Seq<char>, Seq<Seq<char>>)>, w: Seq<Seq<char>>)
    ensures
        alignment(qs, w).0.len() == qs.len(),
        0 <= alignment(qs, w).1,
        forall|i: int| 0 <= i < qs.len() && #[trigger] alignment(qs, w).0[i] is Some
            ==> 0 <= alignment(qs, w).0[i]->0 < alignment(qs, w).1 && alignment(qs, w).0[i]->0 < w.len(),
        forall|i: int, k: int| 0 <= i < k < qs.len() && #[trigger] alignment(qs, w).0[i] is Some
            && #[trigger] alignment(qs, w).0[k] is Some ==> alignment(qs, w).0[i]->0 < alignment(qs, w).0[k]->0,
    decreases qs.len(),
{
    if qs.len() > 0 {
        lemma_alignment_increasing(qs.drop_last(), w);
        let (ps, c) = alignment(qs.drop_last(), w);
        lemma_find_match(qs.last(), w, c);
        let r = alignment(qs, w).0;
        assert forall|i: int| 0 <= i < qs.len() - 1 implies #[trigger] r[i] == ps[i] by {}
    }
}

/// Questions that both resolve keep their order in time: when the timeline
/// is chronological, an earlier question never resolves to a later time than
/// a later one.
pub proof fn lemma_align_monotonic(qs: Seq<Question>, tl: Seq<CaptionEntry>, r: Seq<AlignmentResult>, a: int, b: int)
    requires
        is_chronological(tl),
        aligned(qs, tl, r),
        0 <= a < b < r.len(),
        r[a].start is Some,
        r[b].start is Some,
    ensures
        r[a].start->0 <= r[b].start->0,
{
    let qw = question_forms(qs);
    let w = timeline_words(tl);
    lemma_alignment_increasing(qw, w);
    let ps = alignment(qw, w).0;
    assert(ps[a] is Some && ps[b] is Some);
    assert(ps[a]->0 < ps[b]->0);
    let (ja, jb) = (ps[a]->0, ps[b]->0);
    assert(w.len() == tl.len());
    assert(0 <= ja < tl.len() && 0 <= jb < tl.len());
    assert(r[a].start == Some(tl[ja].start));
    assert(r[b].start == Some(tl[jb].start));
    assert(tl[ja].start <= tl[jb].start);
}

/// Every question yields exactly one result, in the same order.
pub proof fn lemma_align_complete(qs: Seq<Question>, tl: Seq<CaptionEntry>, r: Seq<AlignmentResult>)
    requires
        aligned(qs, tl, r),
    ensures
        r.len() == qs.len(),
        forall|i: int| 0 <= i < r.len() ==> (#[trigger] r[i]).question.full@ == qs[i].full@,
{
}

/// The timeline's joined text, with where each word begins and ends in it.
fn timeline_text(tl: &Vec<CaptionEntry>) -> (r: (Vec<char>, Vec<usize>, Vec<usize>))
    ensures
        r.0@ == joined(timeline_words(tl@)),
        r.1.len() == tl.len(),
        r.2.len() == tl.len(),
        forall|k: int| 0 <= k < tl.len() ==> #[trigger] r.1@[k] == word_start(timeline_words(tl@), k),
        forall|k: int| 0 <= k < tl.len() ==> #[trigger] r.2@[k] == word_start(timeline_words(tl@), k) + tl@[k].text@.len(),
{
    let ghost w = timeline_words(tl@);
    let mut t: Vec<char> = Vec::new();
    let mut starts: Vec<usize> = Vec::new();
    let mut ends: Vec<usize> = Vec::new();
    let mut i: usize = 0;
    assert(w.take(0) =~= Seq::<Seq<char>>::empty());
    while i < tl.len()
        invariant
            i <= tl.len(),
            w == timeline_words(tl@),
            t@ == joined(w.take(i as int)),
            starts.len() == i,
            ends.len() == i,
            forall|k: int| 0 <= k < i ==> #[trigger] starts@[k] == word_start(w, k),
            forall|k: int| 0 <= k < i ==> #[trigger] ends@[k] == word_start(w, k) + w[k].len(),
        decreases tl.len() - i,
    {
        let word = chars_of(tl[i].text.as_str());
        assert(word@ == w[i as int]);
        assert(w.take(i as int + 1).drop_last() =~= w.take(i as int));
        assert(w.take(i as int + 1).last() == w[i as int]);
        if i > 0 {
            t.push(' ');
        }
        starts.push(t.len());
        append_chars(&mut t, &word);
        ends.push(t.len());
        proof {
            if i == 0 {
                assert(t@ =~= joined(w.take(1)));
            } else {
                assert(t@ =~= joined(w.take(i as int)) + seq![' '] + w[i as int]);
            }
        }
        i = i + 1;
    }
    assert(w.take(tl.len() as int) =~= w);
    (t, starts, ends)
}

fn occurs_at_exec(q: &Vec<char>, t: &Vec<char>, o: usize) -> (r: bool)
    ensures
        r == occurs_at(q@, t@, o as int),
{
    if o > t.len() || q.len() > t.len() - o {
        return false;
    }
    let mut k: usize = 0;
    while k < q.len()
        invariant
            o + q.len() <= t.len(),
            k <= q.len(),
            forall|m: int| 0 <= m < k ==> t@[o + m] == q@[m],
        decreases q.len() - k,
    {
        if t[o + k] != q[k] {
            assert(t@.subrange(o as int, o + q.len())[k as int] != q@[k as int]);
            return false;
        }
        k = k + 1;
    }
    assert(t@.subrange(o as int, o + q.len()) =~= q@);
    true
}

fn exact_at_exec(q: &Vec<char>, t: &Vec<char>, starts: &Vec<usize>, ends: &Vec<usize>, tl: &Vec<CaptionEntry>, j: usize) -> (r: bool)
    requires
        t@ == joined(timeline_words(tl@)),
        starts.len() == tl.len(),
        ends.len() == tl.len(),
        forall|k: int| 0 <= k < tl.len() ==> #[trigger] starts@[k] == word_start(timeline_words(tl@), k),
        forall|k: int| 0 <= k < tl.len() ==> #[trigger] ends@[k] == word_start(timeline_words(tl@), k) + tl@[k].text@.len(),
    ensures
        r == exact_at(q@, timeline_words(tl@), j as int),
{
    let ghost w = timeline_words(tl@);
    if q.len() == 0 || j >= tl.len() {
        return false;
    }
    let lo = starts[j];
    let hi = ends[j];
    assert(w[j as int] == tl@[j as int].text@);
    let mut o: usize = lo;
    while o < hi
        invariant
            lo <= o,
            q.len() > 0,
            j < tl.len(),
            t@ == joined(w),
            lo == word_start(w, j as int),
            hi == word_start(w, j as int) + w[j as int].len(),
            w == timeline_words(tl@),
            forall|x: int| lo <= x < o ==> !#[trigger] occurs_at(q@, t@, x),
        decreases hi - o,
    {
        if occurs_at_exec(q, t, o) {
            assert(occurs_at(q@, joined(w), o as int));
            return true;
        }
        o = o + 1;
    }
    false
}

/// Whether `word` is among the timeline's words at positions `lo..hi`.
fn occurs_in(word: &String, tl: &Vec<CaptionEntry>, lo: usize, hi: usize) -> (r: bool)
    requires
        lo <= hi <= tl.len(),
    ensures
        r == timeline_words(tl@).subrange(lo as int, hi as int).contains(word@),
{
    let ghost w = timeline_words(tl@).subrange(lo as int, hi as int);
    let mut k: usize = lo;
    while k < hi
        invariant
            lo <= k <= hi <= tl.len(),
            w == timeline_words(tl@).subrange(lo as int, hi as int),
            forall|m: int| 0 <= m < k - lo ==> w[m] != word@,
        decreases hi - k,
    {
        if tl[k].text == *word {
            assert(w[k - lo] == word@);
            return true;
        }
        k = k + 1;
    }
    false
}

fn fuzzy_at_exec(q: &Vec<String>, tl: &Vec<CaptionEntry>, j: usize) -> (r: bool)
    ensures
        r == fuzzy_at(views(q@), timeline_words(tl@), j as int),
{
    let ghost qv = views(q@);
    let ghost w = timeline_words(tl@);
    if q.len() == 0 || j >= tl.len() {
        return false;
    }
    let hi: usize = if q.len() <= tl.len() - j { j + q.len() } else { tl.len() };
    assert(window(qv, w, j as int) == w.subrange(j as int, hi as int));
    let mut count: usize = 0;
    let mut k: usize = 0;
    while k < q.len()
        invariant
            k <= q.len(),
            j < hi <= tl.len(),
            qv == views(q@),
            w == timeline_words(tl@),
            window(qv, w, j as int) == w.subrange(j as int, hi as int),
            count == hits(qv, w, j as int, k as int),
            count <= k,
        decreases q.len() - k,
    {
        if occurs_in(&q[k], tl, j, hi) {
            count = count + 1;
        }
        k = k + 1;
    }
    count >= q.len() - q.len() / 4
}

fn find_match_exec(
    qc: &Vec<char>,
    q: &Vec<String>,
    t: &Vec<char>,
    starts: &Vec<usize>,
    ends: &Vec<usize>,
    tl: &Vec<CaptionEntry>,
    cursor: usize,
) -> (r: Option<usize>)
    requires
        t@ == joined(timeline_words(tl@)),
        starts.len() == tl.len(),
        ends.len() == tl.len(),
        forall|k: int| 0 <= k < tl.len() ==> #[trigger] starts@[k] == word_start(timeline_words(tl@), k),
        forall|k: int| 0 <= k < tl.len() ==> #[trigger] ends@[k] == word_start(timeline_words(tl@), k) + tl@[k].text@.len(),
    ensures
        r matches Some(j) ==> find_match((qc@, views(q@)), timeline_words(tl@), cursor as int) == Some(j as int),
        r is None ==> find_match((qc@, views(q@)), timeline_words(tl@), cursor as int) is None,
{
    let ghost qv = views(q@);
    let ghost w = timeline_words(tl@);
    if q.len() == 0 {
        return None;
    }
    assert(qv.len() == q.len());
    let end: usize = if cursor <= tl.len() && LOOKAHEAD <= tl.len() - cursor { cursor + LOOKAHEAD } else { tl.len() };
    assert(end as int == search_end(w, cursor as int) || (cursor > tl.len() && end < cursor));
    let mut j: usize = cursor;
    while j < end
        invariant
            cursor <= j,
            qv == views(q@),
            qv.len() > 0,
            w == timeline_words(tl@),
            t@ == joined(timeline_words(tl@)),
            starts.len() == tl.len(),
            ends.len() == tl.len(),
            forall|k: int| 0 <= k < tl.len() ==> #[trigger] starts@[k] == word_start(timeline_words(tl@), k),
            forall|k: int| 0 <= k < tl.len() ==> #[trigger] ends@[k] == word_start(timeline_words(tl@), k) + tl@[k].text@.len(),
            end == search_end(w, cursor as int) || end < cursor,
            first_exact(qc@, w, cursor as int, search_end(w, cursor as int)) == first_exact(qc@, w, j as int, search_end(w, cursor as int)),
        decreases end - j,
    {
        if exact_at_exec(qc, t, starts, ends, tl, j) {
            return Some(j);
        }
        j = j + 1;
    }
    let mut j: usize = cursor;
    while j < end
        invariant
            cursor <= j,
            qv == views(q@),
            qv.len() > 0,
            w == timeline_words(tl@),
            end == search_end(w, cursor as int) || end < cursor,
            first_exact(qc@, w, cursor as int, search_end(w, cursor as int)) is None,
            first_fuzzy(qv, w, cursor as int, search_end(w, cursor as int)) == first_fuzzy(qv, w, j as int, search_end(w, cursor as int)),
        decreases end - j,
    {
        if fuzzy_at_exec(q, tl, j) {
            return Some(j);
        }
        j = j + 1;
    }
    None
}

/// Aligns the questions, in order, against the timeline: one result per
/// question, with the start time of its match or `None`.
pub fn align(questions: &Vec<Question>, timeline: &Vec<CaptionEntry>) -> (r: Vec<AlignmentResult>)
    ensures
        aligned(questions@, timeline@, r@),
{
    let ghost qw = question_forms(questions@);
    let ghost w = timeline_words(timeline@);
    let (text, starts, ends) = timeline_text(timeline);
    let mut r: Vec<AlignmentResult> = Vec::new();
    let mut cursor: usize = 0;
    let mut i: usize = 0;
    while i < questions.len()
        invariant
            i <= questions.len(),
            qw == question_forms(questions@),
            w == timeline_words(timeline@),
            text@ == joined(w),
            starts.len() == timeline.len(),
            ends.len() == timeline.len(),
            forall|k: int| 0 <= k < timeline.len() ==> #[trigger] starts@[k] == word_start(w, k),
            forall|k: int| 0 <= k < timeline.len() ==> #[trigger] ends@[k] == word_start(w, k) + timeline@[k].text@.len(),
            alignment(qw.take(i as int), w).1 == cursor as int,
            aligned(questions@.take(i as int), timeline@, r@),
        decreases questions.len() - i,
    {
        let q = &questions[i];
        let qchars = chars_of(q.searchable.as_str());
        let qwords = split_words(&qchars);
        let ghost prev = qw.take(i as int);
        let ghost cur = qw.take(i as int + 1);
        assert(cur.drop_last() =~= prev);
        assert(qchars@ == q.searchable@);
        assert(cur.last() == (qchars@, views(qwords@)));
        proof {
            lemma_alignment_increasing(prev, w);
        }
        let found = find_match_exec(&qchars, &qwords, &text, &starts, &ends, timeline, cursor);
        let start = match found {
            Some(j) => {
                proof {
                    lemma_find_match((qchars@, views(qwords@)), w, cursor as int);
                }
                cursor = if qwords.len() <= timeline.len() - j { j + qwords.len() } else { timeline.len() };
                Some(timeline[j].start)
            },
            None => None,
        };
        let ghost old_r = r@;
        r.push(AlignmentResult { question: q.copied(), start });
        proof {
            let qs1 = questions@.take(i as int + 1);
            assert(question_forms(qs1) =~= cur);
            assert(question_forms(questions@.take(i as int)) =~= prev);
            assert forall|k: int| 0 <= k < i implies qs1[k] == questions@.take(i as int)[k] by {}
        }
        i = i + 1;
    }
    assert(questions@.take(questions.len() as int) =~= questions@);
    r
}

proof fn lemma_hits_zero(q: Seq<Seq<char>>, w: Seq<Seq<char>>, j: int, k: int)
    requires
        0 <= j <= w.len(),
        forall|m: int| 0 <= m < q.len() ==> !w.contains(#[trigger] q[m]),
        k <= q.len(),
    ensures
        hits(q, w, j, k) == 0,
    decreases k,
{
    if k > 0 {
        lemma_hits_zero(q, w, j, k - 1);
        if window(q, w, j).contains(q[k - 1]) {
            let x = choose|x: int| 0 <= x < window(q, w, j).len() && window(q, w, j)[x] == q[k - 1];
            assert(w[j + x] == q[k - 1]);
        }
    }
}

proof fn lemma_first_none(qc: Seq<char>, q: Seq<Seq<char>>, w: Seq<Seq<char>>, j: int, end: int)
    requires
        0 <= j,
        end <= w.len(),
        forall|o: int| !#[trigger] occurs_at(qc, joined(w), o),
        forall|m: int| 0 <= m < q.len() ==> !w.contains(#[trigger] q[m]),
    ensures
        first_exact(qc, w, j, end) is None,
        first_fuzzy(q, w, j, end) is None,
    decreases end - j,
{
    if j < end {
        if q.len() > 0 {
            lemma_hits_zero(q, w, j, q.len() as int);
        }
        lemma_first_none(qc, q, w, j + 1, end);
    }
}

/// A question whose searchable form occurs nowhere in the timeline's joined
/// text, and none of whose words is a word of the timeline, is not found:
/// its result carries no time.
pub proof fn lemma_unmatched_not_found(qs: Seq<Question>, tl: Seq<CaptionEntry>, r: Seq<AlignmentResult>, i: int)
    requires
        aligned(qs, tl, r),
        0 <= i < qs.len(),
        forall|o: int| !#[trigger] occurs_at(qs[i].searchable@, joined(timeline_words(tl)), o),
        forall|m: int| 0 <= m < words(qs[i].searchable@).len()
            ==> !timeline_words(tl).contains(#[trigger] words(qs[i].searchable@)[m]),
    ensures
        r[i].start is None,
{
    let qw = question_forms(qs);
    let w = timeline_words(tl);
    lemma_alignment_increasing(qw, w);
    lemma_alignment_at(qw, w, i);
    let c = alignment(qw.take(i), w).1;
    lemma_alignment_increasing(qw.take(i), w);
    assert(qw[i] == (qs[i].searchable@, words(qs[i].searchable@)));
    lemma_first_none(qw[i].0, qw[i].1, w, c, search_end(w, c));
}

/// The matched position of question `i` is the match found from the cursor
/// left by the questions before it.
proof fn lemma_alignment_at(qs: Seq<(Seq<char>, Seq<Seq<char>>)>, w: Seq<Seq<char>>, i: int)
    requires
        0 <= i < qs.len(),
    ensures
        alignment(qs, w).0[i] == find_match(qs[i], w, alignment(qs.take(i), w).1),
    decreases qs.len(),
{
    lemma_alignment_increasing(qs.drop_last(), w);
    if i == qs.len() - 1 {
        assert(qs.take(i) =~= qs.drop_last());
    } else {
        lemma_alignment_at(qs.drop_last(), w, i);
        assert(qs.drop_last().take(i) =~= qs.take(i));
        assert(qs.drop_last()[i] == qs[i]);
    }
}

/// Recovers the questions of a description and the timeline of a caption
/// track, and aligns them: one result per question, in order, with resolved
/// times that never decrease.
pub fn index_video(description: &str, captions: &str) -> (r: Vec<AlignmentResult>)
    ensures
        exists|qs: Seq<Question>, tl: Seq<CaptionEntry>| #![trigger aligned(qs, tl, r@)]
            questions_of(description@, qs)
            && entry_views(tl) == timeline_of(captions@)
            && aligned(qs, tl, r@),
        forall|a: int, b: int| 0 <= a < b < r@.len() && (#[trigger] r@[a]).start is Some && (#[trigger] r@[b]).start is Some
            ==> r@[a].start->0 <= r@[b].start->0,
{
    let qs = extract_comments(description);
    let tl = extract_subtitles(captions);
    let r = align(&qs, &tl);
    proof {
        assert forall|a: int, b: int| 0 <= a < b < r@.len() && (#[trigger] r@[a]).start is Some && (#[trigger] r@[b]).start is Some
            implies r@[a].start->0 <= r@[b].start->0 by {
            lemma_align_monotonic(qs@, tl@, r@, a, b);
        }
    }
    r
}

} // verus!
