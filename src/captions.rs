//! The caption parser: turns a WebVTT caption track whose cues repeat the
//! words of earlier cues into a timeline of novel words.
//!
//! A line holding `-->` opens a cue; the time before the arrow is its start.
//! The cue's text lines follow, up to a blank line or the next timing line.
//! Markup between `<` and `>` is dropped, and the text is normalized and cut
//! into words. Lines outside a cue (header, cue names, notes) are ignored.
//!
//! A cue whose start does not parse, or that holds no word, is skipped. Of
//! the other cues, each drops its longest prefix that repeats the end of the
//! previous kept cue; its remaining words enter the timeline with the cue's
//! start. The timeline is then ordered by start, stably, so that words with
//! equal starts keep their order in the track.
use vstd::prelude::*;
use crate::description::{is_blank, is_blank_exec, trim, trim_chars};
use crate::normalize::{lemma_words_normalized, normalize_chars, normalized};
use crate::text::{chars_of, digit_value, is_digit, lines, split_lines, split_words, views, words};

verus! {

/// One word of the transcript timeline, with the time in milliseconds from
/// the start of the video at which its cue begins.
#[derive(Clone, Debug, PartialEq, Eq)]
pub struct CaptionEntry {
    pub text: String,
    pub start: u64,
}

/// One cue as read: its start in milliseconds (`None` when the time does not
/// parse) and its words.
#[derive(Clone, Debug, PartialEq, Eq)]
pub struct Cue {
    pub start: Option<u64>,
    pub words: Vec<String>,
}

/// Timelines whose start times never decrease.
pub open spec fn is_chronological(tl: Seq<CaptionEntry>) -> bool {
    forall|a: int, b: int| 0 <= a <= b < tl.len() ==> #[trigger] tl[a].start <= #[trigger] tl[b].start
}

pub open spec fn all_digits(s: Seq<char>) -> bool {
    forall|i: int| 0 <= i < s.len() ==> is_digit(#[trigger] s[i])
}

pub open spec fn digits_value(s: Seq<char>) -> nat
    decreases s.len(),
{
    if s.len() == 0 { 0 } else { 10 * digits_value(s.drop_last()) + digit_value(s.last()) }
}

/// The longest hour field accepted.
pub const MAX_HOUR_DIGITS: usize = 6;

/// A time `[H:]MM:SS.mmm` in milliseconds, with one to `MAX_HOUR_DIGITS`
/// hour digits, minutes and seconds below 60.
pub open spec fn parse_time(t: Seq<char>) -> Option<nat> {
    let n = t.len() as int;
    if n < 9 {
        None
    } else {
        let mm = t.subrange(n - 9, n - 7);
        let ss = t.subrange(n - 6, n - 4);
        let ms = t.subrange(n - 3, n);
        let hh = t.subrange(0, if n > 9 { n - 10 } else { 0 });
        if all_digits(mm) && t[n - 7] == ':' && all_digits(ss) && t[n - 4] == '.' && all_digits(ms)
            && digits_value(mm) < 60 && digits_value(ss) < 60
            && (n == 9 || (t[n - 10] == ':' && 1 <= hh.len() <= MAX_HOUR_DIGITS && all_digits(hh))) {
            Some(((digits_value(hh) * 60 + digits_value(mm)) * 60 + digits_value(ss)) * 1000 + digits_value(ms))
        } else {
            None
        }
    }
}

/// The first index at or after `i` where `-->` begins.
pub open spec fn arrow_from(l: Seq<char>, i: int) -> Option<int>
    decreases l.len() - i,
{
    if i < 0 || i + 3 > l.len() {
        None
    } else if l[i] == '-' && l[i + 1] == '-' && l[i + 2] == '>' {
        Some(i)
    } else {
        arrow_from(l, i + 1)
    }
}

/// For a timing line, the start it gives.
pub open spec fn timing(l: Seq<char>) -> Option<Option<nat>> {
    match arrow_from(l, 0) {
        Some(k) => Some(parse_time(trim(l.take(k)))),
        None => None,
    }
}

/// The characters of `l` from `i` on, without markup; `in_tag` tells
/// whether position `i` lies inside a tag.
pub open spec fn strip_from(l: Seq<char>, i: int, in_tag: bool) -> Seq<char>
    decreases l.len() - i,
{
    if i < 0 || i >= l.len() {
        Seq::empty()
    } else if in_tag {
        strip_from(l, i + 1, l[i] != '>')
    } else if l[i] == '<' {
        strip_from(l, i + 1, true)
    } else {
        seq![l[i]] + strip_from(l, i + 1, false)
    }
}

pub open spec fn line_words(l: Seq<char>) -> Seq<Seq<char>> {
    words(normalized(strip_from(l, 0, false)))
}

pub open spec fn close(done: Seq<(Option<nat>, Seq<Seq<char>>)>, open: Option<(Option<nat>, Seq<Seq<char>>)>) -> Seq<(Option<nat>, Seq<Seq<char>>)> {
    match open {
        Some(c) => done.push(c),
        None => done,
    }
}

/// The cues closed so far and the one open, over lines `ls`.
pub open spec fn cue_fold(ls: Seq<Seq<char>>) -> (Seq<(Option<nat>, Seq<Seq<char>>)>, Option<(Option<nat>, Seq<Seq<char>>)>)
    decreases ls.len(),
{
    if ls.len() == 0 {
        (Seq::empty(), None)
    } else {
        let (done, open) = cue_fold(ls.drop_last());
        let l = ls.last();
        match timing(l) {
            Some(st) => (close(done, open), Some((st, Seq::empty()))),
            None => if is_blank(l) {
                (close(done, open), None)
            } else {
                match open {
                    Some((st, ws)) => (done, Some((st, ws + line_words(l)))),
                    None => (done, None),
                }
            },
        }
    }
}

/// The cues of a caption track, in order.
pub open spec fn cues(text: Seq<char>) -> Seq<(Option<nat>, Seq<Seq<char>>)> {
    let (done, open) = cue_fold(lines(text));
    close(done, open)
}

pub open spec fn cue_view(c: Cue) -> (Option<nat>, Seq<Seq<char>>) {
    (
        match c.start {
            Some(t) => Some(t as nat),
            None => None,
        },
        views(c.words@),
    )
}

/// The last `k` words of `prev` are the first `k` words of `cur`.
pub open spec fn repeats(prev: Seq<Seq<char>>, cur: Seq<Seq<char>>, k: int) -> bool {
    0 <= k <= prev.len() && k <= cur.len() && prev.subrange(prev.len() - k, prev.len() as int) == cur.take(k)
}

/// The largest `j <= k` for which `cur` starts with the last `j` words of `prev`.
pub open spec fn overlap_upto(prev: Seq<Seq<char>>, cur: Seq<Seq<char>>, k: int) -> int
    decreases k,
{
    if k <= 0 {
        0
    } else if repeats(prev, cur, k) {
        k
    } else {
        overlap_upto(prev, cur, k - 1)
    }
}

pub open spec fn overlap(prev: Seq<Seq<char>>, cur: Seq<Seq<char>>) -> int {
    overlap_upto(prev, cur, if prev.len() <= cur.len() { prev.len() as int } else { cur.len() as int })
}

/// The novel words so far (word and start, in stream order) and the words
/// of the last kept cue.
pub open spec fn dedup_fold(cs: Seq<(Option<nat>, Seq<Seq<char>>)>) -> (Seq<(Seq<char>, nat)>, Seq<Seq<char>>)
    decreases cs.len(),
{
    if cs.len() == 0 {
        (Seq::empty(), Seq::empty())
    } else {
        let (es, prev) = dedup_fold(cs.drop_last());
        let (st, ws) = cs.last();
        match st {
            Some(t) => if ws.len() > 0 {
                let k = overlap(prev, ws);
                (es + ws.subrange(k, ws.len() as int).map_values(|w: Seq<char>| (w, t)), ws)
            } else {
                (es, prev)
            },
            None => (es, prev),
        }
    }
}

/// `s` with `x` placed after every entry that starts no later than `x` and
/// before the entries after them that start later.
pub open spec fn insert_by_start(s: Seq<(Seq<char>, nat)>, x: (Seq<char>, nat)) -> Seq<(Seq<char>, nat)>
    decreases s.len(),
{
    if s.len() == 0 {
        seq![x]
    } else if s.last().1 <= x.1 {
        s.push(x)
    } else {
        insert_by_start(s.drop_last(), x).push(s.last())
    }
}

/// The entries in order of start; entries with equal starts keep their order.
pub open spec fn sort_by_start(s: Seq<(Seq<char>, nat)>) -> Seq<(Seq<char>, nat)>
    decreases s.len(),
{
    if s.len() == 0 {
        Seq::empty()
    } else {
        insert_by_start(sort_by_start(s.drop_last()), s.last())
    }
}

/// The timeline of a caption track.
pub open spec fn timeline_of(text: Seq<char>) -> Seq<(Seq<char>, nat)> {
    sort_by_start(dedup_fold(cues(text)).0)
}

pub open spec fn entry_views(tl: Seq<CaptionEntry>) -> Seq<(Seq<char>, nat)> {
    tl.map_values(|e: CaptionEntry| (e.text@, e.start as nat))
}

proof fn lemma_overlap_upto(prev: Seq<Seq<char>>, cur: Seq<Seq<char>>, k: int)
    requires
        k <= prev.len(),
        k <= cur.len(),
    ensures
        0 <= overlap_upto(prev, cur, k) <= cur.len(),
        0 <= overlap_upto(prev, cur, k) ==> overlap_upto(prev, cur, k) <= prev.len(),
    decreases k,
{
    if k > 0 && !repeats(prev, cur, k) {
        lemma_overlap_upto(prev, cur, k - 1);
    }
}

fn repeats_exec(prev: &Vec<String>, cur: &Vec<String>, k: usize) -> (r: bool)
    requires
        k <= prev.len(),
        k <= cur.len(),
    ensures
        r == repeats(views(prev@), views(cur@), k as int),
{
    let ghost pv = views(prev@);
    let ghost cv = views(cur@);
    let base = prev.len() - k;
    let mut i: usize = 0;
    while i < k
        invariant
            i <= k <= prev.len(),
            k <= cur.len(),
            base == prev.len() - k,
            pv == views(prev@),
            cv == views(cur@),
            forall|m: int| 0 <= m < i ==> pv[base + m] == cv[m],
        decreases k - i,
    {
        if prev[base + i] != cur[i] {
            assert(pv.subrange(base as int, prev.len() as int)[i as int] != cv.take(k as int)[i as int]);
            return false;
        }
        i = i + 1;
    }
    assert(pv.subrange(base as int, prev.len() as int) =~= cv.take(k as int));
    true
}

fn overlap_exec(prev: &Vec<String>, cur: &Vec<String>) -> (r: usize)
    ensures
        r as int == overlap(views(prev@), views(cur@)),
        r <= cur.len(),
{
    let mut k: usize = if prev.len() <= cur.len() { prev.len() } else { cur.len() };
    proof {
        lemma_overlap_upto(views(prev@), views(cur@), k as int);
    }
    while k > 0 && !repeats_exec(prev, cur, k)
        invariant
            k <= prev.len(),
            k <= cur.len(),
            overlap(views(prev@), views(cur@)) == overlap_upto(views(prev@), views(cur@), k as int),
        decreases k,
    {
        k = k - 1;
    }
    k
}

/// The timeline of the cues: each kept cue contributes the words that do not
/// repeat the end of the previous kept cue.
pub fn dedup_cues(cs: &Vec<Cue>) -> (r: Vec<CaptionEntry>)
    ensures
        entry_views(r@) == dedup_fold(cs@.map_values(|c: Cue| cue_view(c))).0,
{
    let ghost cv = cs@.map_values(|c: Cue| cue_view(c));
    let mut r: Vec<CaptionEntry> = Vec::new();
    let mut prev: Vec<String> = Vec::new();
    let mut i: usize = 0;
    assert(cv.take(0) =~= Seq::<(Option<nat>, Seq<Seq<char>>)>::empty());
    assert(entry_views(r@) =~= Seq::<(Seq<char>, nat)>::empty());
    assert(views(prev@) =~= Seq::<Seq<char>>::empty());
    while i < cs.len()
        invariant
            i <= cs.len(),
            cv == cs@.map_values(|c: Cue| cue_view(c)),
            dedup_fold(cv.take(i as int)) == (entry_views(r@), views(prev@)),
        decreases cs.len() - i,
    {
        let ghost pre = cv.take(i as int);
        let ghost next = cv.take(i as int + 1);
        assert(next.drop_last() =~= pre);
        assert(next.last() == cue_view(cs@[i as int]));
        let c = &cs[i];
        match c.start {
            Some(t) => {
                if c.words.len() > 0 {
                    let s = t;
                    let k = overlap_exec(&prev, &c.words);
                    let ghost es = entry_views(r@);
                    let ghost ws = views(c.words@);
                    let mut j: usize = k;
                    while j < c.words.len()
                        invariant
                            k <= j <= c.words.len(),
                            ws == views(c.words@),
                            entry_views(r@) == es + ws.subrange(k as int, j as int).map_values(|w: Seq<char>| (w, s as nat)),
                        decreases c.words.len() - j,
                    {
                        let ghost before = r@;
                        r.push(CaptionEntry { text: c.words[j].clone(), start: s });
                        assert(entry_views(r@) =~= entry_views(before).push((ws[j as int], s as nat)));
                        assert(ws.subrange(k as int, j as int + 1).map_values(|w: Seq<char>| (w, s as nat))
                            =~= ws.subrange(k as int, j as int).map_values(|w: Seq<char>| (w, s as nat)).push((ws[j as int], s as nat)));
                        j = j + 1;
                    }
                    prev = c.words.clone();
                    assert(views(prev@) =~= ws);
                }
            },
            None => {},
        }
        i = i + 1;
    }
    assert(cv.take(cs.len() as int) =~= cv);
    r
}

fn digits_value_exec(t: &Vec<char>, a: usize, b: usize) -> (r: Option<u64>)
    requires
        a <= b <= t.len(),
        b - a <= MAX_HOUR_DIGITS,
    ensures
        r matches Some(v) ==> all_digits(t@.subrange(a as int, b as int)) && v as nat == digits_value(t@.subrange(a as int, b as int)),
        r is None ==> !all_digits(t@.subrange(a as int, b as int)),
{
    let mut v: u64 = 0;
    let mut k: usize = a;
    while k < b
        invariant
            a <= k <= b <= t.len(),
            b - a <= MAX_HOUR_DIGITS,
            all_digits(t@.subrange(a as int, k as int)),
            v as nat == digits_value(t@.subrange(a as int, k as int)),
            v < pow10((k - a) as nat),
        decreases b - k,
    {
        let c = t[k];
        let ghost cur = t@.subrange(a as int, k as int + 1);
        assert(cur.drop_last() =~= t@.subrange(a as int, k as int));
        if !('0' <= c && c <= '9') {
            assert(cur[k - a] == c);
            return None;
        }
        proof {
            lemma_pow10_step((k - a) as nat);
        }
        v = 10 * v + (c as u32 - '0' as u32) as u64;
        k = k + 1;
    }
    Some(v)
}

pub open spec fn pow10(n: nat) -> nat
    decreases n,
{
    if n == 0 { 1 } else { 10 * pow10((n - 1) as nat) }
}

proof fn lemma_pow10_step(n: nat)
    requires
        n < MAX_HOUR_DIGITS,
    ensures
        pow10(n + 1) == 10 * pow10(n),
        pow10(n + 1) <= 1000000,
    decreases n,
{
    reveal_with_fuel(pow10, 7);
}

/// The start in milliseconds of a time written `[H:]MM:SS.mmm`.
pub fn parse_time_exec(t: &Vec<char>) -> (r: Option<u64>)
    ensures
        r matches Some(v) ==> parse_time(t@) == Some(v as nat),
        r is None ==> parse_time(t@) is None,
{
    let n = t.len();
    if n < 9 {
        return None;
    }
    if t[n - 7] != ':' || t[n - 4] != '.' {
        return None;
    }
    let hl: usize = if n > 9 { n - 10 } else { 0 };
    if n > 9 && (t[n - 10] != ':' || hl < 1 || hl > MAX_HOUR_DIGITS) {
        return None;
    }
    let mm = digits_value_exec(t, n - 9, n - 7);
    let ss = digits_value_exec(t, n - 6, n - 4);
    let ms = digits_value_exec(t, n - 3, n);
    let hh = digits_value_exec(t, 0, hl);
    match (hh, mm, ss, ms) {
        (Some(h), Some(m), Some(s), Some(x)) => {
            if m < 60 && s < 60 {
                proof {
                    lemma_digits_bound(t@.subrange(0, hl as int));
                    lemma_digits_bound(t@.subrange(n - 3, n as int));
                }
                Some(((h * 60 + m) * 60 + s) * 1000 + x)
            } else {
                None
            }
        },
        _ => None,
    }
}

proof fn lemma_digits_bound(s: Seq<char>)
    requires
        all_digits(s),
        s.len() <= MAX_HOUR_DIGITS,
    ensures
        digits_value(s) < pow10(s.len()),
        pow10(s.len()) <= 1000000,
    decreases s.len(),
{
    reveal_with_fuel(pow10, 7);
    if s.len() > 0 {
        let p = s.drop_last();
        assert(all_digits(p)) by {
            assert forall|i: int| 0 <= i < p.len() implies is_digit(#[trigger] p[i]) by {
                assert(p[i] == s[i]);
            }
        }
        lemma_digits_bound(p);
        assert(is_digit(s[s.len() - 1]));
        lemma_pow10_step(p.len());
    }
}

fn arrow_exec(l: &Vec<char>) -> (r: Option<usize>)
    ensures
        r matches Some(k) ==> arrow_from(l@, 0) == Some(k as int) && k <= l.len(),
        r is None ==> arrow_from(l@, 0) is None,
{
    let mut i: usize = 0;
    while i < l.len() && l.len() - i >= 3
        invariant
            i <= l.len(),
            arrow_from(l@, 0) == arrow_from(l@, i as int),
        decreases l.len() - i,
    {
        if l[i] == '-' && l[i + 1] == '-' && l[i + 2] == '>' {
            return Some(i);
        }
        i = i + 1;
    }
    None
}

fn strip_tags(l: &Vec<char>) -> (r: Vec<char>)
    ensures
        r@ == strip_from(l@, 0, false),
{
    let mut r: Vec<char> = Vec::new();
    let mut in_tag = false;
    let mut i: usize = 0;
    while i < l.len()
        invariant
            i <= l.len(),
            r@ + strip_from(l@, i as int, in_tag) == strip_from(l@, 0, false),
        decreases l.len() - i,
    {
        let c = l[i];
        if in_tag {
            in_tag = c != '>';
        } else if c == '<' {
            in_tag = true;
        } else {
            let ghost before = r@;
            r.push(c);
            assert(before + strip_from(l@, i as int, false) =~= r@ + strip_from(l@, i as int + 1, false));
        }
        i = i + 1;
    }
    assert(r@ + strip_from(l@, i as int, in_tag) =~= r@);
    r
}

fn take_chars(t: &Vec<char>, k: usize) -> (r: Vec<char>)
    requires
        k <= t.len(),
    ensures
        r@ == t@.take(k as int),
{
    let mut r: Vec<char> = Vec::new();
    let mut i: usize = 0;
    while i < k
        invariant
            i <= k <= t.len(),
            r@ == t@.take(i as int),
        decreases k - i,
    {
        r.push(t[i]);
        assert(t@.take(i as int + 1) =~= t@.take(i as int).push(t@[i as int]));
        i = i + 1;
    }
    r
}

fn line_words_exec(l: &Vec<char>) -> (r: Vec<String>)
    ensures
        views(r@) == line_words(l@),
{
    let stripped = strip_tags(l);
    let n = normalize_chars(&stripped);
    split_words(&n)
}

fn close_exec(done: &mut Vec<Cue>, open: Option<Cue>)
    ensures
        final(done)@.map_values(|c: Cue| cue_view(c)) == close(old(done)@.map_values(|c: Cue| cue_view(c)),
            match open { Some(c) => Some(cue_view(c)), None => None }),
{
    match open {
        Some(c) => {
            let ghost before = done@;
            done.push(c);
            assert(done@.map_values(|c: Cue| cue_view(c)) =~= before.map_values(|c: Cue| cue_view(c)).push(cue_view(c)));
        },
        None => {},
    }
}

/// The cues of a caption track, in order.
pub fn parse_cues(text: &str) -> (r: Vec<Cue>)
    ensures
        r@.map_values(|c: Cue| cue_view(c)) == cues(text@),
{
    let chars = chars_of(text);
    let ls = split_lines(&chars);
    let ghost lv = ls@.map_values(|x: Vec<char>| x@);
    let mut done: Vec<Cue> = Vec::new();
    let mut open: Option<Cue> = None;
    let mut i: usize = 0;
    assert(lv.take(0) =~= Seq::<Seq<char>>::empty());
    assert(done@.map_values(|c: Cue| cue_view(c)) =~= Seq::<(Option<nat>, Seq<Seq<char>>)>::empty());
    while i < ls.len()
        invariant
            i <= ls.len(),
            lv == ls@.map_values(|x: Vec<char>| x@),
            cue_fold(lv.take(i as int)) == (done@.map_values(|c: Cue| cue_view(c)),
                match open { Some(c) => Some(cue_view(c)), None => None }),
        decreases ls.len() - i,
    {
        let ghost pre = lv.take(i as int);
        let ghost next = lv.take(i as int + 1);
        assert(next.drop_last() =~= pre);
        assert(next.last() == ls@[i as int]@);
        let l = &ls[i];
        match arrow_exec(l) {
            Some(k) => {
                let head = take_chars(l, k);
                let st = parse_time_exec(&trim_chars(&head));
                close_exec(&mut done, open);
                let empty: Vec<String> = Vec::new();
                assert(views(empty@) =~= Seq::<Seq<char>>::empty());
                open = Some(Cue { start: st, words: empty });
            },
            None => {
                if is_blank_exec(l) {
                    close_exec(&mut done, open);
                    open = None;
                } else {
                    match open {
                        Some(c) => {
                            let more = line_words_exec(l);
                            let mut ws = c.words;
                            let ghost w0 = views(ws@);
                            let mut j: usize = 0;
                            while j < more.len()
                                invariant
                                    j <= more.len(),
                                    views(ws@) == w0 + views(more@).take(j as int),
                                decreases more.len() - j,
                            {
                                let ghost before = ws@;
                                ws.push(more[j].clone());
                                assert(views(ws@) =~= views(before).push(views(more@)[j as int]));
                                assert(views(more@).take(j as int + 1) =~= views(more@).take(j as int).push(views(more@)[j as int]));
                                assert(w0 + views(more@).take(j as int + 1) =~= (w0 + views(more@).take(j as int)).push(views(more@)[j as int]));
                                j = j + 1;
                            }
                            assert(views(more@).take(more.len() as int) =~= views(more@));
                            open = Some(Cue { start: c.start, words: ws });
                        },
                        None => {},
                    }
                }
            },
        }
        i = i + 1;
    }
    assert(lv.take(ls.len() as int) =~= lv);
    close_exec(&mut done, open);
    done
}

/// Inserting at `p`, past every entry that starts later than `x`, is
/// `insert_by_start` when the entry before `p` (if any) starts no later.
proof fn lemma_insert_at(s: Seq<(Seq<char>, nat)>, x: (Seq<char>, nat), p: int)
    requires
        0 <= p <= s.len(),
        forall|k: int| p <= k < s.len() ==> #[trigger] s[k].1 > x.1,
        p > 0 ==> s[p - 1].1 <= x.1,
    ensures
        insert_by_start(s, x) == s.insert(p, x),
    decreases s.len(),
{
    if s.len() == 0 {
        assert(s.insert(p, x) =~= seq![x]);
    } else if p == s.len() {
        assert(s.insert(p, x) =~= s.push(x));
    } else {
        let d = s.drop_last();
        assert(s.last() == s[s.len() - 1]);
        if p > 0 {
            assert(d[p - 1] == s[p - 1]);
        }
        assert forall|k: int| p <= k < d.len() implies #[trigger] d[k].1 > x.1 by {
            assert(d[k] == s[k]);
        }
        lemma_insert_at(d, x, p);
        assert(d.insert(p, x).push(s.last()) =~= s.insert(p, x));
    }
}

/// Every word is its own searchable form.
pub open spec fn all_normal(ws: Seq<Seq<char>>) -> bool {
    forall|k: int| 0 <= k < ws.len() ==> normalized(#[trigger] ws[k]) == ws[k]
}

pub open spec fn entries_normal(es: Seq<(Seq<char>, nat)>) -> bool {
    forall|k: int| 0 <= k < es.len() ==> normalized(#[trigger] es[k].0) == es[k].0
}

proof fn lemma_cue_fold_normal(ls: Seq<Seq<char>>)
    ensures
        forall|k: int| 0 <= k < cue_fold(ls).0.len() ==> all_normal(#[trigger] cue_fold(ls).0[k].1),
        cue_fold(ls).1 matches Some(c) ==> all_normal(c.1),
    decreases ls.len(),
{
    if ls.len() > 0 {
        let d = ls.drop_last();
        lemma_cue_fold_normal(d);
        let (done, open) = cue_fold(d);
        let l = ls.last();
        let r = cue_fold(ls).0;
        assert forall|k: int| 0 <= k < r.len() implies all_normal(#[trigger] r[k].1) by {
            if k < done.len() {
                assert(r[k] == done[k]);
            }
        }
        if timing(l) is None && !is_blank(l) {
            if let Some((st, ws)) = open {
                lemma_words_normalized(strip_from(l, 0, false));
                let lw = line_words(l);
                assert forall|k: int| 0 <= k < (ws + lw).len() implies normalized(#[trigger] (ws + lw)[k]) == (ws + lw)[k] by {
                    if k < ws.len() {
                        assert((ws + lw)[k] == ws[k]);
                    } else {
                        assert((ws + lw)[k] == lw[k - ws.len()]);
                    }
                }
            }
        }
    }
}

proof fn lemma_dedup_normal(cs: Seq<(Option<nat>, Seq<Seq<char>>)>)
    requires
        forall|k: int| 0 <= k < cs.len() ==> all_normal(#[trigger] cs[k].1),
    ensures
        entries_normal(dedup_fold(cs).0),
        all_normal(dedup_fold(cs).1),
    decreases cs.len(),
{
    if cs.len() > 0 {
        let d = cs.drop_last();
        assert forall|k: int| 0 <= k < d.len() implies all_normal(#[trigger] d[k].1) by {
            assert(d[k] == cs[k]);
        }
        lemma_dedup_normal(d);
        let (es, prev) = dedup_fold(d);
        let (st, ws) = cs.last();
        assert(all_normal(cs[cs.len() - 1].1));
        if st is Some && ws.len() > 0 {
            let t = st->0;
            let k0 = overlap(prev, ws);
            lemma_overlap_upto(prev, ws, if prev.len() <= ws.len() { prev.len() as int } else { ws.len() as int });
            let add = ws.subrange(k0, ws.len() as int).map_values(|w: Seq<char>| (w, t));
            let r = es + add;
            assert(r == dedup_fold(cs).0);
            assert forall|k: int| 0 <= k < r.len() implies normalized(#[trigger] r[k].0) == r[k].0 by {
                if k < es.len() {
                    assert(r[k] == es[k]);
                } else {
                    assert(r[k] == add[k - es.len()]);
                    assert(add[k - es.len()].0 == ws[k0 + k - es.len()]);
                }
            }
        }
    }
}

proof fn lemma_insert_normal(s: Seq<(Seq<char>, nat)>, x: (Seq<char>, nat))
    requires
        entries_normal(s),
        normalized(x.0) == x.0,
    ensures
        entries_normal(insert_by_start(s, x)),
    decreases s.len(),
{
    if s.len() > 0 {
        let d = s.drop_last();
        assert forall|k: int| 0 <= k < d.len() implies normalized(#[trigger] d[k].0) == d[k].0 by {
            assert(d[k] == s[k]);
        }
        assert(s.last() == s[s.len() - 1]);
        if s.last().1 > x.1 {
            lemma_insert_normal(d, x);
        }
        let r = insert_by_start(s, x);
        assert forall|k: int| 0 <= k < r.len() implies normalized(#[trigger] r[k].0) == r[k].0 by {
            if s.last().1 <= x.1 {
                if k < s.len() {
                    assert(r[k] == s[k]);
                }
            } else if k < r.len() - 1 {
                assert(r[k] == insert_by_start(d, x)[k]);
            }
        }
    }
}

proof fn lemma_sort_normal(s: Seq<(Seq<char>, nat)>)
    requires
        entries_normal(s),
    ensures
        entries_normal(sort_by_start(s)),
    decreases s.len(),
{
    if s.len() > 0 {
        let d = s.drop_last();
        assert forall|k: int| 0 <= k < d.len() implies normalized(#[trigger] d[k].0) == d[k].0 by {
            assert(d[k] == s[k]);
        }
        lemma_sort_normal(d);
        assert(s.last() == s[s.len() - 1]);
        lemma_insert_normal(sort_by_start(d), s.last());
    }
}

/// Every word of a caption track's timeline is already in searchable form:
/// normalizing it changes nothing.
pub proof fn lemma_timeline_normalized(text: Seq<char>)
    ensures
        entries_normal(timeline_of(text)),
{
    let (done, open) = cue_fold(lines(text));
    lemma_cue_fold_normal(lines(text));
    let cs = cues(text);
    assert forall|k: int| 0 <= k < cs.len() implies all_normal(#[trigger] cs[k].1) by {
        if k < done.len() {
            assert(cs[k] == done[k]);
        }
    }
    lemma_dedup_normal(cs);
    lemma_sort_normal(dedup_fold(cs).0);
}

/// The entries ordered by start, equal starts in their original order.
fn sort_entries(v: &Vec<CaptionEntry>) -> (r: Vec<CaptionEntry>)
    ensures
        entry_views(r@) == sort_by_start(entry_views(v@)),
        is_chronological(r@),
{
    let ghost ev = entry_views(v@);
    let mut r: Vec<CaptionEntry> = Vec::new();
    let mut i: usize = 0;
    assert(ev.take(0) =~= Seq::<(Seq<char>, nat)>::empty());
    assert(entry_views(r@) =~= Seq::<(Seq<char>, nat)>::empty());
    while i < v.len()
        invariant
            i <= v.len(),
            ev == entry_views(v@),
            entry_views(r@) == sort_by_start(ev.take(i as int)),
            is_chronological(r@),
        decreases v.len() - i,
    {
        let x = CaptionEntry { text: v[i].text.clone(), start: v[i].start };
        let ghost xv = (x.text@, x.start as nat);
        assert(xv == ev[i as int]);
        let ghost next = ev.take(i as int + 1);
        assert(next.drop_last() =~= ev.take(i as int));
        let mut p: usize = r.len();
        while p > 0 && r[p - 1].start > x.start
            invariant
                p <= r.len(),
                forall|k: int| p <= k < r.len() ==> #[trigger] r@[k].start > x.start,
            decreases p,
        {
            p = p - 1;
        }
        let ghost rv = r@;
        proof {
            assert forall|k: int| p <= k < rv.len() implies #[trigger] entry_views(rv)[k].1 > xv.1 by {
                assert(entry_views(rv)[k].1 == rv[k].start as nat);
            }
            if p > 0 {
                assert(entry_views(rv)[p - 1].1 == rv[p - 1].start as nat);
            }
            lemma_insert_at(entry_views(rv), xv, p as int);
        }
        r.insert(p, x);
        assert(entry_views(r@) =~= entry_views(rv).insert(p as int, xv));
        assert forall|a: int, b: int| 0 <= a <= b < r@.len() implies #[trigger] r@[a].start <= #[trigger] r@[b].start by {
            if a < p && b < p {
                assert(r@[a] == rv[a] && r@[b] == rv[b]);
            } else if a < p && b == p {
                assert(r@[a] == rv[a]);
                assert(rv[a].start <= rv[p - 1].start);
            } else if a < p {
                assert(r@[a] == rv[a] && r@[b] == rv[b - 1]);
            } else if a == p && b > p {
                assert(r@[b] == rv[b - 1]);
            } else if a > p {
                assert(r@[a] == rv[a - 1] && r@[b] == rv[b - 1]);
            }
        }
        i = i + 1;
    }
    assert(ev.take(v.len() as int) =~= ev);
    r
}

/// The timeline of a caption track: the novel words of its cues, each with
/// the start of the cue where it first appears, ordered by start (words with
/// equal starts in stream order).
pub fn extract_subtitles(text: &str) -> (r: Vec<CaptionEntry>)
    ensures
        entry_views(r@) == timeline_of(text@),
        is_chronological(r@),
        forall|k: int| 0 <= k < r@.len() ==> normalized(#[trigger] r@[k].text@) == r@[k].text@,
{
    let cs = parse_cues(text);
    let novel = dedup_cues(&cs);
    let r = sort_entries(&novel);
    proof {
        lemma_timeline_normalized(text@);
        assert forall|k: int| 0 <= k < r@.len() implies normalized(#[trigger] r@[k].text@) == r@[k].text@ by {
            assert(entry_views(r@)[k].0 == r@[k].text@);
        }
    }
    r
}

} // verus!
