//! The description parser: recovers the numbered questions of a free-form
//! video description.
//!
//! The text is cut into lines; lines made only of whitespace separate
//! paragraphs. A trimmed paragraph of at least `MIN_PARAGRAPH` characters is
//! an item when it starts with a digit 1-9, or when the text after its first
//! line does. The item's ordinal is that digit, or the two digits when a
//! second one follows. The item is kept when its ordinal lies within
//! `ORDINAL_WINDOW` of the last kept ordinal, which starts at 1. A kept
//! item's full text is the numbered text itself, marker included; its
//! searchable and shortened forms are taken from what follows the ordinal,
//! one `.` or `)`, and whitespace.
use vstd::prelude::*;
use crate::normalize::{normalize_chars, normalized};
use crate::text::{append_chars, chars_of, digit_value, is_digit, is_space, is_space_exec, lines, split_lines, string_of};

verus! {

pub const MIN_PARAGRAPH: usize = 10;

pub const ORDINAL_WINDOW: u64 = 4;

/// How many characters of the first line a shortened question keeps.
pub const SHORT_LEN: usize = 60;

/// One recovered question: its text as written (list marker removed), its
/// searchable form, and a compact form for display.
#[derive(Clone, Debug, PartialEq, Eq)]
pub struct Question {
    pub full: String,
    pub searchable: String,
    pub shortened: String,
}

impl Question {
    /// A field-by-field copy.
    pub fn copied(&self) -> (r: Question)
        ensures
            r.full@ == self.full@,
            r.searchable@ == self.searchable@,
            r.shortened@ == self.shortened@,
    {
        Question { full: self.full.clone(), searchable: self.searchable.clone(), shortened: self.shortened.clone() }
    }
}

pub open spec fn is_blank(l: Seq<char>) -> bool {
    forall|i: int| 0 <= i < l.len() ==> is_space(#[trigger] l[i])
}

/// Paragraphs closed so far, the one being built, and whether one is open.
pub open spec fn grouping(ls: Seq<Seq<char>>) -> (Seq<Seq<char>>, Seq<char>, bool)
    decreases ls.len(),
{
    if ls.len() == 0 {
        (Seq::empty(), Seq::empty(), false)
    } else {
        let (ps, cur, open) = grouping(ls.drop_last());
        let l = ls.last();
        if is_blank(l) {
            if open { (ps.push(cur), Seq::empty(), false) } else { (ps, cur, false) }
        } else if open {
            (ps, cur + seq!['\n'] + l, true)
        } else {
            (ps, l, true)
        }
    }
}

/// The paragraphs of `s`: runs of lines that are not blank, joined by line feeds.
pub open spec fn paragraphs(s: Seq<char>) -> Seq<Seq<char>> {
    let (ps, cur, open) = grouping(lines(s));
    if open { ps.push(cur) } else { ps }
}

/// The first index at or after `i` that holds no whitespace.
pub open spec fn skip_space(t: Seq<char>, i: int) -> int
    decreases t.len() - i,
{
    if i < t.len() && is_space(t[i]) { skip_space(t, i + 1) } else { i }
}

/// The end of `t.take(e)` once its trailing whitespace is dropped.
pub open spec fn trim_end_at(t: Seq<char>, e: int) -> int
    decreases e,
{
    if 0 < e <= t.len() && is_space(t[e - 1]) { trim_end_at(t, e - 1) } else { e }
}

pub open spec fn trim(t: Seq<char>) -> Seq<char> {
    let a = skip_space(t, 0);
    let b = trim_end_at(t, t.len() as int);
    if a < b { t.subrange(a, b) } else { Seq::empty() }
}

/// The index of the first line feed at or after `i`, or the length.
pub open spec fn line_end(t: Seq<char>, i: int) -> int
    decreases t.len() - i,
{
    if i >= t.len() || t[i] == '\n' { i } else { line_end(t, i + 1) }
}

pub open spec fn is_lead_digit(c: char) -> bool {
    '1' <= c && c <= '9'
}

/// The numbered text of a trimmed paragraph: itself, or what follows its
/// first line.
pub open spec fn numbered_body(t: Seq<char>) -> Option<Seq<char>> {
    if t.len() < MIN_PARAGRAPH {
        None
    } else if is_lead_digit(t[0]) {
        Some(t)
    } else if line_end(t, 0) < t.len() {
        let b = t.subrange(line_end(t, 0) + 1, t.len() as int);
        if b.len() > 0 && is_lead_digit(b[0]) { Some(b) } else { None }
    } else {
        None
    }
}

pub open spec fn marker_len(b: Seq<char>) -> int {
    if b.len() >= 2 && is_digit(b[1]) { 2 } else { 1 }
}

pub open spec fn ordinal(b: Seq<char>) -> nat {
    if marker_len(b) == 2 { 10 * digit_value(b[0]) + digit_value(b[1]) } else { digit_value(b[0]) }
}

/// What follows the ordinal, one `.` or `)`, and whitespace.
pub open spec fn item_text(b: Seq<char>) -> Seq<char> {
    let m = marker_len(b);
    let p = if m < b.len() && (b[m] == '.' || b[m] == ')') { m + 1 } else { m };
    b.subrange(skip_space(b, p), b.len() as int)
}

/// The ordinal and numbered text of a paragraph that is a list item.
pub open spec fn item_of(p: Seq<char>) -> Option<(nat, Seq<char>)> {
    match numbered_body(trim(p)) {
        Some(b) => Some((ordinal(b), b)),
        None => None,
    }
}

/// The texts of the items kept, and the last kept ordinal.
pub open spec fn selection(ps: Seq<Seq<char>>) -> (Seq<Seq<char>>, int)
    decreases ps.len(),
{
    if ps.len() == 0 {
        (Seq::empty(), 1)
    } else {
        let (fs, prev) = selection(ps.drop_last());
        match item_of(ps.last()) {
            Some((n, text)) => if prev - ORDINAL_WINDOW <= n <= prev + ORDINAL_WINDOW {
                (fs.push(text), n as int)
            } else {
                (fs, prev)
            },
            None => (fs, prev),
        }
    }
}

/// The first line of `t`, cut to `SHORT_LEN` characters.
pub open spec fn shortened(t: Seq<char>) -> Seq<char> {
    let e = line_end(t, 0);
    t.take(if e <= SHORT_LEN { e } else { SHORT_LEN as int })
}

/// The questions recovered from `text`.
pub open spec fn questions_of(text: Seq<char>, r: Seq<Question>) -> bool {
    let fs = selection(paragraphs(text)).0;
    &&& r.len() == fs.len()
    &&& forall|i: int| #![trigger r[i]] 0 <= i < r.len() ==> {
        &&& r[i].full@ == fs[i]
        &&& r[i].searchable@ == normalized(item_text(fs[i]))
        &&& r[i].shortened@ == shortened(item_text(fs[i]))
    }
}

pub(crate) fn is_blank_exec(l: &Vec<char>) -> (r: bool)
    ensures
        r == is_blank(l@),
{
    let mut k: usize = 0;
    while k < l.len()
        invariant
            k <= l.len(),
            forall|i: int| 0 <= i < k ==> is_space(#[trigger] l@[i]),
        decreases l.len() - k,
    {
        let c = l[k];
        if !is_space_exec(c) {
            return false;
        }
        k = k + 1;
    }
    true
}

/// The paragraphs of a character sequence.
pub fn split_paragraphs(s: &Vec<char>) -> (r: Vec<Vec<char>>)
    ensures
        r@.map_values(|x: Vec<char>| x@) == paragraphs(s@),
{
    let ls = split_lines(s);
    let ghost lv = ls@.map_values(|x: Vec<char>| x@);
    let mut ps: Vec<Vec<char>> = Vec::new();
    let mut cur: Vec<char> = Vec::new();
    let mut open = false;
    let mut i: usize = 0;
    assert(lv.take(0) =~= Seq::<Seq<char>>::empty());
    while i < ls.len()
        invariant
            i <= ls.len(),
            lv == ls@.map_values(|x: Vec<char>| x@),
            grouping(lv.take(i as int)) == (ps@.map_values(|x: Vec<char>| x@), cur@, open),
        decreases ls.len() - i,
    {
        let ghost pre = lv.take(i as int);
        let ghost next = lv.take(i as int + 1);
        assert(next.drop_last() =~= pre);
        assert(next.last() == ls@[i as int]@);
        let l = &ls[i];
        if is_blank_exec(l) {
            if open {
                let ghost old_ps = ps@;
                let done = cur;
                ps.push(done);
                cur = Vec::new();
                assert(ps@.map_values(|x: Vec<char>| x@) =~= old_ps.map_values(|x: Vec<char>| x@).push(done@));
                assert(cur@ =~= Seq::<char>::empty());
            }
            open = false;
        } else if open {
            let ghost old_cur = cur@;
            cur.push('\n');
            append_chars(&mut cur, l);
            assert(cur@ =~= old_cur + seq!['\n'] + l@);
        } else {
            cur = l.clone();
            assert(cur@ =~= l@);
            open = true;
        }
        i = i + 1;
    }
    assert(lv.take(ls.len() as int) =~= lv);
    if open {
        let ghost old_ps = ps@;
        let done = cur;
        ps.push(done);
        assert(ps@.map_values(|x: Vec<char>| x@) =~= old_ps.map_values(|x: Vec<char>| x@).push(done@));
    }
    ps
}

fn subrange_chars(t: &Vec<char>, a: usize, b: usize) -> (r: Vec<char>)
    requires
        a <= b <= t.len(),
    ensures
        r@ == t@.subrange(a as int, b as int),
{
    let mut r: Vec<char> = Vec::new();
    let mut k: usize = a;
    while k < b
        invariant
            a <= k <= b <= t.len(),
            r@ == t@.subrange(a as int, k as int),
        decreases b - k,
    {
        r.push(t[k]);
        assert(t@.subrange(a as int, k as int + 1) =~= t@.subrange(a as int, k as int).push(t@[k as int]));
        k = k + 1;
    }
    r
}

proof fn lemma_skip_space_bounds(t: Seq<char>, i: int)
    requires
        0 <= i,
    ensures
        i <= skip_space(t, i),
        i <= t.len() ==> skip_space(t, i) <= t.len(),
        skip_space(t, i) < t.len() ==> !is_space(t[skip_space(t, i)]),
    decreases t.len() - i,
{
    if i < t.len() && is_space(t[i]) {
        lemma_skip_space_bounds(t, i + 1);
    }
}

fn skip_space_exec(t: &Vec<char>, i: usize) -> (r: usize)
    requires
        i <= t.len(),
    ensures
        r == skip_space(t@, i as int),
        i <= r <= t.len(),
{
    let mut k: usize = i;
    while k < t.len() && is_space_exec(t[k])
        invariant
            i <= k <= t.len(),
            skip_space(t@, i as int) == skip_space(t@, k as int),
        decreases t.len() - k,
    {
        k = k + 1;
    }
    k
}

pub(crate) fn trim_chars(t: &Vec<char>) -> (r: Vec<char>)
    ensures
        r@ == trim(t@),
{
    let a = skip_space_exec(t, 0);
    let mut b: usize = t.len();
    while b > 0 && is_space_exec(t[b - 1])
        invariant
            b <= t.len(),
            trim_end_at(t@, t.len() as int) == trim_end_at(t@, b as int),
        decreases b,
    {
        b = b - 1;
    }
    if a < b {
        subrange_chars(t, a, b)
    } else {
        Vec::new()
    }
}

proof fn lemma_line_end_bounds(t: Seq<char>, i: int)
    requires
        0 <= i <= t.len(),
    ensures
        i <= line_end(t, i) <= t.len(),
        line_end(t, i) < t.len() ==> t[line_end(t, i)] == '\n',
    decreases t.len() - i,
{
    if i < t.len() && t[i] != '\n' {
        lemma_line_end_bounds(t, i + 1);
    }
}

fn line_end_exec(t: &Vec<char>) -> (r: usize)
    ensures
        r == line_end(t@, 0),
        r <= t.len(),
{
    proof {
        lemma_line_end_bounds(t@, 0);
    }
    let mut k: usize = 0;
    while k < t.len() && t[k] != '\n'
        invariant
            k <= t.len(),
            line_end(t@, 0) == line_end(t@, k as int),
        decreases t.len() - k,
    {
        k = k + 1;
    }
    k
}

fn numbered_body_exec(t: &Vec<char>) -> (r: Option<Vec<char>>)
    ensures
        r matches Some(b) ==> numbered_body(t@) == Some(b@) && b.len() > 0,
        r is None ==> numbered_body(t@) is None,
{
    if t.len() < MIN_PARAGRAPH {
        return None;
    }
    if '1' <= t[0] && t[0] <= '9' {
        return Some(t.clone());
    }
    let e = line_end_exec(t);
    if e < t.len() {
        let b = subrange_chars(t, e + 1, t.len());
        if b.len() > 0 && '1' <= b[0] && b[0] <= '9' {
            Some(b)
        } else {
            None
        }
    } else {
        None
    }
}

/// The ordinal and numbered text of a paragraph that is a list item, or `None`.
pub fn item_of_paragraph(p: &Vec<char>) -> (r: Option<(u64, Vec<char>)>)
    ensures
        r matches Some((n, text)) ==> item_of(p@) == Some((n as nat, text@)) && text.len() > 0,
        r is None ==> item_of(p@) is None,
{
    let t = trim_chars(p);
    match numbered_body_exec(&t) {
        None => None,
        Some(b) => {
            let d0 = (b[0] as u32 - '0' as u32) as u64;
            let m: usize = if b.len() >= 2 && '0' <= b[1] && b[1] <= '9' { 2 } else { 1 };
            let n: u64 = if m == 2 { 10 * d0 + (b[1] as u32 - '0' as u32) as u64 } else { d0 };
            Some((n, b))
        },
    }
}

fn item_text_exec(b: &Vec<char>) -> (r: Vec<char>)
    requires
        b.len() > 0,
    ensures
        r@ == item_text(b@),
{
    let m: usize = if b.len() >= 2 && '0' <= b[1] && b[1] <= '9' { 2 } else { 1 };
    let q: usize = if m < b.len() && (b[m] == '.' || b[m] == ')') { m + 1 } else { m };
    let st = skip_space_exec(b, q);
    subrange_chars(b, st, b.len())
}

fn shorten_chars(t: &Vec<char>) -> (r: Vec<char>)
    ensures
        r@ == shortened(t@),
{
    let e = line_end_exec(t);
    let k: usize = if e <= SHORT_LEN { e } else { SHORT_LEN };
    let r = subrange_chars(t, 0, k);
    assert(r@ =~= t@.take(k as int));
    r
}

/// The questions of a description, in order.
pub fn extract_comments(text: &str) -> (r: Vec<Question>)
    ensures
        questions_of(text@, r@),
{
    let chars = chars_of(text);
    let ps = split_paragraphs(&chars);
    let ghost pv = ps@.map_values(|x: Vec<char>| x@);
    let mut r: Vec<Question> = Vec::new();
    let ghost mut fs: Seq<Seq<char>> = Seq::empty();
    let mut prev: u64 = 1;
    let mut i: usize = 0;
    assert(pv.take(0) =~= Seq::<Seq<char>>::empty());
    while i < ps.len()
        invariant
            i <= ps.len(),
            pv == ps@.map_values(|x: Vec<char>| x@),
            pv == paragraphs(text@),
            selection(pv.take(i as int)) == (fs, prev as int),
            1 <= prev < 100,
            r@.len() == fs.len(),
            forall|k: int| #![trigger r@[k]] 0 <= k < r@.len() ==> {
                &&& r@[k].full@ == fs[k]
                &&& r@[k].searchable@ == normalized(item_text(fs[k]))
                &&& r@[k].shortened@ == shortened(item_text(fs[k]))
            },
        decreases ps.len() - i,
    {
        let ghost pre = pv.take(i as int);
        let ghost next = pv.take(i as int + 1);
        assert(next.drop_last() =~= pre);
        assert(next.last() == ps@[i as int]@);
        match item_of_paragraph(&ps[i]) {
            Some((n, body)) => {
                if n + ORDINAL_WINDOW >= prev && n <= prev + ORDINAL_WINDOW {
                    let text = item_text_exec(&body);
                    let searchable = string_of(&normalize_chars(&text));
                    let short = string_of(&shorten_chars(&text));
                    let full = string_of(&body);
                    r.push(Question { full, searchable, shortened: short });
                    proof {
                        fs = fs.push(body@);
                    }
                    prev = n;
                }
            },
            None => {},
        }
        i = i + 1;
    }
    assert(pv.take(ps.len() as int) =~= pv);
    r
}

proof fn lemma_selection_sources(ps: Seq<Seq<char>>)
    ensures
        forall|k: int| 0 <= k < selection(ps).0.len() ==> exists|j: int| 0 <= j < ps.len()
            && trim(#[trigger] ps[j]).len() >= MIN_PARAGRAPH
            && gives_text(ps[j], #[trigger] selection(ps).0[k]),
    decreases ps.len(),
{
    if ps.len() > 0 {
        let pre = ps.drop_last();
        lemma_selection_sources(pre);
        let fs = selection(pre).0;
        let r = selection(ps).0;
        assert forall|k: int| 0 <= k < r.len() implies exists|j: int| 0 <= j < ps.len()
            && trim(#[trigger] ps[j]).len() >= MIN_PARAGRAPH
            && gives_text(ps[j], #[trigger] r[k]) by {
            if k < fs.len() {
                assert(r[k] == fs[k]);
                let j = choose|j: int| 0 <= j < pre.len()
                    && trim(#[trigger] pre[j]).len() >= MIN_PARAGRAPH
                    && gives_text(pre[j], #[trigger] fs[k]);
                assert(pre[j] == ps[j]);
            } else {
                let j = ps.len() - 1;
                assert(ps[j] == ps.last());
            }
        }
    }
}

/// The paragraph `p` is a list item whose text is `t`.
pub open spec fn gives_text(p: Seq<char>, t: Seq<char>) -> bool {
    match item_of(p) {
        Some((_, u)) => u == t,
        None => false,
    }
}

/// Paragraphs shorter than `MIN_PARAGRAPH` characters once trimmed never
/// give a question: each question's text is the item text of a paragraph of
/// the description that trims to at least that many characters.
pub proof fn lemma_short_paragraphs_skipped(text: Seq<char>, r: Seq<Question>, k: int)
    requires
        questions_of(text, r),
        0 <= k < r.len(),
    ensures
        exists|j: int| 0 <= j < paragraphs(text).len()
            && trim(#[trigger] paragraphs(text)[j]).len() >= MIN_PARAGRAPH
            && gives_text(paragraphs(text)[j], r[k].full@),
{
    lemma_selection_sources(paragraphs(text));
    assert(r[k].full@ == selection(paragraphs(text)).0[k]);
}

} // verus!
