//! Conversions between strings and character vectors, and small character
//! predicates shared by the parsers.
use vstd::prelude::*;

verus! {

/// Whitespace as Unicode's White_Space property lists it: tab to carriage
/// return, space, next line, no-break space, ogham space mark, the spaces
/// from en quad to hair space, line and paragraph separators, narrow
/// no-break space, medium mathematical space and ideographic space.
pub open spec fn is_space(c: char) -> bool {
    ('\t' <= c && c <= '\r') || c == ' ' || c == '\u{85}' || c == '\u{a0}' || c == '\u{1680}'
        || ('\u{2000}' <= c && c <= '\u{200a}') || c == '\u{2028}' || c == '\u{2029}' || c == '\u{202f}'
        || c == '\u{205f}' || c == '\u{3000}'
}

pub fn is_space_exec(c: char) -> (r: bool)
    ensures
        r == is_space(c),
{
    ('\t' <= c && c <= '\r') || c == ' ' || c == '\u{85}' || c == '\u{a0}' || c == '\u{1680}'
        || ('\u{2000}' <= c && c <= '\u{200a}') || c == '\u{2028}' || c == '\u{2029}' || c == '\u{202f}'
        || c == '\u{205f}' || c == '\u{3000}'
}

pub open spec fn is_digit(c: char) -> bool {
    '0' <= c && c <= '9'
}

pub open spec fn digit_value(c: char) -> nat {
    (c as u32 - '0' as u32) as nat
}

/// The characters of a string, in order.
pub fn chars_of(s: &str) -> (r: Vec<char>)
    ensures
        r@ == s@,
{
    let mut r: Vec<char> = Vec::new();
    for c in it: s.chars()
        invariant
            r@ == it.seq().take(it.index() as int),
    {
        r.push(c);
    }
    r
}

/// Relies on std's `FromIterator<char>` for `String`: the string holds the
/// characters in the order given.
#[verifier::external_body]
pub(crate) fn string_of(v: &Vec<char>) -> (r: String)
    ensures
        r@ == v@,
{
    v.iter().collect()
}

/// The words of `s`: its maximal runs of characters other than a space.
pub open spec fn words(s: Seq<char>) -> Seq<Seq<char>>
    decreases s.len(),
{
    if s.len() == 0 {
        Seq::empty()
    } else {
        let w = words(s.drop_last());
        let c = s.last();
        if c == ' ' {
            w
        } else if s.len() >= 2 && s[s.len() - 2] != ' ' && w.len() > 0 {
            w.update(w.len() - 1, w.last().push(c))
        } else {
            w.push(seq![c])
        }
    }
}

pub open spec fn views(v: Seq<String>) -> Seq<Seq<char>> {
    v.map_values(|x: String| x@)
}

/// The words of `s`, each as a string.
pub fn split_words(s: &Vec<char>) -> (r: Vec<String>)
    ensures
        views(r@) == words(s@),
{
    let mut acc: Vec<Vec<char>> = Vec::new();
    let mut i: usize = 0;
    while i < s.len()
        invariant
            i <= s.len(),
            acc@.map_values(|x: Vec<char>| x@) == words(s@.take(i as int)),
        decreases s.len() - i,
    {
        let c = s[i];
        let ghost pre = s@.take(i as int);
        let ghost cur = s@.take(i as int + 1);
        assert(cur.drop_last() =~= pre);
        assert(cur.last() == c);
        if c != ' ' {
            if i >= 1 && s[i - 1] != ' ' && acc.len() > 0 {
                assert(cur[cur.len() - 2] == s@[i - 1]);
                let ghost before = acc@;
                let mut w = acc.pop().unwrap();
                w.push(c);
                acc.push(w);
                assert(acc@ == before.update(before.len() - 1, w));
                assert(acc@.map_values(|x: Vec<char>| x@) =~= words(cur));
            } else {
                proof {
                    if i >= 1 {
                        assert(cur[cur.len() - 2] == s@[i - 1]);
                    }
                }
                let mut nw: Vec<char> = Vec::new();
                nw.push(c);
                assert(nw@ =~= seq![c]);
                acc.push(nw);
                assert(acc@.map_values(|x: Vec<char>| x@) =~= words(cur));
            }
        }
        i = i + 1;
    }
    assert(s@.take(s.len() as int) =~= s@);
    let mut r: Vec<String> = Vec::new();
    let mut k: usize = 0;
    while k < acc.len()
        invariant
            k <= acc.len(),
            views(r@) =~= acc@.map_values(|x: Vec<char>| x@).take(k as int),
        decreases acc.len() - k,
    {
        let t = string_of(&acc[k]);
        let ghost old_r = r@;
        r.push(t);
        assert(views(r@) =~= views(old_r).push(acc@[k as int]@));
        assert(views(r@) =~= acc@.map_values(|x: Vec<char>| x@).take(k as int + 1));
        k = k + 1;
    }
    r
}

/// The lines of `s`: the pieces between line feeds, empty ones included.
pub open spec fn lines(s: Seq<char>) -> Seq<Seq<char>>
    decreases s.len(),
{
    if s.len() == 0 {
        seq![Seq::empty()]
    } else {
        let l = lines(s.drop_last());
        if s.last() == '\n' {
            l.push(Seq::empty())
        } else {
            l.update(l.len() - 1, l.last().push(s.last()))
        }
    }
}

proof fn lemma_lines_nonempty(s: Seq<char>)
    ensures
        lines(s).len() > 0,
    decreases s.len(),
{
    if s.len() > 0 {
        lemma_lines_nonempty(s.drop_last());
    }
}

/// The lines of `s`.
pub fn split_lines(s: &Vec<char>) -> (r: Vec<Vec<char>>)
    ensures
        r@.map_values(|x: Vec<char>| x@) == lines(s@),
{
    let mut acc: Vec<Vec<char>> = Vec::new();
    acc.push(Vec::new());
    assert(acc@.map_values(|x: Vec<char>| x@) =~= lines(s@.take(0)));
    let mut i: usize = 0;
    while i < s.len()
        invariant
            i <= s.len(),
            acc@.map_values(|x: Vec<char>| x@) == lines(s@.take(i as int)),
        decreases s.len() - i,
    {
        let c = s[i];
        let ghost pre = s@.take(i as int);
        let ghost cur = s@.take(i as int + 1);
        assert(cur.drop_last() =~= pre);
        assert(cur.last() == c);
        proof {
            lemma_lines_nonempty(pre);
        }
        if c == '\n' {
            acc.push(Vec::new());
            assert(acc@.map_values(|x: Vec<char>| x@) =~= lines(cur));
        } else {
            let ghost before = acc@;
            let mut w = acc.pop().unwrap();
            w.push(c);
            acc.push(w);
            assert(acc@ == before.update(before.len() - 1, w));
            assert(acc@.map_values(|x: Vec<char>| x@) =~= lines(cur));
        }
        i = i + 1;
    }
    assert(s@.take(s.len() as int) =~= s@);
    acc
}

/// Appends the characters of `src` to `dst`.
pub fn append_chars(dst: &mut Vec<char>, src: &Vec<char>)
    ensures
        final(dst)@ == old(dst)@ + src@,
{
    let ghost start = dst@;
    let mut k: usize = 0;
    while k < src.len()
        invariant
            k <= src.len(),
            dst@ == start + src@.take(k as int),
        decreases src.len() - k,
    {
        dst.push(src[k]);
        assert(start + src@.take(k as int + 1) =~= (start + src@.take(k as int)).push(src@[k as int]));
        k = k + 1;
    }
    assert(src@.take(src.len() as int) =~= src@);
}

} // verus!
