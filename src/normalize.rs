//! The text normalizer: the one place that decides whether two fragments
//! are the same utterance.
//!
//! A searchable form is the sequence of words of a fragment, lowercased and
//! separated by single spaces. A word is a maximal run of word characters:
//! ASCII letters and digits, and every character outside ASCII that is not
//! whitespace. All other
//! characters (punctuation, whitespace, control characters) only separate
//! words. Lowercasing applies to ASCII letters; other characters are kept.
use vstd::prelude::*;
use crate::text::{chars_of, is_space, is_space_exec, string_of, words};

verus! {

pub open spec fn is_word_char(c: char) -> bool {
    ('a' <= c && c <= 'z') || ('A' <= c && c <= 'Z') || ('0' <= c && c <= '9') || (c as u32 >= 128 && !is_space(c))
}

pub open spec fn fold_char(c: char) -> char {
    if 'A' <= c && c <= 'Z' {
        ((c as u8) + 32) as char
    } else {
        c
    }
}

/// The searchable form of `s`, built from left to right: a separator is
/// dropped, a word character that continues a word is appended lowercased,
/// and one that starts a word after an earlier word is preceded by a space.
pub open spec fn normalized(s: Seq<char>) -> Seq<char>
    decreases s.len(),
{
    if s.len() == 0 {
        Seq::empty()
    } else {
        let prev = normalized(s.drop_last());
        let c = s.last();
        if !is_word_char(c) {
            prev
        } else if (s.len() >= 2 && is_word_char(s[s.len() - 2])) || prev.len() == 0 {
            prev.push(fold_char(c))
        } else {
            prev.push(' ').push(fold_char(c))
        }
    }
}

/// A searchable form: no leading space, no two spaces in a row, and every
/// other character a lowercased word character.
pub open spec fn is_canonical_prefix(t: Seq<char>) -> bool {
    &&& (t.len() > 0 ==> t[0] != ' ')
    &&& forall|i: int| 0 <= i < t.len() ==> (t[i] == ' ' || (is_word_char(#[trigger] t[i]) && fold_char(t[i]) == t[i]))
    &&& forall|i: int| 0 <= i < t.len() - 1 ==> !(#[trigger] t[i] == ' ' && t[i + 1] == ' ')
}

pub open spec fn is_canonical(t: Seq<char>) -> bool {
    is_canonical_prefix(t) && (t.len() > 0 ==> t.last() != ' ')
}

proof fn lemma_fold_char(c: char)
    ensures
        is_word_char(c) ==> is_word_char(fold_char(c)),
        fold_char(fold_char(c)) == fold_char(c),
        is_word_char(c) ==> fold_char(c) != ' ',
{
}

/// Every searchable form is canonical.
pub proof fn lemma_normalized_canonical(s: Seq<char>)
    ensures
        is_canonical(normalized(s)),
    decreases s.len(),
{
    if s.len() > 0 {
        lemma_normalized_canonical(s.drop_last());
        lemma_fold_char(s.last());
        let prev = normalized(s.drop_last());
        assert(!is_word_char(' '));
        let r = normalized(s);
        if is_word_char(s.last()) {
            assert forall|i: int| 0 <= i < r.len() implies (r[i] == ' ' || (is_word_char(#[trigger] r[i]) && fold_char(r[i]) == r[i])) by {
                if i < prev.len() {
                    assert(r[i] == prev[i]);
                }
            }
            assert forall|i: int| 0 <= i < r.len() - 1 implies !(#[trigger] r[i] == ' ' && r[i + 1] == ' ') by {
                if i < prev.len() - 1 {
                    assert(r[i] == prev[i] && r[i + 1] == prev[i + 1]);
                }
            }
        }
    }
}

proof fn lemma_canonical_fixed(t: Seq<char>)
    requires
        is_canonical_prefix(t),
    ensures
        normalized(t) == (if t.len() > 0 && t.last() == ' ' { t.drop_last() } else { t }),
    decreases t.len(),
{
    if t.len() > 0 {
        let u = t.drop_last();
        assert(is_canonical_prefix(u)) by {
            assert forall|i: int| 0 <= i < u.len() implies (u[i] == ' ' || (is_word_char(#[trigger] u[i]) && fold_char(u[i]) == u[i])) by {
                assert(u[i] == t[i]);
            }
            assert forall|i: int| 0 <= i < u.len() - 1 implies !(#[trigger] u[i] == ' ' && u[i + 1] == ' ') by {
                assert(u[i] == t[i] && u[i + 1] == t[i + 1]);
            }
        }
        lemma_canonical_fixed(u);
        let c = t.last();
        assert(t[t.len() - 1] == c);
        if c == ' ' {
            assert(u.len() > 0);
            assert(!(t[t.len() - 2] == ' ' && t[t.len() - 1] == ' '));
            assert(u.last() == t[t.len() - 2]);
        } else {
            assert(is_word_char(c) && fold_char(c) == c);
            if u.len() > 0 && u.last() == ' ' {
                assert(u.last() == t[t.len() - 2]);
                assert(u.drop_last().len() > 0) by {
                    assert(t[0] != ' ');
                }
                assert(u.drop_last().push(' ').push(c) =~= t);
            } else if u.len() > 0 {
                assert(u.last() == t[t.len() - 2]);
                assert(u.push(c) =~= t);
            } else {
                assert(u.push(c) =~= t);
            }
        }
    }
}

/// Normalizing a searchable form gives it back unchanged.
pub proof fn lemma_normalize_idempotent(s: Seq<char>)
    ensures
        normalized(normalized(s)) == normalized(s),
{
    lemma_normalized_canonical(s);
    lemma_canonical_fixed(normalized(s));
}

/// A non-empty run of lowercased word characters.
pub open spec fn is_plain_word(w: Seq<char>) -> bool {
    w.len() > 0 && forall|i: int| 0 <= i < w.len() ==> is_word_char(#[trigger] w[i]) && fold_char(w[i]) == w[i]
}

proof fn lemma_words_plain(t: Seq<char>)
    requires
        forall|i: int| 0 <= i < t.len() ==> (t[i] == ' ' || (is_word_char(#[trigger] t[i]) && fold_char(t[i]) == t[i])),
    ensures
        forall|k: int| 0 <= k < words(t).len() ==> is_plain_word(#[trigger] words(t)[k]),
    decreases t.len(),
{
    if t.len() > 0 {
        let d = t.drop_last();
        assert forall|i: int| 0 <= i < d.len() implies (d[i] == ' ' || (is_word_char(#[trigger] d[i]) && fold_char(d[i]) == d[i])) by {
            assert(d[i] == t[i]);
        }
        lemma_words_plain(d);
        let c = t.last();
        assert(c == t[t.len() - 1]);
        let w = words(d);
        let r = words(t);
        if c != ' ' {
            if t.len() >= 2 && t[t.len() - 2] != ' ' && w.len() > 0 {
                assert forall|k: int| 0 <= k < r.len() implies is_plain_word(#[trigger] r[k]) by {
                    if k < w.len() - 1 {
                        assert(r[k] == w[k]);
                    } else {
                        let x = w.last().push(c);
                        assert(r[k] == x);
                        assert(is_plain_word(w[w.len() - 1]));
                        assert forall|i: int| 0 <= i < x.len() implies is_word_char(#[trigger] x[i]) && fold_char(x[i]) == x[i] by {
                            if i < x.len() - 1 {
                                assert(x[i] == w[w.len() - 1][i]);
                            }
                        }
                    }
                }
            } else {
                assert forall|k: int| 0 <= k < r.len() implies is_plain_word(#[trigger] r[k]) by {
                    if k < w.len() {
                        assert(r[k] == w[k]);
                    } else {
                        assert(r[k] == seq![c]);
                    }
                }
            }
        }
    }
}

/// Each word of a searchable form is its own searchable form.
pub proof fn lemma_words_normalized(s: Seq<char>)
    ensures
        forall|k: int| 0 <= k < words(normalized(s)).len()
            ==> normalized(#[trigger] words(normalized(s))[k]) == words(normalized(s))[k],
{
    lemma_normalized_canonical(s);
    lemma_words_plain(normalized(s));
    assert forall|k: int| 0 <= k < words(normalized(s)).len()
        implies normalized(#[trigger] words(normalized(s))[k]) == words(normalized(s))[k] by {
        let w = words(normalized(s))[k];
        assert(is_plain_word(w));
        assert(!is_word_char(' '));
        assert(w.last() == w[w.len() - 1]);
        lemma_canonical_fixed(w);
    }
}

pub fn is_word_char_exec(c: char) -> (r: bool)
    ensures
        r == is_word_char(c),
{
    ('a' <= c && c <= 'z') || ('A' <= c && c <= 'Z') || ('0' <= c && c <= '9') || (c as u32 >= 128 && !is_space_exec(c))
}

fn fold_char_exec(c: char) -> (r: char)
    ensures
        r == fold_char(c),
{
    if 'A' <= c && c <= 'Z' {
        ((c as u8) + 32) as char
    } else {
        c
    }
}

/// The searchable form of a character sequence.
pub fn normalize_chars(s: &Vec<char>) -> (r: Vec<char>)
    ensures
        r@ == normalized(s@),
{
    let mut r: Vec<char> = Vec::new();
    let mut i: usize = 0;
    while i < s.len()
        invariant
            i <= s.len(),
            r@ == normalized(s@.take(i as int)),
        decreases s.len() - i,
    {
        let c = s[i];
        let ghost pre = s@.take(i as int);
        let ghost cur = s@.take(i as int + 1);
        assert(cur.drop_last() =~= pre);
        assert(cur.last() == c);
        if is_word_char_exec(c) {
            if (i >= 1 && is_word_char_exec(s[i - 1])) || r.len() == 0 {
                proof {
                    if i >= 1 {
                        assert(cur[cur.len() - 2] == s@[i - 1]);
                    }
                }
                r.push(fold_char_exec(c));
            } else {
                proof {
                    if i >= 1 {
                        assert(cur[cur.len() - 2] == s@[i - 1]);
                    }
                }
                r.push(' ');
                r.push(fold_char_exec(c));
            }
        }
        i = i + 1;
    }
    assert(s@.take(s.len() as int) =~= s@);
    r
}

/// The searchable form of `s`: its words, lowercased, joined by single spaces.
pub fn normalize(s: &str) -> (r: String)
    ensures
        r@ == normalized(s@),
{
    let v = chars_of(s);
    let n = normalize_chars(&v);
    string_of(&n)
}

} // verus!
