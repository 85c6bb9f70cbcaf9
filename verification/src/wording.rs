//! Texts taken apart: what white space is, and how words and lines follow each other.

use crate::text::{
    find_from, is_white, lines_from, trim_end, trim_start, trimmed, word_end, words_from,
};
use vstd::prelude::*;

verus! {

// ---------------------------------------------------------------- white space

/// White space is what Unicode says it is: the blanks of ASCII, and those of other scripts.
pub proof fn lemma_white(c: char)
    ensures
        is_white(c) <==> c == ' ' || c == '\t' || c == '\n' || c == '\u{b}' || c == '\u{c}' || c
            == '\r' || c == '\u{85}' || c == '\u{a0}' || c == '\u{1680}' || ('\u{2000}' <= c && c
            <= '\u{200a}') || c == '\u{2028}' || c == '\u{2029}' || c == '\u{202f}' || c
            == '\u{205f}' || c == '\u{3000}',
{
}

/// A text loses the white space at its ends, and nothing else: what is left stands between two
/// places of it, only white space stands before and behind, and none stands at its own ends.
pub proof fn lemma_trimmed_ends(s: Seq<char>) -> (r: (int, int))
    ensures
        0 <= r.0 <= r.1 <= s.len(),
        trimmed(s) == s.subrange(r.0, r.1),
        forall|i: int| 0 <= i < r.0 ==> is_white(#[trigger] s[i]),
        forall|i: int| r.1 <= i < s.len() ==> is_white(#[trigger] s[i]),
        r.0 < r.1 ==> !is_white(s[r.0]) && !is_white(s[r.1 - 1]),
{
    let a = lemma_trim_start(s);
    let t = s.skip(a);
    let b = lemma_trim_end(t);
    assert(t.take(b) =~= s.subrange(a, a + b));
    assert forall|i: int| a + b <= i < s.len() implies is_white(#[trigger] s[i]) by {
        assert(t[i - a] == s[i]);
    }
    if b > 0 {
        assert(t[b - 1] == s[a + b - 1]);
        assert(t[0] == s[a]);
    }
    (a, a + b)
}

proof fn lemma_trim_start(s: Seq<char>) -> (a: int)
    ensures
        0 <= a <= s.len(),
        trim_start(s) == s.skip(a),
        forall|i: int| 0 <= i < a ==> is_white(#[trigger] s[i]),
        a < s.len() ==> !is_white(s[a]),
    decreases s.len(),
{
    if s.len() > 0 && is_white(s[0]) {
        let t = s.skip(1);
        let a = lemma_trim_start(t);
        assert(t.skip(a) =~= s.skip(a + 1));
        assert forall|i: int| 0 <= i < a + 1 implies is_white(#[trigger] s[i]) by {
            if i > 0 {
                assert(t[i - 1] == s[i]);
            }
        }
        a + 1
    } else {
        assert(s.skip(0) =~= s);
        0
    }
}

proof fn lemma_trim_end(s: Seq<char>) -> (b: int)
    ensures
        0 <= b <= s.len(),
        trim_end(s) == s.take(b),
        forall|i: int| b <= i < s.len() ==> is_white(#[trigger] s[i]),
        b > 0 ==> !is_white(s[b - 1]),
    decreases s.len(),
{
    if s.len() > 0 && is_white(s.last()) {
        let t = s.drop_last();
        let b = lemma_trim_end(t);
        assert(t.take(b) =~= s.take(b));
        assert forall|i: int| b <= i < s.len() implies is_white(#[trigger] s[i]) by {
            if i < t.len() {
                assert(t[i] == s[i]);
            }
        }
        b
    } else {
        assert(s.take(s.len() as int) =~= s);
        s.len() as int
    }
}

// ---------------------------------------------------------------- words

/// Does `c` part words? These are the blanks of ASCII.
pub open spec fn parts_words(c: char) -> bool {
    c == ' ' || c == '\t' || c == '\n' || c == '\r' || c == '\u{c}'
}

/// Is the text one word?
pub open spec fn is_word(w: Seq<char>) -> bool {
    w.len() > 0 && forall|i: int| 0 <= i < w.len() ==> !parts_words(#[trigger] w[i])
}

proof fn lemma_word_stop(s: Seq<char>, n: int, pos: int)
    requires
        0 <= pos <= n <= s.len(),
        forall|i: int| pos <= i < n ==> !parts_words(#[trigger] s[i]),
        n < s.len() ==> parts_words(s[n]),
    ensures
        word_end(s, pos) == n,
    decreases n - pos,
{
    if pos < n {
        lemma_word_stop(s, n, pos + 1);
    }
}

proof fn lemma_word_shift(s: Seq<char>, k: int, pos: int)
    requires
        0 <= k,
        0 <= pos,
        k + pos <= s.len(),
    ensures
        word_end(s, k + pos) == k + word_end(s.skip(k), pos),
        pos <= word_end(s.skip(k), pos) <= s.len() - k,
    decreases s.len() - k - pos,
{
    if k + pos < s.len() && !parts_words(s[k + pos]) {
        lemma_word_shift(s, k, pos + 1);
    }
}

proof fn lemma_words_shift(s: Seq<char>, k: int, pos: int)
    requires
        0 <= k,
        0 <= pos,
        k + pos <= s.len(),
    ensures
        words_from(s, k + pos) == words_from(s.skip(k), pos),
    decreases s.len() - k - pos,
{
    let t = s.skip(k);
    if k + pos < s.len() {
        if parts_words(s[k + pos]) {
            lemma_words_shift(s, k, pos + 1);
        } else {
            lemma_word_shift(s, k, pos);
            let end = word_end(t, pos);
            if pos < end <= t.len() {
                assert(s.subrange(k + pos, k + end) =~= t.subrange(pos, end));
                lemma_words_shift(s, k, end);
            }
        }
    }
}

/// The words of a text are its first word and those behind the blank after it. Blanks in front make
/// no difference.
pub proof fn lemma_words_read(w: Seq<char>, c: char, rest: Seq<char>)
    requires
        is_word(w),
        parts_words(c),
    ensures
        words_from(w + seq![c] + rest, 0) == seq![w] + words_from(rest, 0),
        words_from(w, 0) == seq![w],
        words_from(seq![c] + rest, 0) == words_from(rest, 0),
        words_from(seq![], 0).len() == 0,
{
    let s = w + seq![c] + rest;
    let n = w.len() as int;
    assert forall|i: int| 0 <= i < n implies !parts_words(#[trigger] s[i]) by {
        assert(s[i] == w[i]);
    }
    assert(s[n] == c);
    assert(!parts_words(s[0]));
    lemma_word_stop(s, n, 0);
    assert(s.subrange(0, n) =~= w);
    assert(words_from(s, n) == words_from(s, n + 1));
    lemma_words_shift(s, n + 1, 0);
    assert(s.skip(n + 1) =~= rest);
    assert(!parts_words(w[0]));
    lemma_word_stop(w, n, 0);
    assert(w.subrange(0, n) =~= w);
    assert(words_from(w, n).len() == 0);
    assert(words_from(w, 0) =~= seq![w]);
    let t = seq![c] + rest;
    assert(t[0] == c);
    lemma_words_shift(t, 1, 0);
    assert(t.skip(1) =~= rest);
}

// ---------------------------------------------------------------- lines

proof fn lemma_find_stop(s: Seq<char>, c: char, n: int, pos: int)
    requires
        0 <= pos <= n <= s.len(),
        forall|i: int| pos <= i < n ==> #[trigger] s[i] != c,
        n < s.len() ==> s[n] == c,
    ensures
        find_from(s, c, pos) == n,
    decreases n - pos,
{
    if pos < n {
        lemma_find_stop(s, c, n, pos + 1);
    }
}

proof fn lemma_find_shift(s: Seq<char>, c: char, k: int, pos: int)
    requires
        0 <= k,
        0 <= pos,
        k + pos <= s.len(),
    ensures
        find_from(s, c, k + pos) == k + find_from(s.skip(k), c, pos),
        pos <= find_from(s.skip(k), c, pos) <= s.len() - k,
    decreases s.len() - k - pos,
{
    if k + pos < s.len() && s[k + pos] != c {
        lemma_find_shift(s, c, k, pos + 1);
    }
}

proof fn lemma_lines_shift(s: Seq<char>, k: int, pos: int)
    requires
        0 <= k,
        0 <= pos,
        k + pos <= s.len(),
    ensures
        lines_from(s, k + pos) == lines_from(s.skip(k), pos),
    decreases s.len() - k - pos,
{
    let t = s.skip(k);
    if k + pos < s.len() {
        lemma_find_shift(s, '\n', k, pos);
        let end = find_from(t, '\n', pos);
        assert(s.subrange(k + pos, k + end) =~= t.subrange(pos, end));
        if end < t.len() {
            lemma_lines_shift(s, k, end + 1);
        }
    }
}

/// The lines of a text are its first line, without the white space around it, and those behind the
/// line feed. A line of white space alone is none.
pub proof fn lemma_lines_read(line: Seq<char>, rest: Seq<char>)
    requires
        forall|i: int| 0 <= i < line.len() ==> #[trigger] line[i] != '\n',
    ensures
        ({
            let s = line + seq!['\n'] + rest;
            &&& trimmed(line).len() > 0 ==> lines_from(s, 0) == seq![trimmed(line)] + lines_from(
                rest,
                0,
            ) && lines_from(line, 0) == seq![trimmed(line)]
            &&& trimmed(line).len() == 0 ==> lines_from(s, 0) == lines_from(rest, 0) && lines_from(
                line,
                0,
            ).len() == 0
        }),
{
    let s = line + seq!['\n'] + rest;
    let n = line.len() as int;
    assert forall|i: int| 0 <= i < n implies #[trigger] s[i] != '\n' by {
        assert(s[i] == line[i]);
    }
    assert(s[n] == '\n');
    lemma_find_stop(s, '\n', n, 0);
    assert(s.subrange(0, n) =~= line);
    lemma_lines_shift(s, n + 1, 0);
    assert(s.skip(n + 1) =~= rest);
    lemma_find_stop(line, '\n', n, 0);
    assert(line.subrange(0, n) =~= line);
    let none = Seq::<Seq<char>>::empty();
    assert(seq![trimmed(line)] + none =~= seq![trimmed(line)]);
}

} // verus!
