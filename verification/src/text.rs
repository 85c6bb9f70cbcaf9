//! Texts as sequences of characters.

use vstd::prelude::*;

verus! {

/// `String::push` appends a character.
pub assume_specification[ String::push ](s: &mut String, c: char)
    ensures
        final(s)@ == old(s)@.push(c),
;

/// The characters of a text.
pub fn chars_of(s: &str) -> (r: Vec<char>)
    ensures
        r@ == s@,
{
    let mut r: Vec<char> = Vec::new();
    for c in it: s.chars()
        invariant
            it.seq() == s@,
            r@ == s@.take(it.index()),
    {
        r.push(c);
        assert(r@ =~= s@.take(it.index() + 1));
    }
    assert(r@ =~= s@);
    r
}

/// The text of some characters.
pub fn text_of(chars: &[char]) -> (s: String)
    ensures
        s@ == chars@,
{
    let mut s: String = String::new();
    for i in 0..chars.len()
        invariant
            s@ == chars@.take(i as int),
    {
        s.push(chars[i]);
        assert(s@ =~= chars@.take(i + 1));
    }
    assert(s@ =~= chars@);
    s
}

/// Do the characters spell the text?
pub fn spells(chars: &[char], s: &str) -> (r: bool)
    ensures
        r == (chars@ == s@),
{
    let other: Vec<char> = chars_of(s);
    if chars.len() != other.len() {
        return false;
    }
    for i in 0..chars.len()
        invariant
            chars@.len() == other@.len(),
            other@ == s@,
            forall|j: int| 0 <= j < i ==> chars@[j] == other@[j],
    {
        if chars[i] != other[i] {
            assert(chars@ != other@);
            return false;
        }
    }
    assert(chars@ =~= other@);
    true
}

/// Is `c` a white space of Unicode?
pub open spec fn is_white(c: char) -> bool {
    let v = c as u32;
    0x09 <= v <= 0x0d || v == 0x20 || v == 0x85 || v == 0xa0 || v == 0x1680 || 0x2000 <= v <= 0x200a
        || v == 0x2028 || v == 0x2029 || v == 0x202f || v == 0x205f || v == 0x3000
}

/// Is `c` a white space of Unicode?
pub fn white(c: char) -> (r: bool)
    ensures
        r == is_white(c),
{
    let v: u32 = c as u32;
    0x09 <= v && v <= 0x0d || v == 0x20 || v == 0x85 || v == 0xa0 || v == 0x1680 || 0x2000 <= v && v
        <= 0x200a || v == 0x2028 || v == 0x2029 || v == 0x202f || v == 0x205f || v == 0x3000
}

/// A text without the white space at its start.
pub open spec fn trim_start(s: Seq<char>) -> Seq<char>
    decreases s.len(),
{
    if s.len() > 0 && is_white(s[0]) {
        trim_start(s.skip(1))
    } else {
        s
    }
}

/// A text without the white space at its end.
pub open spec fn trim_end(s: Seq<char>) -> Seq<char>
    decreases s.len(),
{
    if s.len() > 0 && is_white(s.last()) {
        trim_end(s.drop_last())
    } else {
        s
    }
}

/// A text without the white space around it.
pub open spec fn trimmed(s: Seq<char>) -> Seq<char> {
    trim_end(trim_start(s))
}

/// The part of a text that is left without the white space around it.
pub fn trim(s: &[char]) -> (r: &[char])
    ensures
        r@ == trimmed(s@),
{
    let mut from: usize = 0;
    let n: usize = s.len();
    assert(s@.skip(0) =~= s@);
    while from < n && white(s[from])
        invariant
            n == s@.len(),
            from <= n,
            trim_start(s@) == trim_start(s@.skip(from as int)),
        decreases n - from,
    {
        assert(s@.skip(from as int).skip(1) =~= s@.skip(from + 1));
        from = from + 1;
    }
    let mut to: usize = n;
    assert(s@.subrange(from as int, n as int) =~= s@.skip(from as int));
    while to > from && white(s[to - 1])
        invariant
            n == s@.len(),
            from <= to <= n,
            trim_end(s@.skip(from as int)) == trim_end(s@.subrange(from as int, to as int)),
        decreases to,
    {
        assert(s@.subrange(from as int, to as int).drop_last() =~= s@.subrange(
            from as int,
            to - 1,
        ));
        to = to - 1;
    }
    vstd::slice::slice_subrange(s, from, to)
}

/// The place of the first character `c` from `pos` on, or the end.
pub open spec fn find_from(s: Seq<char>, c: char, pos: int) -> int
    decreases s.len() - pos,
{
    if 0 <= pos < s.len() && s[pos] != c {
        find_from(s, c, pos + 1)
    } else {
        pos
    }
}

/// The place of the first character `c` from `pos` on, or the end.
pub fn find_char(s: &[char], c: char, pos: usize) -> (r: usize)
    requires
        pos <= s@.len(),
    ensures
        r == find_from(s@, c, pos as int),
        pos <= r <= s@.len(),
        r < s@.len() ==> s@[r as int] == c,
{
    let mut i: usize = pos;
    while i < s.len() && s[i] != c
        invariant
            pos <= i <= s@.len(),
            find_from(s@, c, pos as int) == find_from(s@, c, i as int),
        decreases s@.len() - i,
    {
        i = i + 1;
    }
    i
}

/// The views of some texts.
pub open spec fn texts(v: Seq<String>) -> Seq<Seq<char>> {
    Seq::new(v.len(), |i: int| v[i]@)
}

/// The lines of a text from `pos` on that hold more than white space, without the white space
/// around them.
pub open spec fn lines_from(s: Seq<char>, pos: int) -> Seq<Seq<char>>
    decreases s.len() - pos,
{
    if pos < 0 || pos >= s.len() {
        seq![]
    } else {
        let end = find_from(s, '\n', pos);
        let line = trimmed(s.subrange(pos, end));
        let rest = if pos <= end < s.len() {
            lines_from(s, end + 1)
        } else {
            seq![]
        };
        if line.len() > 0 {
            seq![line] + rest
        } else {
            rest
        }
    }
}

/// Appends the lines of a text that hold more than white space.
pub fn push_lines(s: &[char], out: &mut Vec<String>)
    ensures
        texts(final(out)@) == texts(old(out)@) + lines_from(s@, 0),
{
    let n: usize = s.len();
    let mut pos: usize = 0;
    let ghost before = texts(out@);
    assert(before + lines_from(s@, 0) =~= texts(out@) + lines_from(s@, 0));
    while pos < n
        invariant
            n == s@.len(),
            pos <= n,
            before + lines_from(s@, 0) == texts(out@) + lines_from(s@, pos as int),
        decreases n - pos,
    {
        let end: usize = find_char(s, '\n', pos);
        let line: &[char] = trim(vstd::slice::slice_subrange(s, pos, end));
        let ghost rest = if end < n {
            lines_from(s@, end + 1)
        } else {
            seq![]
        };
        if line.len() > 0 {
            let ghost so_far = texts(out@);
            out.push(text_of(line));
            assert(texts(out@) =~= so_far.push(line@));
            assert(so_far + (seq![line@] + rest) =~= so_far.push(line@) + rest);
        }
        pos = if end < n {
            end + 1
        } else {
            n
        };
    }
    assert(texts(out@) + lines_from(s@, pos as int) =~= texts(out@));
}

/// Is `c` a white space of ASCII?
pub open spec fn is_blank(c: char) -> bool {
    c == ' ' || c == '\t' || c == '\n' || c == '\u{c}' || c == '\r'
}

/// The place of the first white space of ASCII from `pos` on, or the end.
pub open spec fn word_end(s: Seq<char>, pos: int) -> int
    decreases s.len() - pos,
{
    if 0 <= pos < s.len() && !is_blank(s[pos]) {
        word_end(s, pos + 1)
    } else {
        pos
    }
}

/// The words of a text from `pos` on, with white space of ASCII between them.
pub open spec fn words_from(s: Seq<char>, pos: int) -> Seq<Seq<char>>
    decreases s.len() - pos,
{
    if pos < 0 || pos >= s.len() {
        seq![]
    } else if is_blank(s[pos]) {
        words_from(s, pos + 1)
    } else {
        let end = word_end(s, pos);
        if pos < end <= s.len() {
            seq![s.subrange(pos, end)] + words_from(s, end)
        } else {
            seq![]
        }
    }
}

/// The words of a text.
pub fn split_words(text: &str) -> (r: Vec<String>)
    ensures
        texts(r@) == words_from(text@, 0),
{
    let s: Vec<char> = chars_of(text);
    let n: usize = s.len();
    let mut r: Vec<String> = Vec::new();
    let mut pos: usize = 0;
    assert(texts(r@) + words_from(s@, 0) =~= words_from(s@, 0));
    while pos < n
        invariant
            n == s@.len(),
            pos <= n,
            s@ == text@,
            words_from(s@, 0) == texts(r@) + words_from(s@, pos as int),
        decreases n - pos,
    {
        if blank(s[pos]) {
            pos = pos + 1;
        } else {
            let end: usize = find_blank(&s, pos);
            let word: &[char] = vstd::slice::slice_subrange(s.as_slice(), pos, end);
            let ghost so_far = texts(r@);
            r.push(text_of(word));
            assert(texts(r@) =~= so_far.push(word@));
            assert(so_far + (seq![word@] + words_from(s@, end as int)) =~= so_far.push(word@)
                + words_from(s@, end as int));
            pos = end;
        }
    }
    assert(texts(r@) + words_from(s@, pos as int) =~= texts(r@));
    r
}

/// Is `c` a white space of ASCII?
fn blank(c: char) -> (r: bool)
    ensures
        r == is_blank(c),
{
    c == ' ' || c == '\t' || c == '\n' || c == '\u{c}' || c == '\r'
}

/// The place of the first white space of ASCII after `pos`, or the end.
fn find_blank(s: &[char], pos: usize) -> (r: usize)
    requires
        pos < s@.len(),
        !is_blank(s@[pos as int]),
    ensures
        r == word_end(s@, pos as int),
        pos < r <= s@.len(),
{
    let n: usize = s.len();
    let mut i: usize = pos + 1;
    while i < n && !blank(s[i])
        invariant
            n == s@.len(),
            pos < i <= s@.len(),
            word_end(s@, pos as int) == word_end(s@, i as int),
        decreases s@.len() - i,
    {
        i = i + 1;
    }
    i
}

} // verus!
