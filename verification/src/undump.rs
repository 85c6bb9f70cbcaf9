//! Lines of a dump as they are read back: what the offset in front of a line, the digits in it and
//! the rows left out before it stand for.

use crate::border::repeated;
use crate::bytes::{spaces, STAR};
use crate::dump::offset_at;
use crate::read::{value, worth};
use crate::reverse::{
    after_spaces, bare_offset, first_offset, hex_number, in_offset, is_hex, line_end, line_result,
    lines_bytes, offset_end, offset_value, pairs, LineResult, ReverseView,
};
use vstd::prelude::*;

verus! {

/// Is the text made of one or more hexadecimal digits?
pub open spec fn is_digits(t: Seq<u8>) -> bool {
    t.len() > 0 && forall|i: int| 0 <= i < t.len() ==> worth(#[trigger] t[i]) < 16
}

/// Two digits in a row are one byte, spaces between them do not count, and anything else ends the
/// line.
pub proof fn lemma_pairs_read(line: Seq<u8>, pos: int)
    requires
        0 <= pos,
    ensures
        pos < line.len() && line[pos] == 0x20 ==> pairs(line, pos) == pairs(line, pos + 1),
        pos + 1 < line.len() && worth(line[pos]) < 16 && worth(line[pos + 1]) < 16 ==> pairs(
            line,
            pos,
        ) == seq![(worth(line[pos]) * 16 + worth(line[pos + 1])) as u8] + pairs(line, pos + 2),
        pos < line.len() && line[pos] != 0x20 && worth(line[pos]) >= 16 ==> pairs(line, pos).len()
            == 0,
        pos + 1 < line.len() && line[pos] != 0x20 && worth(line[pos + 1]) >= 16 ==> pairs(
            line,
            pos,
        ).len() == 0,
        pos + 1 == line.len() && line[pos] != 0x20 ==> pairs(line, pos).len() == 0,
        pos >= line.len() ==> pairs(line, pos).len() == 0,
{
}

proof fn lemma_hex_value(t: Seq<u8>)
    requires
        forall|i: int| 0 <= i < t.len() ==> worth(#[trigger] t[i]) < 16,
    ensures
        hex_number(t) == value(t, 16),
        forall|i: int| 0 <= i < t.len() ==> is_hex(#[trigger] t[i]),
    decreases t.len(),
{
    if t.len() > 0 {
        let front = t.drop_last();
        assert forall|i: int| 0 <= i < front.len() implies worth(#[trigger] front[i]) < 16 by {
            assert(front[i] == t[i]);
        }
        lemma_hex_value(front);
        assert(worth(t[t.len() - 1]) < 16);
        assert forall|i: int| 0 <= i < t.len() implies is_hex(#[trigger] t[i]) by {
            assert(worth(t[i]) < 16);
        }
    }
}

/// An offset is the number that its digits denote, where it fits in 64 bits.
pub proof fn lemma_offset_number(t: Seq<u8>)
    ensures
        is_digits(t) && value(t, 16) <= 0xffff_ffff_ffff_ffff ==> offset_value(t) == Some(
            value(t, 16) as u64,
        ),
        is_digits(t) && value(t, 16) > 0xffff_ffff_ffff_ffff ==> offset_value(t) is None,
        !is_digits(t) ==> offset_value(t) is None,
{
    if is_digits(t) {
        lemma_hex_value(t);
    } else if t.len() > 0 {
        let i = choose|i: int| 0 <= i < t.len() && !(worth(#[trigger] t[i]) < 16);
        assert(!is_hex(t[i]));
    }
}

proof fn lemma_spaces_end(line: Seq<u8>, n: int, pos: int)
    requires
        0 <= pos <= n < line.len(),
        forall|i: int| 0 <= i < n ==> #[trigger] line[i] == 0x20,
        line[n] != 0x20,
    ensures
        after_spaces(line, pos) == n,
    decreases n - pos,
{
    if pos < n {
        lemma_spaces_end(line, n, pos + 1);
    }
}

proof fn lemma_offset_stop(line: Seq<u8>, n: int, pos: int)
    requires
        0 <= pos <= n < line.len(),
        forall|i: int| pos <= i < n ==> in_offset(#[trigger] line[i]),
        !in_offset(line[n]),
    ensures
        offset_end(line, pos) == n,
    decreases n - pos,
{
    if pos < n {
        assert(in_offset(line[pos]));
        lemma_offset_stop(line, n, pos + 1);
    }
}

/// What a line with an offset leads to, given the offset and the bytes behind it. A line before the
/// jump is left out. Rows left out before it come first, as often as they fit up to the offset;
/// an offset before the end of the last line is then an error.
pub open spec fn line_read(jump: u64, st: ReverseView, off: u64, bytes: Seq<u8>) -> Option<
    (u64, Seq<u8>, bool, Seq<u8>),
> {
    let missing = st.squeezing && st.last.len() > 0;
    if off < jump {
        Some((st.offset, st.last, st.squeezing, seq![]))
    } else if missing && off < st.offset {
        None
    } else {
        let before = if missing {
            repeated(st.last, ((off - st.offset) / st.last.len() as int) as nat)
        } else {
            seq![]
        };
        if bytes.len() == 0 {
            Some(
                (
                    if missing {
                        off
                    } else {
                        st.offset
                    },
                    st.last,
                    st.squeezing && !missing,
                    before,
                ),
            )
        } else {
            Some(
                (
                    offset_at(off, bytes.len() as int),
                    bytes,
                    st.squeezing && !missing,
                    before + bytes,
                ),
            )
        }
    }
}

/// A line with spaces, an offset and a colon or a space behind it: the offset decides whether the
/// line counts, and the digits behind it are its bytes. The prefix `0x` does not belong to the
/// digits.
#[verifier::rlimit(50)]
pub proof fn lemma_line_taken(
    canonical: bool,
    jump: u64,
    st: ReverseView,
    n: nat,
    prefix: bool,
    t: Seq<u8>,
    sep: u8,
    body: Seq<u8>,
)
    requires
        is_digits(t),
        value(t, 16) <= 0xffff_ffff_ffff_ffff,
        sep == 0x3a || sep == 0x20,
    ensures
        ({
            let p = if prefix {
                seq![0x30u8, 0x78]
            } else {
                seq![]
            };
            let line = spaces(n) + p + t + seq![sep] + body;
            let off = value(t, 16) as u64;
            let bytes = pairs(line, (n + p.len() + t.len() + 1) as int);
            match line_read(jump, st, off, bytes) {
                None => line_result(canonical, jump, st, line) is None,
                Some((offset, last, squeezing, out)) => line_result(canonical, jump, st, line)
                    matches Some(r) && r.bytes == out && r.state == (ReverseView {
                    offset,
                    last,
                    squeezing,
                }),
            }
        }),
{
    let p = if prefix {
        seq![0x30u8, 0x78]
    } else {
        Seq::<u8>::empty()
    };
    let text = p + t;
    let line = spaces(n) + p + t + seq![sep] + body;
    let to = (n + p.len() + t.len()) as int;
    assert(worth(t[0]) < 16);
    assert(line =~= spaces(n) + text + seq![sep] + body);
    assert forall|i: int| 0 <= i < n implies #[trigger] line[i] == 0x20 by {}
    assert(text[0] != 0x20);
    assert(line[n as int] == text[0]);
    lemma_spaces_end(line, n as int, 0);
    assert forall|i: int| n <= i < to implies in_offset(#[trigger] line[i]) by {
        assert(line[i] == text[i - n]);
        if i - n >= p.len() {
            assert(worth(t[i - n - p.len()]) < 16);
        }
    }
    assert(line[to] == sep);
    lemma_offset_stop(line, to, n as int);
    assert(line.subrange(n as int, to) =~= text);
    lemma_offset_number(t);
    assert(bare_offset(text) == t) by {
        if prefix {
            assert(text.skip(2) =~= t);
        } else {
            assert(text =~= t);
            if t.len() >= 2 {
                assert(worth(t[1]) < 16);
            }
        }
    }
    let star = seq![STAR];
    if line.len() == 1 {
        assert(false);
    }
    assert(line != star);
}

/// A star stands for rows left out, and an empty line for nothing.
pub proof fn lemma_star_read(canonical: bool, jump: u64, st: ReverseView)
    ensures
        line_result(canonical, jump, st, seq![0x2au8]) == Some(
            LineResult {
                state: ReverseView { offset: st.offset, last: st.last, squeezing: true },
                bytes: seq![],
            },
        ),
        line_result(canonical, jump, st, seq![]) == Some(
            LineResult { state: st, bytes: seq![] },
        ),
{
}

// ---------------------------------------------------------------- lines

proof fn lemma_line_stop(content: Seq<u8>, n: int, pos: int)
    requires
        0 <= pos <= n <= content.len(),
        forall|i: int| pos <= i < n ==> #[trigger] content[i] != 0x0a,
        n < content.len() ==> content[n] == 0x0a,
    ensures
        line_end(content, pos) == n,
    decreases n - pos,
{
    if pos < n {
        lemma_line_stop(content, n, pos + 1);
    }
}

proof fn lemma_end_shift(content: Seq<u8>, k: int, pos: int)
    requires
        0 <= k,
        0 <= pos,
        k + pos <= content.len(),
    ensures
        line_end(content, k + pos) == k + line_end(content.skip(k), pos),
        pos <= line_end(content.skip(k), pos) <= content.len() - k,
    decreases content.len() - k - pos,
{
    if k + pos < content.len() && content[k + pos] != 0x0a {
        lemma_end_shift(content, k, pos + 1);
    }
}

proof fn lemma_lines_shift(
    canonical: bool,
    jump: u64,
    st: ReverseView,
    content: Seq<u8>,
    k: int,
    pos: int,
)
    requires
        0 <= k,
        0 <= pos,
        k + pos <= content.len(),
    ensures
        lines_bytes(canonical, jump, st, content, k + pos) == lines_bytes(
            canonical,
            jump,
            st,
            content.skip(k),
            pos,
        ),
    decreases content.len() - k - pos,
{
    let tail = content.skip(k);
    if k + pos < content.len() {
        lemma_end_shift(content, k, pos);
        let end = line_end(tail, pos);
        assert(content.subrange(k + pos, k + end) =~= tail.subrange(pos, end));
        if end < tail.len() {
            match line_result(canonical, jump, st, tail.subrange(pos, end)) {
                Some(r) => {
                    lemma_lines_shift(canonical, jump, r.state, content, k, end + 1);
                },
                None => {},
            }
        }
    }
}

/// A dump is read line by line: the bytes of the first line come first, and the rest is read with
/// what is known behind it.
#[verifier::rlimit(50)]
pub proof fn lemma_next_line(
    canonical: bool,
    jump: u64,
    st: ReverseView,
    line: Seq<u8>,
    rest: Seq<u8>,
)
    requires
        forall|i: int| 0 <= i < line.len() ==> #[trigger] line[i] != 0x0a,
    ensures
        lines_bytes(canonical, jump, st, line + seq![0x0au8] + rest, 0) == match line_result(
            canonical,
            jump,
            st,
            line,
        ) {
            None => None,
            Some(r) => match lines_bytes(canonical, jump, r.state, rest, 0) {
                None => None,
                Some(more) => Some(r.bytes + more),
            },
        },
        line.len() > 0 ==> lines_bytes(canonical, jump, st, line, 0) == match line_result(
            canonical,
            jump,
            st,
            line,
        ) {
            None => None,
            Some(r) => Some(r.bytes),
        },
        lines_bytes(canonical, jump, st, seq![], 0) == Some(Seq::<u8>::empty()),
{
    let content = line + seq![0x0au8] + rest;
    let n = line.len() as int;
    assert forall|i: int| 0 <= i < n implies #[trigger] content[i] != 0x0a by {
        assert(content[i] == line[i]);
    }
    assert(content[n] == 0x0a);
    lemma_line_stop(content, n, 0);
    assert(content.subrange(0, n) =~= line);
    assert(content.skip(n + 1) =~= rest);
    match line_result(canonical, jump, st, line) {
        Some(r) => {
            lemma_lines_shift(canonical, jump, r.state, content, n + 1, 0);
        },
        None => {},
    }
    lemma_line_stop(line, n, 0);
    assert(line.subrange(0, n) =~= line);
}

/// A jump that is given says from which offset on lines count; without one, and with a negative
/// one, all do.
pub proof fn lemma_jump_read(jump: i64)
    ensures
        jump >= 0 ==> first_offset(Some(jump)) == jump,
        jump < 0 ==> first_offset(Some(jump)) == 0,
        first_offset(None) == 0,
{
}

} // verus!
