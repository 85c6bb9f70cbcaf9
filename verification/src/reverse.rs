//! Dumps read back into bytes.

use crate::border::repeated;
use crate::bytes::{
    lemma_concat_assoc, lemma_concat_empty, same_bytes, to_vec, BAR, COLON, NEWLINE, SPACE, STAR,
};
use crate::dump::{advance, offset_at};
use vstd::prelude::*;

verus! {

// ---------------------------------------------------------------- digits and offsets

/// Is `b` a hexadecimal digit?
pub open spec fn is_hex(b: u8) -> bool {
    0x30 <= b <= 0x39 || 0x41 <= b <= 0x46 || 0x61 <= b <= 0x66
}

/// The value of a hexadecimal digit; zero for any other byte.
pub open spec fn hex_of(b: u8) -> u8 {
    if 0x30 <= b <= 0x39 {
        (b - 0x30) as u8
    } else if 0x61 <= b <= 0x66 {
        (b - 0x61 + 10) as u8
    } else if 0x41 <= b <= 0x46 {
        (b - 0x41 + 10) as u8
    } else {
        0
    }
}

/// The value of a hexadecimal digit; zero for any other byte.
pub fn hex_digit(b: u8) -> (r: u8)
    ensures
        r == hex_of(b),
        r < 16,
{
    match b {
        0x30..=0x39 => b - 0x30,
        0x61..=0x66 => b - 0x61 + 10,
        0x41..=0x46 => b - 0x41 + 10,
        _ => 0,
    }
}

/// Is `b` a hexadecimal digit?
fn is_hex_digit(b: u8) -> (r: bool)
    ensures
        r == is_hex(b),
{
    match b {
        0x30..=0x39 | 0x41..=0x46 | 0x61..=0x66 => true,
        _ => false,
    }
}

/// The number that some digits denote.
pub open spec fn hex_number(s: Seq<u8>) -> nat
    decreases s.len(),
{
    if s.len() == 0 {
        0
    } else {
        hex_number(s.drop_last()) * 16 + hex_of(s.last()) as nat
    }
}

/// The number that a text denotes: one digit or more, and no more than 64 bits.
pub open spec fn offset_value(s: Seq<u8>) -> Option<u64> {
    if s.len() > 0 && (forall|i: int| 0 <= i < s.len() ==> is_hex(#[trigger] s[i])) && hex_number(s)
        <= u64::MAX {
        Some(hex_number(s) as u64)
    } else {
        None
    }
}

/// More digits do not make a number smaller.
proof fn lemma_hex_number_grows(s: Seq<u8>, k: int)
    requires
        0 <= k <= s.len(),
    ensures
        hex_number(s.take(k)) <= hex_number(s),
    decreases s.len(),
{
    if k < s.len() {
        lemma_hex_number_grows(s.drop_last(), k);
        assert(s.drop_last().take(k) =~= s.take(k));
    } else {
        assert(s.take(k) =~= s);
    }
}

/// The number that a text denotes.
pub fn parse_offset(s: &[u8]) -> (r: Option<u64>)
    ensures
        r == offset_value(s@),
{
    if s.len() == 0 {
        return None;
    }
    let mut v: u64 = 0;
    for i in 0..s.len()
        invariant
            s@.len() > 0,
            v == hex_number(s@.take(i as int)),
            forall|j: int| 0 <= j < i ==> is_hex(#[trigger] s@[j]),
    {
        if !is_hex_digit(s[i]) {
            return None;
        }
        let d: u64 = hex_digit(s[i]) as u64;
        proof {
            assert(s@.take(i + 1).drop_last() =~= s@.take(i as int));
            lemma_hex_number_grows(s@, i + 1);
        }
        if v > 0x0fff_ffff_ffff_ffff {
            return None;
        }
        v = v * 16 + d;
    }
    assert(s@.take(s@.len() as int) =~= s@);
    Some(v)
}

// ---------------------------------------------------------------- one line

/// The place of the first byte from `pos` on that is not a space.
pub open spec fn after_spaces(line: Seq<u8>, pos: int) -> int
    decreases line.len() - pos,
{
    if 0 <= pos < line.len() && line[pos] == SPACE {
        after_spaces(line, pos + 1)
    } else {
        pos
    }
}

/// Can `b` stand in an offset?
pub open spec fn in_offset(b: u8) -> bool {
    is_hex(b) || b == 0x78
}

/// The place where the offset that starts at `pos` ends.
pub open spec fn offset_end(line: Seq<u8>, pos: int) -> int
    decreases line.len() - pos,
{
    if 0 <= pos < line.len() && in_offset(line[pos]) {
        offset_end(line, pos + 1)
    } else {
        pos
    }
}

/// The bytes whose digits stand from `pos` on, in pairs, with spaces between them, up to a bar or
/// anything else.
pub open spec fn pairs(line: Seq<u8>, pos: int) -> Seq<u8>
    decreases line.len() - pos,
{
    if pos < 0 || pos >= line.len() || line[pos] == BAR {
        seq![]
    } else if line[pos] == SPACE {
        pairs(line, pos + 1)
    } else if pos + 1 < line.len() && is_hex(line[pos]) && is_hex(line[pos + 1]) {
        seq![(16 * hex_of(line[pos]) + hex_of(line[pos + 1])) as u8] + pairs(line, pos + 2)
    } else {
        seq![]
    }
}

/// Does a separator follow the offset that ends at `pos`?
pub open spec fn separated(line: Seq<u8>, pos: int) -> bool {
    pos < line.len() && (line[pos] == COLON || line[pos] == SPACE)
}

/// The digits of an offset, without the prefix `0x`.
pub open spec fn bare_offset(s: Seq<u8>) -> Seq<u8> {
    if s.len() >= 2 && s[0] == 0x30 && s[1] == 0x78 {
        s.skip(2)
    } else {
        s
    }
}

/// The state between two lines.
pub struct ReverseView {
    /// The offset after the last line's bytes, as the dump counts them.
    pub offset: u64,
    /// The bytes of the last line.
    pub last: Seq<u8>,
    /// Have rows been left out since?
    pub squeezing: bool,
}

/// What a line does: the new state and the bytes written.
pub struct LineResult {
    pub state: ReverseView,
    pub bytes: Seq<u8>,
}

/// Rows that were left out are written again, as many as fit between the end of the last line and
/// the offset `off`. An offset before that end is an error.
pub open spec fn refill(st: ReverseView, off: u64) -> Option<LineResult> {
    if !(st.squeezing && st.last.len() > 0) {
        Some(LineResult { state: st, bytes: seq![] })
    } else if off < st.offset {
        None
    } else {
        Some(
            LineResult {
                state: ReverseView { offset: off, last: st.last, squeezing: false },
                bytes: repeated(st.last, (off - st.offset) as nat / st.last.len()),
            },
        )
    }
}

/// Reads a line. `canonical` tells whether the dump has colons; where it has, a line without a
/// separator holds the offset after the last byte. Lines before the offset `jump` are left out.
pub open spec fn line_result(canonical: bool, jump: u64, st: ReverseView, line: Seq<u8>) -> Option<
    LineResult,
> {
    let from = after_spaces(line, 0);
    let to = offset_end(line, from);
    let text = line.subrange(from, to);
    let sep = separated(line, to);
    if line.len() == 0 {
        Some(LineResult { state: st, bytes: seq![] })
    } else if line == seq![STAR] {
        Some(
            LineResult {
                state: ReverseView { offset: st.offset, last: st.last, squeezing: true },
                bytes: seq![],
            },
        )
    } else if canonical && !sep {
        refill(
            st,
            match offset_value(text) {
                Some(v) => v,
                None => st.offset,
            },
        )
    } else {
        let off = if sep && to > from {
            match offset_value(bare_offset(text)) {
                Some(v) => v,
                None => st.offset,
            }
        } else {
            st.offset
        };
        if off < jump {
            Some(LineResult { state: st, bytes: seq![] })
        } else {
            match refill(st, off) {
                None => None,
                Some(filled) => {
                    let bytes = pairs(
                        line,
                        if sep {
                            to + 1
                        } else {
                            from
                        },
                    );
                    if bytes.len() == 0 {
                        Some(filled)
                    } else {
                        Some(
                            LineResult {
                                state: ReverseView {
                                    offset: offset_at(off, bytes.len() as int),
                                    last: bytes,
                                    squeezing: filled.state.squeezing,
                                },
                                bytes: filled.bytes + bytes,
                            },
                        )
                    }
                },
            }
        }
    }
}

// ---------------------------------------------------------------- a whole dump

/// The place of the first line feed from `pos` on, or the end.
pub open spec fn line_end(content: Seq<u8>, pos: int) -> int
    decreases content.len() - pos,
{
    if 0 <= pos < content.len() && content[pos] != NEWLINE {
        line_end(content, pos + 1)
    } else {
        pos
    }
}

/// The bytes of the lines from `pos` on; nothing where a line is in error.
pub open spec fn lines_bytes(
    canonical: bool,
    jump: u64,
    st: ReverseView,
    content: Seq<u8>,
    pos: int,
) -> Option<Seq<u8>>
    decreases content.len() - pos,
{
    if pos < 0 || pos >= content.len() {
        Some(seq![])
    } else {
        let end = line_end(content, pos);
        match line_result(canonical, jump, st, content.subrange(pos, end)) {
            None => None,
            Some(r) => if pos <= end < content.len() {
                match lines_bytes(canonical, jump, r.state, content, end + 1) {
                    None => None,
                    Some(rest) => Some(r.bytes + rest),
                }
            } else {
                Some(r.bytes)
            },
        }
    }
}

/// Does a dump have colons?
pub open spec fn has_colon(content: Seq<u8>) -> bool {
    exists|i: int| 0 <= i < content.len() && content[i] == COLON
}

/// The state before the first line.
pub open spec fn unread() -> ReverseView {
    ReverseView { offset: 0, last: seq![], squeezing: false }
}

/// The bytes that a dump was made of; nothing where an offset goes backwards after left-out rows.
pub open spec fn reversed(content: Seq<u8>, jump: u64) -> Option<Seq<u8>> {
    lines_bytes(has_colon(content), jump, unread(), content, 0)
}

// ---------------------------------------------------------------- reading

/// Some bytes, to be written a number of times.
pub struct Piece {
    pub bytes: Vec<u8>,
    pub times: u64,
}

/// What some pieces hold, one after the other.
pub open spec fn expanded(pieces: Seq<Piece>) -> Seq<u8>
    decreases pieces.len(),
{
    if pieces.len() == 0 {
        seq![]
    } else {
        expanded(pieces.drop_last()) + repeated(
            pieces.last().bytes@,
            pieces.last().times as nat,
        )
    }
}

/// The state between two lines.
pub struct Reverse {
    pub offset: u64,
    pub last: Vec<u8>,
    pub squeezing: bool,
}

impl View for Reverse {
    type V = ReverseView;

    open spec fn view(&self) -> ReverseView {
        ReverseView { offset: self.offset, last: self.last@, squeezing: self.squeezing }
    }
}

/// One more piece adds what it holds.
proof fn lemma_expanded_push(pieces: Seq<Piece>, p: Piece)
    ensures
        expanded(pieces.push(p)) == expanded(pieces) + repeated(p.bytes@, p.times as nat),
{
    assert(pieces.push(p).drop_last() =~= pieces);
}

/// Bytes written once.
proof fn lemma_repeated_one(s: Seq<u8>)
    ensures
        repeated(s, 1) == s,
        repeated(s, 0) == Seq::<u8>::empty(),
{
    reveal_with_fuel(repeated, 2);
    lemma_concat_empty(s);
}

/// The place of the first byte of a line that is not a space.
fn skip_spaces(line: &[u8]) -> (r: usize)
    ensures
        r == after_spaces(line@, 0),
        r <= line@.len(),
{
    let mut pos: usize = 0;
    while pos < line.len() && line[pos] == SPACE
        invariant
            pos <= line@.len(),
            after_spaces(line@, 0) == after_spaces(line@, pos as int),
        decreases line@.len() - pos,
    {
        pos = pos + 1;
    }
    pos
}

/// The place where the offset that starts at `from` ends.
fn skip_offset(line: &[u8], from: usize) -> (r: usize)
    requires
        from <= line@.len(),
    ensures
        r == offset_end(line@, from as int),
        from <= r <= line@.len(),
{
    let mut pos: usize = from;
    while pos < line.len() && (is_hex_digit(line[pos]) || line[pos] == 0x78)
        invariant
            from <= pos <= line@.len(),
            offset_end(line@, from as int) == offset_end(line@, pos as int),
        decreases line@.len() - pos,
    {
        pos = pos + 1;
    }
    pos
}

/// The bytes whose digits stand from `start` on.
fn read_pairs(line: &[u8], start: usize) -> (bytes: Vec<u8>)
    requires
        start <= line@.len(),
    ensures
        bytes@ == pairs(line@, start as int),
{
    let mut bytes: Vec<u8> = Vec::new();
    let mut pos: usize = start;
    let n: usize = line.len();
    proof {
        lemma_concat_empty(pairs(line@, start as int));
    }
    while pos < n && line[pos] != BAR
        invariant_except_break
            n == line@.len(),
            pos <= n,
            pairs(line@, start as int) == bytes@ + pairs(line@, pos as int),
        ensures
            pairs(line@, start as int) == bytes@,
        decreases n - pos,
    {
        if line[pos] == SPACE {
            pos = pos + 1;
        } else if pos + 1 < n && is_hex_digit(line[pos]) && is_hex_digit(line[pos + 1]) {
            let b: u8 = 16 * hex_digit(line[pos]) + hex_digit(line[pos + 1]);
            let ghost before = bytes@;
            bytes.push(b);
            proof {
                lemma_concat_assoc(before, seq![b], pairs(line@, pos + 2));
                assert(bytes@ =~= before + seq![b]);
            }
            pos = pos + 2;
        } else {
            proof {
                lemma_concat_empty(bytes@);
            }
            break;
        }
        proof {
            lemma_concat_empty(bytes@);
        }
    }
    bytes
}

impl Reverse {
    /// The state before the first line.
    pub fn new() -> (r: Reverse)
        ensures
            r@ == unread(),
    {
        let r = Reverse { offset: 0, last: Vec::new(), squeezing: false };
        assert(r.last@ =~= Seq::<u8>::empty());
        r
    }

    /// Writes rows again that were left out, up to the offset `off`. Returns whether that could be
    /// done.
    fn refill(&mut self, off: u64, out: &mut Vec<Piece>) -> (ok: bool)
        ensures
            ok == refill(old(self)@, off) is Some,
            ok ==> refill(old(self)@, off) == Some(
                (LineResult {
                    state: final(self)@,
                    bytes: expanded(final(out)@).skip(expanded(old(out)@).len() as int),
                }),
            ) && expanded(final(out)@) == expanded(old(out)@) + refill(
                old(self)@,
                off,
            ).unwrap().bytes,
    {
        let ghost before = expanded(out@);
        if !self.squeezing || self.last.len() == 0 {
            proof {
                lemma_concat_empty(before);
                assert(before.skip(before.len() as int) =~= Seq::<u8>::empty());
            }
            return true;
        }
        if off < self.offset {
            return false;
        }
        let times: u64 = (off - self.offset) / (self.last.len() as u64);
        let piece = Piece { bytes: to_vec(&self.last), times };
        proof {
            lemma_expanded_push(out@, piece);
            let more = repeated(piece.bytes@, times as nat);
            assert((before + more).skip(before.len() as int) =~= more);
        }
        out.push(piece);
        self.offset = off;
        self.squeezing = false;
        true
    }

    /// Reads a line and appends what it writes. Returns whether that could be done.
    pub fn read_line(&mut self, canonical: bool, jump: u64, line: &[u8], out: &mut Vec<Piece>) -> (ok:
        bool)
        ensures
            ok == line_result(canonical, jump, old(self)@, line@) is Some,
            ok ==> final(self)@ == line_result(
                canonical,
                jump,
                old(self)@,
                line@,
            ).unwrap().state,
            ok ==> expanded(final(out)@) == expanded(old(out)@) + line_result(
                canonical,
                jump,
                old(self)@,
                line@,
            ).unwrap().bytes,
    {
        let ghost before = expanded(out@);
        proof {
            lemma_concat_empty(before);
        }
        if line.len() == 0 {
            return true;
        }
        let star: [u8; 1] = [STAR];
        assert(star@ =~= seq![STAR]);
        if same_bytes(line, &star) {
            self.squeezing = true;
            return true;
        }
        let from: usize = skip_spaces(line);
        let to: usize = skip_offset(line, from);
        let sep: bool = to < line.len() && (line[to] == COLON || line[to] == SPACE);
        let text: &[u8] = vstd::slice::slice_subrange(line, from, to);
        if canonical && !sep {
            let off: u64 = match parse_offset(text) {
                Some(v) => v,
                None => self.offset,
            };
            return self.refill(off, out);
        }
        let off: u64 = if sep && to > from {
            let digits: &[u8] = if text.len() >= 2 && text[0] == 0x30 && text[1] == 0x78 {
                vstd::slice::slice_subrange(text, 2, text.len())
            } else {
                text
            };
            assert(digits@ =~= bare_offset(text@));
            match parse_offset(digits) {
                Some(v) => v,
                None => self.offset,
            }
        } else {
            self.offset
        };
        if off < jump {
            return true;
        }
        if !self.refill(off, out) {
            return false;
        }
        let ghost filled = expanded(out@);
        let start: usize = if sep {
            to + 1
        } else {
            from
        };
        let bytes: Vec<u8> = read_pairs(line, start);
        if bytes.len() > 0 {
            self.offset = advance(off, bytes.len());
            self.last = to_vec(&bytes);
            let piece = Piece { bytes, times: 1 };
            proof {
                lemma_expanded_push(out@, piece);
                lemma_repeated_one(piece.bytes@);
                lemma_concat_assoc(
                    before,
                    refill(old(self)@, off).unwrap().bytes,
                    piece.bytes@,
                );
            }
            out.push(piece);
        }
        true
    }
}

/// Does a dump have colons?
fn find_colon(content: &[u8]) -> (r: bool)
    ensures
        r == has_colon(content@),
{
    for i in 0..content.len()
        invariant
            forall|j: int| 0 <= j < i ==> content@[j] != COLON,
    {
        if content[i] == COLON {
            return true;
        }
    }
    false
}

/// The offset from which on lines are read.
pub open spec fn first_offset(reverse_jump: Option<i64>) -> u64 {
    match reverse_jump {
        Some(j) => if j > 0 {
            j as u64
        } else {
            0
        },
        None => 0,
    }
}

/// Reads a dump back into bytes, given in pieces. Where an offset goes backwards after left-out
/// rows, there is no result.
pub fn run_reverse(content: &[u8], reverse_jump: Option<i64>) -> (r: Option<Vec<Piece>>)
    ensures
        match reversed(content@, first_offset(reverse_jump)) {
            Some(bytes) => r matches Some(pieces) && expanded(pieces@) == bytes,
            None => r is None,
        },
{
    let jump: u64 = match reverse_jump {
        Some(j) => if j > 0 {
            j as u64
        } else {
            0
        },
        None => 0,
    };
    let canonical: bool = find_colon(content);
    let mut state = Reverse::new();
    let mut out: Vec<Piece> = Vec::new();
    let n: usize = content.len();
    let mut pos: usize = 0;
    let ghost whole = reversed(content@, jump);
    proof {
        if let Some(t) = whole {
            lemma_concat_empty(t);
        }
    }
    while pos < n
        invariant
            n == content@.len(),
            pos <= n,
            canonical == has_colon(content@),
            jump == first_offset(reverse_jump),
            whole == reversed(content@, jump),
            whole == prefixed(
                expanded(out@),
                lines_bytes(canonical, jump, state@, content@, pos as int),
            ),
        decreases n - pos,
    {
        let end: usize = find_line_end(content, pos);
        let line: &[u8] = vstd::slice::slice_subrange(content, pos, end);
        let ghost before = expanded(out@);
        let ghost st = state@;
        if !state.read_line(canonical, jump, line, &mut out) {
            return None;
        }
        proof {
            let bytes = line_result(canonical, jump, st, line@).unwrap().bytes;
            lemma_concat_empty(before + bytes);
            if end < n {
                if let Some(rest) = lines_bytes(canonical, jump, state@, content@, end + 1) {
                    lemma_concat_assoc(before, bytes, rest);
                }
            }
        }
        pos = if end < n {
            end + 1
        } else {
            n
        };
    }
    proof {
        lemma_concat_empty(expanded(out@));
    }
    Some(out)
}

/// What has been written, followed by the rest, where there is a rest.
pub open spec fn prefixed(before: Seq<u8>, rest: Option<Seq<u8>>) -> Option<Seq<u8>> {
    match rest {
        Some(t) => Some(before + t),
        None => None,
    }
}

/// The place of the first line feed from `pos` on, or the end.
fn find_line_end(content: &[u8], pos: usize) -> (end: usize)
    requires
        pos <= content@.len(),
    ensures
        end == line_end(content@, pos as int),
        pos <= end <= content@.len(),
{
    let mut i: usize = pos;
    while i < content.len() && content[i] != NEWLINE
        invariant
            pos <= i <= content@.len(),
            line_end(content@, pos as int) == line_end(content@, i as int),
        decreases content@.len() - i,
    {
        i = i + 1;
    }
    i
}

} // verus!
