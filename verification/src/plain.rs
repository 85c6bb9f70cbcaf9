//! Plain digits and C arrays.

use crate::bytes::{
    lemma_concat3, lemma_concat5, lemma_concat_assoc, lemma_concat_empty, push_byte, push_bytes,
    COMMA, NEWLINE, SPACE,
};
use crate::numeral::{count_digits, digit_count, hex2, numeral, push_hex2, push_numeral};
use crate::options::Options;
use crate::row::{hex_text, push_hex};
use crate::size::fixed;
use vstd::prelude::*;
use vstd::utf8::*;

verus! {

// ---------------------------------------------------------------- plain digits

/// All digits on one line.
pub open spec fn plain_text(data: Seq<u8>, upper: bool) -> Seq<u8> {
    hex_text(data, upper) + seq![NEWLINE]
}

/// Digits can be made in pieces: those of two pieces are those of both together.
pub proof fn lemma_hex_join(a: Seq<u8>, b: Seq<u8>, upper: bool)
    ensures
        hex_text(a, upper) + hex_text(b, upper) == hex_text(a + b, upper),
    decreases b.len(),
{
    if b.len() == 0 {
        assert(a + b =~= a);
        lemma_concat_empty(hex_text(a, upper));
    } else {
        lemma_hex_join(a, b.drop_last(), upper);
        assert((a + b).drop_last() =~= a + b.drop_last());
        lemma_concat_assoc(
            hex_text(a, upper),
            hex_text(b.drop_last(), upper),
            hex2(b.last(), upper),
        );
    }
}

/// The digits of `data`, on one line.
pub fn run_plain(data: &[u8], upper: bool) -> (out: Vec<u8>)
    ensures
        out@ == plain_text(data@, upper),
{
    let mut out: Vec<u8> = Vec::new();
    push_hex(&mut out, data, upper);
    push_byte(&mut out, NEWLINE);
    assert(out@ =~= plain_text(data@, upper));
    out
}

// ---------------------------------------------------------------- C arrays

/// The UTF-8 encoding of a text.
pub open spec fn utf8(s: Seq<char>) -> Seq<u8> {
    encode_utf8(s)
}

/// Appends the UTF-8 encoding of `s`.
pub fn push_str(dst: &mut Vec<u8>, s: &str)
    ensures
        final(dst)@ == old(dst)@ + utf8(s@),
{
    push_bytes(dst, s.as_bytes());
}

/// The decimal digits of a number.
pub open spec fn decimal(v: nat) -> Seq<u8> {
    numeral(v, 10, digit_count(v, 10), false)
}

/// Appends the decimal digits of a number.
pub fn push_decimal(dst: &mut Vec<u8>, v: u64)
    ensures
        final(dst)@ == old(dst)@ + decimal(v as nat),
{
    let n: usize = count_digits(v, 10);
    push_numeral(dst, v, 10, n, false);
}

/// What stands before the bytes of an array.
pub open spec fn array_head(name: Seq<char>) -> Seq<u8> {
    utf8("unsigned char "@) + utf8(name) + utf8("[] = {\n"@)
}

/// What stands after the bytes of an array.
pub open spec fn array_end(name: Seq<char>, len: nat) -> Seq<u8> {
    utf8("\n};\nunsigned int "@) + utf8(name) + utf8("_len = "@) + decimal(len) + utf8(";\n"@)
}

/// A byte as a C literal.
pub open spec fn literal(b: u8, upper: bool) -> Seq<u8> {
    seq![0x30u8, 0x78] + hex2(b, upper)
}

/// The literals of some bytes, a comma and a space after each.
pub open spec fn literals(src: Seq<u8>, upper: bool) -> Seq<u8>
    decreases src.len(),
{
    if src.len() == 0 {
        seq![]
    } else {
        literals(src.drop_last(), upper) + literal(src.last(), upper) + seq![COMMA, SPACE]
    }
}

/// A line of an array.
pub open spec fn array_line(src: Seq<u8>, upper: bool) -> Seq<u8> {
    seq![SPACE, SPACE] + literals(src, upper)
}

/// The first `k` full lines of an array, twelve bytes each.
pub open spec fn array_lines(data: Seq<u8>, upper: bool, k: nat) -> Seq<u8>
    decreases k,
{
    if k == 0 {
        seq![]
    } else {
        array_lines(data, upper, (k - 1) as nat) + array_line(
            data.subrange(12 * (k - 1), 12 * (k - 1) + 12),
            upper,
        ) + seq![NEWLINE]
    }
}

/// The bytes of an array, line by line. No comma follows the last byte of a short line.
pub open spec fn array_body(data: Seq<u8>, upper: bool) -> Seq<u8> {
    let k = data.len() / 12;
    let tail = data.skip((12 * k) as int);
    array_lines(data, upper, k) + if tail.len() == 0 {
        seq![]
    } else {
        array_line(tail, upper).take(6 * tail.len() as int)
    }
}

/// An array of bytes in memory.
pub open spec fn array_text(name: Seq<char>, data: Seq<u8>, upper: bool) -> Seq<u8> {
    array_head(name) + array_body(data, upper) + array_end(name, data.len())
}

/// Byte number `i` of an array whose bytes arrive one by one: a separator, a line break before each
/// group of twelve, and the literal.
pub open spec fn array_item(i: int, b: u8, upper: bool) -> Seq<u8> {
    (if i == 0 {
        seq![]
    } else {
        seq![COMMA, SPACE]
    }) + (if i == 0 {
        seq![SPACE, SPACE]
    } else if i % 12 == 0 {
        seq![NEWLINE, SPACE, SPACE]
    } else {
        seq![]
    }) + literal(b, upper)
}

/// The bytes of an array from number `i` on.
pub open spec fn array_items(i: int, data: Seq<u8>, upper: bool) -> Seq<u8>
    decreases data.len(),
{
    if data.len() == 0 {
        seq![]
    } else {
        array_items(i, data.drop_last(), upper) + array_item(
            i + data.len() - 1,
            data.last(),
            upper,
        )
    }
}

/// An array whose bytes arrive one by one.
pub open spec fn array_stream_text(name: Seq<char>, data: Seq<u8>, upper: bool) -> Seq<u8> {
    array_head(name) + array_items(0, data, upper) + array_end(name, data.len())
}

/// Appends a line of an array.
pub fn include_line(dst: &mut Vec<u8>, src: &[u8], upper: bool)
    ensures
        final(dst)@ == old(dst)@ + array_line(src@, upper),
{
    let ghost before = dst@;
    dst.push(SPACE);
    dst.push(SPACE);
    for i in 0..src.len()
        invariant
            dst@ == before + (seq![SPACE, SPACE] + literals(src@.take(i as int), upper)),
    {
        let ghost start = dst@;
        push_literal(dst, src[i], upper);
        dst.push(COMMA);
        dst.push(SPACE);
        assert(src@.take(i + 1).drop_last() =~= src@.take(i as int));
        assert(dst@ =~= before + (seq![SPACE, SPACE] + literals(src@.take(i + 1), upper)));
    }
    assert(src@.take(src@.len() as int) =~= src@);
}

/// Appends a byte as a C literal.
fn push_literal(dst: &mut Vec<u8>, b: u8, upper: bool)
    ensures
        final(dst)@ == old(dst)@ + literal(b, upper),
{
    let ghost before = dst@;
    dst.push(0x30);
    dst.push(0x78);
    push_hex2(dst, b, upper);
    assert(dst@ =~= before + literal(b, upper));
}

/// Appends what stands before the bytes of an array.
pub fn push_array_head(dst: &mut Vec<u8>, name: &str)
    ensures
        final(dst)@ == old(dst)@ + array_head(name@),
{
    let ghost before = dst@;
    push_str(dst, "unsigned char ");
    push_str(dst, name);
    push_str(dst, "[] = {\n");
    proof {
        lemma_concat3(before, utf8("unsigned char "@), utf8(name@), utf8("[] = {\n"@));
    }
}

/// Appends what stands after the bytes of an array of length `len`.
pub fn push_array_end(dst: &mut Vec<u8>, name: &str, len: u64)
    ensures
        final(dst)@ == old(dst)@ + array_end(name@, len as nat),
{
    let ghost before = dst@;
    push_str(dst, "\n};\nunsigned int ");
    push_str(dst, name);
    push_str(dst, "_len = ");
    push_decimal(dst, len);
    push_str(dst, ";\n");
    proof {
        lemma_concat5(
            before,
            utf8("\n};\nunsigned int "@),
            utf8(name@),
            utf8("_len = "@),
            decimal(len as nat),
            utf8(";\n"@),
        );
    }
}

/// The lines have equal lengths.
proof fn lemma_line_len(src: Seq<u8>, upper: bool)
    ensures
        array_line(src, upper).len() == 2 + 6 * src.len(),
    decreases src.len(),
{
    if src.len() > 0 {
        lemma_line_len(src.drop_last(), upper);
    }
}

/// The name of the array that is made under these settings.
pub open spec fn array_name_of(name: Option<Seq<char>>) -> Seq<char> {
    match name {
        Some(n) => n,
        None => "data"@,
    }
}

/// The name of the array that is made under these settings: that of the variable, or `data`.
pub fn array_name(opts: &Options) -> (r: String)
    ensures
        r@ == array_name_of(opts@.include_name),
        opts.include_name matches Some(n) ==> r@ == n@,
        opts.include_name is None ==> r@ == "data"@,
{
    match &opts.include_name {
        Some(n) => n.clone(),
        None => fixed("data"),
    }
}

/// Makes an array of bytes in memory.
pub fn run_c_include_mmap(name: &str, data: &[u8], upper: bool) -> (out: Vec<u8>)
    ensures
        out@ == array_text(name@, data@, upper),
{
    let mut out: Vec<u8> = Vec::new();
    push_array_head(&mut out, name);
    let ghost head = array_head(name@);
    proof {
        lemma_concat_empty(head);
    }
    let n: usize = data.len();
    let lines: usize = n / 12;
    for i in 0..lines
        invariant
            n == data@.len(),
            lines == n / 12,
            out@ == head + array_lines(data@, upper, i as nat),
    {
        let ghost start = out@;
        let src: &[u8] = vstd::slice::slice_subrange(data, 12 * i, 12 * i + 12);
        include_line(&mut out, src, upper);
        push_byte(&mut out, NEWLINE);
        proof {
            lemma_concat3(
                head,
                array_lines(data@, upper, i as nat),
                array_line(src@, upper),
                seq![NEWLINE],
            );
        }
    }
    let ghost mid = out@;
    let ghost rest = if n % 12 == 0 {
        Seq::<u8>::empty()
    } else {
        array_line(data@.skip(12 * (data@.len() as int / 12)), upper).take(
            6 * (n as int % 12),
        )
    };
    if n % 12 > 0 {
        let tail: &[u8] = vstd::slice::slice_subrange(data, 12 * lines, n);
        assert(tail@ =~= data@.skip(12 * (data@.len() as int / 12)));
        let mut line: Vec<u8> = Vec::new();
        include_line(&mut line, tail, upper);
        proof {
            lemma_line_len(tail@, upper);
            lemma_concat_empty(array_line(tail@, upper));
        }
        let kept: &[u8] = vstd::slice::slice_subrange(line.as_slice(), 0, 6 * (n % 12));
        assert(kept@ =~= rest);
        push_bytes(&mut out, kept);
    } else {
        proof {
            lemma_concat_empty(mid);
        }
    }
    push_array_end(&mut out, name, n as u64);
    proof {
        assert(data@.skip(12 * (data@.len() as int / 12)).len() == n as int % 12);
        lemma_concat_assoc(head, array_lines(data@, upper, lines as nat), rest);
    }
    out
}

/// An array whose bytes arrive in pieces: how many have arrived.
pub struct ArrayStream {
    pub total: u64,
}

/// Appends the byte that follows `total` others.
fn push_item(out: &mut Vec<u8>, total: u64, b: u8, upper: bool)
    ensures
        final(out)@ == old(out)@ + array_item(total as int, b, upper),
{
    let ghost start = out@;
    if total > 0 {
        out.push(COMMA);
        out.push(SPACE);
        if total % 12 == 0 {
            out.push(NEWLINE);
        }
    }
    if total % 12 == 0 {
        out.push(SPACE);
        out.push(SPACE);
    }
    push_literal(out, b, upper);
    assert(out@ =~= start + array_item(total as int, b, upper));
}

impl ArrayStream {
    /// Starts an array: appends what stands before its bytes.
    pub fn open(name: &str, out: &mut Vec<u8>) -> (s: ArrayStream)
        ensures
            s.total == 0,
            final(out)@ == old(out)@ + array_head(name@),
    {
        push_array_head(out, name);
        ArrayStream { total: 0 }
    }

    /// Appends a piece.
    pub fn feed(&mut self, input: &[u8], upper: bool, out: &mut Vec<u8>)
        requires
            old(self).total + input@.len() <= u64::MAX,
        ensures
            final(self).total == old(self).total + input@.len(),
            final(out)@ == old(out)@ + array_items(old(self).total as int, input@, upper),
    {
        let ghost before = out@;
        let ghost first = self.total as int;
        proof {
            lemma_concat_empty(before);
        }
        for i in 0..input.len()
            invariant
                self.total == first + i,
                first + input@.len() <= u64::MAX,
                out@ == before + array_items(first, input@.take(i as int), upper),
        {
            push_item(out, self.total, input[i], upper);
            proof {
                assert(input@.take(i + 1).drop_last() =~= input@.take(i as int));
                lemma_concat_assoc(
                    before,
                    array_items(first, input@.take(i as int), upper),
                    array_item(first + i, input@[i as int], upper),
                );
            }
            self.total = self.total + 1;
        }
        assert(input@.take(input@.len() as int) =~= input@);
    }

    /// Ends an array: appends what stands after its bytes.
    pub fn close(&self, name: &str, out: &mut Vec<u8>)
        ensures
            final(out)@ == old(out)@ + array_end(name@, self.total as nat),
    {
        push_array_end(out, name, self.total);
    }
}

/// Where the bytes of an array are cut into pieces makes no difference.
pub proof fn lemma_items_join(i: int, a: Seq<u8>, b: Seq<u8>, upper: bool)
    ensures
        array_items(i, a, upper) + array_items(i + a.len(), b, upper) == array_items(
            i,
            a + b,
            upper,
        ),
    decreases b.len(),
{
    let left = array_items(i, a, upper);
    if b.len() == 0 {
        assert(a + b =~= a);
        lemma_concat_empty(left);
    } else {
        lemma_items_join(i, a, b.drop_last(), upper);
        assert((a + b).drop_last() =~= a + b.drop_last());
        lemma_concat_assoc(
            left,
            array_items(i + a.len(), b.drop_last(), upper),
            array_item(i + a.len() + b.len() - 1, b.last(), upper),
        );
    }
}

/// The first lines of an array depend on their bytes alone.
proof fn lemma_lines_prefix(a: Seq<u8>, b: Seq<u8>, upper: bool, k: nat)
    requires
        12 * k <= a.len() <= b.len(),
        a == b.take(a.len() as int),
    ensures
        array_lines(a, upper, k) == array_lines(b, upper, k),
    decreases k,
{
    if k > 0 {
        lemma_lines_prefix(a, b, upper, (k - 1) as nat);
        assert(a.subrange(12 * (k - 1), 12 * (k - 1) + 12) =~= b.subrange(
            12 * (k - 1),
            12 * (k - 1) + 12,
        ));
    }
}

/// A line is the line without its last byte, the byte, a comma and a space.
proof fn lemma_line_grows(src: Seq<u8>, upper: bool)
    requires
        src.len() > 0,
    ensures
        array_line(src, upper) == array_line(src.drop_last(), upper) + literal(src.last(), upper)
            + seq![COMMA, SPACE],
{
    lemma_concat3(
        seq![SPACE, SPACE],
        literals(src.drop_last(), upper),
        literal(src.last(), upper),
        seq![COMMA, SPACE],
    );
}

/// A line ends with a comma and a space.
proof fn lemma_line_end(src: Seq<u8>, upper: bool)
    requires
        src.len() > 0,
    ensures
        array_line(src, upper) == array_line(src, upper).take(6 * src.len() as int) + seq![
            COMMA,
            SPACE,
        ],
{
    lemma_line_grows(src, upper);
    lemma_line_len(src, upper);
    lemma_line_len(src.drop_last(), upper);
    let front = array_line(src.drop_last(), upper) + literal(src.last(), upper);
    assert(array_line(src, upper).take(6 * src.len() as int) =~= front);
}

proof fn lemma_first_item(lit: Seq<u8>)
    ensures
        Seq::<u8>::empty() + (Seq::<u8>::empty() + seq![SPACE, SPACE] + lit) == Seq::<u8>::empty()
            + (seq![SPACE, SPACE] + lit),
{
    lemma_concat_empty(seq![SPACE, SPACE]);
}

proof fn lemma_break_item(lines: Seq<u8>, full: Seq<u8>, cut: Seq<u8>, lit: Seq<u8>)
    requires
        full == cut + seq![COMMA, SPACE],
    ensures
        lines + cut + (seq![COMMA, SPACE] + seq![NEWLINE, SPACE, SPACE] + lit) == lines + full + seq![
            NEWLINE,
        ] + (seq![SPACE, SPACE] + lit),
{
    assert(lines + cut + (seq![COMMA, SPACE] + seq![NEWLINE, SPACE, SPACE] + lit) =~= lines + full
        + seq![NEWLINE] + (seq![SPACE, SPACE] + lit));
}

proof fn lemma_next_item(lines: Seq<u8>, line: Seq<u8>, cut: Seq<u8>, lit: Seq<u8>)
    requires
        line == cut + seq![COMMA, SPACE],
    ensures
        lines + cut + (seq![COMMA, SPACE] + Seq::<u8>::empty() + lit) == lines + (line + lit),
{
    assert(lines + cut + (seq![COMMA, SPACE] + Seq::<u8>::empty() + lit) =~= lines + (line + lit));
}

/// The bytes `12 * k` up to the end of an array, on their line, without the last comma.
proof fn lemma_items_are_lines(data: Seq<u8>, upper: bool, k: nat)
    requires
        12 * k < data.len() <= 12 * k + 12,
    ensures
        array_items(0, data, upper) == array_lines(data, upper, k) + array_line(
            data.skip((12 * k) as int),
            upper,
        ).take(6 * (data.len() - 12 * k)),
    decreases data.len(),
{
    let n = data.len() as int;
    let front = data.drop_last();
    let lines = array_lines(data, upper, k);
    let s = data.skip((12 * k) as int);
    let r = n - 12 * k;
    let line = array_line(s, upper);
    let item = array_item(n - 1, data.last(), upper);
    lemma_line_len(s, upper);
    let lit = literal(data.last(), upper);
    assert(front == data.take(n - 1));
    assert(array_items(0, data, upper) == array_items(0, front, upper) + item);
    if r == 1 {
        assert(s =~= seq![data.last()]);
        assert(s.drop_last() =~= Seq::<u8>::empty());
        lemma_line_grows(s, upper);
        assert(array_line(s.drop_last(), upper) =~= seq![SPACE, SPACE]);
        assert(line.take(6) =~= seq![SPACE, SPACE] + literal(data.last(), upper));
        if k == 0 {
            assert(front =~= Seq::<u8>::empty());
            lemma_first_item(lit);
            assert(item == Seq::<u8>::empty() + seq![SPACE, SPACE] + lit);
            assert(array_items(0, front, upper) == Seq::<u8>::empty());
        } else {
            let j = (k - 1) as nat;
            let t = front.skip((12 * j) as int);
            let full = array_line(t, upper);
            lemma_items_are_lines(front, upper, j);
            lemma_line_len(t, upper);
            lemma_lines_prefix(front, data, upper, j);
            assert(t =~= data.subrange(12 * j as int, 12 * j as int + 12));
            assert(full =~= full.take(72) + seq![COMMA, SPACE]) by {
                lemma_line_end(t, upper);
            }
            lemma_break_item(array_lines(data, upper, j), full, full.take(72), lit);
            assert(item == seq![COMMA, SPACE] + seq![NEWLINE, SPACE, SPACE] + lit);
            assert(lines == array_lines(data, upper, j) + full + seq![NEWLINE]);
        }
    } else {
        let t = front.skip((12 * k) as int);
        let short = array_line(t, upper);
        lemma_items_are_lines(front, upper, k);
        lemma_line_len(t, upper);
        lemma_lines_prefix(front, data, upper, k);
        assert(t =~= s.drop_last());
        assert(short =~= short.take(6 * (r - 1)) + seq![COMMA, SPACE]) by {
            lemma_line_end(t, upper);
        }
        lemma_line_grows(s, upper);
        assert(s.last() == data.last());
        assert(line.take(6 * r) =~= short + literal(data.last(), upper));
        lemma_next_item(lines, short, short.take(6 * (r - 1)), lit);
        assert(item == seq![COMMA, SPACE] + Seq::<u8>::empty() + lit);
    }
}

/// An array is written alike whether its bytes lie in memory or arrive one by one, unless they fill
/// the last line.
pub proof fn lemma_array_agree(name: Seq<char>, data: Seq<u8>, upper: bool)
    requires
        data.len() % 12 != 0,
    ensures
        array_text(name, data, upper) == array_stream_text(name, data, upper),
{
    lemma_items_are_lines(data, upper, data.len() / 12);
}

} // verus!
