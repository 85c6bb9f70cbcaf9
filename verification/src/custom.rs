//! Rows by custom formats.

use crate::bytes::{
    is_printable, lemma_concat3, lemma_concat_assoc, lemma_concat_empty, push_byte, same_bytes,
    to_vec, DOT, NEWLINE, SPACE,
};
use crate::dump::{advance, lemma_offset_add, offset_at};
use crate::numeral::{hex2, numeral, push_hex2, push_numeral};
use crate::options::Endian;
use crate::plain::utf8;
use crate::row::{big_value, offset_text, read_le_u64, write_offset};
use crate::text::{chars_of, text_of, texts, trim, trimmed};
use vstd::prelude::*;

verus! {

pub const QUOTE: u8 = 0x22;
pub const BACKSLASH: u8 = 0x5c;
pub const SLASH: u8 = 0x2f;
pub const PERCENT: u8 = 0x25;

/// A unit of a format: how often it is applied, how many bytes each time, and its text. The text
/// holds the numbers of characters up to 255.
pub struct UnitView {
    pub count: int,
    pub size: int,
    pub fmt: Seq<u8>,
}

/// A unit of a format.
pub struct Unit {
    pub count: usize,
    pub size: usize,
    pub fmt: Vec<u8>,
}

impl View for Unit {
    type V = UnitView;

    open spec fn view(&self) -> UnitView {
        UnitView { count: self.count as int, size: self.size as int, fmt: self.fmt@ }
    }
}

/// The views of some units.
pub open spec fn unit_views(v: Seq<Unit>) -> Seq<UnitView> {
    Seq::new(v.len(), |i: int| v[i]@)
}

// ---------------------------------------------------------------- reading formats

/// Is `b` a decimal digit?
pub open spec fn is_decimal(b: u8) -> bool {
    0x30 <= b <= 0x39
}

/// The place of the first byte from `pos` on that is no decimal digit, or the end.
pub open spec fn decimals_end(s: Seq<u8>, pos: int) -> int
    decreases s.len() - pos,
{
    if 0 <= pos < s.len() && is_decimal(s[pos]) {
        decimals_end(s, pos + 1)
    } else {
        pos
    }
}

/// The place of the first byte from `pos` on that is no space, or the end.
pub open spec fn spaces_end(s: Seq<u8>, pos: int) -> int
    decreases s.len() - pos,
{
    if 0 <= pos < s.len() && s[pos] == SPACE {
        spaces_end(s, pos + 1)
    } else {
        pos
    }
}

/// The number that some decimal digits denote.
pub open spec fn decimal_number(s: Seq<u8>) -> nat
    decreases s.len(),
{
    if s.len() == 0 {
        0
    } else {
        decimal_number(s.drop_last()) * 10 + (s.last() - 0x30) as nat
    }
}

/// The count that some decimal digits denote; one, where there are none or too many.
pub open spec fn count_value(s: Seq<u8>) -> int {
    if s.len() == 0 || decimal_number(s) > usize::MAX {
        1
    } else {
        decimal_number(s) as int
    }
}

/// What stands in front of a quoted text: how often it is applied, to how many bytes, and where the
/// text starts.
pub struct PrefixView {
    pub count: int,
    pub size: int,
    pub next: int,
}

/// What stands at `pos`, in front of a quoted text.
pub open spec fn prefix_at(s: Seq<u8>, pos: int) -> PrefixView {
    if 0 <= pos < s.len() && is_decimal(s[pos]) {
        let end = decimals_end(s, pos);
        if end < s.len() && s[end] == SLASH {
            let stop = decimals_end(s, end + 1);
            PrefixView {
                count: count_value(s.subrange(pos, end)),
                size: count_value(s.subrange(end + 1, stop)),
                next: spaces_end(s, stop),
            }
        } else {
            PrefixView {
                count: count_value(s.subrange(pos, end)),
                size: 1,
                next: spaces_end(s, end),
            }
        }
    } else {
        PrefixView { count: 1, size: 1, next: pos }
    }
}

/// What a byte stands for after a backslash.
pub open spec fn escaped(b: u8) -> u8 {
    if b == 0x6e {
        NEWLINE
    } else if b == 0x74 {
        0x09
    } else if b == 0x30 {
        0
    } else {
        b
    }
}

/// The text from `pos` up to a quotation mark.
pub open spec fn quoted_text(s: Seq<u8>, pos: int) -> Seq<u8>
    decreases s.len() - pos,
{
    if pos < 0 || pos >= s.len() || s[pos] == QUOTE {
        seq![]
    } else if s[pos] == BACKSLASH {
        if pos + 1 < s.len() {
            seq![escaped(s[pos + 1])] + quoted_text(s, pos + 2)
        } else {
            seq![]
        }
    } else {
        seq![s[pos]] + quoted_text(s, pos + 1)
    }
}

/// The place of the quotation mark that ends the text from `pos` on, or the end.
pub open spec fn quoted_end(s: Seq<u8>, pos: int) -> int
    decreases s.len() - pos,
{
    if pos < 0 || pos >= s.len() || s[pos] == QUOTE {
        pos
    } else if s[pos] == BACKSLASH {
        if pos + 1 < s.len() {
            quoted_end(s, pos + 2)
        } else {
            s.len() as int
        }
    } else {
        quoted_end(s, pos + 1)
    }
}

/// The first place from `i` on at which `part` occurs in `s`.
pub open spec fn find_part(s: Seq<u8>, part: Seq<u8>, i: int) -> Option<int>
    decreases s.len() - i,
{
    if i < 0 || i + part.len() > s.len() {
        None
    } else if s.subrange(i, i + part.len()) == part {
        Some(i)
    } else if i < s.len() {
        find_part(s, part, i + 1)
    } else {
        None
    }
}

/// What a field of a format asks for.
#[derive(Clone, Copy, PartialEq, Eq, Debug, Structural)]
pub enum Field {
    /// The offset, in hexadecimal digits.
    HexOffset,
    /// The offset, in decimal digits.
    DecimalOffset,
    /// A byte as a character.
    Character,
    /// A byte as two hexadecimal digits.
    Hex,
    /// A byte as three octal digits.
    Octal,
    /// A number of two bytes as five decimal digits.
    Decimal,
    /// Nothing: the text stands for itself.
    Text,
}

/// A field and where it stands: the text before `from` and that from `to` on stand for themselves.
pub struct FieldAt {
    pub field: Field,
    pub from: int,
    pub to: int,
}

/// How a field is written in a format.
pub open spec fn field_name(f: Field) -> Seq<u8> {
    match f {
        // _ax
        Field::HexOffset => seq![0x5fu8, 0x61, 0x78],
        // _Ad
        Field::DecimalOffset => seq![0x5fu8, 0x41, 0x64],
        // %_c
        Field::Character => seq![0x25u8, 0x5f, 0x63],
        // %02x
        Field::Hex => seq![0x25u8, 0x30, 0x32, 0x78],
        // %03o
        Field::Octal => seq![0x25u8, 0x30, 0x33, 0x6f],
        // %05d
        Field::Decimal => seq![0x25u8, 0x30, 0x35, 0x64],
        Field::Text => seq![],
    }
}

/// `_Ax`, another way to write the offset.
pub open spec fn upper_offset() -> Seq<u8> {
    seq![0x5fu8, 0x41, 0x78]
}

/// The place of the first of the decimal digits that end before `i`.
pub open spec fn digits_start(s: Seq<u8>, i: int) -> int
    decreases i,
{
    if 0 < i <= s.len() && is_decimal(s[i - 1]) {
        digits_start(s, i - 1)
    } else {
        i
    }
}

/// Where an offset field starts whose name stands at `i`: at a percent sign, where one stands in
/// front with digits alone in between.
pub open spec fn offset_start(s: Seq<u8>, i: int) -> int {
    let d = digits_start(s, i);
    if 0 < d <= s.len() && s[d - 1] == PERCENT {
        d - 1
    } else {
        i
    }
}

/// An offset field whose name stands at `i`.
pub open spec fn offset_field(f: Field, s: Seq<u8>, i: int) -> FieldAt {
    FieldAt { field: f, from: offset_start(s, i), to: i + 3 }
}

/// The first field of a kind in a text.
pub open spec fn named_field(s: Seq<u8>, f: Field) -> Option<FieldAt> {
    match find_part(s, field_name(f), 0) {
        Some(i) => Some(FieldAt { field: f, from: i, to: i + field_name(f).len() }),
        None => None,
    }
}

/// The field of a text. Offsets come first, then single bytes, then numbers.
pub open spec fn field_of(s: Seq<u8>) -> FieldAt {
    match find_part(s, field_name(Field::HexOffset), 0) {
        Some(i) => offset_field(Field::HexOffset, s, i),
        None => match find_part(s, upper_offset(), 0) {
            Some(i) => offset_field(Field::HexOffset, s, i),
            None => match find_part(s, field_name(Field::DecimalOffset), 0) {
                Some(i) => offset_field(Field::DecimalOffset, s, i),
                None => byte_field(s),
            },
        },
    }
}

/// The field of a text without offsets.
pub open spec fn byte_field(s: Seq<u8>) -> FieldAt {
    if let Some(f) = named_field(s, Field::Character) {
        f
    } else if let Some(f) = named_field(s, Field::Hex) {
        f
    } else if let Some(f) = named_field(s, Field::Octal) {
        f
    } else if let Some(f) = named_field(s, Field::Decimal) {
        f
    } else {
        FieldAt { field: Field::Text, from: s.len() as int, to: s.len() as int }
    }
}

/// Does a text take bytes, where no count stands in front? An offset does not, nor does a text
/// without a percent sign.
pub open spec fn takes_bytes(fmt: Seq<u8>) -> bool {
    match field_of(fmt).field {
        Field::HexOffset | Field::DecimalOffset => false,
        Field::Text => find_part(fmt, seq![PERCENT], 0) is Some,
        _ => true,
    }
}

/// The units of a format, from place `pos` on.
pub open spec fn units_from(s: Seq<u8>, pos: int) -> Seq<UnitView>
    decreases s.len() - pos,
{
    if pos < 0 || pos >= s.len() {
        seq![]
    } else if s[pos] == SPACE {
        units_from(s, pos + 1)
    } else {
        let p = prefix_at(s, pos);
        if 0 <= p.next < s.len() && s[p.next] == QUOTE {
            let fmt = quoted_text(s, p.next + 1);
            let end = quoted_end(s, p.next + 1);
            let unit = UnitView {
                count: p.count,
                size: if takes_bytes(fmt) || is_decimal(s[pos]) {
                    p.size
                } else {
                    0
                },
                fmt,
            };
            seq![unit] + if pos <= end < s.len() {
                units_from(s, end + 1)
            } else {
                seq![]
            }
        } else if pos <= p.next < s.len() {
            units_from(s, p.next + 1)
        } else {
            seq![]
        }
    }
}

/// The units of the first `k` formats.
pub open spec fn format_units(formats: Seq<Seq<char>>, k: nat) -> Seq<UnitView>
    decreases k,
{
    if k == 0 {
        seq![]
    } else {
        format_units(formats, (k - 1) as nat) + units_from(
            utf8(trimmed(formats[k - 1])),
            0,
        )
    }
}

fn find_decimals_end(s: &[u8], pos: usize) -> (r: usize)
    requires
        pos <= s@.len(),
    ensures
        r == decimals_end(s@, pos as int),
        pos <= r <= s@.len(),
        forall|i: int| pos <= i < r ==> is_decimal(#[trigger] s@[i]),
{
    let mut i: usize = pos;
    while i < s.len() && 0x30 <= s[i] && s[i] <= 0x39
        invariant
            pos <= i <= s@.len(),
            decimals_end(s@, pos as int) == decimals_end(s@, i as int),
            forall|k: int| pos <= k < i ==> is_decimal(#[trigger] s@[k]),
        decreases s@.len() - i,
    {
        i = i + 1;
    }
    i
}

fn find_spaces_end(s: &[u8], pos: usize) -> (r: usize)
    requires
        pos <= s@.len(),
    ensures
        r == spaces_end(s@, pos as int),
        pos <= r <= s@.len(),
{
    let mut i: usize = pos;
    while i < s.len() && s[i] == SPACE
        invariant
            pos <= i <= s@.len(),
            spaces_end(s@, pos as int) == spaces_end(s@, i as int),
        decreases s@.len() - i,
    {
        i = i + 1;
    }
    i
}

/// More digits do not make a number smaller.
proof fn lemma_decimal_grows(s: Seq<u8>, k: int)
    requires
        0 <= k <= s.len(),
    ensures
        decimal_number(s.take(k)) <= decimal_number(s),
    decreases s.len(),
{
    if k < s.len() {
        lemma_decimal_grows(s.drop_last(), k);
        assert(s.drop_last().take(k) =~= s.take(k));
    } else {
        assert(s.take(k) =~= s);
    }
}

/// The count that some decimal digits denote.
fn read_count(s: &[u8]) -> (r: usize)
    requires
        forall|i: int| 0 <= i < s@.len() ==> is_decimal(#[trigger] s@[i]),
    ensures
        r == count_value(s@),
{
    if s.len() == 0 {
        return 1;
    }
    let mut v: usize = 0;
    for i in 0..s.len()
        invariant
            forall|k: int| 0 <= k < s@.len() ==> is_decimal(#[trigger] s@[k]),
            v == decimal_number(s@.take(i as int)),
            s@.len() > 0,
    {
        assert(is_decimal(s@[i as int]));
        let d: usize = (s[i] - 0x30) as usize;
        proof {
            assert(s@.take(i + 1).drop_last() =~= s@.take(i as int));
            lemma_decimal_grows(s@, i + 1);
        }
        if v > (usize::MAX - d) / 10 {
            return 1;
        }
        v = v * 10 + d;
    }
    assert(s@.take(s@.len() as int) =~= s@);
    v
}

/// What stands in front of a quoted text.
struct Prefix {
    count: usize,
    size: usize,
    next: usize,
}

/// Reads what stands at `pos`, in front of a quoted text.
fn read_prefix(s: &[u8], pos: usize) -> (r: Prefix)
    requires
        pos < s@.len(),
    ensures
        r.count == prefix_at(s@, pos as int).count,
        r.size == prefix_at(s@, pos as int).size,
        r.next == prefix_at(s@, pos as int).next,
        pos <= r.next <= s@.len(),
{
    if s[pos] < 0x30 || s[pos] > 0x39 {
        return Prefix { count: 1, size: 1, next: pos };
    }
    let n: usize = s.len();
    let end: usize = find_decimals_end(s, pos);
    let count: usize = read_count(vstd::slice::slice_subrange(s, pos, end));
    if end < n && s[end] == SLASH {
        let stop: usize = find_decimals_end(s, end + 1);
        let size: usize = read_count(vstd::slice::slice_subrange(s, end + 1, stop));
        Prefix { count, size, next: find_spaces_end(s, stop) }
    } else {
        Prefix { count, size: 1, next: find_spaces_end(s, end) }
    }
}

/// Reads the text from `start` up to a quotation mark; returns it and where it ends.
fn read_quoted(s: &[u8], start: usize) -> (r: (Vec<u8>, usize))
    requires
        start <= s@.len(),
    ensures
        r.0@ == quoted_text(s@, start as int),
        r.1 == quoted_end(s@, start as int),
        start <= r.1 <= s@.len(),
{
    let mut fmt: Vec<u8> = Vec::new();
    let mut pos: usize = start;
    let n: usize = s.len();
    proof {
        lemma_concat_empty(quoted_text(s@, start as int));
    }
    while pos < n && s[pos] != QUOTE
        invariant
            n == s@.len(),
            start <= pos <= n,
            quoted_text(s@, start as int) == fmt@ + quoted_text(s@, pos as int),
            quoted_end(s@, start as int) == quoted_end(s@, pos as int),
        decreases n - pos,
    {
        let ghost before = fmt@;
        if s[pos] == BACKSLASH {
            if pos + 1 < n {
                let c: u8 = s[pos + 1];
                let b: u8 = match c {
                    0x6e => NEWLINE,
                    0x74 => 0x09,
                    0x30 => 0,
                    _ => c,
                };
                push_byte(&mut fmt, b);
                proof {
                    lemma_concat_assoc(before, seq![b], quoted_text(s@, pos + 2));
                }
                pos = pos + 2;
            } else {
                pos = n;
            }
        } else {
            let b: u8 = s[pos];
            push_byte(&mut fmt, b);
            proof {
                lemma_concat_assoc(before, seq![b], quoted_text(s@, pos + 1));
            }
            pos = pos + 1;
        }
    }
    proof {
        lemma_concat_empty(fmt@);
    }
    (fmt, pos)
}

/// The first place at which `part` occurs in `s`.
fn find(s: &[u8], part: &[u8]) -> (r: Option<usize>)
    requires
        part@.len() > 0,
    ensures
        match r {
            Some(i) => find_part(s@, part@, 0) == Some(i as int) && i + part@.len() <= s@.len(),
            None => find_part(s@, part@, 0) is None,
        },
{
    let n: usize = s.len();
    let m: usize = part.len();
    if m > n {
        return None;
    }
    let mut i: usize = 0;
    while i <= n - m
        invariant
            n == s@.len(),
            m == part@.len(),
            0 < m <= n,
            i <= n - m + 1,
            find_part(s@, part@, 0) == find_part(s@, part@, i as int),
        decreases n - i,
    {
        if same_bytes(vstd::slice::slice_subrange(s, i, i + m), part) {
            return Some(i);
        }
        i = i + 1;
    }
    None
}

/// A field and where it stands.
struct FoundField {
    field: Field,
    from: usize,
    to: usize,
}

impl View for FoundField {
    type V = FieldAt;

    closed spec fn view(&self) -> FieldAt {
        FieldAt { field: self.field, from: self.from as int, to: self.to as int }
    }
}

/// An offset field whose name stands at `i`.
fn found_offset(field: Field, s: &[u8], i: usize) -> (r: FoundField)
    requires
        i + 3 <= s@.len(),
    ensures
        r@ == offset_field(field, s@, i as int),
        r.from <= r.to <= s@.len(),
{
    let mut d: usize = i;
    while d > 0 && 0x30 <= s[d - 1] && s[d - 1] <= 0x39
        invariant
            d <= i,
            i + 3 <= s@.len(),
            digits_start(s@, i as int) == digits_start(s@, d as int),
        decreases d,
    {
        d = d - 1;
    }
    let from: usize = if d > 0 && s[d - 1] == PERCENT {
        d - 1
    } else {
        i
    };
    let len: usize = s.len();
    assert(i + 3 <= len);
    FoundField { field, from, to: i + 3 }
}

/// The field of a text without offsets.
fn find_byte_field(s: &[u8]) -> (r: FoundField)
    ensures
        r@ == byte_field(s@),
        r.from <= r.to <= s@.len(),
{
    let character: [u8; 3] = [0x25, 0x5f, 0x63];
    let hex: [u8; 4] = [0x25, 0x30, 0x32, 0x78];
    let octal: [u8; 4] = [0x25, 0x30, 0x33, 0x6f];
    let decimal: [u8; 4] = [0x25, 0x30, 0x35, 0x64];
    proof {
        assert(character@ =~= field_name(Field::Character));
        assert(hex@ =~= field_name(Field::Hex));
        assert(octal@ =~= field_name(Field::Octal));
        assert(decimal@ =~= field_name(Field::Decimal));
    }
    let len: usize = s.len();
    if let Some(i) = find(s, &character) {
        FoundField { field: Field::Character, from: i, to: i + 3 }
    } else if let Some(i) = find(s, &hex) {
        FoundField { field: Field::Hex, from: i, to: i + 4 }
    } else if let Some(i) = find(s, &octal) {
        FoundField { field: Field::Octal, from: i, to: i + 4 }
    } else if let Some(i) = find(s, &decimal) {
        FoundField { field: Field::Decimal, from: i, to: i + 4 }
    } else {
        FoundField { field: Field::Text, from: len, to: len }
    }
}

/// The field of a text.
fn find_field(s: &[u8]) -> (r: FoundField)
    ensures
        r@ == field_of(s@),
        r.from <= r.to <= s@.len(),
{
    let lower: [u8; 3] = [0x5f, 0x61, 0x78];
    let upper: [u8; 3] = [0x5f, 0x41, 0x78];
    let decimal: [u8; 3] = [0x5f, 0x41, 0x64];
    proof {
        assert(lower@ =~= field_name(Field::HexOffset));
        assert(upper@ =~= upper_offset());
        assert(decimal@ =~= field_name(Field::DecimalOffset));
    }
    if let Some(i) = find(s, &lower) {
        found_offset(Field::HexOffset, s, i)
    } else if let Some(i) = find(s, &upper) {
        found_offset(Field::HexOffset, s, i)
    } else if let Some(i) = find(s, &decimal) {
        found_offset(Field::DecimalOffset, s, i)
    } else {
        find_byte_field(s)
    }
}

/// Does a text take bytes, where no count stands in front?
fn needs_bytes(fmt: &[u8]) -> (r: bool)
    ensures
        r == takes_bytes(fmt@),
{
    let f: FoundField = find_field(fmt);
    match f.field {
        Field::HexOffset | Field::DecimalOffset => false,
        Field::Text => {
            let percent: [u8; 1] = [PERCENT];
            assert(percent@ =~= seq![PERCENT]);
            find(fmt, &percent).is_some()
        },
        _ => true,
    }
}

/// Appends the units of a format.
fn push_units(s: &[u8], out: &mut Vec<Unit>)
    ensures
        unit_views(final(out)@) == unit_views(old(out)@) + units_from(s@, 0),
{
    let n: usize = s.len();
    let mut pos: usize = 0;
    let ghost all = unit_views(out@) + units_from(s@, 0);
    while pos < n
        invariant
            n == s@.len(),
            pos <= n,
            all == unit_views(out@) + units_from(s@, pos as int),
        decreases n - pos,
    {
        if s[pos] == SPACE {
            pos = pos + 1;
        } else {
            let p: Prefix = read_prefix(s, pos);
            let digits: bool = 0x30 <= s[pos] && s[pos] <= 0x39;
            if p.next < n && s[p.next] == QUOTE {
                let (fmt, end) = read_quoted(s, p.next + 1);
                let size: usize = if needs_bytes(&fmt) || digits {
                    p.size
                } else {
                    0
                };
                let unit = Unit { count: p.count, size, fmt };
                let ghost before = unit_views(out@);
                let ghost rest = if end < n {
                    units_from(s@, end + 1)
                } else {
                    seq![]
                };
                out.push(unit);
                proof {
                    assert(unit_views(out@) =~= before.push(unit@));
                    assert(before + (seq![unit@] + rest) =~= before.push(unit@) + rest);
                }
                pos = if end < n {
                    end + 1
                } else {
                    n
                };
            } else {
                pos = if p.next < n {
                    p.next + 1
                } else {
                    n
                };
            }
        }
    }
    assert(unit_views(out@) + units_from(s@, pos as int) =~= unit_views(out@));
}

/// The units of all formats.
pub fn parse_formats(formats: &Vec<String>) -> (out: Vec<Unit>)
    ensures
        unit_views(out@) == format_units(texts(formats@), formats@.len()),
{
    let mut out: Vec<Unit> = Vec::new();
    assert(unit_views(out@) =~= Seq::<UnitView>::empty());
    for i in 0..formats.len()
        invariant
            unit_views(out@) == format_units(texts(formats@), i as nat),
    {
        let chars: Vec<char> = chars_of(formats[i].as_str());
        let inner: String = text_of(trim(&chars));
        push_units(inner.as_str().as_bytes(), &mut out);
    }
    out
}

// ---------------------------------------------------------------- applying formats

/// The character with number `b`, as UTF-8.
pub open spec fn latin(b: u8) -> Seq<u8> {
    if b < 0x80 {
        seq![b]
    } else {
        seq![(0xc0 + b / 64) as u8, (0x80 + b % 64) as u8]
    }
}

/// A text, as UTF-8.
pub open spec fn latin_text(s: Seq<u8>) -> Seq<u8>
    decreases s.len(),
{
    if s.len() == 0 {
        seq![]
    } else {
        latin_text(s.drop_last()) + latin(s.last())
    }
}

/// The bytes that a unit takes at `cur`: fewer at the end of the data.
pub open spec fn taken(data: Seq<u8>, cur: int, size: int) -> Seq<u8> {
    if cur >= data.len() {
        seq![]
    } else if cur + size <= data.len() {
        data.subrange(cur, cur + size)
    } else {
        data.skip(cur)
    }
}

/// What a field shows at `cur`; `size` bytes make up a number.
pub open spec fn field_text(f: Field, size: int, data: Seq<u8>, start: u64, cur: int) -> Seq<u8> {
    let b = if 0 <= cur < data.len() {
        data[cur]
    } else {
        0
    };
    match f {
        Field::HexOffset => offset_text(offset_at(start, cur), false, false),
        Field::DecimalOffset => offset_text(offset_at(start, cur), true, false),
        Field::Character => seq![
            if is_printable(b) {
                b
            } else {
                DOT
            },
        ],
        Field::Hex => hex2(b, false),
        Field::Octal => numeral(b as nat, 8, 3, false),
        Field::Decimal => numeral(big_value(taken(data, cur, size)) % 65536, 10, 5, false),
        Field::Text => seq![],
    }
}

/// What a unit writes at `cur`: the text before its field, the field, and the text after it.
pub open spec fn unit_text(u: UnitView, data: Seq<u8>, start: u64, cur: int) -> Seq<u8> {
    let f = field_of(u.fmt);
    latin_text(u.fmt.take(f.from)) + field_text(f.field, u.size, data, start, cur) + latin_text(
        u.fmt.skip(f.to),
    )
}

/// What a unit writes the first `k` times it is applied, from `cur` on.
pub open spec fn unit_run(u: UnitView, data: Seq<u8>, start: u64, cur: int, k: int) -> Seq<u8>
    decreases k,
{
    if k <= 0 {
        seq![]
    } else {
        unit_run(u, data, start, cur, k - 1) + unit_text(u, data, start, cur + (k - 1) * u.size)
    }
}

/// The number of bytes that the first `j` units take.
pub open spec fn span(units: Seq<UnitView>, j: int) -> int
    decreases j,
{
    if j <= 0 {
        0
    } else {
        span(units, j - 1) + units[j - 1].count * units[j - 1].size
    }
}

/// What the first `j` units write, from `cur` on.
pub open spec fn units_text(
    units: Seq<UnitView>,
    data: Seq<u8>,
    start: u64,
    cur: int,
    j: int,
) -> Seq<u8>
    decreases j,
{
    if j <= 0 {
        seq![]
    } else {
        units_text(units, data, start, cur, j - 1) + unit_run(
            units[j - 1],
            data,
            start,
            cur + span(units, j - 1),
            units[j - 1].count,
        )
    }
}

/// The number of bytes in a row.
pub open spec fn row_size(units: Seq<UnitView>) -> int {
    let n = span(units, units.len() as int);
    if n > 1 {
        n
    } else {
        1
    }
}

/// What the first `k` rows hold.
pub open spec fn custom_rows(units: Seq<UnitView>, data: Seq<u8>, start: u64, k: int) -> Seq<u8>
    decreases k,
{
    if k <= 0 {
        seq![]
    } else {
        custom_rows(units, data, start, k - 1) + units_text(
            units,
            data,
            start,
            (k - 1) * row_size(units),
            units.len() as int,
        )
    }
}

/// The number of rows.
pub open spec fn row_count(units: Seq<UnitView>, len: int) -> int {
    let size = row_size(units);
    if len <= 0 {
        0
    } else {
        (len - 1) / size + 1
    }
}

/// The dump of `data` by the given formats.
pub open spec fn custom_dump(formats: Seq<Seq<char>>, data: Seq<u8>, start: u64) -> Seq<u8> {
    let units = format_units(formats, formats.len());
    custom_rows(units, data, start, row_count(units, data.len() as int))
}

/// Appends the character with number `b`.
fn push_latin(out: &mut Vec<u8>, b: u8)
    ensures
        final(out)@ == old(out)@ + latin(b),
{
    let ghost before = out@;
    if b < 0x80 {
        out.push(b);
    } else {
        out.push(0xc0 + b / 64);
        out.push(0x80 + b % 64);
    }
    assert(out@ =~= before + latin(b));
}

/// Appends a text.
fn push_latin_text(out: &mut Vec<u8>, s: &[u8])
    ensures
        final(out)@ == old(out)@ + latin_text(s@),
{
    let ghost before = out@;
    proof {
        lemma_concat_empty(before);
    }
    for i in 0..s.len()
        invariant
            out@ == before + latin_text(s@.take(i as int)),
    {
        push_latin(out, s[i]);
        proof {
            assert(s@.take(i + 1).drop_last() =~= s@.take(i as int));
            lemma_concat_assoc(before, latin_text(s@.take(i as int)), latin(s@[i as int]));
        }
    }
    assert(s@.take(s@.len() as int) =~= s@);
}

/// The number that the bytes at `cur` denote, modulo 65536.
fn read_short(data: &[u8], cur: usize, size: usize) -> (v: u64)
    ensures
        v == big_value(taken(data@, cur as int, size as int)) % 65536,
{
    let n: usize = data.len();
    if cur >= n {
        return 0;
    }
    let rest: &[u8] = vstd::slice::slice_subrange(data, cur, n);
    let len: usize = if size < n - cur {
        size
    } else {
        n - cur
    };
    let v: u64 = read_le_u64(rest, len, Endian::Big);
    proof {
        assert(rest@.take(len as int) =~= taken(data@, cur as int, size as int));
        let x = big_value(rest@.take(len as int));
        assert((x % 0x1_0000_0000_0000_0000) % 65536 == x % 65536);
    }
    v % 65536
}

/// A number that may be too large for the machine; any such number stands for the largest.
pub open spec fn clipped(n: int) -> int {
    if n > usize::MAX {
        usize::MAX as int
    } else {
        n
    }
}

/// The sum of two numbers, or the largest number.
fn clipped_sum(a: usize, b: usize) -> (r: usize)
    ensures
        r == clipped(a + b),
{
    if b > usize::MAX - a {
        usize::MAX
    } else {
        a + b
    }
}

/// A place in the data: where it is, as far as the machine can count, and its offset.
struct Place {
    at: usize,
    off: u64,
}

/// Is `p` the place `cur`?
spec fn is_place(p: Place, start: u64, cur: int) -> bool {
    0 <= cur && p.at == clipped(cur) && p.off == offset_at(start, cur)
}

/// The place `size` bytes further on.
fn move_on(p: Place, size: usize, Ghost(start): Ghost<u64>, Ghost(cur): Ghost<int>) -> (r: Place)
    requires
        is_place(p, start, cur),
    ensures
        is_place(r, start, cur + size),
{
    proof {
        lemma_offset_add(start, cur, size as int);
    }
    Place { at: clipped_sum(p.at, size), off: advance(p.off, size) }
}

/// Appends what a field shows at a place.
fn push_field(
    out: &mut Vec<u8>,
    f: Field,
    size: usize,
    data: &[u8],
    p: &Place,
    Ghost(start): Ghost<u64>,
    Ghost(cur): Ghost<int>,
)
    requires
        is_place(*p, start, cur),
    ensures
        final(out)@ == old(out)@ + field_text(f, size as int, data@, start, cur),
{
    let n: usize = data.len();
    let b: u8 = if p.at < n {
        data[p.at]
    } else {
        0
    };
    match f {
        Field::HexOffset => {
            write_offset(out, p.off, false, false);
        },
        Field::DecimalOffset => {
            write_offset(out, p.off, true, false);
        },
        Field::Character => {
            push_byte(
                out,
                if b >= 0x20 && b <= 0x7e {
                    b
                } else {
                    DOT
                },
            );
        },
        Field::Hex => {
            push_hex2(out, b, false);
        },
        Field::Octal => {
            push_numeral(out, b as u64, 8, 3, false);
        },
        Field::Decimal => {
            let v: u64 = read_short(data, p.at, size);
            proof {
                if cur > usize::MAX {
                    assert(taken(data@, cur, size as int) =~= taken(
                        data@,
                        p.at as int,
                        size as int,
                    ));
                }
            }
            push_numeral(out, v, 10, 5, false);
        },
        Field::Text => {
            proof {
                lemma_concat_empty(out@);
            }
        },
    }
}

/// Appends what a unit writes at a place.
fn push_unit(
    out: &mut Vec<u8>,
    u: &Unit,
    data: &[u8],
    p: &Place,
    Ghost(start): Ghost<u64>,
    Ghost(cur): Ghost<int>,
)
    requires
        is_place(*p, start, cur),
    ensures
        final(out)@ == old(out)@ + unit_text(u@, data@, start, cur),
{
    let ghost before = out@;
    let f: FoundField = find_field(&u.fmt);
    let len: usize = u.fmt.len();
    let head: &[u8] = vstd::slice::slice_subrange(u.fmt.as_slice(), 0, f.from);
    let tail: &[u8] = vstd::slice::slice_subrange(u.fmt.as_slice(), f.to, len);
    push_latin_text(out, head);
    push_field(out, f.field, u.size, data, p, Ghost(start), Ghost(cur));
    push_latin_text(out, tail);
    proof {
        assert(head@ =~= u.fmt@.take(f.from as int));
        assert(tail@ =~= u.fmt@.skip(f.to as int));
        lemma_concat3(
            before,
            latin_text(head@),
            field_text(f.field, u.size as int, data@, start, cur),
            latin_text(tail@),
        );
    }
}

/// The number of bytes that the units take.
fn count_span(units: &Vec<Unit>) -> (r: usize)
    ensures
        r == clipped(span(unit_views(units@), units@.len() as int)),
{
    let ghost views = unit_views(units@);
    let mut n: usize = 0;
    for j in 0..units.len()
        invariant
            views == unit_views(units@),
            n == clipped(span(views, j as int)),
            span(views, j as int) >= 0,
    {
        let (count, size) = (units[j].count, units[j].size);
        assert(views[j as int] == units@[j as int]@);
        assert(0 <= count * size) by (nonlinear_arith);
        let product: usize = match count.checked_mul(size) {
            Some(p) => p,
            None => usize::MAX,
        };
        n = clipped_sum(n, product);
    }
    n
}

/// Appends what a unit writes as often as it is applied, from a place on; returns the place after
/// that.
fn push_unit_run(
    out: &mut Vec<u8>,
    u: &Unit,
    data: &[u8],
    first: Place,
    Ghost(start): Ghost<u64>,
    Ghost(cur): Ghost<int>,
) -> (r: Place)
    requires
        is_place(first, start, cur),
    ensures
        final(out)@ == old(out)@ + unit_run(u@, data@, start, cur, u.count as int),
        is_place(r, start, cur + u.count * u.size),
{
    let ghost before = out@;
    let mut p: Place = first;
    proof {
        lemma_concat_empty(before);
        assert(0 * u.size == 0) by (nonlinear_arith);
    }
    for k in 0..u.count
        invariant
            is_place(p, start, cur + k * u.size),
            out@ == before + unit_run(u@, data@, start, cur, k as int),
    {
        push_unit(out, u, data, &p, Ghost(start), Ghost(cur + k * u.size));
        p = move_on(p, u.size, Ghost(start), Ghost(cur + k * u.size));
        proof {
            lemma_concat_assoc(
                before,
                unit_run(u@, data@, start, cur, k as int),
                unit_text(u@, data@, start, cur + k * u.size),
            );
            assert((k + 1) * u.size == k * u.size + u.size) by (nonlinear_arith);
        }
    }
    p
}

/// Appends a row, from a place on.
fn push_custom_row(out: &mut Vec<u8>, units: &Vec<Unit>, data: &[u8], start: u64, cur: usize)
    ensures
        final(out)@ == old(out)@ + units_text(
            unit_views(units@),
            data@,
            start,
            cur as int,
            units@.len() as int,
        ),
{
    let ghost before = out@;
    let ghost views = unit_views(units@);
    let mut p = Place { at: cur, off: advance(start, cur) };
    proof {
        lemma_concat_empty(before);
    }
    for j in 0..units.len()
        invariant
            views == unit_views(units@),
            is_place(p, start, cur + span(views, j as int)),
            out@ == before + units_text(views, data@, start, cur as int, j as int),
    {
        let u: &Unit = &units[j];
        let ghost at = cur + span(views, j as int);
        assert(views[j as int] == u@);
        p = push_unit_run(out, u, data, p, Ghost(start), Ghost(at));
        proof {
            lemma_concat_assoc(
                before,
                units_text(views, data@, start, cur as int, j as int),
                unit_run(u@, data@, start, at, u.count as int),
            );
        }
    }
}

/// Writes `data` by the units of custom formats.
pub fn apply_units(units: &Vec<Unit>, data: &[u8], start: u64) -> (out: Vec<u8>)
    ensures
        out@ == custom_rows(
            unit_views(units@),
            data@,
            start,
            row_count(unit_views(units@), data@.len() as int),
        ),
{
    let ghost views = unit_views(units@);
    let n: usize = data.len();
    let whole: usize = count_span(units);
    let size: usize = if whole > 1 {
        whole
    } else {
        1
    };
    let mut out: Vec<u8> = Vec::new();
    if n == 0 {
        return out;
    }
    let rows: usize = (n - 1) / size;
    proof {
        lemma_last_row(n as int, size as int, row_size(views));
    }
    let mut k: usize = 0;
    let mut cur: usize = 0;
    while k < rows
        invariant
            views == unit_views(units@),
            rows > 0 ==> size == row_size(views),
            rows * size <= usize::MAX,
            size >= 1,
            k <= rows,
            cur == k * size,
            out@ == custom_rows(views, data@, start, k as int),
        decreases rows - k,
    {
        push_custom_row(&mut out, units, data, start, cur);
        proof {
            assert((k + 1) * size == k * size + size && (k + 1) * size <= rows * size)
                by (nonlinear_arith)
                requires
                    k < rows,
                    size >= 1,
            ;
        }
        k = k + 1;
        cur = cur + size;
    }
    proof {
        assert(rows == 0 ==> cur == 0) by (nonlinear_arith)
            requires
                cur == rows * size,
        ;
        assert(rows == 0 ==> rows * row_size(views) == 0) by (nonlinear_arith);
    }
    push_custom_row(&mut out, units, data, start, cur);
    out
}

/// The number of rows does not depend on sizes beyond what the machine can count.
proof fn lemma_last_row(n: int, size: int, exact: int)
    requires
        1 <= n <= usize::MAX,
        exact >= 1,
        size == clipped(exact),
    ensures
        (n - 1) / size == (n - 1) / exact,
        (n - 1) / size > 0 ==> size == exact,
        0 <= (n - 1) / size * size <= usize::MAX,
{
    if exact > usize::MAX {
        assert((n - 1) / size == 0 && (n - 1) / exact == 0) by (nonlinear_arith)
            requires
                0 <= n - 1 < size <= exact,
        ;
    }
    assert(0 <= (n - 1) / size * size <= n - 1) by (nonlinear_arith)
        requires
            n >= 1,
            size >= 1,
    ;
}

/// Writes `data` by custom formats.
pub fn run_custom_format(formats: &Vec<String>, data: &[u8], start: u64) -> (out: Vec<u8>)
    ensures
        out@ == custom_dump(texts(formats@), data@, start),
{
    let units: Vec<Unit> = parse_formats(formats);
    apply_units(&units, data, start)
}

// ---------------------------------------------------------------- limited output

/// The place after the first `n` lines from `pos` on, or the end.
pub open spec fn lines_end(s: Seq<u8>, n: nat, pos: int) -> int
    decreases s.len() - pos,
{
    if n == 0 || pos < 0 || pos >= s.len() {
        pos
    } else if s[pos] == NEWLINE {
        lines_end(s, (n - 1) as nat, pos + 1)
    } else {
        lines_end(s, n, pos + 1)
    }
}

/// The first lines of a text, where their number is limited.
pub open spec fn first_lines(max_lines: Option<u64>, s: Seq<u8>) -> Seq<u8> {
    match max_lines {
        Some(m) => s.take(lines_end(s, m as nat, 0)),
        None => s,
    }
}

/// Leaves out what follows the first lines of a text, where their number is limited.
pub fn limit_lines(max_lines: Option<u64>, text: Vec<u8>) -> (out: Vec<u8>)
    ensures
        out@ == first_lines(max_lines, text@),
{
    let m: u64 = match max_lines {
        Some(m) => m,
        None => {
            return text;
        },
    };
    let n: usize = text.len();
    let mut left: u64 = m;
    let mut pos: usize = 0;
    while left > 0 && pos < n
        invariant
            n == text@.len(),
            pos <= n,
            lines_end(text@, m as nat, 0) == lines_end(text@, left as nat, pos as int),
        decreases n - pos,
    {
        if text[pos] == NEWLINE {
            left = left - 1;
        }
        pos = pos + 1;
    }
    let out: Vec<u8> = to_vec(vstd::slice::slice_subrange(text.as_slice(), 0, pos));
    assert(out@ =~= text@.take(pos as int));
    out
}

} // verus!
