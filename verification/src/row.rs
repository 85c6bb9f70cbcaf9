//! The text of one row.

use crate::bytes::{
    is_printable, lemma_concat3, lemma_concat4, lemma_concat6, lemma_concat8, lemma_concat_assoc,
    lemma_concat_empty, monus, push_byte, push_bytes, push_fill, spaces, BAR, COLON, NEWLINE, SPACE,
};
use crate::charset::{ascii_byte, char_text, panel_text, push_panel};
use crate::color::{
    byte_ansi, byte_color, escape, panel_color, push_escape, push_reset, reset, tint, CYAN,
};
use crate::numeral::{
    count_digits, digit_count, hex2, lemma_numeral_len, numeral, padded, push_hex2, push_numeral,
};
use crate::options::{BorderStyle, CharTable, DisplayMode, Endian, Options};
use vstd::prelude::*;

verus! {

// ---------------------------------------------------------------- offsets

/// The text of an offset: at least eight digits, more where the offset needs them.
pub open spec fn offset_text(off: u64, dec: bool, upper: bool) -> Seq<u8> {
    padded(
        off as nat,
        if dec {
            10
        } else {
            16
        },
        8,
        upper,
    )
}

/// The number of digits of an offset in hexadecimal.
pub fn offset_len(off: u64) -> (n: usize)
    ensures
        n == offset_text(off, false, false).len(),
        8 <= n <= 64,
        n == if digit_count(off as nat, 16) > 8 {
            digit_count(off as nat, 16)
        } else {
            8
        },
{
    let n: usize = count_digits(off, 16);
    proof {
        lemma_numeral_len(
            off as nat,
            16,
            if n > 8 {
                n as nat
            } else {
                8
            },
            false,
        );
    }
    if n > 8 {
        n
    } else {
        8
    }
}

/// The number of digits of an offset in the base that the options ask for.
pub fn field_len_for(opts: &Options, off: u64) -> (n: usize)
    ensures
        n == offset_text(off, opts.offset_dec, opts.uppercase).len(),
        8 <= n <= 64,
{
    let base: u64 = if opts.offset_dec {
        10
    } else {
        16
    };
    let n: usize = count_digits(off, base);
    proof {
        lemma_numeral_len(
            off as nat,
            base as nat,
            if n > 8 {
                n as nat
            } else {
                8
            },
            opts.uppercase,
        );
    }
    if n > 8 {
        n
    } else {
        8
    }
}

/// Appends the text of an offset and returns its length.
pub fn write_offset(dst: &mut Vec<u8>, off: u64, dec: bool, upper: bool) -> (n: usize)
    ensures
        final(dst)@ == old(dst)@ + offset_text(off, dec, upper),
        n == offset_text(off, dec, upper).len(),
        8 <= n <= 64,
{
    let base: u64 = if dec {
        10
    } else {
        16
    };
    let count: usize = count_digits(off, base);
    let len: usize = if count > 8 {
        count
    } else {
        8
    };
    push_numeral(dst, off, base, len, upper);
    proof {
        lemma_numeral_len(off as nat, base as nat, len as nat, upper);
    }
    len
}

// ---------------------------------------------------------------- columns

/// The vertical line of a border.
pub open spec fn bar(border: BorderStyle) -> Seq<u8> {
    match border {
        BorderStyle::Off => seq![],
        BorderStyle::Ascii => seq![BAR],
        // U+2502
        BorderStyle::Unicode => seq![0xe2u8, 0x94, 0x82],
    }
}

/// The width of the offset column inside a border: the longest offset and a colon.
pub open spec fn position_width(opts: Options) -> nat {
    if opts.offset_dec {
        21
    } else {
        17
    }
}

/// The offset column.
pub open spec fn position_column(opts: Options, off: u64, color: bool) -> Seq<u8> {
    let text = offset_text(off, opts.offset_dec, opts.uppercase);
    if opts.no_position {
        seq![]
    } else {
        bar(opts.border) + tint(color, escape(CYAN)) + text + seq![COLON] + tint(color, reset()) + if opts.border
            == BorderStyle::Off {
            seq![SPACE]
        } else {
            spaces(monus(position_width(opts), text.len() + 1))
        }
    }
}

/// The number that the bytes of `s` denote, the most significant first.
pub open spec fn big_value(s: Seq<u8>) -> nat
    decreases s.len(),
{
    if s.len() == 0 {
        0
    } else {
        big_value(s.drop_last()) * 256 + s.last() as nat
    }
}

/// The number that the bytes of `s` denote in the given byte order.
pub open spec fn group_value(s: Seq<u8>, endian: Endian) -> nat {
    match endian {
        Endian::Big => big_value(s),
        Endian::Little => big_value(s.reverse()),
    }
}

/// The group size in the modes that show two bytes or more at a time.
pub open spec fn wide_group(opts: Options) -> nat {
    if opts.group > 2 {
        opts.group as nat
    } else {
        2
    }
}

/// The bytes of group `i`, fewer than the group size at the end of a row.
pub open spec fn group_bytes(opts: Options, src: Seq<u8>, i: int) -> Seq<u8> {
    let from = i * wide_group(opts);
    let to = from + wide_group(opts);
    src.subrange(
        from,
        if to <= src.len() {
            to
        } else {
            src.len() as int
        },
    )
}

/// Is there a gap before column `i` of a canonical row?
pub open spec fn gap_before(opts: Options, i: int) -> bool {
    i > 0 && (i % (opts.width as int / 2) == 0 || opts.group > 1 && i % (opts.group as int) == 0)
}

/// The byte shown in column `i` of a canonical row. In little-endian order each group is reversed,
/// and an incomplete group is reversed as if zeros followed.
pub open spec fn shown_byte(opts: Options, src: Seq<u8>, i: int) -> u8 {
    if opts.endian == Endian::Little && opts.group > 1 {
        let g = opts.group as int;
        let j = i / g * g + (g - 1 - i % g);
        if j < src.len() {
            src[j]
        } else {
            0
        }
    } else {
        src[i]
    }
}

/// Does a space follow column `i` of a canonical row?
pub open spec fn space_after(opts: Options, i: int) -> bool {
    i < opts.width - 1 || !opts.no_ascii && opts.border == BorderStyle::Off
}

/// Column `i` of a canonical row.
pub open spec fn canonical_cell(opts: Options, src: Seq<u8>, i: int) -> Seq<u8> {
    spaces(
        if gap_before(opts, i) {
            1
        } else {
            0
        },
    ) + (if i < src.len() {
        hex2(shown_byte(opts, src, i), opts.uppercase)
    } else {
        spaces(2)
    }) + spaces(
        if space_after(opts, i) {
            1
        } else {
            0
        },
    )
}

/// A byte in the character display: itself if it is printable, three octal digits otherwise. Some
/// control characters stand for themselves, and are one column narrower.
pub open spec fn character_cell(b: u8) -> Seq<u8> {
    if b == 0 || 0x07 <= b <= 0x0d {
        spaces(2).push(b)
    } else if is_printable(b) {
        spaces(3).push(b)
    } else {
        seq![SPACE] + numeral(b as nat, 8, 3, false)
    }
}

/// The number of cells in the main section of a row.
pub open spec fn cell_count(opts: Options) -> nat {
    match opts.mode {
        DisplayMode::Canonical
        | DisplayMode::OneByteHex
        | DisplayMode::OneByteOctal
        | DisplayMode::OneByteDecimal
        | DisplayMode::OneByteChar => opts.width as nat,
        DisplayMode::TwoByteHex | DisplayMode::TwoByteOctal | DisplayMode::TwoByteDecimal => (
        opts.width / 2) as nat,
        DisplayMode::Binary => 8,
        DisplayMode::Plain | DisplayMode::CInclude | DisplayMode::Reverse => 0,
    }
}

/// Cell `i` of the main section of a row.
pub open spec fn cell(opts: Options, src: Seq<u8>, i: int) -> Seq<u8> {
    let g = wide_group(opts);
    match opts.mode {
        DisplayMode::Canonical => canonical_cell(opts, src, i),
        DisplayMode::OneByteHex => spaces(2) + if i < src.len() {
            hex2(src[i], opts.uppercase)
        } else {
            spaces(2)
        },
        DisplayMode::OneByteOctal => spaces(1) + if i < src.len() {
            numeral(src[i] as nat, 8, 3, false)
        } else {
            spaces(3)
        },
        DisplayMode::OneByteDecimal => spaces(1) + if i < src.len() {
            numeral(src[i] as nat, 10, 3, false)
        } else {
            spaces(3)
        },
        DisplayMode::OneByteChar => if i < src.len() {
            character_cell(src[i])
        } else {
            spaces(4)
        },
        DisplayMode::Binary => spaces(1) + if i < src.len() {
            numeral(src[i] as nat, 2, 8, false)
        } else {
            spaces(8)
        },
        DisplayMode::TwoByteHex => spaces(1) + if i * g < src.len() {
            numeral(
                group_value(group_bytes(opts, src, i), opts.endian),
                16,
                g * 2,
                opts.uppercase,
            )
        } else {
            spaces(g * 2)
        },
        DisplayMode::TwoByteOctal => spaces(1) + if i * g < src.len() {
            numeral(group_value(group_bytes(opts, src, i), opts.endian), 8, g * 3, false)
        } else {
            spaces(g * 3)
        },
        DisplayMode::TwoByteDecimal => spaces(1) + if i * g < src.len() {
            numeral(group_value(group_bytes(opts, src, i), opts.endian) % 65536, 10, 5, false)
        } else {
            spaces(5)
        },
        DisplayMode::Plain | DisplayMode::CInclude | DisplayMode::Reverse => seq![],
    }
}

/// The first `k` cells of the main section of a row.
pub open spec fn cells(opts: Options, src: Seq<u8>, k: nat) -> Seq<u8>
    decreases k,
{
    if k == 0 {
        seq![]
    } else {
        cells(opts, src, (k - 1) as nat) + cell(opts, src, k - 1)
    }
}

/// The width of the first `k` columns of a canonical row, without the space after the last column.
pub open spec fn canonical_width(opts: Options, k: nat) -> nat
    decreases k,
{
    if k == 0 {
        0
    } else {
        canonical_width(opts, (k - 1) as nat) + (if gap_before(opts, k - 1) {
            1nat
        } else {
            0
        }) + (if k < opts.width {
            3nat
        } else {
            2
        })
    }
}

/// The width that a border leaves for the main section.
pub open spec fn section_width(opts: Options) -> nat {
    let w = opts.width as nat;
    let g = wide_group(opts);
    match opts.mode {
        DisplayMode::Canonical => if opts.minimal {
            w * 2
        } else {
            canonical_width(opts, w)
        },
        DisplayMode::OneByteHex
        | DisplayMode::OneByteOctal
        | DisplayMode::OneByteDecimal
        | DisplayMode::OneByteChar => w * 4,
        DisplayMode::TwoByteHex => (w / g) * (g * 2 + 1),
        DisplayMode::TwoByteOctal => (w / g) * (g * 3 + 1),
        DisplayMode::TwoByteDecimal => (w / g) * 6,
        DisplayMode::Binary => 72,
        DisplayMode::Plain | DisplayMode::CInclude | DisplayMode::Reverse => w * 3,
    }
}

/// Does a row have a character panel?
pub open spec fn has_panel(opts: Options) -> bool {
    !opts.no_ascii && (opts.mode == DisplayMode::Canonical || opts.mode == DisplayMode::Plain
        || opts.mode == DisplayMode::CInclude || opts.mode == DisplayMode::Reverse)
}

/// What opens the character panel.
pub open spec fn panel_open(opts: Options) -> Seq<u8> {
    if opts.border == BorderStyle::Off {
        seq![SPACE, BAR]
    } else {
        seq![SPACE] + bar(opts.border)
    }
}

/// What closes the character panel, or the row where there is none.
pub open spec fn panel_close(opts: Options) -> Seq<u8> {
    if opts.border != BorderStyle::Off {
        seq![SPACE] + bar(opts.border)
    } else if has_panel(opts) {
        seq![BAR]
    } else {
        seq![]
    }
}

// ---------------------------------------------------------------- rows

/// The hexadecimal digits of all bytes, without gaps.
pub open spec fn hex_text(src: Seq<u8>, upper: bool) -> Seq<u8>
    decreases src.len(),
{
    if src.len() == 0 {
        seq![]
    } else {
        hex_text(src.drop_last(), upper) + hex2(src.last(), upper)
    }
}

/// A compact row: offset, digits and characters, with single spaces between them.
pub open spec fn minimal_row(opts: Options, src: Seq<u8>, off: u64) -> Seq<u8> {
    (if opts.no_position {
        seq![]
    } else {
        offset_text(off, opts.offset_dec, opts.uppercase) + seq![SPACE]
    }) + hex_text(src, opts.uppercase) + (if opts.no_ascii {
        seq![]
    } else {
        seq![SPACE] + panel_text(CharTable::Ascii, src)
    }) + seq![NEWLINE]
}

/// A row in any display mode, without colors.
pub open spec fn generic_row(opts: Options, src: Seq<u8>, off: u64) -> Seq<u8> {
    if opts.minimal && opts.mode == DisplayMode::Canonical {
        minimal_row(opts, src, off)
    } else {
        position_column(opts, off, false) + bar(opts.border) + generic_section(opts, src)
            + generic_panel(opts, src) + panel_close(opts) + seq![NEWLINE]
    }
}

/// The main section of a row; a border pads it to its full width.
pub open spec fn generic_section(opts: Options, src: Seq<u8>) -> Seq<u8> {
    let text = cells(opts, src, cell_count(opts));
    text + if opts.border == BorderStyle::Off {
        seq![]
    } else {
        spaces(monus(section_width(opts), text.len()))
    }
}

/// The character panel; a border pads it to as many bytes as a row holds.
pub open spec fn generic_panel(opts: Options, src: Seq<u8>) -> Seq<u8> {
    let text = panel_text(opts.table, src);
    if !has_panel(opts) {
        seq![]
    } else {
        panel_open(opts) + text + if opts.border == BorderStyle::Off {
            seq![]
        } else {
            spaces(monus(opts.width as nat, text.len()))
        }
    }
}

/// Are the rows of `line_row` those of `generic_row`?
pub open spec fn diverts(opts: Options) -> bool {
    opts.mode != DisplayMode::Canonical || opts.group != 1 || opts.endian != Endian::Big
        || opts.no_position || opts.no_ascii
}

/// Column `i` of an aligned canonical row.
pub open spec fn line_cell(opts: Options, src: Seq<u8>, color: bool, i: int) -> Seq<u8> {
    spaces(
        if i == opts.width / 2 {
            1
        } else {
            0
        },
    ) + (if i < src.len() {
        tint(color, escape(byte_color(src[i], opts.scheme))) + hex2(src[i], opts.uppercase) + tint(
            color,
            reset(),
        )
    } else {
        spaces(2)
    }) + spaces(
        if space_after(opts, i) {
            1
        } else {
            0
        },
    )
}

/// The first `k` columns of an aligned canonical row.
pub open spec fn line_cells(opts: Options, src: Seq<u8>, color: bool, k: nat) -> Seq<u8>
    decreases k,
{
    if k == 0 {
        seq![]
    } else {
        line_cells(opts, src, color, (k - 1) as nat) + line_cell(opts, src, color, k - 1)
    }
}

/// The characters of the panel, each in its color.
pub open spec fn line_panel(opts: Options, src: Seq<u8>, color: bool) -> Seq<u8>
    decreases src.len(),
{
    if src.len() == 0 {
        seq![]
    } else {
        line_panel(opts, src.drop_last(), color) + tint(color, escape(panel_color(src.last())))
            + char_text(opts.table, src.last()) + tint(color, reset())
    }
}

/// A canonical row whose panel is aligned at the right as well, in colors if asked for. Where the
/// options leave the canonical layout, it is the plain row of `generic_row`.
///
/// Without a border two blanks stand before the panel, as in `generic_row`: one after the last
/// column and one before the bar. So it is in short rows, in color and at any width, and panels of
/// both kinds of row stand below each other.
pub open spec fn line_row(opts: Options, src: Seq<u8>, off: u64, color: bool) -> Seq<u8> {
    if diverts(opts) {
        generic_row(opts, src, off)
    } else {
        position_column(opts, off, color) + bar(opts.border) + line_cells(
            opts,
            src,
            color,
            opts.width as nat,
        ) + panel_open(opts) + line_panel(opts, src, color) + spaces(
            monus(opts.width as nat, src.len()),
        ) + panel_close(opts) + seq![NEWLINE]
    }
}

/// Column `i` of a canonical row of sixteen.
pub open spec fn scalar_cell(src: Seq<u8>, no_ascii: bool, i: int) -> Seq<u8> {
    spaces(
        if i == 8 {
            1
        } else {
            0
        },
    ) + (if i < src.len() {
        hex2(src[i], false)
    } else {
        spaces(2)
    }) + spaces(
        if i < 15 || !no_ascii {
            1
        } else {
            0
        },
    )
}

/// The first `k` columns of a canonical row of sixteen.
pub open spec fn scalar_cells(src: Seq<u8>, no_ascii: bool, k: nat) -> Seq<u8>
    decreases k,
{
    if k == 0 {
        seq![]
    } else {
        scalar_cells(src, no_ascii, (k - 1) as nat) + scalar_cell(src, no_ascii, k - 1)
    }
}

/// A canonical row of sixteen bytes or fewer, behind its offset column.
pub open spec fn scalar_body(src: Seq<u8>, no_ascii: bool) -> Seq<u8> {
    scalar_cells(src, no_ascii, 16) + (if no_ascii {
        seq![]
    } else {
        seq![BAR] + panel_text(CharTable::Ascii, src) + spaces(monus(16, src.len())) + seq![BAR]
    }) + seq![NEWLINE]
}

/// A canonical row of sixteen bytes or fewer, in the default settings.
pub open spec fn scalar_row(src: Seq<u8>, off: u64, no_ascii: bool) -> Seq<u8> {
    offset_text(off, false, false) + seq![COLON, SPACE] + scalar_body(src, no_ascii)
}

/// The three kinds of row. Rows of the kind `Scalar` are of sixteen bytes or fewer and of a fixed
/// form, but for their offset column.
#[derive(Clone, Copy, PartialEq, Eq, Debug, Structural)]
pub enum LayoutKind {
    Generic,
    OutputLine,
    Scalar,
}

/// The row of a kind.
pub open spec fn row(kind: LayoutKind, opts: Options, src: Seq<u8>, off: u64, color: bool) -> Seq<
    u8,
> {
    match kind {
        LayoutKind::Generic => generic_row(opts, src, off),
        LayoutKind::OutputLine => line_row(opts, src, off, color),
        LayoutKind::Scalar => position_column(opts, off, color) + scalar_body(src, opts.no_ascii),
    }
}

// ---------------------------------------------------------------- making rows

/// The number that the first `len` bytes of `src` denote, modulo two to the power of 64.
pub fn read_le_u64(src: &[u8], len: usize, endian: Endian) -> (v: u64)
    requires
        len <= src@.len(),
    ensures
        v == group_value(src@.take(len as int), endian) % 0x1_0000_0000_0000_0000,
{
    let mut v: u64 = 0;
    let ghost bytes = match endian {
        Endian::Big => src@.take(len as int),
        Endian::Little => src@.take(len as int).reverse(),
    };
    for i in 0..len
        invariant
            len <= src@.len(),
            bytes.len() == len,
            bytes == match endian {
                Endian::Big => src@.take(len as int),
                Endian::Little => src@.take(len as int).reverse(),
            },
            v == big_value(bytes.take(i as int)) % 0x1_0000_0000_0000_0000,
    {
        let b: u8 = match endian {
            Endian::Big => src[i],
            Endian::Little => src[len - 1 - i],
        };
        assert(b == bytes[i as int]);
        proof {
            lemma_shift_in(big_value(bytes.take(i as int)), v, b);
            assert(bytes.take(i + 1).drop_last() =~= bytes.take(i as int));
        }
        v = (v % 0x100_0000_0000_0000) * 256 + b as u64;
    }
    assert(bytes.take(len as int) =~= bytes);
    v
}

/// Shifting a byte into a number modulo two to the power of 64.
proof fn lemma_shift_in(x: nat, v: u64, b: u8)
    requires
        v == x % 0x1_0000_0000_0000_0000,
    ensures
        (v % 0x100_0000_0000_0000) * 256 + b == (x * 256 + b) % 0x1_0000_0000_0000_0000,
{
    let q = x / 0x1_0000_0000_0000_0000;
    let p = v / 0x100_0000_0000_0000;
    let r = v % 0x100_0000_0000_0000;
    assert(x == q * 0x1_0000_0000_0000_0000 + v);
    assert(v == p * 0x100_0000_0000_0000 + r);
    assert(x * 256 + b == (q * 256 + p) * 0x1_0000_0000_0000_0000 + (r * 256 + b));
}

/// The number that a group of at most eight bytes denotes fits in 64 bits.
pub proof fn lemma_big_value_bound(s: Seq<u8>)
    requires
        s.len() <= 8,
    ensures
        big_value(s) < 0x1_0000_0000_0000_0000,
{
    lemma_big_value_pow(s);
    reveal_with_fuel(pow256, 9);
    if s.len() < 8 {
        lemma_pow256_mono(s.len(), 8);
    }
}

/// 256 to the power of `k`.
pub open spec fn pow256(k: nat) -> nat
    decreases k,
{
    if k == 0 {
        1
    } else {
        256 * pow256((k - 1) as nat)
    }
}

proof fn lemma_pow256_mono(a: nat, b: nat)
    requires
        a <= b,
    ensures
        1 <= pow256(a) <= pow256(b),
    decreases b,
{
    if a < b {
        lemma_pow256_mono(a, (b - 1) as nat);
    } else if a > 0 {
        lemma_pow256_mono((a - 1) as nat, (b - 1) as nat);
    }
}

proof fn lemma_big_value_pow(s: Seq<u8>)
    ensures
        big_value(s) < pow256(s.len()),
    decreases s.len(),
{
    if s.len() > 0 {
        lemma_big_value_pow(s.drop_last());
    }
}

/// Appends the vertical line of a border.
pub fn push_bar(dst: &mut Vec<u8>, border: BorderStyle)
    ensures
        final(dst)@ == old(dst)@ + bar(border),
{
    let ghost before = dst@;
    match border {
        BorderStyle::Off => {},
        BorderStyle::Ascii => {
            dst.push(BAR);
        },
        BorderStyle::Unicode => {
            push_bytes(dst, &[0xe2, 0x94, 0x82]);
        },
    }
    assert(dst@ =~= before + bar(border));
}

/// Appends a space, where `on`.
fn push_gap(dst: &mut Vec<u8>, on: bool)
    ensures
        final(dst)@ == old(dst)@ + spaces(
            if on {
                1
            } else {
                0
            },
        ),
{
    let ghost before = dst@;
    if on {
        dst.push(SPACE);
    }
    assert(dst@ =~= before + spaces(
        if on {
            1
        } else {
            0
        },
    ));
}

/// Appends the offset column.
pub fn push_position(dst: &mut Vec<u8>, off: u64, opts: &Options, color: bool)
    ensures
        final(dst)@ == old(dst)@ + position_column(*opts, off, color),
{
    let ghost before = dst@;
    if !opts.no_position {
        push_bar(dst, opts.border);
        push_escape(dst, CYAN, color);
        let n: usize = write_offset(dst, off, opts.offset_dec, opts.uppercase);
        push_byte(dst, COLON);
        push_reset(dst, color);
        if opts.border == BorderStyle::Off {
            push_byte(dst, SPACE);
        } else {
            let width: usize = if opts.offset_dec {
                21
            } else {
                17
            };
            let pad: usize = if width > n + 1 {
                width - (n + 1)
            } else {
                0
            };
            push_fill(dst, pad, SPACE);
        }
        proof {
            let text = offset_text(off, opts.offset_dec, opts.uppercase);
            lemma_concat6(
                before,
                bar(opts.border),
                tint(color, escape(CYAN)),
                text,
                seq![COLON],
                tint(color, reset()),
                if opts.border == BorderStyle::Off {
                    seq![SPACE]
                } else {
                    spaces(monus(position_width(*opts), text.len() + 1))
                },
            );
        }
    } else {
        proof {
            lemma_concat_empty(dst@);
        }
    }
}

/// Appends column `i` of a canonical row.
fn push_canonical_cell(dst: &mut Vec<u8>, src: &[u8], i: usize, opts: &Options)
    requires
        opts.wf(),
        i < opts.width,
    ensures
        final(dst)@ == old(dst)@ + canonical_cell(*opts, src@, i as int),
{
    let ghost before = dst@;
    let gap: bool = i > 0 && (i % (opts.width / 2) == 0 || opts.group > 1 && i % opts.group == 0);
    push_gap(dst, gap);
    let ghost mid = dst@;
    if i < src.len() {
        let b: u8 = if opts.endian == Endian::Little && opts.group > 1 {
            let within: usize = i % opts.group;
            assert(i / opts.group * opts.group == i - within) by (nonlinear_arith)
                requires
                    within == i % opts.group,
                    opts.group > 0,
            ;
            assert(within < opts.group);
            let last: usize = opts.group - 1 - within;
            let start: usize = i - within;
            if last < src.len() - start {
                src[start + last]
            } else {
                0
            }
        } else {
            src[i]
        };
        push_hex2(dst, b, opts.uppercase);
    } else {
        push_fill(dst, 2, SPACE);
    }
    let after: bool = i < opts.width - 1 || !opts.no_ascii && opts.border == BorderStyle::Off;
    push_gap(dst, after);
    proof {
        assert(gap == gap_before(*opts, i as int));
        lemma_concat3(
            before,
            spaces(
                if gap {
                    1
                } else {
                    0
                },
            ),
            if i < src@.len() {
                hex2(shown_byte(*opts, src@, i as int), opts.uppercase)
            } else {
                spaces(2)
            },
            spaces(
                if after {
                    1
                } else {
                    0
                },
            ),
        );
    }
}

/// Appends a byte of the character display.
fn push_character(dst: &mut Vec<u8>, b: u8)
    ensures
        final(dst)@ == old(dst)@ + character_cell(b),
{
    let ghost before = dst@;
    match b {
        0x00 | 0x07..=0x0d => {
            push_fill(dst, 2, SPACE);
            dst.push(b);
        },
        0x20..=0x7e => {
            push_fill(dst, 3, SPACE);
            dst.push(b);
        },
        _ => {
            dst.push(SPACE);
            push_numeral(dst, b as u64, 8, 3, false);
        },
    }
    assert(dst@ =~= before + character_cell(b));
}

/// Appends a space and the digits of a byte, or as much space where the row has ended.
fn push_byte_numeral(dst: &mut Vec<u8>, src: &[u8], i: usize, base: u64, len: usize)
    requires
        2 <= base <= 16,
    ensures
        final(dst)@ == old(dst)@ + (spaces(1) + if i < src@.len() {
            numeral(src@[i as int] as nat, base as nat, len as nat, false)
        } else {
            spaces(len as nat)
        }),
{
    let ghost before = dst@;
    push_fill(dst, 1, SPACE);
    if i < src.len() {
        push_numeral(dst, src[i] as u64, base, len, false);
    } else {
        push_fill(dst, len, SPACE);
    }
    assert(dst@ =~= before + (spaces(1) + if i < src@.len() {
        numeral(src@[i as int] as nat, base as nat, len as nat, false)
    } else {
        spaces(len as nat)
    }));
}

/// The number that the group of `g` bytes at `from` denotes; the end of the row may cut it short.
fn read_group(src: &[u8], from: usize, g: usize, endian: Endian) -> (v: u64)
    requires
        from < src@.len(),
        g <= 8,
    ensures
        v == group_value(
            src@.subrange(
                from as int,
                if from + g <= src@.len() {
                    from + g
                } else {
                    src@.len() as int
                },
            ),
            endian,
        ),
{
    let n: usize = src.len();
    let len: usize = if g < n - from {
        g
    } else {
        n - from
    };
    let rest: &[u8] = vstd::slice::slice_subrange(src, from, n);
    let v: u64 = read_le_u64(rest, len, endian);
    proof {
        let bytes = src@.subrange(from as int, from + len);
        assert(rest@.take(len as int) =~= bytes);
        lemma_big_value_bound(bytes);
        lemma_big_value_bound(bytes.reverse());
    }
    v
}

/// Appends cell `i` of the main section of a row.
pub fn push_cell(dst: &mut Vec<u8>, src: &[u8], i: usize, opts: &Options)
    requires
        opts.wf(),
        opts.fits(),
        i < cell_count(*opts),
    ensures
        final(dst)@ == old(dst)@ + cell(*opts, src@, i as int),
{
    let ghost before = dst@;
    let g: usize = if opts.group > 2 {
        opts.group
    } else {
        2
    };
    match opts.mode {
        DisplayMode::Canonical => {
            push_canonical_cell(dst, src, i, opts);
        },
        DisplayMode::OneByteHex => {
            push_fill(dst, 2, SPACE);
            if i < src.len() {
                push_hex2(dst, src[i], opts.uppercase);
            } else {
                push_fill(dst, 2, SPACE);
            }
        },
        DisplayMode::OneByteOctal => {
            push_byte_numeral(dst, src, i, 8, 3);
        },
        DisplayMode::OneByteDecimal => {
            push_byte_numeral(dst, src, i, 10, 3);
        },
        DisplayMode::Binary => {
            push_byte_numeral(dst, src, i, 2, 8);
        },
        DisplayMode::OneByteChar => {
            if i < src.len() {
                push_character(dst, src[i]);
            } else {
                push_fill(dst, 4, SPACE);
            }
        },
        DisplayMode::TwoByteHex | DisplayMode::TwoByteOctal | DisplayMode::TwoByteDecimal => {
            assert(i * g <= i * 8) by (nonlinear_arith)
                requires
                    g <= 8,
            ;
            assert(0 <= i * g) by (nonlinear_arith);
            assert(g == wide_group(*opts));
            let from: usize = i * g;
            push_fill(dst, 1, SPACE);
            let digits: usize = match opts.mode {
                DisplayMode::TwoByteHex => g * 2,
                DisplayMode::TwoByteOctal => g * 3,
                _ => 5,
            };
            if from < src.len() {
                let v: u64 = read_group(src, from, g, opts.endian);
                match opts.mode {
                    DisplayMode::TwoByteHex => {
                        push_numeral(dst, v, 16, digits, opts.uppercase);
                    },
                    DisplayMode::TwoByteOctal => {
                        push_numeral(dst, v, 8, digits, false);
                    },
                    _ => {
                        push_numeral(dst, v % 65536, 10, digits, false);
                    },
                }
            } else {
                push_fill(dst, digits, SPACE);
            }
        },
        DisplayMode::Plain | DisplayMode::CInclude | DisplayMode::Reverse => {},
    }
    assert(dst@ =~= before + cell(*opts, src@, i as int));
}

/// The width that a border leaves for the main section.
pub fn hex_width(opts: &Options) -> (w: usize)
    requires
        opts.wf(),
        opts.fits(),
    ensures
        w == section_width(*opts),
        w < usize::MAX,
{
    let g: usize = if opts.group > 2 {
        opts.group
    } else {
        2
    };
    let n: usize = opts.width;
    match opts.mode {
        DisplayMode::Canonical => {
            if opts.minimal {
                return n * 2;
            }
            let mut w: usize = 0;
            for i in 0..n
                invariant
                    opts.wf(),
                    opts.fits(),
                    n == opts.width,
                    w == canonical_width(*opts, i as nat),
                    w <= i * 4,
            {
                let gap: bool = i > 0 && (i % (n / 2) == 0 || opts.group > 1 && i % opts.group
                    == 0);
                if gap {
                    w = w + 1;
                }
                w = w + 2;
                if i < n - 1 {
                    w = w + 1;
                }
            }
            w
        },
        DisplayMode::OneByteHex
        | DisplayMode::OneByteOctal
        | DisplayMode::OneByteDecimal
        | DisplayMode::OneByteChar => n * 4,
        DisplayMode::TwoByteHex => {
            proof {
                lemma_group_width(n, g, 2);
            }
            (n / g) * (g * 2 + 1)
        },
        DisplayMode::TwoByteOctal => {
            proof {
                lemma_group_width(n, g, 3);
            }
            (n / g) * (g * 3 + 1)
        },
        DisplayMode::TwoByteDecimal => {
            proof {
                lemma_group_width(n, g, 3);
            }
            assert((n / g) * 6 <= (n / g) * (g * 3 + 1)) by (nonlinear_arith)
                requires
                    g >= 2,
                    n >= 0,
            ;
            (n / g) * 6
        },
        DisplayMode::Binary => 72,
        DisplayMode::Plain | DisplayMode::CInclude | DisplayMode::Reverse => n * 3,
    }
}

/// The widths of grouped sections stay within four columns per byte.
proof fn lemma_group_width(n: usize, g: usize, d: usize)
    requires
        2 <= g <= 8,
        d <= 3,
    ensures
        (n / g) * (g * d + 1) <= n * 4,
        g * d + 1 <= 25,
{
    assert((n / g) * g <= n) by (nonlinear_arith)
        requires
            g >= 2,
            n >= 0,
    ;
    let k = n / g;
    assert(k * (g * d + 1) <= 4 * (k * g)) by (nonlinear_arith)
        requires
            g >= 2,
            d <= 3,
            k >= 0,
    ;
    assert(g * d <= 24) by (nonlinear_arith)
        requires
            g <= 8,
            d <= 3,
    ;
}

/// The width that a border leaves for the character panel.
pub fn ascii_width(opts: &Options) -> (w: usize)
    ensures
        w == opts.width,
{
    opts.width
}

/// Does a row have a character panel?
pub fn shows_panel(opts: &Options) -> (r: bool)
    ensures
        r == has_panel(*opts),
{
    !opts.no_ascii && match opts.mode {
        DisplayMode::Canonical
        | DisplayMode::Plain
        | DisplayMode::CInclude
        | DisplayMode::Reverse => true,
        _ => false,
    }
}

/// Appends what opens the character panel.
fn push_panel_open(dst: &mut Vec<u8>, opts: &Options)
    ensures
        final(dst)@ == old(dst)@ + panel_open(*opts),
{
    let ghost before = dst@;
    dst.push(SPACE);
    if opts.border == BorderStyle::Off {
        dst.push(BAR);
    } else {
        push_bar(dst, opts.border);
    }
    assert(dst@ =~= before + panel_open(*opts));
}

/// Appends what closes the character panel, or the row where there is none.
fn push_panel_close(dst: &mut Vec<u8>, opts: &Options)
    ensures
        final(dst)@ == old(dst)@ + panel_close(*opts),
{
    let ghost before = dst@;
    if opts.border != BorderStyle::Off {
        dst.push(SPACE);
        push_bar(dst, opts.border);
    } else if shows_panel(opts) {
        dst.push(BAR);
    }
    assert(dst@ =~= before + panel_close(*opts));
}

/// Appends the hexadecimal digits of all bytes.
pub fn push_hex(dst: &mut Vec<u8>, src: &[u8], upper: bool)
    ensures
        final(dst)@ == old(dst)@ + hex_text(src@, upper),
{
    let ghost before = dst@;
    for i in 0..src.len()
        invariant
            dst@ == before + hex_text(src@.take(i as int), upper),
    {
        push_hex2(dst, src[i], upper);
        assert(src@.take(i + 1).drop_last() =~= src@.take(i as int));
        assert(dst@ =~= before + hex_text(src@.take(i + 1), upper));
    }
    assert(src@.take(src@.len() as int) =~= src@);
}

/// Appends a row in any display mode, without colors.
pub fn format_row_generic(dst: &mut Vec<u8>, src: &[u8], display_off: u64, opts: &Options)
    requires
        opts.wf(),
        opts.fits(),
    ensures
        final(dst)@ == old(dst)@ + generic_row(*opts, src@, display_off),
{
    let ghost before = dst@;
    if opts.minimal && opts.mode == DisplayMode::Canonical {
        if !opts.no_position {
            write_offset(dst, display_off, opts.offset_dec, opts.uppercase);
            push_byte(dst, SPACE);
            proof {
                lemma_concat_assoc(
                    before,
                    offset_text(display_off, opts.offset_dec, opts.uppercase),
                    seq![SPACE],
                );
            }
        } else {
            proof {
                lemma_concat_empty(dst@);
            }
        }
        push_hex(dst, src, opts.uppercase);
        let ghost mid = dst@;
        if !opts.no_ascii {
            push_byte(dst, SPACE);
            push_panel(dst, src, CharTable::Ascii);
            proof {
                lemma_concat_assoc(mid, seq![SPACE], panel_text(CharTable::Ascii, src@));
            }
        } else {
            proof {
                lemma_concat_empty(dst@);
            }
        }
        push_byte(dst, NEWLINE);
        proof {
            lemma_concat4(
                before,
                if opts.no_position {
                    seq![]
                } else {
                    offset_text(display_off, opts.offset_dec, opts.uppercase) + seq![SPACE]
                },
                hex_text(src@, opts.uppercase),
                if opts.no_ascii {
                    seq![]
                } else {
                    seq![SPACE] + panel_text(CharTable::Ascii, src@)
                },
                seq![NEWLINE],
            );
        }
        return;
    }
    push_position(dst, display_off, opts, false);
    push_bar(dst, opts.border);
    push_generic_section(dst, src, opts);
    push_generic_panel(dst, src, opts);
    push_panel_close(dst, opts);
    push_byte(dst, NEWLINE);
    proof {
        lemma_concat6(
            before,
            position_column(*opts, display_off, false),
            bar(opts.border),
            generic_section(*opts, src@),
            generic_panel(*opts, src@),
            panel_close(*opts),
            seq![NEWLINE],
        );
    }
}

/// Appends the main section of a row.
fn push_generic_section(dst: &mut Vec<u8>, src: &[u8], opts: &Options)
    requires
        opts.wf(),
        opts.fits(),
    ensures
        final(dst)@ == old(dst)@ + generic_section(*opts, src@),
{
    let ghost before = dst@;
    let start: usize = dst.len();
    let count: usize = match opts.mode {
        DisplayMode::Canonical
        | DisplayMode::OneByteHex
        | DisplayMode::OneByteOctal
        | DisplayMode::OneByteDecimal
        | DisplayMode::OneByteChar => opts.width,
        DisplayMode::TwoByteHex
        | DisplayMode::TwoByteOctal
        | DisplayMode::TwoByteDecimal => opts.width / 2,
        DisplayMode::Binary => 8,
        DisplayMode::Plain | DisplayMode::CInclude | DisplayMode::Reverse => 0,
    };
    for i in 0..count
        invariant
            opts.wf(),
            opts.fits(),
            count == cell_count(*opts),
            dst@ == before + cells(*opts, src@, i as nat),
    {
        push_cell(dst, src, i, opts);
        assert(dst@ =~= before + cells(*opts, src@, (i + 1) as nat));
    }
    if opts.border != BorderStyle::Off {
        let len: usize = dst.len() - start;
        let width: usize = hex_width(opts);
        let pad: usize = if width > len {
            width - len
        } else {
            0
        };
        push_fill(dst, pad, SPACE);
    }
    assert(dst@ =~= before + generic_section(*opts, src@));
}

/// Appends the character panel.
fn push_generic_panel(dst: &mut Vec<u8>, src: &[u8], opts: &Options)
    ensures
        final(dst)@ == old(dst)@ + generic_panel(*opts, src@),
{
    let ghost before = dst@;
    if shows_panel(opts) {
        push_panel_open(dst, opts);
        let start: usize = dst.len();
        push_panel(dst, src, opts.table);
        if opts.border != BorderStyle::Off {
            let len: usize = dst.len() - start;
            let pad: usize = if opts.width > len {
                opts.width - len
            } else {
                0
            };
            push_fill(dst, pad, SPACE);
        }
    }
    assert(dst@ =~= before + generic_panel(*opts, src@));
}

/// Are the rows of `output_line` those of `format_row_generic`?
pub fn output_line_diverts(opts: &Options) -> (r: bool)
    ensures
        r == diverts(*opts),
{
    opts.mode != DisplayMode::Canonical || opts.group != 1 || opts.endian != Endian::Big
        || opts.no_position || opts.no_ascii
}

/// Appends column `i` of an aligned canonical row.
fn push_line_cell(dst: &mut Vec<u8>, src: &[u8], i: usize, opts: &Options, color: bool)
    requires
        opts.wf(),
    ensures
        final(dst)@ == old(dst)@ + line_cell(*opts, src@, color, i as int),
{
    let ghost before = dst@;
    push_gap(dst, i == opts.width / 2);
    let ghost mid = dst@;
    let ghost text = if i < src@.len() {
        tint(color, escape(byte_color(src@[i as int], opts.scheme))) + hex2(
            src@[i as int],
            opts.uppercase,
        ) + tint(color, reset())
    } else {
        spaces(2)
    };
    if i < src.len() {
        push_escape(dst, byte_ansi(src[i], opts.scheme), color);
        push_hex2(dst, src[i], opts.uppercase);
        push_reset(dst, color);
        proof {
            lemma_concat3(
                mid,
                tint(color, escape(byte_color(src@[i as int], opts.scheme))),
                hex2(src@[i as int], opts.uppercase),
                tint(color, reset()),
            );
        }
    } else {
        push_fill(dst, 2, SPACE);
    }
    let after: bool = i < opts.width - 1 || !opts.no_ascii && opts.border == BorderStyle::Off;
    push_gap(dst, after);
    proof {
        lemma_concat3(
            before,
            spaces(
                if i == opts.width / 2 {
                    1
                } else {
                    0
                },
            ),
            text,
            spaces(
                if space_after(*opts, i as int) {
                    1
                } else {
                    0
                },
            ),
        );
    }
}

/// Appends an aligned canonical row, in colors if asked for.
pub fn output_line(dst: &mut Vec<u8>, src: &[u8], disp_off: u64, opts: &Options, do_color: bool)
    requires
        opts.wf(),
        opts.fits(),
    ensures
        final(dst)@ == old(dst)@ + line_row(*opts, src@, disp_off, do_color),
{
    let ghost before = dst@;
    if output_line_diverts(opts) {
        format_row_generic(dst, src, disp_off, opts);
        return;
    }
    push_position(dst, disp_off, opts, do_color);
    push_bar(dst, opts.border);
    let ghost head = dst@;
    proof {
        lemma_concat_empty(head);
    }
    for i in 0..opts.width
        invariant
            opts.wf(),
            dst@ == head + line_cells(*opts, src@, do_color, i as nat),
    {
        push_line_cell(dst, src, i, opts, do_color);
        proof {
            lemma_concat_assoc(
                head,
                line_cells(*opts, src@, do_color, i as nat),
                line_cell(*opts, src@, do_color, i as int),
            );
        }
        assert(dst@ == head + line_cells(*opts, src@, do_color, (i + 1) as nat));
    }
    push_panel_open(dst, opts);
    let ghost open = dst@;
    proof {
        lemma_concat_empty(open);
        assert(src@.take(0) =~= Seq::<u8>::empty());
    }
    for i in 0..src.len()
        invariant
            dst@ == open + line_panel(*opts, src@.take(i as int), do_color),
    {
        let b: u8 = src[i];
        let n: u8 = if b >= 0x20 && b <= 0x7e {
            32
        } else {
            90
        };
        push_escape(dst, n, do_color);
        ascii_byte(b, opts.table, dst);
        push_reset(dst, do_color);
        assert(src@.take(i + 1).drop_last() =~= src@.take(i as int));
        proof {
            lemma_concat4(
                open,
                line_panel(*opts, src@.take(i as int), do_color),
                tint(do_color, escape(n)),
                char_text(opts.table, b),
                tint(do_color, reset()),
            );
        }
        assert(dst@ == open + line_panel(*opts, src@.take(i + 1), do_color));
    }
    assert(src@.take(src@.len() as int) =~= src@);
    let pad: usize = if opts.width > src.len() {
        opts.width - src.len()
    } else {
        0
    };
    push_fill(dst, pad, SPACE);
    push_panel_close(dst, opts);
    push_byte(dst, NEWLINE);
    proof {
        lemma_concat8(
            before,
            position_column(*opts, disp_off, do_color),
            bar(opts.border),
            line_cells(*opts, src@, do_color, opts.width as nat),
            panel_open(*opts),
            line_panel(*opts, src@, do_color),
            spaces(monus(opts.width as nat, src@.len())),
            panel_close(*opts),
            seq![NEWLINE],
        );
    }
}

/// Appends a canonical row of sixteen bytes or fewer, behind its offset column.
fn push_scalar_body(dst: &mut Vec<u8>, src: &[u8], no_ascii: bool)
    ensures
        final(dst)@ == old(dst)@ + scalar_body(src@, no_ascii),
{
    let ghost head = dst@;
    for i in 0..16usize
        invariant
            dst@ == head + scalar_cells(src@, no_ascii, i as nat),
    {
        let ghost start = dst@;
        push_gap(dst, i == 8);
        if i < src.len() {
            push_hex2(dst, src[i], false);
        } else {
            push_fill(dst, 2, SPACE);
        }
        push_gap(dst, i < 15 || !no_ascii);
        assert(dst@ =~= start + scalar_cell(src@, no_ascii, i as int));
        assert(dst@ =~= head + scalar_cells(src@, no_ascii, (i + 1) as nat));
    }
    if !no_ascii {
        dst.push(BAR);
        push_panel(dst, src, CharTable::Ascii);
        let pad: usize = if src.len() < 16 {
            16 - src.len()
        } else {
            0
        };
        push_fill(dst, pad, SPACE);
        dst.push(BAR);
    }
    dst.push(NEWLINE);
    assert(dst@ =~= head + scalar_body(src@, no_ascii));
}

/// Appends a canonical row of sixteen bytes or fewer, in the default settings.
pub fn format_scalar_row(dst: &mut Vec<u8>, src: &[u8], off: u64, no_ascii: bool)
    ensures
        final(dst)@ == old(dst)@ + scalar_row(src@, off, no_ascii),
{
    let ghost before = dst@;
    write_offset(dst, off, false, false);
    dst.push(COLON);
    dst.push(SPACE);
    push_scalar_body(dst, src, no_ascii);
    assert(dst@ =~= before + scalar_row(src@, off, no_ascii));
}

/// Appends the row of a kind.
pub fn push_row(
    dst: &mut Vec<u8>,
    kind: LayoutKind,
    src: &[u8],
    off: u64,
    opts: &Options,
    do_color: bool,
)
    requires
        opts.wf(),
        opts.fits(),
    ensures
        final(dst)@ == old(dst)@ + row(kind, *opts, src@, off, do_color),
{
    match kind {
        LayoutKind::Generic => {
            format_row_generic(dst, src, off, opts);
        },
        LayoutKind::OutputLine => {
            output_line(dst, src, off, opts, do_color);
        },
        LayoutKind::Scalar => {
            let ghost before = dst@;
            push_position(dst, off, opts, do_color);
            push_scalar_body(dst, src, opts.no_ascii);
            proof {
                lemma_concat_assoc(
                    before,
                    position_column(*opts, off, do_color),
                    scalar_body(src@, opts.no_ascii),
                );
            }
        },
    }
}

} // verus!
