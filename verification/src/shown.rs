//! What rows show, as a reader takes it.

use crate::charset::{char_text, ebcdic_to_ascii, panel_text, CP437};
use crate::dump::lemma_panels_alike;
use crate::options::{BorderStyle, CharTable, DisplayMode, Endian, Options};
use crate::row::{
    bar, diverts, generic_section, hex_text, line_cells, line_panel, offset_text, position_column,
    row, scalar_cells, LayoutKind,
};
use vstd::prelude::*;
use vstd::utf8::*;

verus! {

// ---------------------------------------------------------------- characters

/// How many bytes the character takes that starts with `c`.
pub open spec fn char_size(c: u8) -> int {
    if c < 0x80 {
        1
    } else if c < 0xe0 {
        2
    } else if c < 0xf0 {
        3
    } else {
        4
    }
}

/// The code point of the character at the start of a text.
pub open spec fn code_point(s: Seq<u8>) -> int {
    let n = char_size(s[0]);
    if n == 1 {
        s[0] as int
    } else if n == 2 {
        (s[0] - 0xc0) * 64 + (s[1] - 0x80)
    } else if n == 3 {
        (s[0] - 0xe0) * 4096 + (s[1] - 0x80) * 64 + (s[2] - 0x80)
    } else {
        (s[0] - 0xf0) * 262144 + (s[1] - 0x80) * 4096 + (s[2] - 0x80) * 64 + (s[3] - 0x80)
    }
}

/// The characters of a text, by their code points; a character cut short is none.
pub open spec fn symbols(s: Seq<u8>) -> Seq<int>
    decreases s.len(),
{
    if s.len() == 0 {
        seq![]
    } else if char_size(s[0]) > s.len() {
        seq![-1]
    } else {
        seq![code_point(s)] + symbols(s.skip(char_size(s[0])))
    }
}

/// Does a text end with a whole character?
pub open spec fn unbroken(s: Seq<u8>) -> bool
    decreases s.len(),
{
    s.len() == 0 || char_size(s[0]) <= s.len() && unbroken(s.skip(char_size(s[0])))
}

/// The characters of two texts, one after the other.
pub proof fn lemma_symbols_join(a: Seq<u8>, b: Seq<u8>)
    requires
        unbroken(a),
    ensures
        symbols(a + b) == symbols(a) + symbols(b),
        unbroken(b) ==> unbroken(a + b),
    decreases a.len(),
{
    if a.len() == 0 {
        assert(a + b =~= b);
        assert(symbols(a) + symbols(b) =~= symbols(b));
    } else {
        let n = char_size(a[0]);
        lemma_symbols_join(a.skip(n), b);
        assert((a + b).skip(n) =~= a.skip(n) + b);
        assert((a + b)[0] == a[0]);
        assert(code_point(a + b) == code_point(a));
        assert(symbols(a + b) =~= symbols(a) + symbols(b));
    }
}

/// The character of code page 437 for a byte outside of ASCII, by its code point.
pub open spec fn dos_symbol(b: u8) -> int {
    match b {
        0x00 => 0x0020,
        0x01 => 0x263a,
        0x02 => 0x263b,
        0x03 => 0x2665,
        0x04 => 0x2666,
        0x05 => 0x2663,
        0x06 => 0x2660,
        0x07 => 0x2022,
        0x08 => 0x25d8,
        0x09 => 0x25cb,
        0x0a => 0x25d9,
        0x0b => 0x2642,
        0x0c => 0x2640,
        0x0d => 0x266a,
        0x0e => 0x266b,
        0x0f => 0x263c,
        0x10 => 0x25ba,
        0x11 => 0x25c4,
        0x12 => 0x2195,
        0x13 => 0x203c,
        0x14 => 0x00b6,
        0x15 => 0x00a7,
        0x16 => 0x25ac,
        0x17 => 0x21a8,
        0x18 => 0x2191,
        0x19 => 0x2193,
        0x1a => 0x2192,
        0x1b => 0x2190,
        0x1c => 0x221f,
        0x1d => 0x2194,
        0x1e => 0x25b2,
        0x1f => 0x25bc,
        0x7f => 0x2302,
        0x80 => 0x00c7,
        0x81 => 0x00fc,
        0x82 => 0x00e9,
        0x83 => 0x00e2,
        0x84 => 0x00e4,
        0x85 => 0x00e0,
        0x86 => 0x00e5,
        0x87 => 0x00e7,
        0x88 => 0x00ea,
        0x89 => 0x00eb,
        0x8a => 0x00e8,
        0x8b => 0x00ef,
        0x8c => 0x00ee,
        0x8d => 0x00ec,
        0x8e => 0x00c4,
        0x8f => 0x00c5,
        0x90 => 0x00c9,
        0x91 => 0x00e6,
        0x92 => 0x00c6,
        0x93 => 0x00f4,
        0x94 => 0x00f6,
        0x95 => 0x00f2,
        0x96 => 0x00fb,
        0x97 => 0x00f9,
        0x98 => 0x00ff,
        0x99 => 0x00d6,
        0x9a => 0x00dc,
        0x9b => 0x00a2,
        0x9c => 0x00a3,
        0x9d => 0x00a5,
        0x9e => 0x20a7,
        0x9f => 0x0192,
        0xa0 => 0x00e1,
        0xa1 => 0x00ed,
        0xa2 => 0x00f3,
        0xa3 => 0x00fa,
        0xa4 => 0x00f1,
        0xa5 => 0x00d1,
        0xa6 => 0x00aa,
        0xa7 => 0x00ba,
        0xa8 => 0x00bf,
        0xa9 => 0x2310,
        0xaa => 0x00ac,
        0xab => 0x00bd,
        0xac => 0x00bc,
        0xad => 0x00a1,
        0xae => 0x00ab,
        0xaf => 0x00bb,
        0xb0 => 0x2591,
        0xb1 => 0x2592,
        0xb2 => 0x2593,
        0xb3 => 0x2502,
        0xb4 => 0x2524,
        0xb5 => 0x2561,
        0xb6 => 0x2562,
        0xb7 => 0x2556,
        0xb8 => 0x2555,
        0xb9 => 0x2563,
        0xba => 0x2551,
        0xbb => 0x2557,
        0xbc => 0x255d,
        0xbd => 0x255c,
        0xbe => 0x255b,
        0xbf => 0x2510,
        0xc0 => 0x2514,
        0xc1 => 0x2534,
        0xc2 => 0x252c,
        0xc3 => 0x251c,
        0xc4 => 0x2500,
        0xc5 => 0x253c,
        0xc6 => 0x255e,
        0xc7 => 0x255f,
        0xc8 => 0x255a,
        0xc9 => 0x2554,
        0xca => 0x2569,
        0xcb => 0x2566,
        0xcc => 0x2560,
        0xcd => 0x2550,
        0xce => 0x256c,
        0xcf => 0x2567,
        0xd0 => 0x2568,
        0xd1 => 0x2564,
        0xd2 => 0x2565,
        0xd3 => 0x2559,
        0xd4 => 0x2558,
        0xd5 => 0x2552,
        0xd6 => 0x2553,
        0xd7 => 0x256b,
        0xd8 => 0x256a,
        0xd9 => 0x2518,
        0xda => 0x250c,
        0xdb => 0x2588,
        0xdc => 0x2584,
        0xdd => 0x258c,
        0xde => 0x2590,
        0xdf => 0x2580,
        0xe0 => 0x03b1,
        0xe1 => 0x00df,
        0xe2 => 0x0393,
        0xe3 => 0x03c0,
        0xe4 => 0x03a3,
        0xe5 => 0x03c3,
        0xe6 => 0x00b5,
        0xe7 => 0x03c4,
        0xe8 => 0x03a6,
        0xe9 => 0x0398,
        0xea => 0x03a9,
        0xeb => 0x03b4,
        0xec => 0x221e,
        0xed => 0x03c6,
        0xee => 0x03b5,
        0xef => 0x2229,
        0xf0 => 0x2261,
        0xf1 => 0x00b1,
        0xf2 => 0x2265,
        0xf3 => 0x2264,
        0xf4 => 0x2320,
        0xf5 => 0x2321,
        0xf6 => 0x00f7,
        0xf7 => 0x2248,
        0xf8 => 0x00b0,
        0xf9 => 0x2219,
        0xfa => 0x00b7,
        0xfb => 0x221a,
        0xfc => 0x207f,
        0xfd => 0x00b2,
        0xfe => 0x25a0,
        0xff => 0x0020,
        _ => b as int,
    }
}

/// The code of a character in EBCDIC; negative for those that it has not.
pub open spec fn ebcdic_code(c: u8) -> int {
    if 0x30 <= c <= 0x39 {
        0xf0 + (c - 0x30)
    } else if 0x41 <= c <= 0x49 {
        0xc1 + (c - 0x41)
    } else if 0x4a <= c <= 0x52 {
        0xd1 + (c - 0x4a)
    } else if 0x53 <= c <= 0x5a {
        0xe2 + (c - 0x53)
    } else if 0x61 <= c <= 0x69 {
        0x81 + (c - 0x61)
    } else if 0x6a <= c <= 0x72 {
        0x91 + (c - 0x6a)
    } else if 0x73 <= c <= 0x7a {
        0xa2 + (c - 0x73)
    } else {
        match c {
            0x20 => 0x40,
            0x21 => 0x5a,
            0x22 => 0x7f,
            0x23 => 0x7b,
            0x24 => 0x5b,
            0x25 => 0x6c,
            0x26 => 0x50,
            0x27 => 0x7d,
            0x28 => 0x4d,
            0x29 => 0x5d,
            0x2a => 0x5c,
            0x2b => 0x4e,
            0x2c => 0x6b,
            0x2d => 0x60,
            0x2e => 0x4b,
            0x2f => 0x61,
            0x3a => 0x7a,
            0x3b => 0x5e,
            0x3c => 0x4c,
            0x3d => 0x7e,
            0x3e => 0x6e,
            0x3f => 0x6f,
            0x40 => 0x7c,
            0x5e => 0x5f,
            0x5f => 0x6d,
            0x60 => 0x79,
            0x7c => 0x4f,
            _ => -1,
        }
    }
}

/// Is `c` the code point of the character that a table has for the byte `b`?
pub open spec fn stands_for(table: CharTable, c: int, b: u8) -> bool {
    match table {
        // a character of ASCII stands for itself, anything else is a dot
        CharTable::Ascii => c == if 0x20 <= b <= 0x7e {
            b as int
        } else {
            0x2e
        },
        // the same with a diamond for zero and a bullet for the others
        CharTable::Default => c == if b == 0 {
            0x22c4
        } else if 0x20 <= b <= 0x7e {
            b as int
        } else {
            0x2022
        },
        // the Braille patterns are numbered by their dots
        CharTable::Braille => c == 0x2800 + b,
        CharTable::Cp437 => c == dos_symbol(b),
        // a character stands for its code; a dot also for what is no code
        CharTable::Ebcdic => {
            &&& 0x20 <= c <= 0x7e
            &&& ebcdic_code(c as u8) == b || c == 0x2e && forall|d: u8|
                #[trigger] ebcdic_code(d) != b
        },
    }
}

/// Every table shows each of the 256 bytes as one character.
pub proof fn lemma_char_symbol(table: CharTable, b: u8)
    ensures
        symbols(char_text(table, b)).len() == 1,
        stands_for(table, symbols(char_text(table, b))[0], b),
        table == CharTable::Ascii || table == CharTable::Ebcdic ==> char_text(table, b).len() == 1,
{
    lemma_char_whole(table, b);
}

proof fn lemma_char_whole(table: CharTable, b: u8)
    ensures
        unbroken(char_text(table, b)),
        symbols(char_text(table, b)).len() == 1,
        stands_for(table, symbols(char_text(table, b))[0], b),
        table == CharTable::Ascii || table == CharTable::Ebcdic ==> char_text(table, b).len() == 1,
{
    let t = char_text(table, b);
    reveal_with_fuel(unbroken, 2);
    reveal_with_fuel(symbols, 2);
    if table == CharTable::Cp437 {
        lemma_dos(b);
        let v = CP437@[b as int] as u32;
        assert(v == dos_symbol(b));
        lemma_encoded(v);
    }
    if table == CharTable::Ebcdic {
        assert forall|d: u8| #[trigger] ebcdic_code(d) == b implies t[0] == d by {
            lemma_ebcdic(d);
        }
    }
    assert(t.skip(char_size(t[0])) =~= Seq::<u8>::empty());
}

proof fn lemma_ebcdic(d: u8)
    ensures
        0 <= ebcdic_code(d) ==> ebcdic_to_ascii(ebcdic_code(d) as u8) == d,
{
}

/// The characters of a panel stand for the bytes of its row, one for each.
pub open spec fn pictures(p: Seq<u8>, table: CharTable, src: Seq<u8>) -> bool {
    &&& symbols(p).len() == src.len()
    &&& forall|i: int|
        0 <= i < src.len() ==> stands_for(table, #[trigger] symbols(p)[i], src[i])
}

proof fn lemma_panel_pictures(table: CharTable, src: Seq<u8>)
    ensures
        unbroken(panel_text(table, src)),
        pictures(panel_text(table, src), table, src),
        table == CharTable::Ascii || table == CharTable::Ebcdic ==> panel_text(table, src).len()
            == src.len(),
    decreases src.len(),
{
    if src.len() > 0 {
        let front = panel_text(table, src.drop_last());
        let last = char_text(table, src.last());
        lemma_panel_pictures(table, src.drop_last());
        lemma_char_whole(table, src.last());
        lemma_symbols_join(front, last);
        let all = symbols(front + last);
        assert forall|i: int| 0 <= i < src.len() implies stands_for(
            table,
            #[trigger] all[i],
            src[i],
        ) by {
            if i < src.len() - 1 {
                assert(all[i] == symbols(front)[i]);
                assert(src.drop_last()[i] == src[i]);
            }
        }
    }
}

/// The line that encloses a panel.
pub open spec fn panel_bar(border: BorderStyle) -> Seq<u8> {
    match border {
        BorderStyle::Unicode => seq![0xe2u8, 0x94, 0x82],
        _ => seq![0x7cu8],
    }
}

/// Are rows of these settings aligned, and so in color where colors are on?
pub open spec fn is_aligned(opts: Options) -> bool {
    opts.mode == DisplayMode::Canonical && opts.group == 1 && opts.endian == Endian::Big
        && !opts.no_position && !opts.no_ascii
}

/// What stands behind the characters of a canonical row of `n` bytes whose panel has `len` bytes:
/// spaces up to the width of the panel, where it is filled up, and its end.
pub open spec fn behind_panel(kind: LayoutKind, opts: Options, n: nat, len: nat) -> Seq<u8> {
    let room = if kind == LayoutKind::Scalar {
        16 - n
    } else if kind == LayoutKind::OutputLine && is_aligned(opts) {
        opts.width - n
    } else if opts.border == BorderStyle::Off {
        0
    } else {
        opts.width - len
    };
    let pad = Seq::new(
        if room > 0 {
            room as nat
        } else {
            0
        },
        |i: int| 0x20u8,
    );
    if kind == LayoutKind::Scalar || opts.border == BorderStyle::Off {
        pad + seq![0x7cu8, 0x0a]
    } else {
        pad + seq![0x20u8] + panel_bar(opts.border) + seq![0x0au8]
    }
}

/// A canonical row ends with its panel: a line, one character for each of its bytes, and a line
/// behind them. In ASCII each byte from 0x20 to 0x7e is shown as itself and any other as a dot.
/// Returns what stands before the characters, and the characters.
#[verifier::rlimit(50)]
pub proof fn lemma_row_panel(kind: LayoutKind, opts: Options, src: Seq<u8>, off: u64) -> (r: (
    Seq<u8>,
    Seq<u8>,
))
    requires
        opts.mode == DisplayMode::Canonical,
        !opts.no_ascii,
        !opts.minimal,
    ensures
        ({
            let (before, panel) = r;
            let table = if kind == LayoutKind::Scalar {
                CharTable::Ascii
            } else {
                opts.table
            };
            let line = if kind == LayoutKind::Scalar {
                seq![0x7cu8]
            } else {
                panel_bar(opts.border)
            };
            &&& row(kind, opts, src, off, false) == before + line + panel + behind_panel(
                kind,
                opts,
                src.len(),
                panel.len(),
            )
            &&& pictures(panel, table, src)
            &&& panel == panel_text(table, src)
            &&& kind != LayoutKind::Scalar ==> before.last() == 0x20
            &&& table == CharTable::Ascii ==> panel.len() == src.len() && forall|i: int|
                0 <= i < src.len() ==> #[trigger] panel[i] == if 0x20 <= src[i] <= 0x7e {
                    src[i]
                } else {
                    0x2e
                }
        }),
{
    let table = if kind == LayoutKind::Scalar {
        CharTable::Ascii
    } else {
        opts.table
    };
    let panel = panel_text(table, src);
    lemma_panel_pictures(table, src);
    lemma_ascii_panel(src);
    let back = behind_panel(kind, opts, src.len(), panel.len());
    if kind == LayoutKind::Scalar {
        let before = position_column(opts, off, false) + scalar_cells(src, false, 16);
        lemma_scalar_end(opts, src, off, before, panel, back);
        (before, panel)
    } else if kind == LayoutKind::OutputLine && !diverts(opts) {
        lemma_panels_alike(opts, src);
        let before = position_column(opts, off, false) + bar(opts.border) + line_cells(
            opts,
            src,
            false,
            opts.width as nat,
        ) + seq![0x20u8];
        lemma_line_end(opts, src, off, before, panel, back);
        (before, panel)
    } else {
        let before = position_column(opts, off, false) + bar(opts.border) + generic_section(
            opts,
            src,
        ) + seq![0x20u8];
        lemma_generic_end(kind, opts, src, off, before, panel, back);
        (before, panel)
    }
}

proof fn lemma_scalar_end(
    opts: Options,
    src: Seq<u8>,
    off: u64,
    before: Seq<u8>,
    panel: Seq<u8>,
    back: Seq<u8>,
)
    requires
        !opts.no_ascii,
        before == position_column(opts, off, false) + scalar_cells(src, false, 16),
        panel == panel_text(CharTable::Ascii, src),
        back == behind_panel(LayoutKind::Scalar, opts, src.len(), panel.len()),
    ensures
        row(LayoutKind::Scalar, opts, src, off, false) == before + seq![0x7cu8] + panel + back,
{
    assert(row(LayoutKind::Scalar, opts, src, off, false) =~= before + seq![0x7cu8] + panel + back);
}

proof fn lemma_generic_end(
    kind: LayoutKind,
    opts: Options,
    src: Seq<u8>,
    off: u64,
    before: Seq<u8>,
    panel: Seq<u8>,
    back: Seq<u8>,
)
    requires
        opts.mode == DisplayMode::Canonical,
        !opts.no_ascii,
        !opts.minimal,
        kind == LayoutKind::Generic || kind == LayoutKind::OutputLine && diverts(opts),
        before == position_column(opts, off, false) + bar(opts.border) + generic_section(opts, src)
            + seq![0x20u8],
        panel == panel_text(opts.table, src),
        back == behind_panel(kind, opts, src.len(), panel.len()),
    ensures
        row(kind, opts, src, off, false) == before + panel_bar(opts.border) + panel + back,
{
    assert(row(kind, opts, src, off, false) =~= before + panel_bar(opts.border) + panel + back);
}

proof fn lemma_line_end(
    opts: Options,
    src: Seq<u8>,
    off: u64,
    before: Seq<u8>,
    panel: Seq<u8>,
    back: Seq<u8>,
)
    requires
        opts.mode == DisplayMode::Canonical,
        !opts.no_ascii,
        !diverts(opts),
        before == position_column(opts, off, false) + bar(opts.border) + line_cells(
            opts,
            src,
            false,
            opts.width as nat,
        ) + seq![0x20u8],
        panel == line_panel(opts, src, false),
        back == behind_panel(LayoutKind::OutputLine, opts, src.len(), panel.len()),
    ensures
        row(LayoutKind::OutputLine, opts, src, off, false) == before + panel_bar(opts.border)
            + panel + back,
{
    assert(row(LayoutKind::OutputLine, opts, src, off, false) =~= before + panel_bar(opts.border)
        + panel + back);
}

proof fn lemma_ascii_panel(src: Seq<u8>)
    ensures
        panel_text(CharTable::Ascii, src).len() == src.len(),
        forall|i: int|
            0 <= i < src.len() ==> #[trigger] panel_text(CharTable::Ascii, src)[i] == if 0x20
                <= src[i] <= 0x7e {
                src[i]
            } else {
                0x2e
            },
    decreases src.len(),
{
    if src.len() > 0 {
        lemma_ascii_panel(src.drop_last());
    }
}

/// A compact row ends with one ASCII character for each of its bytes.
pub proof fn lemma_compact_panel(opts: Options, src: Seq<u8>, off: u64) -> (before: Seq<u8>)
    requires
        opts.mode == DisplayMode::Canonical,
        !opts.no_ascii,
        opts.minimal,
    ensures
        ({
            let all = row(LayoutKind::Generic, opts, src, off, false);
            &&& all.len() == before.len() + 1 + src.len() + 1
            &&& all.take(before.len() as int) == before
            &&& all[before.len() as int] == 0x20
            &&& all.last() == 0x0a
            &&& forall|i: int|
                0 <= i < src.len() ==> #[trigger] all[before.len() + 1 + i] == if 0x20 <= src[i]
                    <= 0x7e {
                    src[i]
                } else {
                    0x2e
                }
        }),
{
    let all = row(LayoutKind::Generic, opts, src, off, false);
    let panel = panel_text(CharTable::Ascii, src);
    let before = (if opts.no_position {
        seq![]
    } else {
        offset_text(off, opts.offset_dec, opts.uppercase) + seq![0x20u8]
    }) + hex_text(src, opts.uppercase);
    lemma_ascii_panel(src);
    assert(all =~= before + seq![0x20u8] + panel + seq![0x0au8]);
    assert(all.take(before.len() as int) =~= before);
    assert forall|i: int| 0 <= i < src.len() implies #[trigger] all[before.len() + 1 + i]
        == panel[i] by {}
    before
}

/// A code point is read back from its encoding.
proof fn lemma_encoded(v: u32)
    requires
        v < 0xd800,
    ensures
        ({
            let t = encode_scalar(v);
            &&& t.len() > 0
            &&& t.len() == char_size(t[0])
            &&& code_point(t) == v
        }),
{
    assert(v <= 0x7f ==> (v & 0x7F) as u8 == v) by (bit_vector);
    assert(v <= 0x7ff ==> 0xC0 | ((v >> 6) & 0x1F) as u8 == 0xc0 + v / 64) by (bit_vector);
    assert(v <= 0xffff ==> 0xE0 | ((v >> 12) & 0x0F) as u8 == 0xe0 + v / 4096) by (bit_vector);
    assert(0x80 | ((v >> 6) & 0x3F) as u8 == 0x80 + v / 64 % 64) by (bit_vector);
    assert(0x80 | (v & 0x3F) as u8 == 0x80 + v % 64) by (bit_vector);
}

proof fn lemma_dos(b: u8)
    ensures
        CP437@[b as int] as int == dos_symbol(b),
{
    assert(CP437@[0x00] == ' ');
    assert(CP437@[0x01] == '☺');
    assert(CP437@[0x02] == '☻');
    assert(CP437@[0x03] == '♥');
    assert(CP437@[0x04] == '♦');
    assert(CP437@[0x05] == '♣');
    assert(CP437@[0x06] == '♠');
    assert(CP437@[0x07] == '•');
    assert(CP437@[0x08] == '◘');
    assert(CP437@[0x09] == '○');
    assert(CP437@[0x0a] == '◙');
    assert(CP437@[0x0b] == '♂');
    assert(CP437@[0x0c] == '♀');
    assert(CP437@[0x0d] == '♪');
    assert(CP437@[0x0e] == '♫');
    assert(CP437@[0x0f] == '☼');
    assert(CP437@[0x10] == '►');
    assert(CP437@[0x11] == '◄');
    assert(CP437@[0x12] == '↕');
    assert(CP437@[0x13] == '‼');
    assert(CP437@[0x14] == '¶');
    assert(CP437@[0x15] == '§');
    assert(CP437@[0x16] == '▬');
    assert(CP437@[0x17] == '↨');
    assert(CP437@[0x18] == '↑');
    assert(CP437@[0x19] == '↓');
    assert(CP437@[0x1a] == '→');
    assert(CP437@[0x1b] == '←');
    assert(CP437@[0x1c] == '∟');
    assert(CP437@[0x1d] == '↔');
    assert(CP437@[0x1e] == '▲');
    assert(CP437@[0x1f] == '▼');
    assert(CP437@[0x20] == ' ');
    assert(CP437@[0x21] == '!');
    assert(CP437@[0x22] == '"');
    assert(CP437@[0x23] == '#');
    assert(CP437@[0x24] == '$');
    assert(CP437@[0x25] == '%');
    assert(CP437@[0x26] == '&');
    assert(CP437@[0x27] == '\'');
    assert(CP437@[0x28] == '(');
    assert(CP437@[0x29] == ')');
    assert(CP437@[0x2a] == '*');
    assert(CP437@[0x2b] == '+');
    assert(CP437@[0x2c] == ',');
    assert(CP437@[0x2d] == '-');
    assert(CP437@[0x2e] == '.');
    assert(CP437@[0x2f] == '/');
    assert(CP437@[0x30] == '0');
    assert(CP437@[0x31] == '1');
    assert(CP437@[0x32] == '2');
    assert(CP437@[0x33] == '3');
    assert(CP437@[0x34] == '4');
    assert(CP437@[0x35] == '5');
    assert(CP437@[0x36] == '6');
    assert(CP437@[0x37] == '7');
    assert(CP437@[0x38] == '8');
    assert(CP437@[0x39] == '9');
    assert(CP437@[0x3a] == ':');
    assert(CP437@[0x3b] == ';');
    assert(CP437@[0x3c] == '<');
    assert(CP437@[0x3d] == '=');
    assert(CP437@[0x3e] == '>');
    assert(CP437@[0x3f] == '?');
    assert(CP437@[0x40] == '@');
    assert(CP437@[0x41] == 'A');
    assert(CP437@[0x42] == 'B');
    assert(CP437@[0x43] == 'C');
    assert(CP437@[0x44] == 'D');
    assert(CP437@[0x45] == 'E');
    assert(CP437@[0x46] == 'F');
    assert(CP437@[0x47] == 'G');
    assert(CP437@[0x48] == 'H');
    assert(CP437@[0x49] == 'I');
    assert(CP437@[0x4a] == 'J');
    assert(CP437@[0x4b] == 'K');
    assert(CP437@[0x4c] == 'L');
    assert(CP437@[0x4d] == 'M');
    assert(CP437@[0x4e] == 'N');
    assert(CP437@[0x4f] == 'O');
    assert(CP437@[0x50] == 'P');
    assert(CP437@[0x51] == 'Q');
    assert(CP437@[0x52] == 'R');
    assert(CP437@[0x53] == 'S');
    assert(CP437@[0x54] == 'T');
    assert(CP437@[0x55] == 'U');
    assert(CP437@[0x56] == 'V');
    assert(CP437@[0x57] == 'W');
    assert(CP437@[0x58] == 'X');
    assert(CP437@[0x59] == 'Y');
    assert(CP437@[0x5a] == 'Z');
    assert(CP437@[0x5b] == '[');
    assert(CP437@[0x5c] == '\\');
    assert(CP437@[0x5d] == ']');
    assert(CP437@[0x5e] == '^');
    assert(CP437@[0x5f] == '_');
    assert(CP437@[0x60] == '`');
    assert(CP437@[0x61] == 'a');
    assert(CP437@[0x62] == 'b');
    assert(CP437@[0x63] == 'c');
    assert(CP437@[0x64] == 'd');
    assert(CP437@[0x65] == 'e');
    assert(CP437@[0x66] == 'f');
    assert(CP437@[0x67] == 'g');
    assert(CP437@[0x68] == 'h');
    assert(CP437@[0x69] == 'i');
    assert(CP437@[0x6a] == 'j');
    assert(CP437@[0x6b] == 'k');
    assert(CP437@[0x6c] == 'l');
    assert(CP437@[0x6d] == 'm');
    assert(CP437@[0x6e] == 'n');
    assert(CP437@[0x6f] == 'o');
    assert(CP437@[0x70] == 'p');
    assert(CP437@[0x71] == 'q');
    assert(CP437@[0x72] == 'r');
    assert(CP437@[0x73] == 's');
    assert(CP437@[0x74] == 't');
    assert(CP437@[0x75] == 'u');
    assert(CP437@[0x76] == 'v');
    assert(CP437@[0x77] == 'w');
    assert(CP437@[0x78] == 'x');
    assert(CP437@[0x79] == 'y');
    assert(CP437@[0x7a] == 'z');
    assert(CP437@[0x7b] == '{');
    assert(CP437@[0x7c] == '|');
    assert(CP437@[0x7d] == '}');
    assert(CP437@[0x7e] == '~');
    assert(CP437@[0x7f] == '⌂');
    assert(CP437@[0x80] == 'Ç');
    assert(CP437@[0x81] == 'ü');
    assert(CP437@[0x82] == 'é');
    assert(CP437@[0x83] == 'â');
    assert(CP437@[0x84] == 'ä');
    assert(CP437@[0x85] == 'à');
    assert(CP437@[0x86] == 'å');
    assert(CP437@[0x87] == 'ç');
    assert(CP437@[0x88] == 'ê');
    assert(CP437@[0x89] == 'ë');
    assert(CP437@[0x8a] == 'è');
    assert(CP437@[0x8b] == 'ï');
    assert(CP437@[0x8c] == 'î');
    assert(CP437@[0x8d] == 'ì');
    assert(CP437@[0x8e] == 'Ä');
    assert(CP437@[0x8f] == 'Å');
    assert(CP437@[0x90] == 'É');
    assert(CP437@[0x91] == 'æ');
    assert(CP437@[0x92] == 'Æ');
    assert(CP437@[0x93] == 'ô');
    assert(CP437@[0x94] == 'ö');
    assert(CP437@[0x95] == 'ò');
    assert(CP437@[0x96] == 'û');
    assert(CP437@[0x97] == 'ù');
    assert(CP437@[0x98] == 'ÿ');
    assert(CP437@[0x99] == 'Ö');
    assert(CP437@[0x9a] == 'Ü');
    assert(CP437@[0x9b] == '¢');
    assert(CP437@[0x9c] == '£');
    assert(CP437@[0x9d] == '¥');
    assert(CP437@[0x9e] == '₧');
    assert(CP437@[0x9f] == 'ƒ');
    assert(CP437@[0xa0] == 'á');
    assert(CP437@[0xa1] == 'í');
    assert(CP437@[0xa2] == 'ó');
    assert(CP437@[0xa3] == 'ú');
    assert(CP437@[0xa4] == 'ñ');
    assert(CP437@[0xa5] == 'Ñ');
    assert(CP437@[0xa6] == 'ª');
    assert(CP437@[0xa7] == 'º');
    assert(CP437@[0xa8] == '¿');
    assert(CP437@[0xa9] == '⌐');
    assert(CP437@[0xaa] == '¬');
    assert(CP437@[0xab] == '½');
    assert(CP437@[0xac] == '¼');
    assert(CP437@[0xad] == '¡');
    assert(CP437@[0xae] == '«');
    assert(CP437@[0xaf] == '»');
    assert(CP437@[0xb0] == '░');
    assert(CP437@[0xb1] == '▒');
    assert(CP437@[0xb2] == '▓');
    assert(CP437@[0xb3] == '│');
    assert(CP437@[0xb4] == '┤');
    assert(CP437@[0xb5] == '╡');
    assert(CP437@[0xb6] == '╢');
    assert(CP437@[0xb7] == '╖');
    assert(CP437@[0xb8] == '╕');
    assert(CP437@[0xb9] == '╣');
    assert(CP437@[0xba] == '║');
    assert(CP437@[0xbb] == '╗');
    assert(CP437@[0xbc] == '╝');
    assert(CP437@[0xbd] == '╜');
    assert(CP437@[0xbe] == '╛');
    assert(CP437@[0xbf] == '┐');
    assert(CP437@[0xc0] == '└');
    assert(CP437@[0xc1] == '┴');
    assert(CP437@[0xc2] == '┬');
    assert(CP437@[0xc3] == '├');
    assert(CP437@[0xc4] == '─');
    assert(CP437@[0xc5] == '┼');
    assert(CP437@[0xc6] == '╞');
    assert(CP437@[0xc7] == '╟');
    assert(CP437@[0xc8] == '╚');
    assert(CP437@[0xc9] == '╔');
    assert(CP437@[0xca] == '╩');
    assert(CP437@[0xcb] == '╦');
    assert(CP437@[0xcc] == '╠');
    assert(CP437@[0xcd] == '═');
    assert(CP437@[0xce] == '╬');
    assert(CP437@[0xcf] == '╧');
    assert(CP437@[0xd0] == '╨');
    assert(CP437@[0xd1] == '╤');
    assert(CP437@[0xd2] == '╥');
    assert(CP437@[0xd3] == '╙');
    assert(CP437@[0xd4] == '╘');
    assert(CP437@[0xd5] == '╒');
    assert(CP437@[0xd6] == '╓');
    assert(CP437@[0xd7] == '╫');
    assert(CP437@[0xd8] == '╪');
    assert(CP437@[0xd9] == '┘');
    assert(CP437@[0xda] == '┌');
    assert(CP437@[0xdb] == '█');
    assert(CP437@[0xdc] == '▄');
    assert(CP437@[0xdd] == '▌');
    assert(CP437@[0xde] == '▐');
    assert(CP437@[0xdf] == '▀');
    assert(CP437@[0xe0] == 'α');
    assert(CP437@[0xe1] == 'ß');
    assert(CP437@[0xe2] == 'Γ');
    assert(CP437@[0xe3] == 'π');
    assert(CP437@[0xe4] == 'Σ');
    assert(CP437@[0xe5] == 'σ');
    assert(CP437@[0xe6] == 'µ');
    assert(CP437@[0xe7] == 'τ');
    assert(CP437@[0xe8] == 'Φ');
    assert(CP437@[0xe9] == 'Θ');
    assert(CP437@[0xea] == 'Ω');
    assert(CP437@[0xeb] == 'δ');
    assert(CP437@[0xec] == '∞');
    assert(CP437@[0xed] == 'φ');
    assert(CP437@[0xee] == 'ε');
    assert(CP437@[0xef] == '∩');
    assert(CP437@[0xf0] == '≡');
    assert(CP437@[0xf1] == '±');
    assert(CP437@[0xf2] == '≥');
    assert(CP437@[0xf3] == '≤');
    assert(CP437@[0xf4] == '⌠');
    assert(CP437@[0xf5] == '⌡');
    assert(CP437@[0xf6] == '÷');
    assert(CP437@[0xf7] == '≈');
    assert(CP437@[0xf8] == '°');
    assert(CP437@[0xf9] == '∙');
    assert(CP437@[0xfa] == '·');
    assert(CP437@[0xfb] == '√');
    assert(CP437@[0xfc] == 'ⁿ');
    assert(CP437@[0xfd] == '²');
    assert(CP437@[0xfe] == '■');
    assert(CP437@[0xff] == ' ');
}

} // verus!
