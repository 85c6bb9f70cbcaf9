//! Colors change nothing but the colors.

use crate::border::{
    ascii_title, centered, columns, dash, edge_line, head_text, header_line, hex_title, joint,
    offset_title, repeated, Columns, Edge,
};
use crate::bytes::{lemma_concat_assoc, lemma_concat_empty, monus, spaces, COLON, NEWLINE, SPACE};
use crate::charset::{char_text, lemma_char_text_visible, panel_text};
use crate::color::{byte_color, escape, panel_color, reset, tint, CYAN};
use crate::dump::{
    dump_text, footer_text, halted, offset_at, offset_line, row_bytes, row_text, rows_text,
    serial_text, star_line, started, step_text, stream_footer, tail_bytes, tail_text, walk_state,
    walk_text, ProgressView, Style,
};
use crate::numeral::{digit_count, hex2, numeral};
use crate::options::{BorderStyle, CharTable, DisplayMode, Options};
use crate::row::{
    bar, cell, cell_count, cells, diverts, generic_panel, generic_row, generic_section, group_bytes,
    group_value, hex_text, line_cell, line_cells, line_panel, line_row, minimal_row, offset_text,
    panel_close, panel_open, position_column, position_width, row, scalar_body, scalar_cell,
    scalar_cells, shown_byte, space_after, wide_group, LayoutKind,
};
use crate::stream::{
    closing_text, end_offset, fed, fed_text, has_rest, opened, stream_text, StreamView,
};
use vstd::prelude::*;

verus! {

/// The first byte of an escape sequence.
pub const ESC: u8 = 0x1b;

/// The place after the first `m` from `k` on, with which an escape sequence ends.
pub open spec fn escape_end(s: Seq<u8>, k: int) -> int
    decreases s.len() - k,
{
    if k < 0 || k >= s.len() {
        s.len() as int
    } else if s[k] == 0x6d {
        k + 1
    } else {
        escape_end(s, k + 1)
    }
}

/// What is left of a text when its escape sequences are taken out.
pub open spec fn bare(s: Seq<u8>) -> Seq<u8>
    decreases s.len(),
{
    if s.len() == 0 {
        seq![]
    } else if s[0] == ESC {
        let end = escape_end(s, 1);
        if 0 < end <= s.len() {
            bare(s.skip(end))
        } else {
            seq![]
        }
    } else {
        seq![s[0]] + bare(s.skip(1))
    }
}

/// Is the text free of escape sequences?
spec fn clean(s: Seq<u8>) -> bool {
    forall|i: int| 0 <= i < s.len() ==> #[trigger] s[i] != ESC
}

/// Is `p` what is left of `c`, whatever follows?
spec fn uncolors(c: Seq<u8>, p: Seq<u8>) -> bool {
    forall|rest: Seq<u8>| #[trigger] bare(c + rest) == p + bare(rest)
}

proof fn lemma_bare_clean(a: Seq<u8>, rest: Seq<u8>)
    requires
        clean(a),
    ensures
        bare(a + rest) == a + bare(rest),
    decreases a.len(),
{
    if a.len() == 0 {
        assert(a + rest =~= rest);
        assert(a + bare(rest) =~= bare(rest));
    } else {
        let tail = a.skip(1);
        assert(clean(tail)) by {
            assert forall|i: int| 0 <= i < tail.len() implies #[trigger] tail[i] != ESC by {
                assert(tail[i] == a[i + 1]);
            }
        }
        lemma_bare_clean(tail, rest);
        assert((a + rest)[0] == a[0]);
        assert((a + rest).skip(1) =~= tail + rest);
        assert(seq![a[0]] + (tail + bare(rest)) =~= a + bare(rest));
    }
}

/// A text without escape sequences is left as it is.
proof fn lemma_plain(s: Seq<u8>)
    requires
        clean(s),
    ensures
        uncolors(s, s),
{
    assert forall|rest: Seq<u8>| #[trigger] bare(s + rest) == s + bare(rest) by {
        lemma_bare_clean(s, rest);
    }
}

/// Of an escape sequence nothing is left.
proof fn lemma_escape(n: u8)
    requires
        n < 100,
    ensures
        uncolors(tint(true, escape(n)), tint(false, escape(n))),
{
    let s = escape(n);
    assert forall|rest: Seq<u8>| #[trigger]
        bare(tint(true, s) + rest) == tint(false, s) + bare(rest) by {
        let t = s + rest;
        reveal_with_fuel(escape_end, 5);
        assert(t[1] == 0x5b && t[2] == s[2] && t[3] == s[3] && t[4] == 0x6d);
        assert(escape_end(t, 1) == 5);
        assert(t.skip(5) =~= rest);
        assert(tint(false, s) + bare(rest) =~= bare(rest));
    }
}

/// Of the escape sequence that ends a color nothing is left.
proof fn lemma_reset()
    ensures
        uncolors(tint(true, reset()), tint(false, reset())),
{
    let s = reset();
    assert forall|rest: Seq<u8>| #[trigger]
        bare(tint(true, s) + rest) == tint(false, s) + bare(rest) by {
        let t = s + rest;
        reveal_with_fuel(escape_end, 4);
        assert(t[1] == 0x5b && t[2] == 0x30 && t[3] == 0x6d);
        assert(escape_end(t, 1) == 4);
        assert(t.skip(4) =~= rest);
        assert(tint(false, s) + bare(rest) =~= bare(rest));
    }
}

/// What is left of two texts is left of both together.
proof fn lemma_join(a: Seq<u8>, p: Seq<u8>, b: Seq<u8>, q: Seq<u8>)
    requires
        uncolors(a, p),
        uncolors(b, q),
    ensures
        uncolors(a + b, p + q),
{
    assert forall|rest: Seq<u8>| #[trigger] bare(a + b + rest) == p + q + bare(rest) by {
        lemma_concat_assoc(a, b, rest);
        lemma_concat_assoc(p, q, bare(rest));
        assert(bare(a + (b + rest)) == p + bare(b + rest));
    }
}

/// What is left where nothing follows.
proof fn lemma_whole(c: Seq<u8>, p: Seq<u8>)
    requires
        uncolors(c, p),
    ensures
        bare(c) == p,
{
    let none = Seq::<u8>::empty();
    lemma_concat_empty(c);
    lemma_concat_empty(p);
    assert(bare(c + none) == p + bare(none));
}

// ---------------------------------------------------------------- texts without colors

proof fn lemma_clean_join(a: Seq<u8>, b: Seq<u8>)
    requires
        clean(a),
        clean(b),
    ensures
        clean(a + b),
{
}

proof fn lemma_clean_numeral(v: nat, base: nat, len: nat, upper: bool)
    requires
        2 <= base <= 16,
    ensures
        clean(numeral(v, base, len, upper)),
    decreases len,
{
    if len > 0 {
        lemma_clean_numeral(v / base, base, (len - 1) as nat, upper);
        assert(v % base < 16) by (nonlinear_arith)
            requires
                2 <= base <= 16,
        ;
    }
}

proof fn lemma_clean_offset(off: u64, dec: bool, upper: bool)
    ensures
        clean(offset_text(off, dec, upper)),
{
    let base: nat = if dec {
        10
    } else {
        16
    };
    let count = digit_count(off as nat, base);
    lemma_clean_numeral(
        off as nat,
        base,
        if count > 8 {
            count
        } else {
            8
        },
        upper,
    );
}

proof fn lemma_clean_hex(src: Seq<u8>, upper: bool)
    ensures
        clean(hex_text(src, upper)),
    decreases src.len(),
{
    if src.len() > 0 {
        lemma_clean_hex(src.drop_last(), upper);
        assert(clean(hex2(src.last(), upper)));
    }
}

proof fn lemma_clean_char(table: CharTable, b: u8)
    ensures
        clean(char_text(table, b)),
{
    assert forall|i: int| 0 <= i < char_text(table, b).len() implies #[trigger] char_text(
        table,
        b,
    )[i] != ESC by {
        lemma_char_text_visible(table, b, i);
    }
}

proof fn lemma_clean_panel(table: CharTable, src: Seq<u8>)
    ensures
        clean(panel_text(table, src)),
    decreases src.len(),
{
    if src.len() > 0 {
        lemma_clean_panel(table, src.drop_last());
        lemma_clean_char(table, src.last());
    }
}

proof fn lemma_clean_cell(opts: Options, src: Seq<u8>, i: int)
    ensures
        clean(cell(opts, src, i)),
{
    let g = wide_group(opts);
    let v = group_value(group_bytes(opts, src, i), opts.endian);
    match opts.mode {
        DisplayMode::Canonical => {
            assert(clean(hex2(shown_byte(opts, src, i), opts.uppercase)));
        },
        DisplayMode::OneByteHex => {
            assert(clean(hex2(src[i], opts.uppercase)));
        },
        DisplayMode::OneByteOctal => lemma_clean_numeral(src[i] as nat, 8, 3, false),
        DisplayMode::OneByteDecimal => lemma_clean_numeral(src[i] as nat, 10, 3, false),
        DisplayMode::OneByteChar => lemma_clean_numeral(src[i] as nat, 8, 3, false),
        DisplayMode::Binary => lemma_clean_numeral(src[i] as nat, 2, 8, false),
        DisplayMode::TwoByteHex => lemma_clean_numeral(v, 16, g * 2, opts.uppercase),
        DisplayMode::TwoByteOctal => lemma_clean_numeral(v, 8, g * 3, false),
        DisplayMode::TwoByteDecimal => lemma_clean_numeral(v % 65536, 10, 5, false),
        DisplayMode::Plain | DisplayMode::CInclude | DisplayMode::Reverse => {},
    }
}

proof fn lemma_clean_cells(opts: Options, src: Seq<u8>, k: nat)
    ensures
        clean(cells(opts, src, k)),
    decreases k,
{
    if k > 0 {
        lemma_clean_cells(opts, src, (k - 1) as nat);
        lemma_clean_cell(opts, src, k - 1);
    }
}

proof fn lemma_clean_scalar_cells(src: Seq<u8>, no_ascii: bool, k: nat)
    ensures
        clean(scalar_cells(src, no_ascii, k)),
    decreases k,
{
    if k > 0 {
        lemma_clean_scalar_cells(src, no_ascii, (k - 1) as nat);
        assert(clean(hex2(src[k - 1], false)));
        assert(clean(scalar_cell(src, no_ascii, k - 1)));
    }
}

/// The offset column is clean where it has no color.
proof fn lemma_clean_position(opts: Options, off: u64)
    ensures
        clean(position_column(opts, off, false)),
{
    lemma_clean_offset(off, opts.offset_dec, opts.uppercase);
}

proof fn lemma_clean_minimal(opts: Options, src: Seq<u8>, off: u64)
    ensures
        clean(minimal_row(opts, src, off)),
{
    lemma_clean_offset(off, opts.offset_dec, opts.uppercase);
    lemma_clean_hex(src, opts.uppercase);
    lemma_clean_panel(CharTable::Ascii, src);
}

proof fn lemma_clean_generic_section(opts: Options, src: Seq<u8>)
    ensures
        clean(generic_section(opts, src)),
{
    lemma_clean_cells(opts, src, cell_count(opts));
}

proof fn lemma_clean_generic_panel(opts: Options, src: Seq<u8>)
    ensures
        clean(generic_panel(opts, src)),
{
    lemma_clean_panel(opts.table, src);
}

proof fn lemma_clean_generic(opts: Options, src: Seq<u8>, off: u64)
    ensures
        clean(generic_row(opts, src, off)),
{
    if opts.minimal && opts.mode == DisplayMode::Canonical {
        lemma_clean_minimal(opts, src, off);
    } else {
        let p = position_column(opts, off, false);
        let b = bar(opts.border);
        let s = generic_section(opts, src);
        let t = generic_panel(opts, src);
        let z = panel_close(opts);
        lemma_clean_position(opts, off);
        lemma_clean_generic_section(opts, src);
        lemma_clean_generic_panel(opts, src);
        lemma_clean_join(p, b);
        lemma_clean_join(p + b, s);
        lemma_clean_join(p + b + s, t);
        lemma_clean_join(p + b + s + t, z);
        lemma_clean_join(p + b + s + t + z, seq![NEWLINE]);
    }
}

proof fn lemma_clean_scalar(src: Seq<u8>, no_ascii: bool)
    ensures
        clean(scalar_body(src, no_ascii)),
{
    lemma_clean_scalar_cells(src, no_ascii, 16);
    lemma_clean_panel(CharTable::Ascii, src);
}

proof fn lemma_clean_repeated(s: Seq<u8>, n: nat)
    requires
        clean(s),
    ensures
        clean(repeated(s, n)),
    decreases n,
{
    if n > 0 {
        lemma_clean_repeated(s, (n - 1) as nat);
    }
}

proof fn lemma_clean_edge(edge: Edge, c: Columns, border: BorderStyle)
    ensures
        clean(edge_line(edge, c, border)),
{
    let d = dash(border);
    assert(clean(d));
    lemma_clean_repeated(d, c.pos_w as nat);
    lemma_clean_repeated(d, (c.hex_w + 1) as nat);
    lemma_clean_repeated(d, (c.ascii_w + 1) as nat);
    assert(clean(joint(edge, 0, border)) && clean(joint(edge, 1, border)) && clean(
        joint(edge, 2, border),
    ));
}

proof fn lemma_clean_header(c: Columns, border: BorderStyle)
    ensures
        clean(header_line(c, border)),
{
    assert(clean(bar(border)));
    assert(clean(centered(offset_title(), c.pos_w as nat)));
    assert(clean(centered(hex_title(), (c.hex_w + 1) as nat)));
    assert(clean(centered(ascii_title(), (c.ascii_w + 1) as nat)));
}

proof fn lemma_clean_head(opts: Options)
    ensures
        clean(head_text(opts)),
{
    let c = columns(opts);
    lemma_clean_edge(Edge::Top, c, opts.border);
    lemma_clean_header(c, opts.border);
    lemma_clean_edge(Edge::Inner, c, opts.border);
}

// ---------------------------------------------------------------- rows

/// A clean text between two others.
proof fn lemma_then_plain(a: Seq<u8>, p: Seq<u8>, s: Seq<u8>)
    requires
        uncolors(a, p),
        clean(s),
    ensures
        uncolors(a + s, p + s),
{
    lemma_plain(s);
    lemma_join(a, p, s, s);
}

/// A clean text in a color of its own.
proof fn lemma_tinted(n: u8, s: Seq<u8>)
    requires
        n < 100,
        clean(s),
    ensures
        uncolors(
            tint(true, escape(n)) + s + tint(true, reset()),
            tint(false, escape(n)) + s + tint(false, reset()),
        ),
{
    lemma_escape(n);
    lemma_reset();
    lemma_then_plain(tint(true, escape(n)), tint(false, escape(n)), s);
    lemma_join(
        tint(true, escape(n)) + s,
        tint(false, escape(n)) + s,
        tint(true, reset()),
        tint(false, reset()),
    );
}

proof fn lemma_position(opts: Options, off: u64)
    ensures
        uncolors(position_column(opts, off, true), position_column(opts, off, false)),
{
    let text = offset_text(off, opts.offset_dec, opts.uppercase);
    let b = bar(opts.border);
    let e1 = tint(true, escape(CYAN));
    let e0 = tint(false, escape(CYAN));
    let colon = seq![COLON];
    let r1 = tint(true, reset());
    let r0 = tint(false, reset());
    let pad = if opts.border == BorderStyle::Off {
        seq![SPACE]
    } else {
        spaces(monus(position_width(opts), text.len() + 1))
    };
    if opts.no_position {
        lemma_plain(Seq::<u8>::empty());
    } else {
        lemma_clean_offset(off, opts.offset_dec, opts.uppercase);
        lemma_plain(b);
        lemma_escape(CYAN);
        lemma_reset();
        lemma_join(b, b, e1, e0);
        lemma_then_plain(b + e1, b + e0, text);
        lemma_then_plain(b + e1 + text, b + e0 + text, colon);
        lemma_join(b + e1 + text + colon, b + e0 + text + colon, r1, r0);
        lemma_then_plain(b + e1 + text + colon + r1, b + e0 + text + colon + r0, pad);
    }
}

proof fn lemma_cell_colors(opts: Options, src: Seq<u8>, i: int)
    requires
        i >= 0,
    ensures
        uncolors(line_cell(opts, src, true, i), line_cell(opts, src, false, i)),
{
    let before = spaces(
        if i == opts.width / 2 {
            1
        } else {
            0
        },
    );
    let after = spaces(
        if space_after(opts, i) {
            1
        } else {
            0
        },
    );
    lemma_plain(before);
    if i < src.len() {
        let n = byte_color(src[i], opts.scheme);
        let h = hex2(src[i], opts.uppercase);
        lemma_tinted(n, h);
        let c = tint(true, escape(n)) + h + tint(true, reset());
        let p = tint(false, escape(n)) + h + tint(false, reset());
        lemma_join(before, before, c, p);
        lemma_then_plain(before + c, before + p, after);
    } else {
        lemma_then_plain(before, before, spaces(2));
        lemma_then_plain(before + spaces(2), before + spaces(2), after);
    }
}

proof fn lemma_cells_colors(opts: Options, src: Seq<u8>, k: nat)
    ensures
        uncolors(line_cells(opts, src, true, k), line_cells(opts, src, false, k)),
    decreases k,
{
    if k == 0 {
        lemma_plain(Seq::<u8>::empty());
    } else {
        let j = (k - 1) as nat;
        lemma_cells_colors(opts, src, j);
        lemma_cell_colors(opts, src, j as int);
        lemma_join(
            line_cells(opts, src, true, j),
            line_cells(opts, src, false, j),
            line_cell(opts, src, true, j as int),
            line_cell(opts, src, false, j as int),
        );
    }
}

proof fn lemma_panel_colors(opts: Options, src: Seq<u8>)
    ensures
        uncolors(line_panel(opts, src, true), line_panel(opts, src, false)),
    decreases src.len(),
{
    if src.len() == 0 {
        lemma_plain(Seq::<u8>::empty());
    } else {
        let front = src.drop_last();
        let n = panel_color(src.last());
        let c = char_text(opts.table, src.last());
        let x = line_panel(opts, front, true);
        let y = line_panel(opts, front, false);
        let e1 = tint(true, escape(n));
        let e0 = tint(false, escape(n));
        lemma_panel_colors(opts, front);
        lemma_clean_char(opts.table, src.last());
        lemma_escape(n);
        lemma_reset();
        lemma_join(x, y, e1, e0);
        lemma_then_plain(x + e1, y + e0, c);
        lemma_join(x + e1 + c, y + e0 + c, tint(true, reset()), tint(false, reset()));
    }
}

proof fn lemma_line_colors(opts: Options, src: Seq<u8>, off: u64)
    requires
        !diverts(opts),
    ensures
        uncolors(line_row(opts, src, off, true), line_row(opts, src, off, false)),
{
    let p1 = position_column(opts, off, true);
    let p0 = position_column(opts, off, false);
    let b = bar(opts.border);
    let c1 = line_cells(opts, src, true, opts.width as nat);
    let c0 = line_cells(opts, src, false, opts.width as nat);
    let o = panel_open(opts);
    let t1 = line_panel(opts, src, true);
    let t0 = line_panel(opts, src, false);
    let pad = spaces(monus(opts.width as nat, src.len()));
    let z = panel_close(opts);
    let end = seq![NEWLINE];
    lemma_position(opts, off);
    lemma_cells_colors(opts, src, opts.width as nat);
    lemma_panel_colors(opts, src);
    lemma_then_plain(p1, p0, b);
    lemma_join(p1 + b, p0 + b, c1, c0);
    lemma_then_plain(p1 + b + c1, p0 + b + c0, o);
    lemma_join(p1 + b + c1 + o, p0 + b + c0 + o, t1, t0);
    lemma_then_plain(p1 + b + c1 + o + t1, p0 + b + c0 + o + t0, pad);
    lemma_then_plain(p1 + b + c1 + o + t1 + pad, p0 + b + c0 + o + t0 + pad, z);
    lemma_then_plain(p1 + b + c1 + o + t1 + pad + z, p0 + b + c0 + o + t0 + pad + z, end);
}

proof fn lemma_row_colors(kind: LayoutKind, opts: Options, src: Seq<u8>, off: u64)
    ensures
        uncolors(row(kind, opts, src, off, true), row(kind, opts, src, off, false)),
{
    match kind {
        LayoutKind::Generic => {
            lemma_clean_generic(opts, src, off);
            lemma_plain(generic_row(opts, src, off));
        },
        LayoutKind::OutputLine => if diverts(opts) {
            lemma_clean_generic(opts, src, off);
            lemma_plain(generic_row(opts, src, off));
        } else {
            lemma_line_colors(opts, src, off);
        },
        LayoutKind::Scalar => {
            lemma_position(opts, off);
            lemma_clean_scalar(src, opts.no_ascii);
            lemma_then_plain(
                position_column(opts, off, true),
                position_column(opts, off, false),
                scalar_body(src, opts.no_ascii),
            );
        },
    }
}

/// Taking the escape sequences out of a row in color leaves the row without color.
pub proof fn lemma_row_bare(kind: LayoutKind, opts: Options, src: Seq<u8>, off: u64)
    ensures
        bare(row(kind, opts, src, off, true)) == row(kind, opts, src, off, false),
{
    lemma_row_colors(kind, opts, src, off);
    lemma_whole(row(kind, opts, src, off, true), row(kind, opts, src, off, false));
}

// ---------------------------------------------------------------- dumps

/// The same rows without color.
pub open spec fn without_color(style: Style) -> Style {
    Style { color: false, ..style }
}

proof fn lemma_offset_line_colors(opts: Options, off: u64)
    ensures
        uncolors(offset_line(opts, true, off), offset_line(opts, false, off)),
{
    let text = offset_text(off, opts.offset_dec, opts.uppercase);
    lemma_clean_offset(off, opts.offset_dec, opts.uppercase);
    lemma_tinted(CYAN, text);
    lemma_then_plain(
        tint(true, escape(CYAN)) + text + tint(true, reset()),
        tint(false, escape(CYAN)) + text + tint(false, reset()),
        seq![NEWLINE],
    );
}

proof fn lemma_footer_colors(opts: Options, off: u64)
    ensures
        uncolors(footer_text(opts, true, off), footer_text(opts, false, off)),
{
    if opts.border != BorderStyle::Off {
        lemma_clean_edge(Edge::Bottom, columns(opts), opts.border);
        lemma_plain(edge_line(Edge::Bottom, columns(opts), opts.border));
    } else if !opts.no_position {
        lemma_offset_line_colors(opts, off);
    } else {
        lemma_plain(Seq::<u8>::empty());
    }
}

proof fn lemma_stream_footer_colors(opts: Options, off: u64)
    ensures
        uncolors(stream_footer(opts, true, off), stream_footer(opts, false, off)),
{
    let none = Seq::<u8>::empty();
    lemma_plain(none);
    lemma_offset_line_colors(opts, off);
    lemma_clean_edge(Edge::Bottom, columns(opts), opts.border);
    let line1 = if opts.no_position {
        none
    } else {
        offset_line(opts, true, off)
    };
    let line0 = if opts.no_position {
        none
    } else {
        offset_line(opts, false, off)
    };
    let edge = if opts.border != BorderStyle::Off {
        edge_line(Edge::Bottom, columns(opts), opts.border)
    } else {
        none
    };
    lemma_then_plain(line1, line0, edge);
}

proof fn lemma_tail_colors(opts: Options, style: Style, data: Seq<u8>, off: u64)
    requires
        style.color,
    ensures
        uncolors(
            tail_text(opts, style, data, off),
            tail_text(opts, without_color(style), data, off),
        ),
{
    let tail = tail_bytes(data, opts.width as int);
    lemma_row_colors(style.tail, opts, tail, off);
    lemma_plain(Seq::<u8>::empty());
}

proof fn lemma_rows_colors(opts: Options, style: Style, start: u64, data: Seq<u8>, k: int)
    requires
        style.color,
    ensures
        uncolors(
            rows_text(opts, style, start, data, 0, k),
            rows_text(opts, without_color(style), start, data, 0, k),
        ),
    decreases k,
{
    if k <= 0 {
        lemma_plain(Seq::<u8>::empty());
    } else {
        let j = k - 1;
        lemma_rows_colors(opts, style, start, data, j);
        lemma_row_colors(
            style.full,
            opts,
            row_bytes(data, opts.width as int, j),
            offset_at(start, j * opts.width),
        );
        lemma_join(
            rows_text(opts, style, start, data, 0, j),
            rows_text(opts, without_color(style), start, data, 0, j),
            row_text(opts, style, start, data, j),
            row_text(opts, without_color(style), start, data, j),
        );
    }
}

proof fn lemma_walk_colors(opts: Options, style: Style, p: ProgressView, data: Seq<u8>, k: nat)
    requires
        style.color,
    ensures
        uncolors(
            walk_text(opts, style, p, data, k),
            walk_text(opts, without_color(style), p, data, k),
        ),
    decreases k,
{
    if k == 0 {
        lemma_plain(Seq::<u8>::empty());
    } else {
        let j = (k - 1) as nat;
        let state = walk_state(opts, p, data, j);
        let src = row_bytes(data, opts.width as int, j as int);
        lemma_walk_colors(opts, style, p, data, j);
        lemma_row_colors(style.full, opts, src, state.offset);
        lemma_plain(Seq::<u8>::empty());
        lemma_plain(star_line());
        lemma_join(
            walk_text(opts, style, p, data, j),
            walk_text(opts, without_color(style), p, data, j),
            step_text(opts, style, state, src),
            step_text(opts, without_color(style), state, src),
        );
    }
}

/// Taking the escape sequences out of a dump in color leaves the dump without color.
pub proof fn lemma_dump_bare(opts: Options, style: Style, start: u64, data: Seq<u8>)
    requires
        style.color,
    ensures
        bare(dump_text(opts, style, start, data)) == dump_text(
            opts,
            without_color(style),
            start,
            data,
        ),
{
    let plain = without_color(style);
    let rows = data.len() as int / opts.width as int;
    let h = head_text(opts);
    let off = offset_at(start, rows * opts.width);
    let end = offset_at(start, data.len() as int);
    let r1 = rows_text(opts, style, start, data, 0, rows);
    let r0 = rows_text(opts, plain, start, data, 0, rows);
    let t1 = tail_text(opts, style, data, off);
    let t0 = tail_text(opts, plain, data, off);
    lemma_clean_head(opts);
    lemma_plain(h);
    lemma_rows_colors(opts, style, start, data, rows);
    lemma_tail_colors(opts, style, data, off);
    lemma_footer_colors(opts, end);
    lemma_join(h, h, r1, r0);
    lemma_join(h + r1, h + r0, t1, t0);
    lemma_join(
        h + r1 + t1,
        h + r0 + t0,
        footer_text(opts, true, end),
        footer_text(opts, false, end),
    );
    lemma_whole(dump_text(opts, style, start, data), dump_text(opts, plain, start, data));
}

/// The same of a dump that may leave rows out.
pub proof fn lemma_serial_bare(opts: Options, style: Style, start: u64, data: Seq<u8>)
    requires
        style.color,
    ensures
        bare(serial_text(opts, style, start, data)) == serial_text(
            opts,
            without_color(style),
            start,
            data,
        ),
{
    let plain = without_color(style);
    let rows = data.len() / opts.width as nat;
    let h = head_text(opts);
    let first = started(start);
    let off = offset_at(start, rows * opts.width);
    let end = offset_at(start, data.len() as int);
    let stopped = halted(opts, walk_state(opts, first, data, rows));
    let w1 = walk_text(opts, style, first, data, rows);
    let w0 = walk_text(opts, plain, first, data, rows);
    let none = Seq::<u8>::empty();
    let t1 = if stopped {
        none
    } else {
        tail_text(opts, style, data, off)
    };
    let t0 = if stopped {
        none
    } else {
        tail_text(opts, plain, data, off)
    };
    lemma_clean_head(opts);
    lemma_plain(h);
    lemma_plain(none);
    lemma_walk_colors(opts, style, first, data, rows);
    lemma_tail_colors(opts, style, data, off);
    lemma_footer_colors(opts, end);
    lemma_join(h, h, w1, w0);
    lemma_join(h + w1, h + w0, t1, t0);
    lemma_join(
        h + w1 + t1,
        h + w0 + t0,
        footer_text(opts, true, end),
        footer_text(opts, false, end),
    );
    lemma_whole(serial_text(opts, style, start, data), serial_text(opts, plain, start, data));
}

proof fn lemma_closing_colors(opts: Options, style: Style, s: StreamView)
    requires
        style.color,
    ensures
        uncolors(
            closing_text(opts, style, s),
            closing_text(opts, without_color(style), s),
        ),
{
    let off = s.progress.offset;
    let end = end_offset(opts, s);
    let none = Seq::<u8>::empty();
    let t1 = if has_rest(opts, s) {
        row(style.tail, opts, s.carry, off, true)
    } else {
        none
    };
    let t0 = if has_rest(opts, s) {
        row(style.tail, opts, s.carry, off, false)
    } else {
        none
    };
    lemma_plain(none);
    lemma_row_colors(style.tail, opts, s.carry, off);
    lemma_stream_footer_colors(opts, end);
    lemma_join(t1, t0, stream_footer(opts, true, end), stream_footer(opts, false, end));
}

/// The same of a dump of a stream.
pub proof fn lemma_stream_bare(opts: Options, style: Style, data: Seq<u8>)
    requires
        style.color,
    ensures
        bare(stream_text(opts, style, data)) == stream_text(opts, without_color(style), data),
{
    let plain = without_color(style);
    let first = opened(opts);
    let h = head_text(opts);
    let all = first.carry + data;
    let f1 = fed_text(opts, style, first, data);
    let f0 = fed_text(opts, plain, first, data);
    let end = fed(opts, first, data);
    lemma_clean_head(opts);
    lemma_plain(h);
    lemma_walk_colors(opts, style, first.progress, all, all.len() / opts.width as nat);
    lemma_closing_colors(opts, style, end);
    lemma_join(h, h, f1, f0);
    lemma_join(
        h + f1,
        h + f0,
        closing_text(opts, style, end),
        closing_text(opts, plain, end),
    );
    lemma_whole(stream_text(opts, style, data), stream_text(opts, plain, data));
}

} // verus!
