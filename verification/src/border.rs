//! The lines drawn above and below a dump.

use crate::bytes::{
    lemma_concat3, lemma_concat5, lemma_concat6, lemma_concat_assoc, lemma_concat_empty, monus,
    push_byte, push_bytes, push_fill, spaces, BAR, DASH, NEWLINE, PLUS, SPACE,
};
use crate::charset::panel_text;
use crate::options::{BorderStyle, CharTable, DisplayMode, Options};
use crate::plan::lemma_offset_bound;
use crate::row::{
    ascii_width, bar, canonical_cell, canonical_width, cell, cells, diverts, gap_before,
    generic_panel, generic_section, has_panel, hex_width, line_cells, line_panel, panel_close,
    panel_open, position_column, position_width, push_bar, row, section_width, shows_panel,
    LayoutKind,
};
use vstd::prelude::*;

verus! {

/// `n` copies of `s`.
pub open spec fn repeated(s: Seq<u8>, n: nat) -> Seq<u8>
    decreases n,
{
    if n == 0 {
        seq![]
    } else {
        repeated(s, (n - 1) as nat) + s
    }
}

/// `text` in the middle of `w` columns; where the space cannot be split evenly, more of it follows.
pub open spec fn centered(text: Seq<u8>, w: nat) -> Seq<u8> {
    if text.len() >= w {
        text
    } else {
        let pad = (w - text.len()) as nat;
        spaces(pad / 2) + text + spaces((pad - pad / 2) as nat)
    }
}

/// The three kinds of line.
#[derive(Clone, Copy, PartialEq, Eq, Debug, Structural)]
pub enum Edge {
    Top,
    Inner,
    Bottom,
}

/// The last byte of a box-drawing character of a line: at its left end, between columns and at its
/// right end. The first two bytes are the same for all.
pub open spec fn corner(edge: Edge, place: int) -> u8 {
    match edge {
        // U+250C, U+252C, U+2510
        Edge::Top => if place == 0 {
            0x8c
        } else if place == 1 {
            0xac
        } else {
            0x90
        },
        // U+251C, U+253C, U+2524
        Edge::Inner => if place == 0 {
            0x9c
        } else if place == 1 {
            0xbc
        } else {
            0xa4
        },
        // U+2514, U+2534, U+2518
        Edge::Bottom => if place == 0 {
            0x94
        } else if place == 1 {
            0xb4
        } else {
            0x98
        },
    }
}

/// A joint of a line: at its left end (0), between columns (1) or at its right end (2).
pub open spec fn joint(edge: Edge, place: int, border: BorderStyle) -> Seq<u8> {
    match border {
        BorderStyle::Off => seq![],
        BorderStyle::Ascii => seq![PLUS],
        BorderStyle::Unicode => seq![0xe2u8, 0x94, corner(edge, place)],
    }
}

/// One step of a horizontal line.
pub open spec fn dash(border: BorderStyle) -> Seq<u8> {
    match border {
        BorderStyle::Off => seq![],
        BorderStyle::Ascii => seq![DASH],
        // U+2500
        BorderStyle::Unicode => seq![0xe2u8, 0x94, 0x80],
    }
}

/// The columns of a bordered dump.
#[derive(Clone, Copy, PartialEq, Eq, Debug, Structural)]
pub struct Columns {
    pub pos_w: usize,
    pub hex_w: usize,
    pub ascii_w: usize,
    pub has_pos: bool,
    pub has_ascii: bool,
}

/// A horizontal line.
pub open spec fn edge_line(edge: Edge, c: Columns, border: BorderStyle) -> Seq<u8> {
    if border == BorderStyle::Off {
        seq![]
    } else {
        let d = dash(border);
        let mid = joint(edge, 1, border);
        joint(edge, 0, border) + (if c.has_pos {
            repeated(d, c.pos_w as nat) + mid
        } else {
            seq![]
        }) + repeated(d, (c.hex_w + 1) as nat) + (if c.has_ascii {
            mid + repeated(d, (c.ascii_w + 1) as nat)
        } else {
            seq![]
        }) + joint(edge, 2, border) + seq![NEWLINE]
    }
}

/// The text "offset".
pub open spec fn offset_title() -> Seq<u8> {
    seq![0x6fu8, 0x66, 0x66, 0x73, 0x65, 0x74]
}

/// The text " hex".
pub open spec fn hex_title() -> Seq<u8> {
    seq![0x20u8, 0x68, 0x65, 0x78]
}

/// The text " ascii".
pub open spec fn ascii_title() -> Seq<u8> {
    seq![0x20u8, 0x61, 0x73, 0x63, 0x69, 0x69]
}

/// The line that names the columns.
pub open spec fn header_line(c: Columns, border: BorderStyle) -> Seq<u8> {
    if border == BorderStyle::Off {
        seq![]
    } else {
        let b = bar(border);
        b + (if c.has_pos {
            centered(offset_title(), c.pos_w as nat) + b
        } else {
            seq![]
        }) + (centered(hex_title(), (c.hex_w + 1) as nat) + b) + (if c.has_ascii {
            centered(ascii_title(), (c.ascii_w + 1) as nat) + b
        } else {
            seq![]
        }) + seq![NEWLINE]
    }
}

/// The columns of a dump under the given settings.
pub open spec fn columns(opts: Options) -> Columns {
    Columns {
        pos_w: if opts.no_position {
            0
        } else {
            position_width(opts) as usize
        },
        hex_w: section_width(opts) as usize,
        ascii_w: opts.width,
        has_pos: !opts.no_position,
        has_ascii: has_panel(opts),
    }
}

/// What stands above the rows.
pub open spec fn head_text(opts: Options) -> Seq<u8> {
    let c = columns(opts);
    edge_line(Edge::Top, c, opts.border) + header_line(c, opts.border) + edge_line(
        Edge::Inner,
        c,
        opts.border,
    )
}

/// Appends `n` copies of `s`.
fn push_repeated(dst: &mut Vec<u8>, s: &[u8], n: usize)
    ensures
        final(dst)@ == old(dst)@ + repeated(s@, n as nat),
{
    let ghost before = dst@;
    proof {
        lemma_concat_empty(before);
    }
    for i in 0..n
        invariant
            dst@ == before + repeated(s@, i as nat),
    {
        push_bytes(dst, s);
        proof {
            lemma_concat_assoc(before, repeated(s@, i as nat), s@);
        }
    }
}

/// Appends `text` in the middle of `w` columns.
fn push_centered(dst: &mut Vec<u8>, text: &[u8], w: usize)
    ensures
        final(dst)@ == old(dst)@ + centered(text@, w as nat),
{
    let ghost before = dst@;
    if text.len() >= w {
        push_bytes(dst, text);
    } else {
        let pad: usize = w - text.len();
        push_fill(dst, pad / 2, SPACE);
        push_bytes(dst, text);
        push_fill(dst, pad - pad / 2, SPACE);
        proof {
            lemma_concat3(
                before,
                spaces((pad / 2) as nat),
                text@,
                spaces((pad - pad / 2) as nat),
            );
        }
    }
}

/// Appends a joint of a line.
fn push_joint(dst: &mut Vec<u8>, edge: Edge, place: u8, border: BorderStyle)
    requires
        place <= 2,
    ensures
        final(dst)@ == old(dst)@ + joint(edge, place as int, border),
{
    let ghost before = dst@;
    match border {
        BorderStyle::Off => {},
        BorderStyle::Ascii => {
            dst.push(PLUS);
        },
        BorderStyle::Unicode => {
            let last: u8 = match edge {
                Edge::Top => match place {
                    0 => 0x8c,
                    1 => 0xac,
                    _ => 0x90,
                },
                Edge::Inner => match place {
                    0 => 0x9c,
                    1 => 0xbc,
                    _ => 0xa4,
                },
                Edge::Bottom => match place {
                    0 => 0x94,
                    1 => 0xb4,
                    _ => 0x98,
                },
            };
            dst.push(0xe2);
            dst.push(0x94);
            dst.push(last);
        },
    }
    assert(dst@ =~= before + joint(edge, place as int, border));
}

/// Appends a horizontal line of `n` steps.
fn push_dashes(dst: &mut Vec<u8>, n: usize, border: BorderStyle)
    ensures
        final(dst)@ == old(dst)@ + repeated(dash(border), n as nat),
{
    match border {
        BorderStyle::Off => {
            let none: [u8; 0] = [];
            assert(none@ =~= dash(border));
            push_repeated(dst, &none, n);
        },
        BorderStyle::Ascii => {
            let step: [u8; 1] = [DASH];
            assert(step@ =~= dash(border));
            push_repeated(dst, &step, n);
        },
        BorderStyle::Unicode => {
            let step: [u8; 3] = [0xe2, 0x94, 0x80];
            assert(step@ =~= dash(border));
            push_repeated(dst, &step, n);
        },
    }
}

/// Appends a horizontal line.
fn push_edge(out: &mut Vec<u8>, edge: Edge, c: Columns, border: BorderStyle)
    requires
        c.hex_w < usize::MAX,
        c.ascii_w < usize::MAX,
    ensures
        final(out)@ == old(out)@ + edge_line(edge, c, border),
{
    let ghost before = out@;
    if border == BorderStyle::Off {
        proof {
            lemma_concat_empty(before);
        }
        return;
    }
    let ghost d = dash(border);
    let ghost mid = joint(edge, 1, border);
    push_joint(out, edge, 0, border);
    let ghost first = out@;
    if c.has_pos {
        push_dashes(out, c.pos_w, border);
        push_joint(out, edge, 1, border);
        proof {
            lemma_concat_assoc(first, repeated(d, c.pos_w as nat), mid);
        }
    } else {
        proof {
            lemma_concat_empty(first);
        }
    }
    push_dashes(out, c.hex_w + 1, border);
    let ghost second = out@;
    if c.has_ascii {
        push_joint(out, edge, 1, border);
        push_dashes(out, c.ascii_w + 1, border);
        proof {
            lemma_concat_assoc(second, mid, repeated(d, (c.ascii_w + 1) as nat));
        }
    } else {
        proof {
            lemma_concat_empty(second);
        }
    }
    push_joint(out, edge, 2, border);
    push_byte(out, NEWLINE);
    proof {
        lemma_concat6(
            before,
            joint(edge, 0, border),
            if c.has_pos {
                repeated(d, c.pos_w as nat) + mid
            } else {
                seq![]
            },
            repeated(d, (c.hex_w + 1) as nat),
            if c.has_ascii {
                mid + repeated(d, (c.ascii_w + 1) as nat)
            } else {
                seq![]
            },
            joint(edge, 2, border),
            seq![NEWLINE],
        );
    }
}

/// Appends the line above the column names.
pub fn border_top(
    out: &mut Vec<u8>,
    pos_w: usize,
    hex_w: usize,
    ascii_w: usize,
    has_pos: bool,
    has_ascii: bool,
    border: BorderStyle,
)
    requires
        hex_w < usize::MAX,
        ascii_w < usize::MAX,
    ensures
        final(out)@ == old(out)@ + edge_line(
            Edge::Top,
            (Columns { pos_w, hex_w, ascii_w, has_pos, has_ascii }),
            border,
        ),
{
    push_edge(out, Edge::Top, Columns { pos_w, hex_w, ascii_w, has_pos, has_ascii }, border);
}

/// Appends the line between the column names and the rows.
pub fn border_sep(
    out: &mut Vec<u8>,
    pos_w: usize,
    hex_w: usize,
    ascii_w: usize,
    has_pos: bool,
    has_ascii: bool,
    border: BorderStyle,
)
    requires
        hex_w < usize::MAX,
        ascii_w < usize::MAX,
    ensures
        final(out)@ == old(out)@ + edge_line(
            Edge::Inner,
            (Columns { pos_w, hex_w, ascii_w, has_pos, has_ascii }),
            border,
        ),
{
    push_edge(out, Edge::Inner, Columns { pos_w, hex_w, ascii_w, has_pos, has_ascii }, border);
}

/// Appends the line below the rows.
pub fn border_bottom(
    out: &mut Vec<u8>,
    pos_w: usize,
    hex_w: usize,
    ascii_w: usize,
    has_pos: bool,
    has_ascii: bool,
    border: BorderStyle,
)
    requires
        hex_w < usize::MAX,
        ascii_w < usize::MAX,
    ensures
        final(out)@ == old(out)@ + edge_line(
            Edge::Bottom,
            (Columns { pos_w, hex_w, ascii_w, has_pos, has_ascii }),
            border,
        ),
{
    push_edge(out, Edge::Bottom, Columns { pos_w, hex_w, ascii_w, has_pos, has_ascii }, border);
}

/// Appends a column name between bars.
fn push_title(out: &mut Vec<u8>, text: &[u8], w: usize, border: BorderStyle)
    ensures
        final(out)@ == old(out)@ + (centered(text@, w as nat) + bar(border)),
{
    let ghost before = out@;
    push_centered(out, text, w);
    push_bar(out, border);
    proof {
        lemma_concat_assoc(before, centered(text@, w as nat), bar(border));
    }
}

/// Appends the line that names the columns.
pub fn border_header(
    out: &mut Vec<u8>,
    pos_w: usize,
    hex_w: usize,
    ascii_w: usize,
    has_pos: bool,
    has_ascii: bool,
    border: BorderStyle,
)
    requires
        hex_w < usize::MAX,
        ascii_w < usize::MAX,
    ensures
        final(out)@ == old(out)@ + header_line(
            (Columns { pos_w, hex_w, ascii_w, has_pos, has_ascii }),
            border,
        ),
{
    let ghost before = out@;
    if border == BorderStyle::Off {
        proof {
            lemma_concat_empty(before);
        }
        return;
    }
    let offset: [u8; 6] = [0x6f, 0x66, 0x66, 0x73, 0x65, 0x74];
    let hex: [u8; 4] = [0x20, 0x68, 0x65, 0x78];
    let ascii: [u8; 6] = [0x20, 0x61, 0x73, 0x63, 0x69, 0x69];
    proof {
        assert(offset@ =~= offset_title());
        assert(hex@ =~= hex_title());
        assert(ascii@ =~= ascii_title());
    }
    push_bar(out, border);
    if has_pos {
        push_title(out, &offset, pos_w, border);
    } else {
        proof {
            lemma_concat_empty(out@);
        }
    }
    push_title(out, &hex, hex_w + 1, border);
    if has_ascii {
        push_title(out, &ascii, ascii_w + 1, border);
    } else {
        proof {
            lemma_concat_empty(out@);
        }
    }
    push_byte(out, NEWLINE);
    proof {
        let b = bar(border);
        lemma_concat5(
            before,
            b,
            if has_pos {
                centered(offset_title(), pos_w as nat) + b
            } else {
                seq![]
            },
            centered(hex_title(), (hex_w + 1) as nat) + b,
            if has_ascii {
                centered(ascii_title(), (ascii_w + 1) as nat) + b
            } else {
                seq![]
            },
            seq![NEWLINE],
        );
    }
}

/// The columns of a dump under the given settings.
pub fn columns_of(opts: &Options) -> (c: Columns)
    requires
        opts.wf(),
        opts.fits(),
    ensures
        c == columns(*opts),
        c.hex_w == section_width(*opts),
        c.hex_w < usize::MAX,
        c.ascii_w < usize::MAX,
{
    let hex_w: usize = hex_width(opts);
    let pos_w: usize = if opts.no_position {
        0
    } else if opts.offset_dec {
        21
    } else {
        17
    };
    Columns {
        pos_w,
        hex_w,
        ascii_w: ascii_width(opts),
        has_pos: !opts.no_position,
        has_ascii: shows_panel(opts),
    }
}

/// Appends what stands above the rows.
pub fn push_head(out: &mut Vec<u8>, opts: &Options)
    requires
        opts.wf(),
        opts.fits(),
    ensures
        final(out)@ == old(out)@ + head_text(*opts),
{
    let ghost before = out@;
    let c = columns_of(opts);
    border_top(out, c.pos_w, c.hex_w, c.ascii_w, c.has_pos, c.has_ascii, opts.border);
    border_header(out, c.pos_w, c.hex_w, c.ascii_w, c.has_pos, c.has_ascii, opts.border);
    border_sep(out, c.pos_w, c.hex_w, c.ascii_w, c.has_pos, c.has_ascii, opts.border);
    proof {
        lemma_concat3(
            before,
            edge_line(Edge::Top, c, opts.border),
            header_line(c, opts.border),
            edge_line(Edge::Inner, c, opts.border),
        );
    }
}

// ---------------------------------------------------------------- the frame

/// The places of the frame's bars in a row: at its left end, between columns and at its right end.
pub open spec fn frame(c: Columns) -> Seq<int> {
    let left = if c.has_pos {
        seq![0, c.pos_w + 1]
    } else {
        seq![0]
    };
    let main = left.push(left.last() + c.hex_w + 2);
    if c.has_ascii {
        main.push(main.last() + c.ascii_w + 2)
    } else {
        main
    }
}

/// Does `mark` stand at all places of the frame, and does the line end behind the last one?
pub open spec fn framed(line: Seq<u8>, c: Columns, mark: u8) -> bool {
    &&& line.len() == frame(c).last() + 2
    &&& forall|k: int| 0 <= k < frame(c).len() ==> line[#[trigger] frame(c)[k]] == mark
}

proof fn lemma_dashes(n: nat)
    ensures
        repeated(seq![DASH], n).len() == n,
    decreases n,
{
    if n > 0 {
        lemma_dashes((n - 1) as nat);
    }
}

/// The joints of a line in ASCII stand at the places of the frame.
pub proof fn lemma_edge_framed(edge: Edge, c: Columns)
    ensures
        framed(edge_line(edge, c, BorderStyle::Ascii), c, PLUS),
{
    lemma_dashes(c.pos_w as nat);
    lemma_dashes((c.hex_w + 1) as nat);
    lemma_dashes((c.ascii_w + 1) as nat);
}

/// The columns of a row inside a border take the width that is left for them.
proof fn lemma_columns_width(opts: Options, src: Seq<u8>, k: nat)
    requires
        opts.mode == DisplayMode::Canonical,
        opts.border != BorderStyle::Off,
        k <= opts.width,
    ensures
        cells(opts, src, k).len() == canonical_width(opts, k),
        canonical_width(opts, k) <= 4 * k,
    decreases k,
{
    if k > 0 {
        lemma_columns_width(opts, src, (k - 1) as nat);
        assert(cell(opts, src, k - 1) == canonical_cell(opts, src, k - 1));
    }
}

/// The same of an aligned row, where the gap in its middle is the only one.
proof fn lemma_line_width(opts: Options, src: Seq<u8>, k: nat)
    requires
        !diverts(opts),
        opts.border != BorderStyle::Off,
        opts.width % 2 == 0,
        k <= opts.width,
    ensures
        line_cells(opts, src, false, k).len() == canonical_width(opts, k),
    decreases k,
{
    if k > 0 {
        let i = k - 1;
        let half = opts.width as int / 2;
        lemma_line_width(opts, src, i as nat);
        assert(i > 0 && i % half == 0 <==> i == half) by (nonlinear_arith)
            requires
                0 <= i < 2 * half,
        ;
        assert(gap_before(opts, i) == (i == half));
    }
}

/// Each byte takes one place in a panel of ASCII characters.
proof fn lemma_ascii_panel(opts: Options, src: Seq<u8>)
    requires
        opts.table == CharTable::Ascii,
    ensures
        panel_text(opts.table, src).len() == src.len(),
        line_panel(opts, src, false).len() == src.len(),
    decreases src.len(),
{
    if src.len() > 0 {
        lemma_ascii_panel(opts, src.drop_last());
    }
}

/// Parts of the right widths make up a row whose bars stand at the places of the frame.
pub proof fn lemma_parts_framed(c: Columns, p: Seq<u8>, s: Seq<u8>, t: Seq<u8>)
    requires
        p.len() == if c.has_pos {
            c.pos_w + 1
        } else {
            0
        },
        c.has_pos ==> p[0] == BAR,
        s.len() == c.hex_w,
        t.len() == if c.has_ascii {
            c.ascii_w + 2
        } else {
            0
        },
        c.has_ascii ==> t[1] == BAR,
    ensures
        framed(p + seq![BAR] + s + t + seq![SPACE, BAR] + seq![NEWLINE], c, BAR),
{
    let line = p + seq![BAR] + s + t + seq![SPACE, BAR] + seq![NEWLINE];
    assert(line.len() == p.len() + s.len() + t.len() + 4);
    assert(c.has_pos ==> line[0] == p[0]);
    assert(line[p.len() as int] == BAR);
    assert(c.has_ascii ==> line[(p.len() + s.len() + 2) as int] == t[1]);
    assert(line[(p.len() + s.len() + t.len() + 2) as int] == BAR);
}

/// An offset column takes the width that is left for it.
pub proof fn lemma_position_width(opts: Options, off: u64)
    requires
        opts.border == BorderStyle::Ascii,
        !opts.no_position,
    ensures
        position_column(opts, off, false).len() == position_width(opts) + 1,
        position_column(opts, off, false)[0] == BAR,
{
    lemma_offset_bound(off, opts.offset_dec, opts.uppercase);
}

/// The panel of a row in ASCII takes the width that is left for it.
proof fn lemma_panel_width(opts: Options, src: Seq<u8>)
    requires
        opts.mode == DisplayMode::Canonical,
        opts.border == BorderStyle::Ascii,
        opts.table == CharTable::Ascii,
        src.len() <= opts.width,
    ensures
        generic_panel(opts, src).len() == if has_panel(opts) {
            opts.width + 2
        } else {
            0
        },
        has_panel(opts) ==> generic_panel(opts, src)[1] == BAR,
{
    lemma_ascii_panel(opts, src);
}

/// The bars of a row in ASCII stand at the places of the frame.
proof fn lemma_row_framed(kind: LayoutKind, opts: Options, src: Seq<u8>, off: u64)
    requires
        opts.fits(),
        opts.mode == DisplayMode::Canonical,
        opts.border == BorderStyle::Ascii,
        opts.table == CharTable::Ascii,
        !opts.minimal,
        src.len() <= opts.width,
        kind == LayoutKind::Generic || kind == LayoutKind::OutputLine && (diverts(opts)
            || opts.width % 2 == 0),
    ensures
        framed(row(kind, opts, src, off, false), columns(opts), BAR),
{
    let w = opts.width as nat;
    lemma_columns_width(opts, src, w);
    if !opts.no_position {
        lemma_position_width(opts, off);
    }
    let c = columns(opts);
    let p = position_column(opts, off, false);
    assert(bar(opts.border) == seq![BAR]);
    assert(panel_close(opts) =~= seq![SPACE, BAR]);
    if kind == LayoutKind::OutputLine && !diverts(opts) {
        lemma_line_width(opts, src, w);
        lemma_ascii_panel(opts, src);
        let s = line_cells(opts, src, false, w);
        let o = panel_open(opts);
        let t = line_panel(opts, src, false);
        let pad = spaces(monus(w, src.len()));
        lemma_concat3(p + bar(opts.border) + s, o, t, pad);
        lemma_parts_framed(c, p, s, o + t + pad);
    } else {
        lemma_panel_width(opts, src);
        let s = generic_section(opts, src);
        assert(s.len() == c.hex_w);
        lemma_parts_framed(c, p, s, generic_panel(opts, src));
    }
}

/// The lines of a border and the rows inside it are equally wide, and the joints of the lines stand
/// over the bars of the rows. Characters and rows are those of ASCII; an aligned row has one gap,
/// in the middle of an even number of columns.
pub proof fn lemma_frame(edge: Edge, kind: LayoutKind, opts: Options, src: Seq<u8>, off: u64)
    requires
        opts.fits(),
        opts.mode == DisplayMode::Canonical,
        opts.border == BorderStyle::Ascii,
        opts.table == CharTable::Ascii,
        !opts.minimal,
        src.len() <= opts.width,
        kind == LayoutKind::Generic || kind == LayoutKind::OutputLine && (diverts(opts)
            || opts.width % 2 == 0),
    ensures
        edge_line(edge, columns(opts), opts.border).len() == row(kind, opts, src, off, false).len(),
        framed(edge_line(edge, columns(opts), opts.border), columns(opts), PLUS),
        framed(row(kind, opts, src, off, false), columns(opts), BAR),
{
    lemma_edge_framed(edge, columns(opts));
    lemma_row_framed(kind, opts, src, off);
}

} // verus!
