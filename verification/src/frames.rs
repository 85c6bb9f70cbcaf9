//! Borders as they are seen: the characters of their lines, and where these stand above and below
//! the bars of the rows.

use crate::border::{
    ascii_title, centered, columns, corner, dash, edge_line, framed, head_text, header_line,
    hex_title, joint, lemma_edge_framed, lemma_parts_framed, lemma_position_width, offset_title,
    repeated, Columns, Edge,
};
use crate::bytes::{spaces, BAR, NEWLINE, SPACE};
use crate::columns::{blanks, is_numeric, is_wide, lemma_cells_wide, lemma_room};
use crate::options::{BorderStyle, DisplayMode, Options};
use crate::read::{lemma_count_below, lemma_numeral_value, lemma_powers};
use crate::row::{
    bar, cell_count, cells, generic_panel, generic_section, panel_close, position_column, row,
    section_width, LayoutKind,
};
use crate::shown::{lemma_symbols_join, symbols, unbroken};
use vstd::prelude::*;

verus! {

// ---------------------------------------------------------------- characters of lines

/// The character at a joint of a line, by its code point: at the left end (0), between columns (1)
/// or at the right end (2).
pub open spec fn joint_symbol(edge: Edge, place: int, border: BorderStyle) -> int {
    if border == BorderStyle::Ascii {
        0x2b
    } else {
        match edge {
            Edge::Top => if place == 0 {
                0x250c
            } else if place == 1 {
                0x252c
            } else {
                0x2510
            },
            Edge::Inner => if place == 0 {
                0x251c
            } else if place == 1 {
                0x253c
            } else {
                0x2524
            },
            Edge::Bottom => if place == 0 {
                0x2514
            } else if place == 1 {
                0x2534
            } else {
                0x2518
            },
        }
    }
}

/// The character of a horizontal line.
pub open spec fn dash_symbol(border: BorderStyle) -> int {
    if border == BorderStyle::Ascii {
        0x2d
    } else {
        0x2500
    }
}

/// The character of a vertical line.
pub open spec fn bar_symbol(border: BorderStyle) -> int {
    if border == BorderStyle::Ascii {
        0x7c
    } else {
        0x2502
    }
}

/// So many of the same character.
pub open spec fn many(c: int, n: nat) -> Seq<int> {
    Seq::new(n, |i: int| c)
}

/// A text in the middle of so many columns, or the text itself where it is longer. Where the blanks
/// cannot be split evenly, there are more of them behind it.
pub open spec fn in_the_middle(text: Seq<int>, w: nat) -> Seq<int> {
    let left = (w - text.len()) / 2;
    if text.len() >= w {
        text
    } else {
        Seq::new(
            w,
            |i: int|
                if left <= i < left + text.len() {
                    text[i - left]
                } else {
                    0x20
                },
        )
    }
}

proof fn lemma_ascii_symbols(s: Seq<u8>)
    requires
        forall|i: int| 0 <= i < s.len() ==> #[trigger] s[i] < 0x80,
    ensures
        symbols(s) == Seq::new(s.len(), |i: int| s[i] as int),
        unbroken(s),
    decreases s.len(),
{
    let all = Seq::new(s.len(), |i: int| s[i] as int);
    if s.len() > 0 {
        let t = s.skip(1);
        assert forall|i: int| 0 <= i < t.len() implies #[trigger] t[i] < 0x80 by {
            assert(t[i] == s[i + 1]);
        }
        lemma_ascii_symbols(t);
        assert(symbols(s) =~= all);
    } else {
        assert(symbols(s) =~= all);
    }
}

/// A character of three bytes.
proof fn lemma_box_symbol(b: u8)
    requires
        0x80 <= b < 0xc0,
    ensures
        symbols(seq![0xe2u8, 0x94, b]) == seq![0x2500 + (b - 0x80) as int],
        unbroken(seq![0xe2u8, 0x94, b]),
{
    let s = seq![0xe2u8, 0x94, b];
    let none = Seq::<u8>::empty();
    assert(s.skip(3) =~= none);
    reveal_with_fuel(symbols, 2);
    reveal_with_fuel(unbroken, 2);
    assert(symbols(s) =~= seq![0x2500 + (b - 0x80) as int]);
}

proof fn lemma_joint(edge: Edge, place: int, border: BorderStyle)
    requires
        border != BorderStyle::Off,
    ensures
        symbols(joint(edge, place, border)) == seq![joint_symbol(edge, place, border)],
        unbroken(joint(edge, place, border)),
{
    if border == BorderStyle::Ascii {
        lemma_ascii_symbols(seq![0x2bu8]);
        assert(symbols(joint(edge, place, border)) =~= seq![joint_symbol(edge, place, border)]);
    } else {
        lemma_box_symbol(corner(edge, place));
    }
}

proof fn lemma_bar(border: BorderStyle)
    requires
        border != BorderStyle::Off,
    ensures
        symbols(bar(border)) == seq![bar_symbol(border)],
        unbroken(bar(border)),
{
    if border == BorderStyle::Ascii {
        lemma_ascii_symbols(seq![0x7cu8]);
        assert(symbols(bar(border)) =~= seq![bar_symbol(border)]);
    } else {
        lemma_box_symbol(0x82);
    }
}

proof fn lemma_dashes(border: BorderStyle, n: nat)
    requires
        border != BorderStyle::Off,
    ensures
        symbols(repeated(dash(border), n)) == many(dash_symbol(border), n),
        unbroken(repeated(dash(border), n)),
    decreases n,
{
    if n == 0 {
        assert(symbols(repeated(dash(border), n)) =~= many(dash_symbol(border), n));
    } else {
        let m = (n - 1) as nat;
        lemma_dashes(border, m);
        lemma_symbols_join(repeated(dash(border), m), dash(border));
        if border == BorderStyle::Ascii {
            lemma_ascii_symbols(seq![0x2du8]);
            assert(symbols(dash(border)) =~= seq![dash_symbol(border)]);
        } else {
            lemma_box_symbol(0x80);
        }
        assert(symbols(repeated(dash(border), n)) =~= many(dash_symbol(border), n));
    }
}

/// A horizontal line: joints at its ends and between the columns, dashes in between, and a line
/// feed. Each column is as wide as the text in it, with a blank behind it where one stands there.
#[verifier::rlimit(50)]
pub proof fn lemma_edge_drawn(edge: Edge, c: Columns, border: BorderStyle)
    requires
        border != BorderStyle::Off,
    ensures
        symbols(edge_line(edge, c, border)) == seq![joint_symbol(edge, 0, border)] + (if c.has_pos {
            many(dash_symbol(border), c.pos_w as nat) + seq![joint_symbol(edge, 1, border)]
        } else {
            seq![]
        }) + many(dash_symbol(border), (c.hex_w + 1) as nat) + (if c.has_ascii {
            seq![joint_symbol(edge, 1, border)] + many(
                dash_symbol(border),
                (c.ascii_w + 1) as nat,
            )
        } else {
            seq![]
        }) + seq![joint_symbol(edge, 2, border)] + seq![0x0aint],
{
    let d = dash(border);
    let l = joint(edge, 0, border);
    let mid = joint(edge, 1, border);
    let r = joint(edge, 2, border);
    let e = seq![NEWLINE];
    let none = Seq::<u8>::empty();
    lemma_joint(edge, 0, border);
    lemma_joint(edge, 1, border);
    lemma_joint(edge, 2, border);
    lemma_ascii_symbols(e);
    assert(symbols(e) =~= seq![0x0aint]);
    lemma_ascii_symbols(none);
    assert(symbols(none) =~= Seq::<int>::empty());
    let dp = repeated(d, c.pos_w as nat);
    let dh = repeated(d, (c.hex_w + 1) as nat);
    let da = repeated(d, (c.ascii_w + 1) as nat);
    lemma_dashes(border, c.pos_w as nat);
    lemma_dashes(border, (c.hex_w + 1) as nat);
    lemma_dashes(border, (c.ascii_w + 1) as nat);
    lemma_symbols_join(dp, mid);
    lemma_symbols_join(mid, da);
    let x = if c.has_pos {
        dp + mid
    } else {
        none
    };
    let y = if c.has_ascii {
        mid + da
    } else {
        none
    };
    lemma_symbols_join(l, x);
    lemma_symbols_join(l + x, dh);
    lemma_symbols_join(l + x + dh, y);
    lemma_symbols_join(l + x + dh + y, r);
    lemma_symbols_join(l + x + dh + y + r, e);
}

proof fn lemma_blanks(n: nat)
    ensures
        symbols(spaces(n)) == many(0x20, n),
        unbroken(spaces(n)),
{
    lemma_ascii_symbols(spaces(n));
    assert(symbols(spaces(n)) =~= many(0x20, n));
}

proof fn lemma_title(text: Seq<u8>, w: nat)
    requires
        forall|i: int| 0 <= i < text.len() ==> #[trigger] text[i] < 0x80,
    ensures
        symbols(centered(text, w)) == in_the_middle(Seq::new(text.len(), |i: int| text[i] as int), w),
        unbroken(centered(text, w)),
{
    lemma_ascii_symbols(text);
    if text.len() < w {
        let pad = (w - text.len()) as nat;
        let a = spaces(pad / 2);
        let b = spaces((pad - pad / 2) as nat);
        lemma_blanks(pad / 2);
        lemma_blanks((pad - pad / 2) as nat);
        lemma_symbols_join(a, text);
        lemma_symbols_join(a + text, b);
        assert(symbols(centered(text, w)) =~= in_the_middle(
            Seq::new(text.len(), |i: int| text[i] as int),
            w,
        ));
    }
}

/// The line that names the columns: bars at its ends and between the columns, and the names in the
/// middle of the columns.
#[verifier::rlimit(50)]
pub proof fn lemma_header_drawn(c: Columns, border: BorderStyle)
    requires
        border != BorderStyle::Off,
    ensures
        ({
            let b = seq![bar_symbol(border)];
            // offset
            let offset = seq![0x6fint, 0x66, 0x66, 0x73, 0x65, 0x74];
            // hex, behind a blank
            let hex = seq![0x20int, 0x68, 0x65, 0x78];
            // ascii, behind a blank
            let ascii = seq![0x20int, 0x61, 0x73, 0x63, 0x69, 0x69];
            symbols(header_line(c, border)) == b + (if c.has_pos {
                in_the_middle(offset, c.pos_w as nat) + b
            } else {
                seq![]
            }) + (in_the_middle(hex, (c.hex_w + 1) as nat) + b) + (if c.has_ascii {
                in_the_middle(ascii, (c.ascii_w + 1) as nat) + b
            } else {
                seq![]
            }) + seq![0x0aint]
        }),
{
    let b = bar(border);
    let none = Seq::<u8>::empty();
    let e = seq![NEWLINE];
    lemma_bar(border);
    lemma_ascii_symbols(e);
    assert(symbols(e) =~= seq![0x0aint]);
    lemma_ascii_symbols(none);
    assert(symbols(none) =~= Seq::<int>::empty());
    let t1 = centered(offset_title(), c.pos_w as nat);
    let t2 = centered(hex_title(), (c.hex_w + 1) as nat);
    let t3 = centered(ascii_title(), (c.ascii_w + 1) as nat);
    lemma_title(offset_title(), c.pos_w as nat);
    lemma_title(hex_title(), (c.hex_w + 1) as nat);
    lemma_title(ascii_title(), (c.ascii_w + 1) as nat);
    assert(Seq::new(offset_title().len(), |i: int| offset_title()[i] as int) =~= seq![
        0x6fint,
        0x66,
        0x66,
        0x73,
        0x65,
        0x74,
    ]);
    assert(Seq::new(hex_title().len(), |i: int| hex_title()[i] as int) =~= seq![
        0x20int,
        0x68,
        0x65,
        0x78,
    ]);
    assert(Seq::new(ascii_title().len(), |i: int| ascii_title()[i] as int) =~= seq![
        0x20int,
        0x61,
        0x73,
        0x63,
        0x69,
        0x69,
    ]);
    lemma_symbols_join(t1, b);
    lemma_symbols_join(t2, b);
    lemma_symbols_join(t3, b);
    let x = if c.has_pos {
        t1 + b
    } else {
        none
    };
    let y = if c.has_ascii {
        t3 + b
    } else {
        none
    };
    lemma_symbols_join(b, x);
    lemma_symbols_join(b + x, t2 + b);
    lemma_symbols_join(b + x + (t2 + b), y);
    lemma_symbols_join(b + x + (t2 + b) + y, e);
}

/// Above the rows of a bordered dump stand the upper line, the names of the columns, and the line
/// that parts them from the rows.
pub proof fn lemma_head_drawn(opts: Options)
    requires
        opts.border != BorderStyle::Off,
    ensures
        head_text(opts) == edge_line(Edge::Top, columns(opts), opts.border) + header_line(
            columns(opts),
            opts.border,
        ) + edge_line(Edge::Inner, columns(opts), opts.border),
        columns(opts).has_pos == !opts.no_position,
        columns(opts).has_pos ==> columns(opts).pos_w == if opts.offset_dec {
            21int
        } else {
            17
        },
        columns(opts).has_ascii == (!opts.no_ascii && !(is_numeric(opts.mode) || opts.mode
            == DisplayMode::OneByteChar)),
        columns(opts).ascii_w == opts.width,
{
}

// ---------------------------------------------------------------- rows of numbers in a border

proof fn lemma_character_cells(opts: Options, src: Seq<u8>, k: nat)
    requires
        opts.mode == DisplayMode::OneByteChar,
    ensures
        cells(opts, src, k).len() <= 4 * k,
    decreases k,
{
    if k > 0 {
        lemma_character_cells(opts, src, (k - 1) as nat);
        if k - 1 < src.len() {
            let b = src[k - 1] as nat;
            lemma_powers();
            lemma_count_below(b, 8, 3);
            lemma_numeral_value(b, 8, 3, false);
        }
    }
}

/// In the modes that show numbers or characters, too, the lines of a border and the rows inside it
/// are equally wide, and the joints of the lines stand over the bars of the rows. Groups are of two
/// bytes; a row of bits has eight.
#[verifier::rlimit(50)]
pub proof fn lemma_number_frame(edge: Edge, opts: Options, src: Seq<u8>, off: u64)
    requires
        opts.fits(),
        is_numeric(opts.mode) || opts.mode == DisplayMode::OneByteChar,
        is_wide(opts.mode) ==> opts.group <= 2,
        opts.border == BorderStyle::Ascii,
    ensures
        edge_line(edge, columns(opts), opts.border).len() == row(
            LayoutKind::Generic,
            opts,
            src,
            off,
            false,
        ).len(),
        framed(edge_line(edge, columns(opts), opts.border), columns(opts), 0x2b),
        framed(row(LayoutKind::Generic, opts, src, off, false), columns(opts), 0x7c),
{
    lemma_edge_framed(edge, columns(opts));
    let k = cell_count(opts);
    if opts.mode == DisplayMode::OneByteChar {
        lemma_character_cells(opts, src, k);
    } else {
        lemma_cells_wide(opts, src, k);
    }
    if !opts.no_position {
        lemma_position_width(opts, off);
    }
    let c = columns(opts);
    let p = position_column(opts, off, false);
    assert(bar(opts.border) == seq![BAR]);
    assert(panel_close(opts) =~= seq![SPACE, BAR]);
    let s = generic_section(opts, src);
    let w = opts.width as int;
    assert(w / 2 * 5 <= 4 * w && w / 2 * 7 <= 4 * w && w / 2 * 6 <= 4 * w);
    assert(s.len() == c.hex_w);
    lemma_parts_framed(c, p, s, generic_panel(opts, src));
}

/// The room that a border leaves for the columns of a row: three places for each byte in canonical
/// rows, two in compact ones, four for each byte or nine for each byte's bits, and a blank and its
/// digits for each group.
pub proof fn lemma_room_for_columns(opts: Options)
    requires
        opts.wf(),
        opts.fits(),
    ensures
        ({
            let w = opts.width as int;
            let g: int = if opts.group > 2 {
                opts.group as int
            } else {
                2
            };
            let room = section_width(opts);
            &&& opts.mode == DisplayMode::Canonical && !opts.minimal ==> room == 3 * w - 1 + blanks(
                w,
                opts.group as int,
                w - 1,
            )
            &&& opts.mode == DisplayMode::Canonical && opts.minimal ==> room == 2 * w
            &&& opts.mode == DisplayMode::OneByteHex || opts.mode == DisplayMode::OneByteOctal
                || opts.mode == DisplayMode::OneByteDecimal || opts.mode == DisplayMode::OneByteChar
                ==> room == 4 * w
            &&& opts.mode == DisplayMode::Binary ==> room == 72
            &&& opts.mode == DisplayMode::TwoByteHex ==> room == w / g * (2 * g + 1)
            &&& opts.mode == DisplayMode::TwoByteOctal ==> room == w / g * (3 * g + 1)
            &&& opts.mode == DisplayMode::TwoByteDecimal ==> room == w / g * 6
        }),
{
    if opts.mode == DisplayMode::Canonical {
        lemma_room(opts, opts.width as nat);
    }
}

} // verus!
