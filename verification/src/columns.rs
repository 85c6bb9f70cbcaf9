//! The columns of rows as a reader takes them: where the offset and the digits of each byte stand,
//! and what they denote.

use crate::bytes::{
    lemma_concat3, lemma_concat5, lemma_concat_assoc, monus, spaces, COLON, NEWLINE, SPACE,
};
use crate::charset::panel_text;
use crate::dump::lemma_panels_alike;
use crate::fields::number_at;
use crate::numeral::{digit_count, hex2, numeral};
use crate::options::{BorderStyle, CharTable, DisplayMode, Endian, Options};
use crate::plain::plain_text;
use crate::read::{
    in_case, lemma_count_below, lemma_hex2_value, lemma_numeral_value, lemma_offset_value,
    lemma_powers, raised, reads,
};
use crate::row::{
    bar, big_value, canonical_width, cell, cell_count, cells, character_cell, diverts, gap_before,
    generic_panel, generic_section, group_bytes, group_value, hex_text, line_cell, line_cells,
    line_panel, offset_text, panel_close, panel_open, position_column, position_width, row,
    scalar_body, scalar_cell, scalar_cells, shown_byte, wide_group, LayoutKind,
};
use crate::shown::{behind_panel, is_aligned, lemma_row_panel, panel_bar, pictures};
use vstd::prelude::*;

verus! {

// ---------------------------------------------------------------- the offset column

/// The vertical line of a border, in bytes.
pub open spec fn line_bytes(border: BorderStyle) -> Seq<u8> {
    match border {
        BorderStyle::Off => seq![],
        BorderStyle::Ascii => seq![0x7cu8],
        BorderStyle::Unicode => seq![0xe2u8, 0x94, 0x82],
    }
}

/// The place of the first column behind the offset, which has so many digits: a colon and a space
/// follow them, or a border after the room for the longest offset.
pub open spec fn first_column(opts: Options, digits: int) -> int {
    let b = line_bytes(opts.border).len();
    let room: int = if opts.offset_dec {
        21
    } else {
        17
    };
    b + if opts.no_position {
        0
    } else if opts.border == BorderStyle::Off {
        digits + 2
    } else if digits + 1 > room {
        b + digits + 1
    } else {
        b + room
    }
}

/// How many digits the offset of a row has.
pub open spec fn offset_size(opts: Options, off: u64) -> int {
    offset_text(off, opts.offset_dec, opts.uppercase).len() as int
}

/// Does the row start with its offset: a number in the base asked for, of eight digits at least and
/// without needless zeros, and a colon behind it? Only spaces follow up to the first column.
pub open spec fn starts_with_offset(opts: Options, s: Seq<u8>, off: u64, t: Seq<u8>) -> bool {
    let b = line_bytes(opts.border);
    let e = b.len() + t.len();
    let c = first_column(opts, t.len() as int);
    &&& c <= s.len()
    &&& s.take(e as int) == b + t
    &&& s[e as int] == 0x3a
    &&& forall|j: int| e < j < c - b.len() ==> #[trigger] s[j] == 0x20
    &&& s.subrange(c - b.len(), c) == b
    &&& t.len() >= 8
    &&& reads(
        t,
        if opts.offset_dec {
            10
        } else {
            16
        },
        off as nat,
    )
    &&& in_case(t, opts.uppercase)
    &&& t.len() > 8 ==> t[0] != 0x30
}

proof fn lemma_position(opts: Options, off: u64, rest: Seq<u8>)
    requires
        !opts.no_position,
    ensures
        starts_with_offset(
            opts,
            position_column(opts, off, false) + bar(opts.border) + rest,
            off,
            offset_text(off, opts.offset_dec, opts.uppercase),
        ),
        (position_column(opts, off, false) + bar(opts.border)).len() == first_column(
            opts,
            offset_size(opts, off),
        ),
{
    let t = offset_text(off, opts.offset_dec, opts.uppercase);
    let b = bar(opts.border);
    lemma_offset_value(off, opts.offset_dec, opts.uppercase);
    let p = position_column(opts, off, false);
    let s = p + b + rest;
    let pad = if opts.border == BorderStyle::Off {
        seq![SPACE]
    } else {
        spaces(monus(position_width(opts), t.len() + 1))
    };
    assert(p =~= b + t + seq![COLON] + pad);
    assert(s =~= b + t + seq![COLON] + pad + b + rest);
    assert(s.take((b.len() + t.len()) as int) =~= b + t);
    let c = first_column(opts, t.len() as int);
    assert(s.subrange(c - b.len(), c) =~= b);
}

/// The place of the first column behind an offset.
pub proof fn lemma_first_place(opts: Options, off: u64)
    requires
        !opts.no_position,
    ensures
        (position_column(opts, off, false) + bar(opts.border)).len() == first_column(
            opts,
            offset_size(opts, off),
        ),
{
    lemma_position(opts, off, seq![]);
}

proof fn lemma_no_position(opts: Options, off: u64)
    requires
        opts.no_position,
    ensures
        (position_column(opts, off, false) + bar(opts.border)).len() == first_column(
            opts,
            offset_size(opts, off),
        ),
{
}

/// Is the row one of a kind that has columns? Compact rows have not.
pub open spec fn has_columns(kind: LayoutKind, opts: Options) -> bool {
    kind == LayoutKind::Generic && !(opts.minimal && opts.mode == DisplayMode::Canonical) || kind
        == LayoutKind::OutputLine && is_aligned(opts)
}

/// What stands behind the first column.
spec fn behind(kind: LayoutKind, opts: Options, src: Seq<u8>) -> Seq<u8> {
    if kind == LayoutKind::Generic {
        generic_section(opts, src) + (generic_panel(opts, src) + panel_close(opts) + seq![NEWLINE])
    } else {
        line_cells(opts, src, false, opts.width as nat) + (panel_open(opts) + line_panel(
            opts,
            src,
            false,
        ) + spaces(monus(opts.width as nat, src.len())) + panel_close(opts) + seq![NEWLINE])
    }
}

#[verifier::rlimit(50)]
proof fn lemma_behind(kind: LayoutKind, opts: Options, src: Seq<u8>, off: u64)
    requires
        has_columns(kind, opts),
    ensures
        row(kind, opts, src, off, false) == position_column(opts, off, false) + bar(opts.border)
            + behind(kind, opts, src),
{
    let p = position_column(opts, off, false) + bar(opts.border);
    let z = panel_close(opts);
    let e = seq![NEWLINE];
    if kind == LayoutKind::Generic {
        let s = generic_section(opts, src);
        let t = generic_panel(opts, src);
        lemma_concat3(p + s, t, z, e);
        lemma_concat_assoc(p, s, t + z + e);
    } else {
        let c = line_cells(opts, src, false, opts.width as nat);
        let o = panel_open(opts);
        let t = line_panel(opts, src, false);
        let pad = spaces(monus(opts.width as nat, src.len()));
        lemma_concat5(p + c, o, t, pad, z, e);
        lemma_concat_assoc(p, c, o + t + pad + z + e);
    }
}

/// A row starts with its offset.
pub proof fn lemma_row_offset(kind: LayoutKind, opts: Options, src: Seq<u8>, off: u64) -> (t: Seq<
    u8,
>)
    requires
        has_columns(kind, opts),
        !opts.no_position,
    ensures
        starts_with_offset(opts, row(kind, opts, src, off, false), off, t),
        t.len() == offset_size(opts, off),
{
    lemma_behind(kind, opts, src, off);
    lemma_position(opts, off, behind(kind, opts, src));
    offset_text(off, opts.offset_dec, opts.uppercase)
}

/// What stands in a row from its first column on, `at` bytes further.
#[verifier::rlimit(50)]
proof fn lemma_in_section(
    kind: LayoutKind,
    opts: Options,
    src: Seq<u8>,
    off: u64,
    text: Seq<u8>,
    at: int,
    len: int,
)
    requires
        has_columns(kind, opts),
        text == if kind == LayoutKind::Generic {
            cells(opts, src, cell_count(opts))
        } else {
            line_cells(opts, src, false, opts.width as nat)
        },
        0 <= at,
        0 <= len,
        at + len <= text.len(),
    ensures
        ({
            let c = first_column(opts, offset_size(opts, off));
            let s = row(kind, opts, src, off, false);
            &&& 0 <= c
            &&& c + at + len <= s.len()
            &&& s.subrange(c + at, c + at + len) == text.subrange(at, at + len)
        }),
{
    lemma_behind(kind, opts, src, off);
    let p = position_column(opts, off, false) + bar(opts.border);
    let t = behind(kind, opts, src);
    let rest = lemma_behind_starts(kind, opts, src, text);
    lemma_inside(p, text, rest, at, len);
    assert(p.len() == first_column(opts, offset_size(opts, off))) by {
        if opts.no_position {
            lemma_no_position(opts, off);
        } else {
            lemma_position(opts, off, t);
        }
    }
}

proof fn lemma_behind_starts(kind: LayoutKind, opts: Options, src: Seq<u8>, text: Seq<u8>) -> (rest:
    Seq<u8>)
    requires
        has_columns(kind, opts),
        text == if kind == LayoutKind::Generic {
            cells(opts, src, cell_count(opts))
        } else {
            line_cells(opts, src, false, opts.width as nat)
        },
    ensures
        behind(kind, opts, src) == text + rest,
{
    let t = behind(kind, opts, src);
    let rest = t.skip(text.len() as int);
    assert(t =~= text + rest);
    rest
}

/// What stands in the middle of three texts.
pub proof fn lemma_inside(p: Seq<u8>, text: Seq<u8>, rest: Seq<u8>, at: int, len: int)
    requires
        0 <= at,
        0 <= len,
        at + len <= text.len(),
    ensures
        p.len() + at + len <= (p + (text + rest)).len(),
        (p + (text + rest)).subrange(p.len() + at, p.len() + at + len) == text.subrange(
            at,
            at + len,
        ),
{
    assert((p + (text + rest)).subrange(p.len() + at, p.len() + at + len) =~= text.subrange(
        at,
        at + len,
    ));
}

// ---------------------------------------------------------------- canonical rows

/// How many additional blanks stand up to column `i`: one in the middle, and one before each group
/// of two bytes and more.
pub open spec fn blanks(width: int, group: int, i: int) -> int
    decreases i,
{
    if i <= 0 {
        0
    } else {
        blanks(width, group, i - 1) + if i % (width / 2) == 0 || group > 1 && i % group == 0 {
            1int
        } else {
            0
        }
    }
}

proof fn lemma_cells_before(opts: Options, src: Seq<u8>, k: nat)
    requires
        opts.mode == DisplayMode::Canonical,
        k < opts.width,
    ensures
        cells(opts, src, k).len() == 3 * k + if k == 0 {
            0
        } else {
            blanks(opts.width as int, opts.group as int, k - 1)
        },
    decreases k,
{
    if k > 0 {
        lemma_cells_before(opts, src, (k - 1) as nat);
        let c = cell(opts, src, k - 1);
        assert(c.len() == 3 + if gap_before(opts, k - 1) {
            1int
        } else {
            0
        });
    }
}

/// The columns of more cells start with those of fewer.
proof fn lemma_cells_prefix(opts: Options, src: Seq<u8>, j: nat, k: nat)
    requires
        j <= k,
    ensures
        cells(opts, src, j).len() <= cells(opts, src, k).len(),
        cells(opts, src, k).take(cells(opts, src, j).len() as int) == cells(opts, src, j),
    decreases k,
{
    let a = cells(opts, src, j);
    if j < k {
        lemma_cells_prefix(opts, src, j, (k - 1) as nat);
        let b = cells(opts, src, (k - 1) as nat);
        assert(cells(opts, src, k).take(a.len() as int) =~= b.take(a.len() as int));
    } else {
        assert(a.take(a.len() as int) =~= a);
    }
}

/// Cell `i` stands behind the cells before it.
proof fn lemma_cell_stands(opts: Options, src: Seq<u8>, i: nat, k: nat)
    requires
        i < k,
    ensures
        ({
            let at = cells(opts, src, i).len() as int;
            let c = cell(opts, src, i as int);
            &&& at + c.len() <= cells(opts, src, k).len()
            &&& cells(opts, src, k).subrange(at, at + c.len()) == c
        }),
{
    let a = cells(opts, src, i);
    let c = cell(opts, src, i as int);
    let all = cells(opts, src, k);
    lemma_cells_prefix(opts, src, i + 1, k);
    let b = cells(opts, src, i + 1);
    assert(b == a + c);
    let at = a.len() as int;
    assert(all.subrange(at, at + c.len()) =~= b.subrange(at, at + c.len())) by {
        assert forall|j: int| 0 <= j < c.len() implies #[trigger] all[at + j] == b[at + j] by {
            assert(all.take(b.len() as int)[at + j] == b[at + j]);
        }
    }
    assert(b.subrange(at, at + c.len()) =~= c);
}

/// The byte that column `i` shows: in little-endian order the groups are turned round, and an
/// incomplete group is filled up with zeros.
pub open spec fn column_byte(opts: Options, src: Seq<u8>, i: int) -> u8 {
    let g = opts.group as int;
    if opts.endian == Endian::Big || g == 1 {
        src[i]
    } else {
        let first = i - i % g;
        let mirror = first + (g - 1) - (i - first);
        if mirror < src.len() {
            src[mirror]
        } else {
            0
        }
    }
}

/// In a canonical row the digits of each byte stand in its column, three places for each with the
/// blanks between halves and groups; the columns of a short row are blank.
#[verifier::rlimit(50)]
pub proof fn lemma_canonical_digits(
    kind: LayoutKind,
    opts: Options,
    src: Seq<u8>,
    off: u64,
    i: int,
)
    requires
        opts.wf(),
        has_columns(kind, opts),
        opts.mode == DisplayMode::Canonical,
        0 <= i < opts.width,
    ensures
        ({
            let s = row(kind, opts, src, off, false);
            let at = first_column(opts, offset_size(opts, off)) + 3 * i + if kind
                == LayoutKind::Generic {
                blanks(opts.width as int, opts.group as int, i)
            } else if i >= opts.width as int / 2 {
                1
            } else {
                0
            };
            &&& 0 <= at
            &&& at + 2 <= s.len()
            &&& i < src.len() ==> reads(
                s.subrange(at, at + 2),
                16,
                column_byte(opts, src, i) as nat,
            ) && in_case(s.subrange(at, at + 2), opts.uppercase)
            &&& i >= src.len() ==> s[at] == 0x20 && s[at + 1] == 0x20
        }),
{
    if kind == LayoutKind::Generic {
        lemma_generic_digits(opts, src, i);
        let at = 3 * i + blanks(opts.width as int, opts.group as int, i);
        let text = cells(opts, src, opts.width as nat);
        lemma_in_section(kind, opts, src, off, text, at, 2);
        let d = first_column(opts, offset_size(opts, off)) + at;
        lemma_pair(row(kind, opts, src, off, false), d, text, at);
    } else {
        lemma_line_digits(opts, src, off, i);
    }
}

proof fn lemma_pair(s: Seq<u8>, d: int, text: Seq<u8>, at: int)
    requires
        0 <= d,
        d + 2 <= s.len(),
        0 <= at,
        at + 2 <= text.len(),
        s.subrange(d, d + 2) == text.subrange(at, at + 2),
    ensures
        s[d] == text[at],
        s[d + 1] == text[at + 1],
{
    assert(s.subrange(d, d + 2)[0] == s[d] && s.subrange(d, d + 2)[1] == s[d + 1]);
    assert(text.subrange(at, at + 2)[0] == text[at]);
    assert(text.subrange(at, at + 2)[1] == text[at + 1]);
}

#[verifier::rlimit(50)]
proof fn lemma_generic_digits(opts: Options, src: Seq<u8>, i: int)
    requires
        opts.wf(),
        opts.mode == DisplayMode::Canonical,
        0 <= i < opts.width,
    ensures
        ({
            let text = cells(opts, src, opts.width as nat);
            let at = 3 * i + blanks(opts.width as int, opts.group as int, i);
            &&& 0 <= at
            &&& at + 2 <= text.len()
            &&& i < src.len() ==> reads(
                text.subrange(at, at + 2),
                16,
                column_byte(opts, src, i) as nat,
            ) && in_case(text.subrange(at, at + 2), opts.uppercase)
            &&& i >= src.len() ==> text[at] == 0x20 && text[at + 1] == 0x20
        }),
{
    let w = opts.width as nat;
    let text = cells(opts, src, w);
    lemma_cells_before(opts, src, i as nat);
    lemma_cell_stands(opts, src, i as nat, w);
    let gap: int = if gap_before(opts, i) {
        1
    } else {
        0
    };
    let first = cells(opts, src, i as nat).len() as int;
    let at = first + gap;
    let c = cell(opts, src, i);
    let t = text.subrange(first, first + c.len());
    assert(t == c);
    assert(t[gap] == text[at] && t[gap + 1] == text[at + 1]);
    if i < src.len() {
        let b = shown_byte(opts, src, i);
        lemma_hex2_value(b, opts.uppercase);
        let h = hex2(b, opts.uppercase);
        assert(c[gap] == h[0] && c[gap + 1] == h[1]);
        assert(text.subrange(at, at + 2) =~= h);
        let g = opts.group as int;
        if opts.endian == Endian::Little && g > 1 {
            assert(i / g * g == i - i % g) by (nonlinear_arith)
                requires
                    g > 1,
            ;
        }
    } else {
        assert(c[gap] == 0x20 && c[gap + 1] == 0x20);
    }
}

/// The columns of an aligned row.
proof fn lemma_line_before(opts: Options, src: Seq<u8>, k: nat)
    requires
        k < opts.width,
    ensures
        line_cells(opts, src, false, k).len() == 3 * k + if k > opts.width as int / 2 {
            1int
        } else {
            0
        },
    decreases k,
{
    if k > 0 {
        lemma_line_before(opts, src, (k - 1) as nat);
    }
}

proof fn lemma_line_stands(opts: Options, src: Seq<u8>, i: nat, k: nat)
    requires
        i < k,
    ensures
        ({
            let at = line_cells(opts, src, false, i).len() as int;
            let c = line_cell(opts, src, false, i as int);
            let all = line_cells(opts, src, false, k);
            &&& at + c.len() <= all.len()
            &&& forall|j: int| 0 <= j < c.len() ==> #[trigger] all[at + j] == c[j]
        }),
    decreases k,
{
    if i + 1 < k {
        lemma_line_stands(opts, src, i, (k - 1) as nat);
    }
}

#[verifier::rlimit(50)]
proof fn lemma_line_digits(opts: Options, src: Seq<u8>, off: u64, i: int)
    requires
        opts.wf(),
        !diverts(opts),
        0 <= i < opts.width,
    ensures
        ({
            let s = row(LayoutKind::OutputLine, opts, src, off, false);
            let at = first_column(opts, offset_size(opts, off)) + 3 * i + if i >= opts.width as int
                / 2 {
                1int
            } else {
                0
            };
            &&& 0 <= at
            &&& at + 2 <= s.len()
            &&& i < src.len() ==> reads(s.subrange(at, at + 2), 16, src[i] as nat) && in_case(
                s.subrange(at, at + 2),
                opts.uppercase,
            )
            &&& i >= src.len() ==> s[at] == 0x20 && s[at + 1] == 0x20
        }),
{
    let w = opts.width as nat;
    let text = line_cells(opts, src, false, w);
    lemma_line_before(opts, src, i as nat);
    lemma_line_stands(opts, src, i as nat, w);
    let gap: int = if i == opts.width as int / 2 {
        1
    } else {
        0
    };
    let first = line_cells(opts, src, false, i as nat).len() as int;
    let c = line_cell(opts, src, false, i);
    let at = first + gap;
    assert(text[first + gap] == c[gap] && text[first + (gap + 1)] == c[gap + 1]);
    lemma_in_section(LayoutKind::OutputLine, opts, src, off, text, at, 2);
    let s = row(LayoutKind::OutputLine, opts, src, off, false);
    let d = first_column(opts, offset_size(opts, off)) + at;
    assert(s.subrange(d, d + 2)[0] == s[d] && s.subrange(d, d + 2)[1] == s[d + 1]);
    assert(text.subrange(at, at + 2)[0] == text[at]);
    assert(text.subrange(at, at + 2)[1] == text[at + 1]);
    if i < src.len() {
        lemma_hex2_value(src[i], opts.uppercase);
        let h = hex2(src[i], opts.uppercase);
        assert(c[gap] == h[0] && c[gap + 1] == h[1]);
        assert(s.subrange(d, d + 2) =~= h);
    }
}

/// The place of column `i` among the columns of a canonical row.
pub open spec fn column_place(kind: LayoutKind, opts: Options, i: int) -> int {
    3 * i + if kind == LayoutKind::Generic {
        blanks(opts.width as int, opts.group as int, i)
    } else if i >= opts.width as int / 2 {
        1int
    } else {
        0
    }
}

proof fn lemma_generic_between(opts: Options, src: Seq<u8>, i: int)
    requires
        opts.wf(),
        opts.mode == DisplayMode::Canonical,
        0 <= i,
        i + 1 < opts.width,
    ensures
        ({
            let text = cells(opts, src, opts.width as nat);
            let at = column_place(LayoutKind::Generic, opts, i) + 2;
            let next = column_place(LayoutKind::Generic, opts, i + 1);
            &&& 0 <= at <= next <= text.len()
            &&& forall|j: int| at <= j < next ==> #[trigger] text[j] == 0x20
        }),
{
    let w = opts.width as nat;
    let text = cells(opts, src, w);
    lemma_cells_before(opts, src, i as nat);
    lemma_cells_before(opts, src, (i + 1) as nat);
    lemma_cell_stands(opts, src, i as nat, w);
    lemma_cell_stands(opts, src, (i + 1) as nat, w);
    let a = cell(opts, src, i);
    let b = cell(opts, src, i + 1);
    let from = cells(opts, src, i as nat).len() as int;
    let mid = cells(opts, src, (i + 1) as nat).len() as int;
    let x = text.subrange(from, from + a.len());
    let y = text.subrange(mid, mid + b.len());
    assert(x == a && y == b);
    if i < src.len() {
        lemma_hex2_value(shown_byte(opts, src, i), opts.uppercase);
    }
    assert(a.len() == mid - from && a.last() == 0x20);
    assert(x[a.len() - 1] == text[mid - 1]);
    if gap_before(opts, i + 1) {
        assert(b[0] == 0x20);
        assert(y[0] == text[mid]);
    }
}

proof fn lemma_line_between(opts: Options, src: Seq<u8>, i: int)
    requires
        opts.wf(),
        is_aligned(opts),
        0 <= i,
        i + 1 < opts.width,
    ensures
        ({
            let text = line_cells(opts, src, false, opts.width as nat);
            let at = column_place(LayoutKind::OutputLine, opts, i) + 2;
            let next = column_place(LayoutKind::OutputLine, opts, i + 1);
            &&& 0 <= at <= next <= text.len()
            &&& forall|j: int| at <= j < next ==> #[trigger] text[j] == 0x20
        }),
{
    let w = opts.width as nat;
    let text = line_cells(opts, src, false, w);
    lemma_line_before(opts, src, i as nat);
    lemma_line_before(opts, src, (i + 1) as nat);
    lemma_line_stands(opts, src, i as nat, w);
    lemma_line_stands(opts, src, (i + 1) as nat, w);
    let a = line_cell(opts, src, false, i);
    let b = line_cell(opts, src, false, i + 1);
    let from = line_cells(opts, src, false, i as nat).len() as int;
    let mid = line_cells(opts, src, false, (i + 1) as nat).len() as int;
    if i < src.len() {
        lemma_hex2_value(src[i], opts.uppercase);
    }
    assert(a.len() == mid - from && a.last() == 0x20);
    assert(text[from + (a.len() - 1)] == a[a.len() - 1]);
    assert(text[mid - 1] == 0x20);
    if i + 1 == opts.width as int / 2 {
        assert(b[0] == 0x20);
        assert(text[mid + 0] == b[0]);
    }
}

/// Only blanks stand between the digits of two neighbouring columns.
pub proof fn lemma_between(kind: LayoutKind, opts: Options, src: Seq<u8>, off: u64, i: int, j: int)
    requires
        opts.wf(),
        opts.mode == DisplayMode::Canonical,
        has_columns(kind, opts),
        0 <= i,
        i + 1 < opts.width,
        column_place(kind, opts, i) + 2 <= j < column_place(kind, opts, i + 1),
    ensures
        ({
            let s = row(kind, opts, src, off, false);
            let at = first_column(opts, offset_size(opts, off)) + j;
            0 <= at < s.len() && s[at] == 0x20
        }),
{
    let text = if kind == LayoutKind::Generic {
        cells(opts, src, opts.width as nat)
    } else {
        line_cells(opts, src, false, opts.width as nat)
    };
    if kind == LayoutKind::Generic {
        lemma_generic_between(opts, src, i);
    } else {
        lemma_line_between(opts, src, i);
    }
    lemma_in_section(kind, opts, src, off, text, j, 1);
    let s = row(kind, opts, src, off, false);
    let at = first_column(opts, offset_size(opts, off)) + j;
    assert(s.subrange(at, at + 1)[0] == s[at]);
    assert(text.subrange(j, j + 1)[0] == text[j]);
}

/// How many additional blanks stand between the columns of a row.
pub open spec fn all_blanks(kind: LayoutKind, opts: Options) -> int {
    if kind == LayoutKind::Generic {
        blanks(opts.width as int, opts.group as int, opts.width - 1)
    } else {
        1
    }
}

/// The columns of a row take three places each, the last one two, and a blank where no border
/// follows.
proof fn lemma_columns_len(kind: LayoutKind, opts: Options, src: Seq<u8>)
    requires
        opts.wf(),
        opts.mode == DisplayMode::Canonical,
        !opts.no_ascii,
        kind == LayoutKind::Generic || kind == LayoutKind::OutputLine,
    ensures
        (if kind == LayoutKind::Generic {
            cells(opts, src, opts.width as nat)
        } else {
            line_cells(opts, src, false, opts.width as nat)
        }).len() == 3 * opts.width - 1 + all_blanks(kind, opts) + if opts.border
            == BorderStyle::Off {
            1int
        } else {
            0
        },
{
    let k = (opts.width - 1) as nat;
    if kind == LayoutKind::Generic {
        lemma_cells_before(opts, src, k);
        if k < src.len() {
            lemma_hex2_value(shown_byte(opts, src, k as int), opts.uppercase);
        }
    } else {
        lemma_line_before(opts, src, k);
        if k < src.len() {
            lemma_hex2_value(src[k as int], opts.uppercase);
        }
    }
}

/// A border leaves as much room for the columns as they take.
pub proof fn lemma_room(opts: Options, k: nat)
    requires
        opts.wf(),
        0 < k <= opts.width,
    ensures
        canonical_width(opts, k) == 3 * k - (if k == opts.width {
            1int
        } else {
            0
        }) + blanks(opts.width as int, opts.group as int, k - 1),
    decreases k,
{
    if k > 1 {
        lemma_room(opts, (k - 1) as nat);
    } else {
        assert(canonical_width(opts, 0) == 0);
    }
}

/// The panel of a canonical row stands directly behind its columns: a blank, and one more where
/// there is no border, and then the line before the characters. Returns what stands before that
/// line, and the characters.
#[verifier::rlimit(50)]
pub proof fn lemma_panel_place(kind: LayoutKind, opts: Options, src: Seq<u8>, off: u64) -> (r: (
    Seq<u8>,
    Seq<u8>,
))
    requires
        opts.wf(),
        opts.mode == DisplayMode::Canonical,
        !opts.no_ascii,
        !opts.minimal,
        src.len() <= opts.width,
        kind == LayoutKind::Generic || kind == LayoutKind::OutputLine && is_aligned(opts),
    ensures
        ({
            let (before, panel) = r;
            &&& row(kind, opts, src, off, false) == before + panel_bar(opts.border) + panel
                + behind_panel(kind, opts, src.len(), panel.len())
            &&& pictures(panel, opts.table, src)
            &&& before.last() == 0x20
            &&& before.len() == first_column(opts, offset_size(opts, off)) + 3 * opts.width
                + all_blanks(kind, opts) + if opts.border == BorderStyle::Off {
                1int
            } else {
                0
            }
        }),
{
    let (before, panel) = lemma_row_panel(kind, opts, src, off);
    lemma_row_len(kind, opts, src, off);
    (before, panel)
}

proof fn lemma_row_len(kind: LayoutKind, opts: Options, src: Seq<u8>, off: u64)
    requires
        opts.wf(),
        opts.mode == DisplayMode::Canonical,
        !opts.no_ascii,
        !opts.minimal,
        src.len() <= opts.width,
        kind == LayoutKind::Generic || kind == LayoutKind::OutputLine && is_aligned(opts),
    ensures
        ({
            let n = panel_text(opts.table, src).len();
            row(kind, opts, src, off, false).len() == first_column(opts, offset_size(opts, off)) + 3
                * opts.width + all_blanks(kind, opts) + (if opts.border == BorderStyle::Off {
                1int
            } else {
                0
            }) + panel_bar(opts.border).len() + n + behind_panel(kind, opts, src.len(), n).len()
        }),
{
    lemma_behind(kind, opts, src, off);
    lemma_front(opts, off);
    lemma_columns_len(kind, opts, src);
    lemma_room(opts, opts.width as nat);
    lemma_panels_alike(opts, src);
}

/// A canonical row without a border and without a panel ends behind its last column.
pub proof fn lemma_no_panel_end(opts: Options, src: Seq<u8>, off: u64)
    requires
        opts.wf(),
        opts.mode == DisplayMode::Canonical,
        opts.border == BorderStyle::Off,
        opts.no_ascii,
        !opts.minimal,
    ensures
        ({
            let s = row(LayoutKind::Generic, opts, src, off, false);
            &&& s.last() == 0x0a
            &&& s.len() == first_column(opts, offset_size(opts, off)) + 3 * opts.width + blanks(
                opts.width as int,
                opts.group as int,
                opts.width - 1,
            )
        }),
{
    lemma_behind(LayoutKind::Generic, opts, src, off);
    lemma_front(opts, off);
    lemma_last_cell(opts, src);
}

proof fn lemma_last_cell(opts: Options, src: Seq<u8>)
    requires
        opts.wf(),
        opts.mode == DisplayMode::Canonical,
        opts.no_ascii,
    ensures
        cells(opts, src, cell_count(opts)).len() == 3 * opts.width - 1 + blanks(
            opts.width as int,
            opts.group as int,
            opts.width - 1,
        ),
{
    let k = (opts.width - 1) as nat;
    lemma_cells_before(opts, src, k);
    let c = cell(opts, src, k as int);
    assert(c.len() == 2 + if gap_before(opts, k as int) {
        1int
    } else {
        0
    });
}

/// Where the settings ask for anything but single bytes in their order, with offset and panel, an
/// aligned row is a plain one.
pub proof fn lemma_row_diverted(opts: Options, src: Seq<u8>, off: u64, color: bool)
    requires
        opts.mode != DisplayMode::Canonical || opts.group != 1 || opts.endian == Endian::Little
            || opts.no_position || opts.no_ascii,
    ensures
        row(LayoutKind::OutputLine, opts, src, off, color) == row(
            LayoutKind::Generic,
            opts,
            src,
            off,
            false,
        ),
{
}

/// In a compact row the digits of all bytes follow each other, behind the offset and a space.
#[verifier::rlimit(50)]
pub proof fn lemma_compact_digits(opts: Options, src: Seq<u8>, off: u64, i: int) -> (t: Seq<u8>)
    requires
        opts.mode == DisplayMode::Canonical,
        opts.minimal,
        0 <= i < src.len(),
    ensures
        ({
            let s = row(LayoutKind::Generic, opts, src, off, false);
            let first = if opts.no_position {
                0
            } else {
                t.len() + 1
            };
            let at = first + 2 * i;
            &&& opts.no_position || {
                &&& t.len() >= 8
                &&& s.take(t.len() as int) == t
                &&& s[t.len() as int] == 0x20
                &&& reads(
                    t,
                    if opts.offset_dec {
                        10
                    } else {
                        16
                    },
                    off as nat,
                )
                &&& in_case(t, opts.uppercase)
                &&& t.len() > 8 ==> t[0] != 0x30
            }
            &&& at + 2 <= s.len()
            &&& reads(s.subrange(at, at + 2), 16, src[i] as nat)
            &&& in_case(s.subrange(at, at + 2), opts.uppercase)
        }),
{
    let t = offset_text(off, opts.offset_dec, opts.uppercase);
    lemma_offset_value(off, opts.offset_dec, opts.uppercase);
    let none = Seq::<u8>::empty();
    let p = if opts.no_position {
        none
    } else {
        t + seq![SPACE]
    };
    let h = hex_text(src, opts.uppercase);
    let s = row(LayoutKind::Generic, opts, src, off, false);
    let rest = (if opts.no_ascii {
        none
    } else {
        seq![SPACE] + panel_text(CharTable::Ascii, src)
    }) + seq![NEWLINE];
    assert(s =~= p + h + rest);
    lemma_hex_digits(src, opts.uppercase, i);
    let at = p.len() + 2 * i;
    assert(s.subrange(at, at + 2) =~= h.subrange(2 * i, 2 * i + 2));
    if !opts.no_position {
        assert(s.take(t.len() as int) =~= t);
    }
    t
}

/// The digits of all bytes without gaps: two for each.
pub proof fn lemma_hex_digits(src: Seq<u8>, upper: bool, i: int)
    requires
        0 <= i < src.len(),
    ensures
        hex_text(src, upper).len() == 2 * src.len(),
        reads(hex_text(src, upper).subrange(2 * i, 2 * i + 2), 16, src[i] as nat),
        in_case(hex_text(src, upper).subrange(2 * i, 2 * i + 2), upper),
    decreases src.len(),
{
    let front = src.drop_last();
    let t = hex_text(front, upper);
    let h = hex2(src.last(), upper);
    let all = hex_text(src, upper);
    lemma_hex2_value(src.last(), upper);
    if front.len() == 0 {
        assert(t =~= Seq::<u8>::empty());
        assert(all.subrange(2 * i, 2 * i + 2) =~= h);
    } else if i == src.len() - 1 {
        lemma_hex_digits(front, upper, 0);
        assert(all.subrange(2 * i, 2 * i + 2) =~= h);
    } else {
        lemma_hex_digits(front, upper, i);
        assert(all.subrange(2 * i, 2 * i + 2) =~= t.subrange(2 * i, 2 * i + 2));
        assert(front[i] == src[i]);
    }
}

/// Plain output is the digits of all bytes and a line feed.
pub proof fn lemma_plain_digits(data: Seq<u8>, upper: bool)
    ensures
        plain_text(data, upper).len() == 2 * data.len() + 1,
        plain_text(data, upper).last() == 0x0a,
        forall|i: int|
            0 <= i < data.len() ==> {
                let t = #[trigger] plain_text(data, upper).subrange(2 * i, 2 * i + 2);
                reads(t, 16, data[i] as nat) && in_case(t, upper)
            },
{
    let h = hex_text(data, upper);
    let s = plain_text(data, upper);
    if data.len() > 0 {
        lemma_hex_digits(data, upper, 0);
    }
    assert forall|i: int| 0 <= i < data.len() implies {
        let t = #[trigger] s.subrange(2 * i, 2 * i + 2);
        reads(t, 16, data[i] as nat) && in_case(t, upper)
    } by {
        lemma_hex_digits(data, upper, i);
        assert(s.subrange(2 * i, 2 * i + 2) =~= h.subrange(2 * i, 2 * i + 2));
    }
}

// ---------------------------------------------------------------- the other display modes

/// The number that the `size` bytes from `cur` on denote, or those that are left, the first one the
/// least significant.
pub open spec fn little_number(data: Seq<u8>, cur: int, size: int) -> nat
    decreases size,
{
    if size <= 0 || cur < 0 || cur >= data.len() {
        0
    } else {
        data[cur] as nat + 256 * little_number(data, cur + 1, size - 1)
    }
}

/// The number that group `i` of a row denotes.
pub open spec fn group_number(opts: Options, src: Seq<u8>, i: int) -> nat {
    let g: int = if opts.group > 2 {
        opts.group as int
    } else {
        2
    };
    match opts.endian {
        Endian::Big => number_at(src, i * g, g),
        Endian::Little => little_number(src, i * g, g),
    }
}

proof fn lemma_big_group(src: Seq<u8>, cur: int, size: int)
    requires
        0 <= cur,
        0 <= size,
        cur + size <= src.len(),
    ensures
        big_value(src.subrange(cur, cur + size)) == number_at(src, cur, size),
    decreases size,
{
    let t = src.subrange(cur, cur + size);
    if size > 0 {
        lemma_big_group(src, cur, size - 1);
        assert(t.drop_last() =~= src.subrange(cur, cur + size - 1));
    } else {
        assert(t =~= Seq::<u8>::empty());
    }
}

/// The bytes behind the end add nothing.
proof fn lemma_number_end(src: Seq<u8>, cur: int, size: int)
    requires
        0 <= cur < src.len(),
        cur + size >= src.len(),
    ensures
        number_at(src, cur, size) == number_at(src, cur, src.len() - cur),
    decreases size,
{
    if cur + size > src.len() {
        lemma_number_end(src, cur, size - 1);
    }
}

proof fn lemma_little_group(src: Seq<u8>, cur: int, size: int)
    requires
        0 <= cur,
        0 <= size,
        cur + size <= src.len(),
    ensures
        big_value(src.subrange(cur, cur + size).reverse()) == little_number(src, cur, size),
    decreases size,
{
    let t = src.subrange(cur, cur + size).reverse();
    if size > 0 {
        lemma_little_group(src, cur + 1, size - 1);
        assert(t.drop_last() =~= src.subrange(cur + 1, cur + size).reverse());
        assert(t.last() == src[cur]);
    } else {
        assert(t =~= Seq::<u8>::empty());
    }
}

proof fn lemma_little_end(src: Seq<u8>, cur: int, size: int)
    requires
        0 <= cur <= src.len(),
        cur + size >= src.len(),
    ensures
        little_number(src, cur, size) == little_number(src, cur, src.len() - cur),
    decreases size,
{
    if cur < src.len() {
        lemma_little_end(src, cur + 1, size - 1);
    }
}

/// The number that bytes denote has the first byte in front, or at the end.
pub proof fn lemma_group_value(s: Seq<u8>)
    ensures
        group_value(s, Endian::Big) == number_at(s, 0, s.len() as int),
        group_value(s, Endian::Little) == little_number(s, 0, s.len() as int),
{
    lemma_big_group(s, 0, s.len() as int);
    lemma_little_group(s, 0, s.len() as int);
    assert(s.subrange(0, s.len() as int) =~= s);
}

proof fn lemma_group(opts: Options, src: Seq<u8>, i: int)
    requires
        0 <= i,
        i * wide_group(opts) < src.len(),
    ensures
        group_value(group_bytes(opts, src, i), opts.endian) == group_number(opts, src, i),
{
    let g = wide_group(opts) as int;
    let from = i * g;
    assert(0 <= from) by (nonlinear_arith)
        requires
            0 <= i,
            0 <= g,
            from == i * g,
    ;
    let size = if from + g <= src.len() {
        g
    } else {
        src.len() - from
    };
    assert(group_bytes(opts, src, i) == src.subrange(from, from + size));
    match opts.endian {
        Endian::Big => {
            lemma_big_group(src, from, size);
            if size < g {
                lemma_number_end(src, from, g);
            }
        },
        Endian::Little => {
            lemma_little_group(src, from, size);
            if size < g {
                lemma_little_end(src, from, g);
            }
        },
    }
}

/// The number of a group is below 256 to the power of its size.
proof fn lemma_big_bound(s: Seq<u8>)
    ensures
        big_value(s) < raised(256, s.len()),
    decreases s.len(),
{
    if s.len() > 0 {
        lemma_big_bound(s.drop_last());
        let x = big_value(s.drop_last());
        let h = raised(256, (s.len() - 1) as nat);
        assert(x * 256 + s.last() < 256 * h) by (nonlinear_arith)
            requires
                x < h,
                s.last() < 256,
        ;
    }
}

/// Digits of a base whose power holds a byte suffice for a number of bytes.
proof fn lemma_digits_suffice(n: nat, base: nat, each: nat)
    requires
        raised(base, each) >= 256,
        base >= 2,
    ensures
        raised(256, n) <= raised(base, n * each),
    decreases n,
{
    if n > 0 {
        let m = (n - 1) as nat;
        lemma_digits_suffice(m, base, each);
        assert(n * each == m * each + each) by (nonlinear_arith)
            requires
                n == m + 1,
        ;
        lemma_raised_join(base, m * each, each);
        let x = raised(256, m);
        let y = raised(base, m * each);
        let z = raised(base, each);
        assert(256 * x <= y * z) by (nonlinear_arith)
            requires
                x <= y,
                256 <= z,
                0 <= x,
        ;
    } else {
        assert(0 * each == 0);
    }
}

proof fn lemma_raised_join(base: nat, a: nat, b: nat)
    ensures
        raised(base, a + b) == raised(base, a) * raised(base, b),
    decreases a,
{
    if a == 0 {
        assert(1 * raised(base, b) == raised(base, b));
    } else {
        lemma_raised_join(base, (a - 1) as nat, b);
        let x = raised(base, (a - 1) as nat);
        let y = raised(base, b);
        assert(base * (x * y) == base * x * y) by (nonlinear_arith);
    }
}

proof fn lemma_raised_grows(base: nat, a: nat, b: nat)
    requires
        base >= 1,
        a <= b,
    ensures
        1 <= raised(base, a) <= raised(base, b),
    decreases b,
{
    if b > 0 {
        let x = raised(base, (b - 1) as nat);
        if a < b {
            lemma_raised_grows(base, a, (b - 1) as nat);
        } else {
            lemma_raised_grows(base, (b - 1) as nat, (b - 1) as nat);
        }
        assert(base * x >= x) by (nonlinear_arith)
            requires
                base >= 1,
                x >= 1,
        ;
    }
}

/// The width of a cell, how many blanks it starts with, and the base of its number.
pub open spec fn cell_form(opts: Options) -> (int, int, nat) {
    let g: int = if opts.group > 2 {
        opts.group as int
    } else {
        2
    };
    match opts.mode {
        DisplayMode::OneByteHex => (4, 2, 16),
        DisplayMode::OneByteOctal => (4, 1, 8),
        DisplayMode::OneByteDecimal => (4, 1, 10),
        DisplayMode::Binary => (9, 1, 2),
        DisplayMode::TwoByteHex => (1 + 2 * g, 1, 16),
        DisplayMode::TwoByteOctal => (1 + 3 * g, 1, 8),
        DisplayMode::TwoByteDecimal => (6, 1, 10),
        _ => (0, 0, 0),
    }
}

/// Does the mode show each byte or group as a number?
pub open spec fn is_numeric(mode: DisplayMode) -> bool {
    mode == DisplayMode::OneByteHex || mode == DisplayMode::OneByteOctal || mode
        == DisplayMode::OneByteDecimal || mode == DisplayMode::Binary || mode
        == DisplayMode::TwoByteHex || mode == DisplayMode::TwoByteOctal || mode
        == DisplayMode::TwoByteDecimal
}

/// Does it show groups of two bytes or more?
pub open spec fn is_wide(mode: DisplayMode) -> bool {
    mode == DisplayMode::TwoByteHex || mode == DisplayMode::TwoByteOctal || mode
        == DisplayMode::TwoByteDecimal
}

/// The number that cell `i` shows.
pub open spec fn cell_number(opts: Options, src: Seq<u8>, i: int) -> nat {
    if !is_wide(opts.mode) {
        src[i] as nat
    } else if opts.mode == DisplayMode::TwoByteDecimal {
        group_number(opts, src, i) % 65536
    } else {
        group_number(opts, src, i)
    }
}

/// Has cell `i` something to show?
pub open spec fn cell_filled(opts: Options, src: Seq<u8>, i: int) -> bool {
    let g: int = if opts.group > 2 {
        opts.group as int
    } else {
        2
    };
    if is_wide(opts.mode) {
        i * g < src.len()
    } else {
        i < src.len()
    }
}

proof fn lemma_group_fits(opts: Options, src: Seq<u8>, i: int, each: nat, base: nat)
    requires
        0 <= i,
        i * wide_group(opts) < src.len(),
        2 <= base <= 16,
        raised(base, each) >= 256,
        each >= 1,
    ensures
        digit_count(group_value(group_bytes(opts, src, i), opts.endian), base) <= wide_group(opts)
            * each,
{
    let g = wide_group(opts);
    let t = group_bytes(opts, src, i);
    let from = i * g;
    assert(0 <= from) by (nonlinear_arith)
        requires
            0 <= i,
            from == i * g,
    ;
    assert(t.len() <= g);
    let v = group_value(t, opts.endian);
    lemma_big_bound(t);
    lemma_big_bound(t.reverse());
    lemma_raised_grows(256, t.len(), g);
    lemma_digits_suffice(g, base, each);
    assert(g * each >= 1) by (nonlinear_arith)
        requires
            g >= 1,
            each >= 1,
    ;
    lemma_count_below(v, base, g * each);
}

/// One cell, as a reader takes it.
#[verifier::rlimit(50)]
proof fn lemma_cell_reads(opts: Options, src: Seq<u8>, i: int)
    requires
        is_numeric(opts.mode),
        0 <= i,
    ensures
        ({
            let c = cell(opts, src, i);
            let (size, lead, base) = cell_form(opts);
            &&& c.len() == size
            &&& 0 < lead < size
            &&& forall|j: int| 0 <= j < lead ==> #[trigger] c[j] == 0x20
            &&& if cell_filled(opts, src, i) {
                reads(c.skip(lead), base, cell_number(opts, src, i)) && in_case(
                    c.skip(lead),
                    opts.uppercase && base == 16,
                )
            } else {
                forall|j: int| 0 <= j < size ==> #[trigger] c[j] == 0x20
            }
        }),
{
    let c = cell(opts, src, i);
    let (size, lead, base) = cell_form(opts);
    let g = wide_group(opts);
    lemma_powers();
    if cell_filled(opts, src, i) {
        if !is_wide(opts.mode) {
            let b = src[i] as nat;
            match opts.mode {
                DisplayMode::OneByteHex => {
                    lemma_hex2_value(src[i], opts.uppercase);
                    assert(c.skip(lead) =~= hex2(src[i], opts.uppercase));
                },
                DisplayMode::Binary => {
                    lemma_count_below(b, 2, 8);
                    lemma_numeral_value(b, 2, 8, false);
                    assert(c.skip(lead) =~= numeral(b, 2, 8, false));
                },
                DisplayMode::OneByteOctal => {
                    lemma_count_below(b, 8, 3);
                    lemma_numeral_value(b, 8, 3, false);
                    assert(c.skip(lead) =~= numeral(b, 8, 3, false));
                },
                _ => {
                    lemma_count_below(b, 10, 3);
                    lemma_numeral_value(b, 10, 3, false);
                    assert(c.skip(lead) =~= numeral(b, 10, 3, false));
                },
            }
        } else {
            lemma_group(opts, src, i);
            let v = group_value(group_bytes(opts, src, i), opts.endian);
            match opts.mode {
                DisplayMode::TwoByteHex => {
                    lemma_group_fits(opts, src, i, 2, 16);
                    lemma_numeral_value(v, 16, g * 2, opts.uppercase);
                    assert(c.skip(lead) =~= numeral(v, 16, g * 2, opts.uppercase));
                },
                DisplayMode::TwoByteOctal => {
                    lemma_group_fits(opts, src, i, 3, 8);
                    lemma_numeral_value(v, 8, g * 3, false);
                    assert(c.skip(lead) =~= numeral(v, 8, g * 3, false));
                },
                _ => {
                    lemma_count_below(v % 65536, 10, 5);
                    lemma_numeral_value(v % 65536, 10, 5, false);
                    assert(c.skip(lead) =~= numeral(v % 65536, 10, 5, false));
                },
            }
        }
    }
}

/// Cells of numbers are equally wide.
pub proof fn lemma_cells_wide(opts: Options, src: Seq<u8>, k: nat)
    requires
        is_numeric(opts.mode),
    ensures
        cells(opts, src, k).len() == k * cell_form(opts).0,
    decreases k,
{
    let size = cell_form(opts).0;
    if k > 0 {
        lemma_cells_wide(opts, src, (k - 1) as nat);
        lemma_cell_reads(opts, src, k - 1);
        assert(k * size == (k - 1) * size + size) by (nonlinear_arith);
    } else {
        assert(0 * size == 0);
    }
}

/// In the modes that show numbers, each byte or group has a cell of its own. Its digits denote the
/// byte, or the number that the group denotes in the byte order asked for.
#[verifier::rlimit(50)]
pub proof fn lemma_number_cells(opts: Options, src: Seq<u8>, off: u64, i: int)
    requires
        opts.wf(),
        is_numeric(opts.mode),
        0 <= i,
        i < if opts.mode == DisplayMode::Binary {
            8
        } else if is_wide(opts.mode) {
            opts.width as int / 2
        } else {
            opts.width as int
        },
    ensures
        ({
            let s = row(LayoutKind::Generic, opts, src, off, false);
            let (size, lead, base) = cell_form(opts);
            let at = first_column(opts, offset_size(opts, off)) + i * size;
            &&& 0 <= at
            &&& at + size <= s.len()
            &&& forall|j: int| at <= j < at + lead ==> #[trigger] s[j] == 0x20
            &&& if cell_filled(opts, src, i) {
                reads(s.subrange(at + lead, at + size), base, cell_number(opts, src, i)) && in_case(
                    s.subrange(at + lead, at + size),
                    opts.uppercase && base == 16,
                )
            } else {
                forall|j: int| at <= j < at + size ==> #[trigger] s[j] == 0x20
            }
        }),
{
    let (size, lead, base) = cell_form(opts);
    let k = cell_count(opts);
    let text = cells(opts, src, k);
    lemma_cells_wide(opts, src, i as nat);
    lemma_cell_reads(opts, src, i);
    lemma_cell_stands(opts, src, i as nat, k);
    let c = cell(opts, src, i);
    assert(i * size >= 0) by (nonlinear_arith)
        requires
            i >= 0,
            size >= 0,
    ;
    lemma_in_section(LayoutKind::Generic, opts, src, off, text, i * size, size);
    let s = row(LayoutKind::Generic, opts, src, off, false);
    let at = first_column(opts, offset_size(opts, off)) + i * size;
    let t = s.subrange(at, at + size);
    assert(t == c);
    assert(s.subrange(at + lead, at + size) =~= c.skip(lead)) by {
        assert(t.skip(lead) =~= s.subrange(at + lead, at + size));
    }
    assert forall|j: int| at <= j < at + size implies #[trigger] s[j] == c[j - at] by {
        assert(t[j - at] == s[j]);
    }
}

/// In those modes a row without a border ends behind its last cell.
pub proof fn lemma_number_row_end(opts: Options, src: Seq<u8>, off: u64)
    requires
        opts.border == BorderStyle::Off,
        is_numeric(opts.mode),
    ensures
        ({
            let s = row(LayoutKind::Generic, opts, src, off, false);
            let n: int = if opts.mode == DisplayMode::Binary {
                8
            } else if is_wide(opts.mode) {
                opts.width as int / 2
            } else {
                opts.width as int
            };
            &&& s.len() == first_column(opts, offset_size(opts, off)) + n * cell_form(opts).0 + 1
            &&& s.last() == 0x0a
        }),
{
    lemma_behind(LayoutKind::Generic, opts, src, off);
    lemma_cells_wide(opts, src, cell_count(opts));
    lemma_front(opts, off);
}

proof fn lemma_front(opts: Options, off: u64)
    ensures
        (position_column(opts, off, false) + bar(opts.border)).len() == first_column(
            opts,
            offset_size(opts, off),
        ),
{
    if opts.no_position {
        lemma_no_position(opts, off);
    } else {
        lemma_first_place(opts, off);
    }
}

// ---------------------------------------------------------------- characters

/// Is the byte zero, or one that moves the place at which a terminal writes?
pub open spec fn moves(b: u8) -> bool {
    b == 0 || 7 <= b <= 13
}

/// How many of the first `k` bytes do. Their cells are shorter by one.
pub open spec fn moves_before(src: Seq<u8>, k: int) -> int
    decreases k,
{
    if k <= 0 {
        0
    } else {
        moves_before(src, k - 1) + if k - 1 < src.len() && moves(src[k - 1]) {
            1int
        } else {
            0
        }
    }
}

/// What stands in the cell of a byte in the mode that shows characters: the byte itself where it is
/// visible or moves the place, and three octal digits otherwise.
pub open spec fn shows_character(c: Seq<u8>, b: u8) -> bool {
    if moves(b) {
        c.len() == 3 && c[0] == 0x20 && c[1] == 0x20 && c[2] == b
    } else if 0x20 <= b <= 0x7e {
        c.len() == 4 && c[0] == 0x20 && c[1] == 0x20 && c[2] == 0x20 && c[3] == b
    } else {
        c.len() == 4 && c[0] == 0x20 && reads(c.skip(1), 8, b as nat)
    }
}

proof fn lemma_character(b: u8)
    ensures
        shows_character(character_cell(b), b),
{
    if !moves(b) && !(0x20 <= b <= 0x7e) {
        lemma_powers();
        lemma_count_below(b as nat, 8, 3);
        lemma_numeral_value(b as nat, 8, 3, false);
        assert(character_cell(b).skip(1) =~= numeral(b as nat, 8, 3, false));
    }
}

proof fn lemma_characters_before(opts: Options, src: Seq<u8>, k: nat)
    requires
        opts.mode == DisplayMode::OneByteChar,
    ensures
        cells(opts, src, k).len() == 4 * k - moves_before(src, k as int),
    decreases k,
{
    if k > 0 {
        lemma_characters_before(opts, src, (k - 1) as nat);
        if k - 1 < src.len() {
            lemma_character(src[k - 1]);
        }
    }
}

/// In the mode that shows characters, each byte has a cell of its own.
#[verifier::rlimit(50)]
pub proof fn lemma_character_shown(opts: Options, src: Seq<u8>, off: u64, i: int)
    requires
        opts.mode == DisplayMode::OneByteChar,
        0 <= i < opts.width,
    ensures
        ({
            let s = row(LayoutKind::Generic, opts, src, off, false);
            let first = first_column(opts, offset_size(opts, off));
            let at = first + 4 * i - moves_before(src, i);
            let size: int = if i < src.len() && moves(src[i]) {
                3
            } else {
                4
            };
            &&& 0 <= at
            &&& at + size <= s.len()
            &&& i < src.len() ==> shows_character(s.subrange(at, at + size), src[i])
            &&& i >= src.len() ==> s.subrange(at, at + 4) == seq![0x20u8, 0x20, 0x20, 0x20]
        }),
{
    let text = cells(opts, src, opts.width as nat);
    lemma_character_place(opts, src, i);
    let from = 4 * i - moves_before(src, i);
    let size: int = if i < src.len() && moves(src[i]) {
        3
    } else {
        4
    };
    lemma_in_section(LayoutKind::Generic, opts, src, off, text, from, size);
}

#[verifier::rlimit(50)]
proof fn lemma_character_place(opts: Options, src: Seq<u8>, i: int)
    requires
        opts.mode == DisplayMode::OneByteChar,
        0 <= i < opts.width,
    ensures
        ({
            let text = cells(opts, src, opts.width as nat);
            let at = 4 * i - moves_before(src, i);
            let size: int = if i < src.len() && moves(src[i]) {
                3
            } else {
                4
            };
            &&& 0 <= at
            &&& at + size <= text.len()
            &&& i < src.len() ==> shows_character(text.subrange(at, at + size), src[i])
            &&& i >= src.len() ==> text.subrange(at, at + 4) == seq![0x20u8, 0x20, 0x20, 0x20]
        }),
{
    let at = 4 * i - moves_before(src, i);
    let c = cell(opts, src, i);
    lemma_characters_before(opts, src, i as nat);
    lemma_cell_stands(opts, src, i as nat, opts.width as nat);
    assert(cells(opts, src, opts.width as nat).subrange(at, at + c.len()) == c);
    lemma_character_cell(opts, src, i);
}

proof fn lemma_character_cell(opts: Options, src: Seq<u8>, i: int)
    requires
        opts.mode == DisplayMode::OneByteChar,
    ensures
        ({
            let c = cell(opts, src, i);
            if i < src.len() {
                shows_character(c, src[i]) && c.len() == if moves(src[i]) {
                    3int
                } else {
                    4
                }
            } else {
                c == seq![0x20u8, 0x20, 0x20, 0x20] && c.len() == 4
            }
        }),
{
    if i < src.len() {
        lemma_character(src[i]);
    } else {
        assert(cell(opts, src, i) =~= seq![0x20u8, 0x20, 0x20, 0x20]);
    }
}

/// In that mode a row without a border ends behind its last cell.
pub proof fn lemma_character_row_end(opts: Options, src: Seq<u8>, off: u64)
    requires
        opts.border == BorderStyle::Off,
        opts.mode == DisplayMode::OneByteChar,
    ensures
        ({
            let s = row(LayoutKind::Generic, opts, src, off, false);
            &&& s.last() == 0x0a
            &&& s.len() == first_column(opts, offset_size(opts, off)) + 4 * opts.width
                - moves_before(src, opts.width as int) + 1
        }),
{
    lemma_characters_before(opts, src, opts.width as nat);
    lemma_behind(LayoutKind::Generic, opts, src, off);
    lemma_front(opts, off);
}

// ---------------------------------------------------------------- rows of sixteen

proof fn lemma_scalar_before(src: Seq<u8>, no_ascii: bool, k: nat)
    requires
        k < 16,
    ensures
        scalar_cells(src, no_ascii, k).len() == 3 * k + if k > 8 {
            1int
        } else {
            0
        },
    decreases k,
{
    if k > 0 {
        lemma_scalar_before(src, no_ascii, (k - 1) as nat);
        if k - 1 < src.len() {
            lemma_hex2_value(src[k - 1], false);
        }
    }
}

proof fn lemma_scalar_stands(src: Seq<u8>, no_ascii: bool, i: nat, k: nat)
    requires
        i < k,
    ensures
        ({
            let at = scalar_cells(src, no_ascii, i).len() as int;
            let c = scalar_cell(src, no_ascii, i as int);
            let all = scalar_cells(src, no_ascii, k);
            &&& at + c.len() <= all.len()
            &&& all.subrange(at, at + c.len()) == c
        }),
    decreases k,
{
    let at = scalar_cells(src, no_ascii, i).len() as int;
    let c = scalar_cell(src, no_ascii, i as int);
    let all = scalar_cells(src, no_ascii, k);
    if i + 1 < k {
        lemma_scalar_stands(src, no_ascii, i, (k - 1) as nat);
        let front = scalar_cells(src, no_ascii, (k - 1) as nat);
        assert(all.subrange(at, at + c.len()) =~= front.subrange(at, at + c.len()));
    } else {
        assert(all.subrange(at, at + c.len()) =~= c);
    }
}

/// In a row of sixteen the digits of each byte stand three places apart, with one more in the
/// middle, behind the offset column.
#[verifier::rlimit(50)]
pub proof fn lemma_scalar_digits(opts: Options, src: Seq<u8>, off: u64, i: int)
    requires
        opts.border == BorderStyle::Off,
        0 <= i < 16,
    ensures
        ({
            let s = row(LayoutKind::Scalar, opts, src, off, false);
            let at = first_column(opts, offset_size(opts, off)) + 3 * i + if i >= 8 {
                1int
            } else {
                0
            };
            &&& 0 <= at
            &&& at + 2 <= s.len()
            &&& i < src.len() ==> reads(s.subrange(at, at + 2), 16, src[i] as nat) && in_case(
                s.subrange(at, at + 2),
                false,
            )
            &&& i >= src.len() ==> s.subrange(at, at + 2) == seq![0x20u8, 0x20]
        }),
{
    let c = scalar_cell(src, opts.no_ascii, i);
    let all = scalar_cells(src, opts.no_ascii, 16);
    let p = position_column(opts, off, false);
    let body = scalar_body(src, opts.no_ascii);
    let rest = body.skip(all.len() as int);
    assert(body =~= all + rest);
    lemma_scalar_before(src, opts.no_ascii, i as nat);
    lemma_scalar_stands(src, opts.no_ascii, i as nat, 16);
    lemma_front(opts, off);
    assert(p + bar(opts.border) =~= p);
    let from = scalar_cells(src, opts.no_ascii, i as nat).len() as int;
    let gap: int = if i == 8 {
        1
    } else {
        0
    };
    let h = if i < src.len() {
        hex2(src[i], false)
    } else {
        seq![0x20u8, 0x20]
    };
    lemma_scalar_pair(src, opts.no_ascii, i);
    lemma_nested(p, all, rest, from, c, gap, h);
}

/// The digits of a byte stand at the start of its column, or behind the gap.
proof fn lemma_scalar_pair(src: Seq<u8>, no_ascii: bool, i: int)
    requires
        0 <= i,
    ensures
        ({
            let c = scalar_cell(src, no_ascii, i);
            let gap: int = if i == 8 {
                1
            } else {
                0
            };
            let h = if i < src.len() {
                hex2(src[i], false)
            } else {
                seq![0x20u8, 0x20]
            };
            &&& h.len() == 2
            &&& gap + 2 <= c.len()
            &&& c.subrange(gap, gap + 2) == h
            &&& i < src.len() ==> reads(h, 16, src[i] as nat) && in_case(h, false)
        }),
{
    let c = scalar_cell(src, no_ascii, i);
    let gap: int = if i == 8 {
        1
    } else {
        0
    };
    if i < src.len() {
        lemma_hex2_value(src[i], false);
        assert(c.subrange(gap, gap + 2) =~= hex2(src[i], false));
    } else {
        assert(c.subrange(gap, gap + 2) =~= seq![0x20u8, 0x20]);
    }
}

/// What stands in a part of a text.
proof fn lemma_nested(
    p: Seq<u8>,
    all: Seq<u8>,
    rest: Seq<u8>,
    from: int,
    c: Seq<u8>,
    gap: int,
    h: Seq<u8>,
)
    requires
        0 <= from,
        from + c.len() <= all.len(),
        all.subrange(from, from + c.len()) == c,
        0 <= gap,
        gap + h.len() <= c.len(),
        c.subrange(gap, gap + h.len()) == h,
    ensures
        p.len() + from + gap + h.len() <= (p + (all + rest)).len(),
        (p + (all + rest)).subrange(p.len() + from + gap, p.len() + from + gap + h.len()) == h,
{
    let s = p + (all + rest);
    let at = p.len() + from + gap;
    assert forall|j: int| 0 <= j < h.len() implies #[trigger] s.subrange(at, at + h.len())[j]
        == h[j] by {
        assert(c.subrange(gap, gap + h.len())[j] == c[gap + j]);
        assert(all.subrange(from, from + c.len())[gap + j] == all[from + gap + j]);
    }
    assert(s.subrange(at, at + h.len()) =~= h);
}

} // verus!
