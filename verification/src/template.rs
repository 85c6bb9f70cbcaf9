//! Rows as templates: which places of a row depend on the bytes it shows, and on which of them.
//!
//! A row of a given shape consists of an offset column and a body. In the body the digits and the
//! characters of the panel vary with the bytes, and everything else is fixed.

use crate::bytes::{
    fill, lemma_concat3, lemma_concat4, lemma_concat_assoc, lemma_concat_empty, monus, spaces, BAR,
    NEWLINE, SPACE,
};
use crate::charset::{char_text, panel_text};
use crate::color::{escape, panel_color, reset, tint};
use crate::numeral::{digit, hex2, numeral};
use crate::options::{BorderStyle, CharTable, ColorScheme, DisplayMode, Endian, Options};
use crate::row::{
    bar, big_value, canonical_width, cell, cell_count, cells, diverts, gap_before, generic_panel,
    generic_section, group_bytes, has_panel, hex_text, line_cell, line_cells, line_panel,
    offset_text, panel_close, panel_open, position_column, position_width, row, scalar_body,
    scalar_cell, scalar_cells, section_width, space_after, wide_group, LayoutKind,
};
use vstd::prelude::*;

verus! {

/// A place in a template: a fixed byte, or digit `c` of the `j`-th byte that is shown.
pub enum Slot {
    Lit(u8),
    Hex(int, int),
}

/// The byte at a place, for the bytes `shown`.
pub open spec fn slot_value(s: Slot, shown: Seq<u8>, upper: bool) -> u8 {
    match s {
        Slot::Lit(b) => b,
        Slot::Hex(j, c) => hex2(shown[j], upper)[c],
    }
}

/// The text of a template, for the bytes `shown`.
pub open spec fn values(t: Seq<Slot>, shown: Seq<u8>, upper: bool) -> Seq<u8> {
    Seq::new(t.len(), |i: int| slot_value(t[i], shown, upper))
}

/// The template of a fixed text.
pub open spec fn lits(s: Seq<u8>) -> Seq<Slot> {
    Seq::new(s.len(), |i: int| Slot::Lit(s[i]))
}

/// The two digits of the `j`-th byte.
pub open spec fn pair_slots(j: int) -> Seq<Slot> {
    seq![Slot::Hex(j, 0), Slot::Hex(j, 1)]
}

/// The digits of `len` bytes from the `from`-th on.
pub open spec fn run_slots(from: int, len: nat) -> Seq<Slot>
    decreases len,
{
    if len == 0 {
        seq![]
    } else {
        run_slots(from, (len - 1) as nat) + pair_slots(from + len - 1)
    }
}

/// The size of the groups whose bytes change places in little-endian order.
pub open spec fn swap_group(opts: Options) -> nat {
    if opts.mode == DisplayMode::TwoByteHex {
        wide_group(opts)
    } else if opts.mode == DisplayMode::Canonical && !opts.minimal {
        opts.group as nat
    } else {
        1
    }
}

/// The bytes in the order in which a row shows them.
pub open spec fn shown_bytes(opts: Options, src: Seq<u8>) -> Seq<u8> {
    let g = swap_group(opts) as int;
    if opts.endian == Endian::Little && g > 1 {
        Seq::new(
            src.len(),
            |i: int|
                {
                    let j = i / g * g + (g - 1 - i % g);
                    if j < src.len() {
                        src[j]
                    } else {
                        0
                    }
                },
        )
    } else {
        src
    }
}

/// The options agree in everything that shapes a row; only the byte order may differ.
pub open spec fn same_shape(a: Options, b: Options) -> bool {
    &&& same_form(a, b)
    &&& a.scheme == b.scheme
    &&& a.table == b.table
}

/// The options agree in everything that decides where the digits of a row stand.
pub open spec fn same_form(a: Options, b: Options) -> bool {
    &&& a.mode == b.mode
    &&& a.width == b.width
    &&& a.group == b.group
    &&& a.border == b.border
    &&& a.no_ascii == b.no_ascii
    &&& a.minimal == b.minimal
    &&& a.no_position == b.no_position
    &&& a.uppercase == b.uppercase
    &&& a.offset_dec == b.offset_dec
}

/// The template of cell `i`, in a row of `n` bytes.
pub open spec fn cell_slots(opts: Options, n: nat, i: int) -> Seq<Slot> {
    let g = wide_group(opts) as int;
    match opts.mode {
        DisplayMode::Canonical => lits(
            spaces(
                if gap_before(opts, i) {
                    1
                } else {
                    0
                },
            ),
        ) + (if i < n {
            pair_slots(i)
        } else {
            lits(spaces(2))
        }) + lits(
            spaces(
                if space_after(opts, i) {
                    1
                } else {
                    0
                },
            ),
        ),
        DisplayMode::OneByteHex => lits(spaces(2)) + if i < n {
            pair_slots(i)
        } else {
            lits(spaces(2))
        },
        DisplayMode::TwoByteHex => lits(spaces(1)) + if i * g < n {
            let len = group_len(opts, n, i);
            lits(fill((2 * (g - len)) as nat, 0x30)) + run_slots(i * g, len)
        } else {
            lits(spaces((2 * g) as nat))
        },
        _ => seq![],
    }
}

/// The number of bytes in group `i`, in a row of `n` bytes.
pub open spec fn group_len(opts: Options, n: nat, i: int) -> nat {
    let g = wide_group(opts);
    if i * g + g <= n {
        g
    } else {
        (n - i * g) as nat
    }
}

/// The template of the first `k` cells.
pub open spec fn cells_slots(opts: Options, n: nat, k: nat) -> Seq<Slot>
    decreases k,
{
    if k == 0 {
        seq![]
    } else {
        cells_slots(opts, n, (k - 1) as nat) + cell_slots(opts, n, k - 1)
    }
}

/// The template of column `i` of an aligned canonical row; in color every byte is green.
pub open spec fn line_cell_slots(opts: Options, n: nat, color: bool, i: int) -> Seq<Slot> {
    lits(
        spaces(
            if i == opts.width / 2 {
                1
            } else {
                0
            },
        ),
    ) + (if i < n {
        lits(tint(color, escape(32))) + pair_slots(i) + lits(tint(color, reset()))
    } else {
        lits(spaces(2))
    }) + lits(
        spaces(
            if space_after(opts, i) {
                1
            } else {
                0
            },
        ),
    )
}

/// The template of the first `k` columns of an aligned canonical row.
pub open spec fn line_slots(opts: Options, n: nat, color: bool, k: nat) -> Seq<Slot>
    decreases k,
{
    if k == 0 {
        seq![]
    } else {
        line_slots(opts, n, color, (k - 1) as nat) + line_cell_slots(opts, n, color, k - 1)
    }
}

/// The template of column `i` of a canonical row of sixteen.
pub open spec fn scalar_cell_slots(n: nat, no_ascii: bool, i: int) -> Seq<Slot> {
    lits(
        spaces(
            if i == 8 {
                1
            } else {
                0
            },
        ),
    ) + (if i < n {
        pair_slots(i)
    } else {
        lits(spaces(2))
    }) + lits(
        spaces(
            if i < 15 || !no_ascii {
                1
            } else {
                0
            },
        ),
    )
}

/// The template of the first `k` columns of a canonical row of sixteen.
pub open spec fn scalar_slots(n: nat, no_ascii: bool, k: nat) -> Seq<Slot>
    decreases k,
{
    if k == 0 {
        seq![]
    } else {
        scalar_slots(n, no_ascii, (k - 1) as nat) + scalar_cell_slots(n, no_ascii, k - 1)
    }
}

// ---------------------------------------------------------------- whole rows

/// Does the row consist of offset, digits and characters alone?
pub open spec fn is_compact(kind: LayoutKind, opts: Options) -> bool {
    &&& opts.minimal && opts.mode == DisplayMode::Canonical
    &&& kind == LayoutKind::Generic || kind == LayoutKind::OutputLine && diverts(opts)
}

/// Is the row one of `generic_row`?
pub open spec fn is_generic(kind: LayoutKind, opts: Options) -> bool {
    kind == LayoutKind::Generic || kind == LayoutKind::OutputLine && diverts(opts)
}

/// The offset column of a row.
#[verifier::opaque]
pub open spec fn prefix_text(kind: LayoutKind, opts: Options, off: u64, color: bool) -> Seq<u8> {
    if is_compact(kind, opts) {
        if opts.no_position {
            seq![]
        } else {
            offset_text(off, opts.offset_dec, opts.uppercase) + seq![SPACE]
        }
    } else {
        position_column(opts, off, color && !is_generic(kind, opts))
    }
}

/// The length of the offset column of a row, given the number of digits of its offset: a space or
/// a colon and a space follow them, and a color takes nine bytes more. Inside a border the column
/// has a fixed width.
pub open spec fn prefix_length(kind: LayoutKind, opts: Options, color: bool, digits: nat) -> nat {
    if opts.no_position {
        0
    } else if is_compact(kind, opts) {
        digits + 1
    } else {
        let tinted: nat = if !is_generic(kind, opts) && color {
            9
        } else {
            0
        };
        tinted + if opts.border == BorderStyle::Off {
            digits + 2
        } else {
            bar(opts.border).len() + if digits + 1 > position_width(opts) {
                digits + 1
            } else {
                position_width(opts)
            }
        }
    }
}

/// The length of the offset column depends on the number of digits of the offset alone.
pub proof fn lemma_prefix_length(kind: LayoutKind, opts: Options, off: u64, color: bool)
    ensures
        prefix_text(kind, opts, off, color).len() == prefix_length(
            kind,
            opts,
            color,
            offset_text(off, opts.offset_dec, opts.uppercase).len(),
        ),
{
    reveal(prefix_text);
}

/// The template of the main section, up to the panel or the end of the row.
#[verifier::opaque]
pub open spec fn main_slots(kind: LayoutKind, opts: Options, n: nat, color: bool) -> Seq<Slot> {
    if is_compact(kind, opts) {
        run_slots(0, n)
    } else if is_generic(kind, opts) {
        lits(bar(opts.border)) + cells_slots(opts, n, cell_count(opts)) + lits(
            if opts.border == BorderStyle::Off {
                seq![]
            } else {
                spaces(
                    monus(section_width(opts), cells_slots(opts, n, cell_count(opts)).len()),
                )
            },
        )
    } else if kind == LayoutKind::OutputLine {
        lits(bar(opts.border)) + line_slots(opts, n, color, opts.width as nat)
    } else {
        scalar_slots(n, opts.no_ascii, 16)
    }
}

/// How the panel shows a byte.
#[derive(Clone, Copy, PartialEq, Eq, Debug, Structural)]
pub enum PanelCell {
    /// There is no panel.
    Absent,
    /// One ASCII character.
    Plain,
    /// One Braille pattern.
    Braille,
    /// One ASCII character with its color.
    Colored,
}

/// The panel's cell for a byte.
pub open spec fn panel_cell(p: PanelCell, b: u8) -> Seq<u8> {
    match p {
        PanelCell::Absent => seq![],
        PanelCell::Plain => char_text(CharTable::Ascii, b),
        PanelCell::Braille => char_text(CharTable::Braille, b),
        PanelCell::Colored => escape(panel_color(b)) + char_text(CharTable::Ascii, b) + reset(),
    }
}

/// The length of the panel's cells.
pub open spec fn panel_step(p: PanelCell) -> nat {
    match p {
        PanelCell::Absent => 0,
        PanelCell::Plain => 1,
        PanelCell::Braille => 3,
        PanelCell::Colored => 10,
    }
}

/// The panel's cells for a row of bytes.
pub open spec fn panel_cells(p: PanelCell, src: Seq<u8>) -> Seq<u8>
    decreases src.len(),
{
    if src.len() == 0 {
        seq![]
    } else {
        panel_cells(p, src.drop_last()) + panel_cell(p, src.last())
    }
}

/// The kind of panel in a row.
pub open spec fn panel_kind(kind: LayoutKind, opts: Options, color: bool) -> PanelCell {
    if is_compact(kind, opts) {
        if opts.no_ascii {
            PanelCell::Absent
        } else {
            PanelCell::Plain
        }
    } else if is_generic(kind, opts) {
        if !has_panel(opts) {
            PanelCell::Absent
        } else if opts.table == CharTable::Braille {
            PanelCell::Braille
        } else {
            PanelCell::Plain
        }
    } else if kind == LayoutKind::OutputLine {
        if color {
            PanelCell::Colored
        } else if opts.table == CharTable::Braille {
            PanelCell::Braille
        } else {
            PanelCell::Plain
        }
    } else if opts.no_ascii {
        PanelCell::Absent
    } else {
        PanelCell::Plain
    }
}

/// The fixed text before the panel.
#[verifier::opaque]
pub open spec fn open_text(kind: LayoutKind, opts: Options, color: bool) -> Seq<u8> {
    if panel_kind(kind, opts, color) == PanelCell::Absent {
        seq![]
    } else if is_compact(kind, opts) {
        seq![SPACE]
    } else if kind == LayoutKind::Scalar {
        seq![BAR]
    } else {
        panel_open(opts)
    }
}

/// The fixed text after the panel.
#[verifier::opaque]
pub open spec fn close_text(kind: LayoutKind, opts: Options, n: nat, color: bool) -> Seq<u8> {
    let p = panel_kind(kind, opts, color);
    if is_compact(kind, opts) {
        seq![NEWLINE]
    } else if is_generic(kind, opts) {
        (if p == PanelCell::Absent || opts.border == BorderStyle::Off {
            seq![]
        } else {
            spaces(monus(opts.width as nat, panel_step(p) * n))
        }) + panel_close(opts) + seq![NEWLINE]
    } else if kind == LayoutKind::OutputLine {
        spaces(monus(opts.width as nat, n)) + panel_close(opts) + seq![NEWLINE]
    } else if opts.no_ascii {
        seq![NEWLINE]
    } else {
        spaces(monus(16, n)) + seq![BAR, NEWLINE]
    }
}

/// The body of a row, as its template gives it.
#[verifier::opaque]
pub open spec fn body_text(
    kind: LayoutKind,
    opts: Options,
    src: Seq<u8>,
    color: bool,
) -> Seq<u8> {
    values(main_slots(kind, opts, src.len(), color), shown_bytes(opts, src), opts.uppercase)
        + open_text(kind, opts, color) + panel_cells(panel_kind(kind, opts, color), src)
        + close_text(kind, opts, src.len(), color)
}

/// Do the digits in rows of `n` bytes stand at the same places for all bytes? They have to be
/// hexadecimal, and their colors equal. A group cut short by the end of a row keeps its bytes in
/// front only in big-endian order.
pub open spec fn shaped(kind: LayoutKind, opts: Options, n: nat, color: bool) -> bool {
    &&& match kind {
        LayoutKind::Scalar => opts.mode == DisplayMode::Canonical && opts.group == 1
            && !opts.minimal && !opts.uppercase && n <= 16,
        _ => n <= opts.width,
    }
    &&& opts.mode == DisplayMode::Canonical || opts.mode == DisplayMode::OneByteHex || opts.mode
        == DisplayMode::TwoByteHex
    &&& kind == LayoutKind::OutputLine && !diverts(opts) && color ==> opts.scheme
        == ColorScheme::Default
    &&& opts.mode == DisplayMode::TwoByteHex && opts.endian == Endian::Little ==> n
        % wide_group(opts) == 0
}

/// Can rows of `n` bytes be made from a template? The characters of the panel have to be equally
/// long, too.
pub open spec fn patterned(kind: LayoutKind, opts: Options, n: nat, color: bool) -> bool {
    &&& shaped(kind, opts, n, color)
    &&& opts.table == CharTable::Ascii || opts.table == CharTable::Braille
    &&& kind == LayoutKind::OutputLine && !diverts(opts) && color ==> opts.table
        == CharTable::Ascii
}

/// The text of the panel in a row.
pub open spec fn panel_bytes(
    kind: LayoutKind,
    opts: Options,
    src: Seq<u8>,
    color: bool,
) -> Seq<u8> {
    if panel_kind(kind, opts, color) == PanelCell::Absent {
        seq![]
    } else if is_compact(kind, opts) || kind == LayoutKind::Scalar {
        panel_text(CharTable::Ascii, src)
    } else if is_generic(kind, opts) {
        panel_text(opts.table, src)
    } else {
        line_panel(opts, src, color)
    }
}

// ---------------------------------------------------------------- the text of a template

proof fn lemma_values_concat(a: Seq<Slot>, b: Seq<Slot>, shown: Seq<u8>, upper: bool)
    ensures
        values(a + b, shown, upper) == values(a, shown, upper) + values(b, shown, upper),
{
    assert(values(a + b, shown, upper) =~= values(a, shown, upper) + values(b, shown, upper));
}

proof fn lemma_values_lits(s: Seq<u8>, shown: Seq<u8>, upper: bool)
    ensures
        values(lits(s), shown, upper) == s,
{
    assert(values(lits(s), shown, upper) =~= s);
}

proof fn lemma_values_pair(j: int, shown: Seq<u8>, upper: bool)
    ensures
        values(pair_slots(j), shown, upper) == hex2(shown[j], upper),
{
    assert(values(pair_slots(j), shown, upper) =~= hex2(shown[j], upper));
}

proof fn lemma_values_run(from: int, len: nat, shown: Seq<u8>, upper: bool)
    requires
        0 <= from,
        from + len <= shown.len(),
    ensures
        values(run_slots(from, len), shown, upper) == hex_text(
            shown.subrange(from, from + len),
            upper,
        ),
    decreases len,
{
    let part = shown.subrange(from, from + len);
    if len == 0 {
        assert(part =~= seq![]);
        assert(values(run_slots(from, len), shown, upper) =~= seq![]);
    } else {
        lemma_values_run(from, (len - 1) as nat, shown, upper);
        lemma_values_concat(
            run_slots(from, (len - 1) as nat),
            pair_slots(from + len - 1),
            shown,
            upper,
        );
        lemma_values_pair(from + len - 1, shown, upper);
        assert(part.drop_last() =~= shown.subrange(from, from + len - 1));
    }
}

/// The text of three templates in a row.
proof fn lemma_values_concat3(
    a: Seq<Slot>,
    b: Seq<Slot>,
    c: Seq<Slot>,
    shown: Seq<u8>,
    upper: bool,
)
    ensures
        values(a + b + c, shown, upper) == values(a, shown, upper) + values(b, shown, upper)
            + values(c, shown, upper),
{
    lemma_values_concat(a + b, c, shown, upper);
    lemma_values_concat(a, b, shown, upper);
}

// ---------------------------------------------------------------- rows as templates

/// Zero in any number of digits.
proof fn lemma_numeral_zero(len: nat, upper: bool)
    ensures
        numeral(0, 16, len, upper) == fill(len, 0x30),
    decreases len,
{
    if len > 0 {
        lemma_numeral_zero((len - 1) as nat, upper);
        assert(numeral(0, 16, len, upper) =~= fill(len, 0x30));
    } else {
        assert(numeral(0, 16, len, upper) =~= fill(len, 0x30));
    }
}

/// The hexadecimal digits of the number that some bytes denote are those of the bytes, after
/// leading zeros.
pub proof fn lemma_numeral_of_bytes(s: Seq<u8>, size: nat, upper: bool)
    requires
        s.len() <= size,
    ensures
        numeral(big_value(s), 16, 2 * size, upper) == fill((2 * (size - s.len())) as nat, 0x30)
            + hex_text(s, upper),
    decreases s.len(),
{
    if s.len() == 0 {
        lemma_numeral_zero(2 * size, upper);
        lemma_concat_empty(fill(2 * size, 0x30));
    } else {
        let x = big_value(s.drop_last());
        let b = s.last() as nat;
        let v = big_value(s);
        lemma_numeral_of_bytes(s.drop_last(), (size - 1) as nat, upper);
        assert(v / 16 / 16 == x && (v / 16) % 16 == b / 16 && v % 16 == b % 16) by {
            assert(v == x * 256 + b);
        }
        let front = numeral(x, 16, (2 * size - 2) as nat, upper);
        reveal_with_fuel(numeral, 3);
        assert(numeral(v, 16, 2 * size, upper) == front.push(digit(b / 16, upper)).push(
            digit(b % 16, upper),
        ));
        assert(numeral(v, 16, 2 * size, upper) =~= fill((2 * (size - s.len())) as nat, 0x30)
            + hex_text(s, upper));
    }
}

/// In little-endian order a complete group is shown backwards.
proof fn lemma_shown_group(opts: Options, src: Seq<u8>, i: int)
    requires
        opts.wf(),
        opts.mode == DisplayMode::TwoByteHex,
        opts.endian == Endian::Little,
        0 <= i,
        i * wide_group(opts) + wide_group(opts) <= src.len(),
    ensures
        shown_bytes(opts, src).subrange(
            i * wide_group(opts),
            i * wide_group(opts) + wide_group(opts),
        ) == group_bytes(opts, src, i).reverse(),
{
    let g = wide_group(opts) as int;
    let from = i * g;
    assert(0 <= from) by (nonlinear_arith)
        requires
            0 <= i,
            0 <= g,
            from == i * g,
    ;
    let a = shown_bytes(opts, src).subrange(from, from + g);
    let b = group_bytes(opts, src, i).reverse();
    assert forall|t: int| 0 <= t < g implies a[t] == b[t] by {
        vstd::arithmetic::div_mod::lemma_fundamental_div_mod_converse(from + t, g, i, t);
        assert(a[t] == shown_bytes(opts, src)[from + t]);
    }
    assert(a =~= b);
}

/// A cell is the text of its template.
#[verifier::rlimit(30)]
proof fn lemma_cell_text(opts: Options, src: Seq<u8>, i: int)
    requires
        opts.wf(),
        0 <= i < cell_count(opts),
        opts.mode == DisplayMode::Canonical && !opts.minimal || opts.mode
            == DisplayMode::OneByteHex || opts.mode == DisplayMode::TwoByteHex,
        opts.mode == DisplayMode::TwoByteHex && opts.endian == Endian::Little ==> src.len()
            % wide_group(opts) == 0,
    ensures
        cell(opts, src, i) == values(
            cell_slots(opts, src.len(), i),
            shown_bytes(opts, src),
            opts.uppercase,
        ),
{
    let shown = shown_bytes(opts, src);
    let upper = opts.uppercase;
    let n = src.len();
    match opts.mode {
        DisplayMode::Canonical => {
            let a = spaces(
                if gap_before(opts, i) {
                    1
                } else {
                    0
                },
            );
            let c = spaces(
                if space_after(opts, i) {
                    1
                } else {
                    0
                },
            );
            let b = if i < n {
                pair_slots(i)
            } else {
                lits(spaces(2))
            };
            assert(cell_slots(opts, n, i) == lits(a) + b + lits(c));
            lemma_values_concat3(lits(a), b, lits(c), shown, upper);
            lemma_values_lits(a, shown, upper);
            lemma_values_lits(c, shown, upper);
            lemma_values_lits(spaces(2), shown, upper);
            lemma_values_pair(i, shown, upper);
        },
        DisplayMode::OneByteHex => {
            let b = if i < n {
                pair_slots(i)
            } else {
                lits(spaces(2))
            };
            lemma_values_concat(lits(spaces(2)), b, shown, upper);
            lemma_values_lits(spaces(2), shown, upper);
            lemma_values_pair(i, shown, upper);
        },
        _ => {
            let g = wide_group(opts);
            let from = i * g;
            assert(0 <= from) by (nonlinear_arith)
                requires
                    0 <= i,
                    from == i * g,
            ;
            lemma_values_lits(spaces(1), shown, upper);
            if from < n {
                let len = group_len(opts, n, i);
                let zeros = fill((2 * (g - len)) as nat, 0x30);
                let bytes = group_bytes(opts, src, i);
                assert(bytes.len() == len);
                lemma_values_concat(
                    lits(spaces(1)),
                    lits(zeros) + run_slots(from, len),
                    shown,
                    upper,
                );
                lemma_values_concat(lits(zeros), run_slots(from, len), shown, upper);
                lemma_values_lits(zeros, shown, upper);
                lemma_values_run(from, len, shown, upper);
                if opts.endian == Endian::Little {
                    assert(from + g <= n) by {
                        lemma_whole_groups(n as int, g as int, i);
                    }
                    lemma_shown_group(opts, src, i);
                    lemma_numeral_of_bytes(bytes.reverse(), g, upper);
                } else {
                    lemma_numeral_of_bytes(bytes, g, upper);
                    assert(shown.subrange(from, from + len) == bytes);
                }
                assert(g * 2 == 2 * g);
            } else {
                lemma_values_concat(
                    lits(spaces(1)),
                    lits(spaces((2 * g) as nat)),
                    shown,
                    upper,
                );
                lemma_values_lits(spaces((2 * g) as nat), shown, upper);
            }
        },
    }
}

/// Where the groups divide a row evenly, every group that starts in it is complete.
proof fn lemma_whole_groups(n: int, g: int, i: int)
    requires
        g > 0,
        n >= 0,
        n % g == 0,
        i >= 0,
        i * g < n,
    ensures
        i * g + g <= n,
{
    let q = n / g;
    assert(n == q * g) by (nonlinear_arith)
        requires
            n % g == 0,
            q == n / g,
            g > 0,
    ;
    assert(i + 1 <= q) by (nonlinear_arith)
        requires
            i * g < q * g,
            g > 0,
    ;
    assert((i + 1) * g <= q * g) by (nonlinear_arith)
        requires
            i + 1 <= q,
            g > 0,
    ;
    assert((i + 1) * g == i * g + g) by (nonlinear_arith);
}

/// The first cells of a row are the text of their template.
proof fn lemma_cells_text(opts: Options, src: Seq<u8>, k: nat)
    requires
        opts.wf(),
        k <= cell_count(opts),
        opts.mode == DisplayMode::Canonical && !opts.minimal || opts.mode
            == DisplayMode::OneByteHex || opts.mode == DisplayMode::TwoByteHex,
        opts.mode == DisplayMode::TwoByteHex && opts.endian == Endian::Little ==> src.len()
            % wide_group(opts) == 0,
    ensures
        cells(opts, src, k) == values(
            cells_slots(opts, src.len(), k),
            shown_bytes(opts, src),
            opts.uppercase,
        ),
    decreases k,
{
    let shown = shown_bytes(opts, src);
    if k == 0 {
        assert(values(cells_slots(opts, src.len(), 0), shown, opts.uppercase) =~= seq![]);
    } else {
        let j = (k - 1) as nat;
        lemma_cells_text(opts, src, j);
        lemma_cell_text(opts, src, j as int);
        lemma_values_concat(
            cells_slots(opts, src.len(), j),
            cell_slots(opts, src.len(), j as int),
            shown,
            opts.uppercase,
        );
    }
}

/// The first columns of an aligned canonical row are the text of their template.
proof fn lemma_line_text(opts: Options, src: Seq<u8>, color: bool, k: nat)
    requires
        color ==> opts.scheme == ColorScheme::Default,
    ensures
        line_cells(opts, src, color, k) == values(
            line_slots(opts, src.len(), color, k),
            src,
            opts.uppercase,
        ),
    decreases k,
{
    let upper = opts.uppercase;
    let n = src.len();
    if k == 0 {
        assert(values(line_slots(opts, n, color, 0), src, upper) =~= seq![]);
    } else {
        let i = k - 1;
        lemma_line_text(opts, src, color, i as nat);
        let a = spaces(
            if i == opts.width / 2 {
                1
            } else {
                0
            },
        );
        let c = spaces(
            if space_after(opts, i) {
                1
            } else {
                0
            },
        );
        let on = tint(color, escape(32));
        let off = tint(color, reset());
        let b = if i < n {
            lits(on) + pair_slots(i) + lits(off)
        } else {
            lits(spaces(2))
        };
        assert(line_cell_slots(opts, n, color, i) == lits(a) + b + lits(c));
        lemma_values_concat(
            line_slots(opts, n, color, i as nat),
            line_cell_slots(opts, n, color, i),
            src,
            upper,
        );
        lemma_values_concat3(lits(a), b, lits(c), src, upper);
        lemma_values_concat3(lits(on), pair_slots(i), lits(off), src, upper);
        lemma_values_lits(a, src, upper);
        lemma_values_lits(c, src, upper);
        lemma_values_lits(on, src, upper);
        lemma_values_lits(off, src, upper);
        lemma_values_lits(spaces(2), src, upper);
        lemma_values_pair(i, src, upper);
        assert(line_cell(opts, src, color, i) == values(
            line_cell_slots(opts, n, color, i),
            src,
            upper,
        ));
    }
}

/// The first columns of a canonical row of sixteen are the text of their template.
proof fn lemma_scalar_text(src: Seq<u8>, no_ascii: bool, k: nat)
    ensures
        scalar_cells(src, no_ascii, k) == values(scalar_slots(src.len(), no_ascii, k), src, false),
    decreases k,
{
    let n = src.len();
    if k == 0 {
        assert(values(scalar_slots(n, no_ascii, 0), src, false) =~= seq![]);
    } else {
        let i = k - 1;
        lemma_scalar_text(src, no_ascii, i as nat);
        let a = spaces(
            if i == 8 {
                1
            } else {
                0
            },
        );
        let c = spaces(
            if i < 15 || !no_ascii {
                1
            } else {
                0
            },
        );
        let b = if i < n {
            pair_slots(i)
        } else {
            lits(spaces(2))
        };
        assert(scalar_cell_slots(n, no_ascii, i) == lits(a) + b + lits(c));
        lemma_values_concat(
            scalar_slots(n, no_ascii, i as nat),
            scalar_cell_slots(n, no_ascii, i),
            src,
            false,
        );
        lemma_values_concat3(lits(a), b, lits(c), src, false);
        lemma_values_lits(a, src, false);
        lemma_values_lits(c, src, false);
        lemma_values_lits(spaces(2), src, false);
        lemma_values_pair(i, src, false);
        assert(scalar_cell(src, no_ascii, i) == values(
            scalar_cell_slots(n, no_ascii, i),
            src,
            false,
        ));
    }
}

/// The panel of a table is made of the cells of its kind.
proof fn lemma_panel_plain(table: CharTable, src: Seq<u8>)
    requires
        table == CharTable::Ascii || table == CharTable::Braille,
    ensures
        panel_text(table, src) == panel_cells(
            if table == CharTable::Ascii {
                PanelCell::Plain
            } else {
                PanelCell::Braille
            },
            src,
        ),
    decreases src.len(),
{
    if src.len() > 0 {
        lemma_panel_plain(table, src.drop_last());
    }
}

/// The panel of an aligned row is made of the cells of its kind.
proof fn lemma_panel_line(opts: Options, src: Seq<u8>, color: bool)
    requires
        opts.table == CharTable::Ascii || !color && opts.table == CharTable::Braille,
    ensures
        line_panel(opts, src, color) == panel_cells(
            if color {
                PanelCell::Colored
            } else if opts.table == CharTable::Braille {
                PanelCell::Braille
            } else {
                PanelCell::Plain
            },
            src,
        ),
    decreases src.len(),
{
    if src.len() > 0 {
        let front = line_panel(opts, src.drop_last(), color);
        let b = src.last();
        lemma_panel_line(opts, src.drop_last(), color);
        if color {
            lemma_concat3(front, escape(panel_color(b)), char_text(opts.table, b), reset());
        } else {
            lemma_concat_empty(front);
            lemma_concat_empty(front + char_text(opts.table, b));
        }
    }
}

/// Without a panel there are no cells.
proof fn lemma_panel_absent(src: Seq<u8>)
    ensures
        panel_cells(PanelCell::Absent, src) == Seq::<u8>::empty(),
    decreases src.len(),
{
    if src.len() > 0 {
        lemma_panel_absent(src.drop_last());
        lemma_concat_empty(Seq::<u8>::empty());
    }
}

/// The panel's cells have equal lengths: cell `j` starts at `j` times the length of one.
pub proof fn lemma_panel_index(p: PanelCell, src: Seq<u8>)
    ensures
        panel_cells(p, src).len() == panel_step(p) * src.len(),
        forall|j: int, c: int|
            0 <= j < src.len() && 0 <= c < panel_step(p) ==> #[trigger] panel_cells(
                p,
                src,
            )[panel_step(p) * j + c] == panel_cell(p, src[j])[c],
        forall|b: u8| #[trigger] panel_cell(p, b).len() == panel_step(p),
    decreases src.len(),
{
    if src.len() > 0 {
        let front = src.drop_last();
        let w = panel_step(p);
        lemma_panel_index(p, front);
        assert(w * src.len() == w * front.len() + w) by (nonlinear_arith)
            requires
                src.len() == front.len() + 1,
        ;
        assert forall|j: int, c: int| 0 <= j < src.len() && 0 <= c < w implies #[trigger] panel_cells(
            p,
            src,
        )[w * j + c] == panel_cell(p, src[j])[c] by {
            if j < front.len() {
                assert(0 <= w * j && w * j + c < w * front.len()) by (nonlinear_arith)
                    requires
                        0 <= j < front.len(),
                        0 <= c < w,
                ;
                assert(panel_cells(p, front)[w * j + c] == panel_cell(p, front[j])[c]);
            }
        }
    }
}

/// The template of the cells does not depend on the byte order.
proof fn lemma_same_cells(a: Options, b: Options, n: nat, k: nat)
    requires
        same_form(a, b),
    ensures
        cells_slots(a, n, k) == cells_slots(b, n, k),
    decreases k,
{
    if k > 0 {
        lemma_same_cells(a, b, n, (k - 1) as nat);
        assert(cell_slots(a, n, k - 1) == cell_slots(b, n, k - 1));
    }
}

/// The template of the columns of an aligned row does not depend on the byte order.
proof fn lemma_same_line(a: Options, b: Options, n: nat, color: bool, k: nat)
    requires
        same_form(a, b),
    ensures
        line_slots(a, n, color, k) == line_slots(b, n, color, k),
    decreases k,
{
    if k > 0 {
        lemma_same_line(a, b, n, color, (k - 1) as nat);
        assert(line_cell_slots(a, n, color, k - 1) == line_cell_slots(b, n, color, k - 1));
    }
}

/// The widths of canonical rows do not depend on the byte order.
proof fn lemma_same_width(a: Options, b: Options, k: nat)
    requires
        same_form(a, b),
    ensures
        canonical_width(a, k) == canonical_width(b, k),
    decreases k,
{
    if k > 0 {
        lemma_same_width(a, b, (k - 1) as nat);
    }
}

/// The template of a row does not depend on the byte order, as long as the kind of row does not.
pub proof fn lemma_same_template(kind: LayoutKind, a: Options, b: Options, n: nat, color: bool)
    requires
        same_shape(a, b),
        kind == LayoutKind::OutputLine ==> !diverts(a) && !diverts(b),
    ensures
        main_slots(kind, a, n, color) == main_slots(kind, b, n, color),
        open_text(kind, a, color) == open_text(kind, b, color),
        close_text(kind, a, n, color) == close_text(kind, b, n, color),
        panel_kind(kind, a, color) == panel_kind(kind, b, color),
{
    reveal(main_slots);
    reveal(close_text);
    reveal(open_text);
    lemma_same_cells(a, b, n, cell_count(a));
    lemma_same_line(a, b, n, color, a.width as nat);
    lemma_same_width(a, b, a.width as nat);
}

/// Where the digits and the panel of a row stand depends on neither the byte order nor the
/// characters.
pub proof fn lemma_same_places(kind: LayoutKind, a: Options, b: Options, n: nat, color: bool)
    requires
        same_form(a, b),
        kind == LayoutKind::OutputLine ==> !diverts(a) && !diverts(b),
    ensures
        main_slots(kind, a, n, color) == main_slots(kind, b, n, color),
        open_text(kind, a, color) == open_text(kind, b, color),
        (panel_kind(kind, a, color) == PanelCell::Absent) == (panel_kind(kind, b, color)
            == PanelCell::Absent),
{
    reveal(main_slots);
    reveal(open_text);
    lemma_same_cells(a, b, n, cell_count(a));
    lemma_same_line(a, b, n, color, a.width as nat);
    lemma_same_width(a, b, a.width as nat);
}

proof fn lemma_same_cell_texts(a: Options, b: Options, src: Seq<u8>, k: nat)
    requires
        same_form(a, b),
        a.endian == b.endian,
    ensures
        cells(a, src, k) == cells(b, src, k),
    decreases k,
{
    if k > 0 {
        lemma_same_cell_texts(a, b, src, (k - 1) as nat);
        assert(cell(a, src, k - 1) == cell(b, src, k - 1));
    }
}

proof fn lemma_same_line_texts(a: Options, b: Options, src: Seq<u8>, color: bool, k: nat)
    requires
        same_shape(a, b),
    ensures
        line_cells(a, src, color, k) == line_cells(b, src, color, k),
    decreases k,
{
    if k > 0 {
        lemma_same_line_texts(a, b, src, color, (k - 1) as nat);
        assert(line_cell(a, src, color, k - 1) == line_cell(b, src, color, k - 1));
    }
}

proof fn lemma_same_panels(a: Options, b: Options, src: Seq<u8>, color: bool)
    requires
        same_shape(a, b),
    ensures
        line_panel(a, src, color) == line_panel(b, src, color),
    decreases src.len(),
{
    if src.len() > 0 {
        lemma_same_panels(a, b, src.drop_last(), color);
    }
}

/// A row depends on the settings that shape it and the byte order alone.
pub proof fn lemma_same_row(
    kind: LayoutKind,
    a: Options,
    b: Options,
    src: Seq<u8>,
    off: u64,
    color: bool,
)
    requires
        same_shape(a, b),
        a.endian == b.endian,
    ensures
        row(kind, a, src, off, color) == row(kind, b, src, off, color),
        prefix_text(kind, a, off, color) == prefix_text(kind, b, off, color),
{
    reveal(prefix_text);
    lemma_same_cell_texts(a, b, src, cell_count(a));
    lemma_same_width(a, b, a.width as nat);
    lemma_same_line_texts(a, b, src, color, a.width as nat);
    lemma_same_panels(a, b, src, color);
}

/// Does the text start with `p`?
pub open spec fn starts_with(s: Seq<u8>, p: Seq<u8>) -> bool {
    p.len() <= s.len() && s.take(p.len() as int) == p
}

proof fn lemma_starts(p: Seq<u8>, a: Seq<u8>, b: Seq<u8>, c: Seq<u8>)
    ensures
        starts_with(p, p),
        starts_with(p + a + b + c, p),
{
    assert(p.take(p.len() as int) =~= p);
    assert((p + a + b + c).take(p.len() as int) =~= p);
}

proof fn lemma_starts_more(s: Seq<u8>, p: Seq<u8>, a: Seq<u8>, b: Seq<u8>)
    requires
        starts_with(s, p),
    ensures
        starts_with(s + a + b, p),
{
    assert((s + a + b).take(p.len() as int) =~= s.take(p.len() as int));
}

/// A row starts with its offset column.
pub proof fn lemma_row_prefix(
    kind: LayoutKind,
    opts: Options,
    src: Seq<u8>,
    off: u64,
    color: bool,
)
    ensures
        starts_with(row(kind, opts, src, off, color), prefix_text(kind, opts, off, color)),
{
    reveal(prefix_text);
    let p = prefix_text(kind, opts, off, color);
    let end = seq![NEWLINE];
    lemma_starts(p, end, end, end);
    if is_compact(kind, opts) {
        let t = if opts.no_ascii {
            seq![]
        } else {
            seq![SPACE] + panel_text(CharTable::Ascii, src)
        };
        lemma_starts(p, hex_text(src, opts.uppercase), t, end);
    } else if is_generic(kind, opts) {
        let s = generic_section(opts, src);
        let t = generic_panel(opts, src);
        lemma_starts(p, bar(opts.border), s, t);
        lemma_starts_more(p + bar(opts.border) + s + t, p, panel_close(opts), end);
    } else if kind == LayoutKind::OutputLine {
        let b = bar(opts.border);
        let s = line_cells(opts, src, color, opts.width as nat);
        let o = panel_open(opts);
        let t = line_panel(opts, src, color);
        let pad = spaces(monus(opts.width as nat, src.len()));
        lemma_starts(p, b, s, o);
        lemma_starts_more(p + b + s + o, p, t, pad);
        lemma_starts_more(p + b + s + o + t + pad, p, panel_close(opts), end);
    } else {
        lemma_starts_more(p, p, scalar_body(src, opts.no_ascii), seq![]);
        lemma_concat_empty(p + scalar_body(src, opts.no_ascii));
    }
}

/// Where an aligned row gives way to a generic one, so does its template.
pub proof fn lemma_diverted_template(opts: Options, n: nat, color: bool)
    requires
        diverts(opts),
    ensures
        main_slots(LayoutKind::OutputLine, opts, n, color) == main_slots(
            LayoutKind::Generic,
            opts,
            n,
            color,
        ),
        open_text(LayoutKind::OutputLine, opts, color) == open_text(
            LayoutKind::Generic,
            opts,
            color,
        ),
        close_text(LayoutKind::OutputLine, opts, n, color) == close_text(
            LayoutKind::Generic,
            opts,
            n,
            color,
        ),
        panel_kind(LayoutKind::OutputLine, opts, color) == panel_kind(
            LayoutKind::Generic,
            opts,
            color,
        ),
{
    reveal(main_slots);
    reveal(open_text);
    reveal(close_text);
}

/// A row is its offset column, its digits, its panel and the fixed texts around it.
pub proof fn lemma_row_parts(
    kind: LayoutKind,
    opts: Options,
    src: Seq<u8>,
    off: u64,
    color: bool,
)
    requires
        opts.wf(),
        shaped(kind, opts, src.len(), color),
        opts.border == BorderStyle::Off || patterned(kind, opts, src.len(), color) || !is_generic(
            kind,
            opts,
        ) || is_compact(kind, opts),
    ensures
        row(kind, opts, src, off, color) == prefix_text(kind, opts, off, color) + (values(
            main_slots(kind, opts, src.len(), color),
            shown_bytes(opts, src),
            opts.uppercase,
        ) + open_text(kind, opts, color) + panel_bytes(kind, opts, src, color) + close_text(
            kind,
            opts,
            src.len(),
            color,
        )),
{
    reveal(main_slots);
    reveal(close_text);
    reveal(open_text);
    reveal(prefix_text);
    let prefix = prefix_text(kind, opts, off, color);
    let n = src.len();
    let shown = shown_bytes(opts, src);
    let main = values(main_slots(kind, opts, n, color), shown, opts.uppercase);
    let open = open_text(kind, opts, color);
    let panel = panel_bytes(kind, opts, src, color);
    let close = close_text(kind, opts, n, color);
    lemma_concat4(prefix, main, open, panel, close);
    if is_compact(kind, opts) {
        lemma_values_run(0, n, src, opts.uppercase);
        assert(src.subrange(0, n as int) =~= src);
        lemma_concat_assoc(prefix + main, open, panel);
        lemma_concat_empty(prefix + main);
        lemma_concat_empty(Seq::<u8>::empty());
    } else if is_generic(kind, opts) {
        lemma_generic_parts(kind, opts, src, off, color);
    } else if kind == LayoutKind::OutputLine {
        let cols = line_slots(opts, n, color, opts.width as nat);
        lemma_values_concat(lits(bar(opts.border)), cols, src, opts.uppercase);
        lemma_values_lits(bar(opts.border), src, opts.uppercase);
        lemma_line_text(opts, src, color, opts.width as nat);
        lemma_concat_assoc(prefix, bar(opts.border), line_cells(opts, src, color, opts.width as nat));
        lemma_concat3(
            prefix + main + open + panel,
            spaces(monus(opts.width as nat, n)),
            panel_close(opts),
            seq![NEWLINE],
        );
    } else {
        lemma_scalar_text(src, opts.no_ascii, 16);
        lemma_concat_empty(prefix + main);
        lemma_concat_empty(Seq::<u8>::empty());
        assert(row(kind, opts, src, off, color) =~= prefix + main + open + panel + close);
    }
}

/// The case of rows in any display mode.
/// The main section of a row has the length of its template.
pub proof fn lemma_main_fits(
    kind: LayoutKind,
    opts: Options,
    src: Seq<u8>,
    off: u64,
    color: bool,
)
    requires
        opts.wf(),
        shaped(kind, opts, src.len(), color),
    ensures
        prefix_text(kind, opts, off, color).len() + main_slots(kind, opts, src.len(), color).len()
            <= row(kind, opts, src, off, color).len(),
{
    if opts.border == BorderStyle::Off || !is_generic(kind, opts) || is_compact(kind, opts) {
        lemma_row_parts(kind, opts, src, off, color);
    } else {
        reveal(main_slots);
        reveal(prefix_text);
        lemma_cells_text(opts, src, cell_count(opts));
        assert(cells(opts, src, cell_count(opts)).len() == cells_slots(
            opts,
            src.len(),
            cell_count(opts),
        ).len());
    }
}

proof fn lemma_generic_parts(kind: LayoutKind, opts: Options, src: Seq<u8>, off: u64, color: bool)
    requires
        opts.wf(),
        shaped(kind, opts, src.len(), color),
        opts.border == BorderStyle::Off || patterned(kind, opts, src.len(), color),
        is_generic(kind, opts),
        !is_compact(kind, opts),
    ensures
        row(kind, opts, src, off, color) == prefix_text(kind, opts, off, color) + values(
            main_slots(kind, opts, src.len(), color),
            shown_bytes(opts, src),
            opts.uppercase,
        ) + open_text(kind, opts, color) + panel_bytes(kind, opts, src, color) + close_text(
            kind,
            opts,
            src.len(),
            color,
        ),
{
    reveal(main_slots);
    reveal(close_text);
    reveal(open_text);
    reveal(prefix_text);
    let prefix = prefix_text(kind, opts, off, color);
    let n = src.len();
    let shown = shown_bytes(opts, src);
    let upper = opts.uppercase;
    let main = values(main_slots(kind, opts, n, color), shown, upper);
    let open = open_text(kind, opts, color);
    let p = panel_kind(kind, opts, color);
    let panel = panel_bytes(kind, opts, src, color);
    let cs = cells_slots(opts, n, cell_count(opts));
    let pad = if opts.border == BorderStyle::Off {
        Seq::<u8>::empty()
    } else {
        spaces(monus(section_width(opts), cs.len()))
    };
    lemma_cells_text(opts, src, cell_count(opts));
    lemma_values_concat3(lits(bar(opts.border)), cs, lits(pad), shown, upper);
    lemma_values_lits(bar(opts.border), shown, upper);
    lemma_values_lits(pad, shown, upper);
    let text = cells(opts, src, cell_count(opts));
    assert(text.len() == cs.len());
    assert(main == bar(opts.border) + text + pad);
    lemma_concat_assoc(bar(opts.border), text, pad);
    lemma_concat_assoc(prefix, bar(opts.border), generic_section(opts, src));
    assert(prefix + main == prefix + bar(opts.border) + generic_section(opts, src));
    let gap = if p == PanelCell::Absent || opts.border == BorderStyle::Off {
        Seq::<u8>::empty()
    } else {
        spaces(monus(opts.width as nat, panel_step(p) * n))
    };
    if opts.border != BorderStyle::Off {
        lemma_panel_index(p, src);
        lemma_panel_plain(opts.table, src);
    }
    lemma_concat_empty(prefix + main);
    if has_panel(opts) {
        lemma_concat3(prefix + main, open, panel, gap);
        assert(generic_panel(opts, src) == open + panel + gap);
    } else {
        assert(generic_panel(opts, src) == gap);
    }
    lemma_concat3(prefix + main + open + panel, gap, panel_close(opts), seq![NEWLINE]);
}

/// A row is its offset column and the text of its template.
pub proof fn lemma_row_is_template(
    kind: LayoutKind,
    opts: Options,
    src: Seq<u8>,
    off: u64,
    color: bool,
)
    requires
        opts.wf(),
        patterned(kind, opts, src.len(), color),
    ensures
        row(kind, opts, src, off, color) == prefix_text(kind, opts, off, color) + body_text(
            kind,
            opts,
            src,
            color,
        ),
{
    reveal(body_text);
    lemma_row_parts(kind, opts, src, off, color);
    lemma_panel_absent(src);
    lemma_panel_plain(opts.table, src);
    lemma_panel_plain(CharTable::Ascii, src);
    if !is_compact(kind, opts) && !is_generic(kind, opts) && kind == LayoutKind::OutputLine {
        lemma_panel_line(opts, src, color);
    }
}

// ---------------------------------------------------------------- the order of the digits

/// Does the template hold the digits of the bytes `from` up to `to` in order, each byte's two
/// digits side by side?
pub open spec fn in_order(t: Seq<Slot>, from: int, to: int) -> bool
    decreases t.len(),
{
    if t.len() == 0 {
        from == to
    } else {
        match t[0] {
            Slot::Lit(_) => in_order(t.skip(1), from, to),
            Slot::Hex(j, c) => j == from && c == 0 && t.len() >= 2 && t[1] == Slot::Hex(j, 1)
                && in_order(t.skip(2), from + 1, to),
        }
    }
}

proof fn lemma_in_order_concat(a: Seq<Slot>, b: Seq<Slot>, from: int, mid: int, to: int)
    requires
        in_order(a, from, mid),
        in_order(b, mid, to),
    ensures
        in_order(a + b, from, to),
    decreases a.len(),
{
    if a.len() == 0 {
        assert(a + b =~= b);
    } else {
        match a[0] {
            Slot::Lit(_) => {
                lemma_in_order_concat(a.skip(1), b, from, mid, to);
                assert((a + b).skip(1) =~= a.skip(1) + b);
            },
            Slot::Hex(_, _) => {
                lemma_in_order_concat(a.skip(2), b, from + 1, mid, to);
                assert((a + b).skip(2) =~= a.skip(2) + b);
                assert((a + b)[1] == a[1]);
            },
        }
    }
}

proof fn lemma_in_order_lits(s: Seq<u8>, j: int)
    ensures
        in_order(lits(s), j, j),
    decreases s.len(),
{
    if s.len() > 0 {
        lemma_in_order_lits(s.skip(1), j);
        assert(lits(s).skip(1) =~= lits(s.skip(1)));
    }
}

proof fn lemma_in_order_pair(j: int)
    ensures
        in_order(pair_slots(j), j, j + 1),
{
    assert(pair_slots(j).skip(2) =~= seq![]);
    reveal_with_fuel(in_order, 2);
}

proof fn lemma_in_order_run(from: int, len: nat)
    ensures
        in_order(run_slots(from, len), from, from + len),
    decreases len,
{
    if len > 0 {
        lemma_in_order_run(from, (len - 1) as nat);
        lemma_in_order_pair(from + len - 1);
        lemma_in_order_concat(
            run_slots(from, (len - 1) as nat),
            pair_slots(from + len - 1),
            from,
            from + len - 1,
            from + len,
        );
    }
}

/// A byte's digits, or space past the end of the row, between two fixed texts.
proof fn lemma_in_order_column(a: Seq<u8>, b: Seq<Slot>, c: Seq<u8>, i: int, n: int)
    requires
        in_order(
            b,
            smaller(i, n),
            smaller(i + 1, n),
        ),
    ensures
        in_order(lits(a) + b + lits(c), smaller(i, n), smaller(i + 1, n)),
{
    lemma_in_order_lits(a, smaller(i, n));
    lemma_in_order_lits(c, smaller(i + 1, n));
    lemma_in_order_concat(lits(a), b, smaller(i, n), smaller(i, n), smaller(i + 1, n));
    lemma_in_order_concat(
        lits(a) + b,
        lits(c),
        smaller(i, n),
        smaller(i + 1, n),
        smaller(i + 1, n),
    );
}

/// The smaller of two numbers.
pub open spec fn smaller(a: int, b: int) -> int {
    if a < b {
        a
    } else {
        b
    }
}

/// A byte's digits, or space past the end of the row.
proof fn lemma_in_order_byte(i: int, n: int)
    ensures
        in_order(
            if i < n {
                pair_slots(i)
            } else {
                lits(spaces(2))
            },
            smaller(i, n),
            smaller(i + 1, n),
        ),
{
    if i < n {
        lemma_in_order_pair(i);
    } else {
        lemma_in_order_lits(spaces(2), n);
    }
}

/// The number of bytes that one cell shows.
pub open spec fn cell_size(opts: Options) -> int {
    if opts.mode == DisplayMode::TwoByteHex {
        wide_group(opts) as int
    } else {
        1
    }
}

proof fn lemma_in_order_cells(opts: Options, n: nat, k: nat)
    requires
        opts.wf(),
        opts.mode == DisplayMode::Canonical || opts.mode == DisplayMode::OneByteHex || opts.mode
            == DisplayMode::TwoByteHex,
    ensures
        in_order(cells_slots(opts, n, k), 0, smaller(k * cell_size(opts), n as int)),
    decreases k,
{
    let size = cell_size(opts);
    let m = n as int;
    if k > 0 {
        let i = k - 1;
        lemma_in_order_cells(opts, n, i as nat);
        assert(i * size >= 0 && k * size == i * size + size) by (nonlinear_arith)
            requires
                k == i + 1,
                i >= 0,
                size > 0,
        ;
        let b = if i < n {
            pair_slots(i)
        } else {
            lits(spaces(2))
        };
        match opts.mode {
            DisplayMode::Canonical => {
                lemma_in_order_byte(i, m);
                lemma_in_order_column(
                    spaces(
                        if gap_before(opts, i) {
                            1
                        } else {
                            0
                        },
                    ),
                    b,
                    spaces(
                        if space_after(opts, i) {
                            1
                        } else {
                            0
                        },
                    ),
                    i,
                    m,
                );
            },
            DisplayMode::OneByteHex => {
                lemma_in_order_byte(i, m);
                lemma_in_order_lits(spaces(2), smaller(i, m));
                lemma_in_order_concat(
                    lits(spaces(2)),
                    b,
                    smaller(i, m),
                    smaller(i, m),
                    smaller(i + 1, m),
                );
            },
            _ => {
                let g = wide_group(opts);
                let from = smaller(i * size, m);
                let to = smaller(k * size, m);
                lemma_in_order_lits(spaces(1), from);
                if i * g < n {
                    let len = group_len(opts, n, i);
                    let zeros = fill((2 * (g - len)) as nat, 0x30);
                    lemma_in_order_lits(zeros, from);
                    lemma_in_order_run(from, len);
                    lemma_in_order_concat(lits(zeros), run_slots(from, len), from, from, to);
                    lemma_in_order_concat(
                        lits(spaces(1)),
                        lits(zeros) + run_slots(from, len),
                        from,
                        from,
                        to,
                    );
                } else {
                    let rest = spaces((2 * g) as nat);
                    lemma_in_order_lits(rest, from);
                    lemma_in_order_concat(lits(spaces(1)), lits(rest), from, from, to);
                }
            },
        }
        lemma_in_order_concat(
            cells_slots(opts, n, i as nat),
            cell_slots(opts, n, i),
            0,
            smaller(i * size, m),
            smaller(k * size, m),
        );
    } else {
        assert(k * size == 0) by (nonlinear_arith)
            requires
                k == 0,
        ;
    }
}

proof fn lemma_in_order_line(opts: Options, n: nat, color: bool, k: nat)
    ensures
        in_order(line_slots(opts, n, color, k), 0, smaller(k as int, n as int)),
    decreases k,
{
    let m = n as int;
    if k > 0 {
        let i = k - 1;
        lemma_in_order_line(opts, n, color, i as nat);
        let on = tint(color, escape(32));
        let off = tint(color, reset());
        let b = if i < n {
            lits(on) + pair_slots(i) + lits(off)
        } else {
            lits(spaces(2))
        };
        lemma_in_order_byte(i, m);
        if i < n {
            lemma_in_order_column(on, pair_slots(i), off, i, m);
        }
        lemma_in_order_column(
            spaces(
                if i == opts.width / 2 {
                    1
                } else {
                    0
                },
            ),
            b,
            spaces(
                if space_after(opts, i) {
                    1
                } else {
                    0
                },
            ),
            i,
            m,
        );
        lemma_in_order_concat(
            line_slots(opts, n, color, i as nat),
            line_cell_slots(opts, n, color, i),
            0,
            smaller(i, m),
            smaller(i + 1, m),
        );
    }
}

proof fn lemma_in_order_scalar(n: nat, no_ascii: bool, k: nat)
    ensures
        in_order(scalar_slots(n, no_ascii, k), 0, smaller(k as int, n as int)),
    decreases k,
{
    let m = n as int;
    if k > 0 {
        let i = k - 1;
        lemma_in_order_scalar(n, no_ascii, i as nat);
        lemma_in_order_byte(i, m);
        lemma_in_order_column(
            spaces(
                if i == 8 {
                    1
                } else {
                    0
                },
            ),
            if i < n {
                pair_slots(i)
            } else {
                lits(spaces(2))
            },
            spaces(
                if i < 15 || !no_ascii {
                    1
                } else {
                    0
                },
            ),
            i,
            m,
        );
        lemma_in_order_concat(
            scalar_slots(n, no_ascii, i as nat),
            scalar_cell_slots(n, no_ascii, i),
            0,
            smaller(i, m),
            smaller(i + 1, m),
        );
    }
}

/// The number of bytes whose digits a row shows.
pub open spec fn shown_count(kind: LayoutKind, opts: Options, n: nat) -> int {
    if !is_compact(kind, opts) && is_generic(kind, opts) {
        smaller(cell_count(opts) * cell_size(opts), n as int)
    } else {
        n as int
    }
}

/// In the template of a row the digits stand in order. A row with a panel shows the digits of all
/// its bytes.
pub proof fn lemma_template_in_order(kind: LayoutKind, opts: Options, n: nat, color: bool)
    requires
        opts.wf(),
        shaped(kind, opts, n, color),
    ensures
        in_order(main_slots(kind, opts, n, color), 0, shown_count(kind, opts, n)),
        0 <= shown_count(kind, opts, n) <= n,
        panel_kind(kind, opts, color) != PanelCell::Absent ==> shown_count(kind, opts, n) == n,
{
    reveal(main_slots);
    if is_compact(kind, opts) {
        lemma_in_order_run(0, n);
    } else if is_generic(kind, opts) {
        let cs = cells_slots(opts, n, cell_count(opts));
        let m = shown_count(kind, opts, n);
        let pad = if opts.border == BorderStyle::Off {
            Seq::<u8>::empty()
        } else {
            spaces(monus(section_width(opts), cs.len()))
        };
        lemma_in_order_cells(opts, n, cell_count(opts));
        assert(0 <= cell_count(opts) * cell_size(opts)) by (nonlinear_arith)
            requires
                cell_size(opts) > 0,
        ;
        lemma_in_order_lits(bar(opts.border), 0);
        lemma_in_order_lits(pad, m);
        lemma_in_order_concat(lits(bar(opts.border)), cs, 0, 0, m);
        lemma_in_order_concat(lits(bar(opts.border)) + cs, lits(pad), 0, m, m);
    } else if kind == LayoutKind::OutputLine {
        lemma_in_order_lits(bar(opts.border), 0);
        lemma_in_order_line(opts, n, color, opts.width as nat);
        lemma_in_order_concat(
            lits(bar(opts.border)),
            line_slots(opts, n, color, opts.width as nat),
            0,
            0,
            n as int,
        );
    } else {
        lemma_in_order_scalar(n, opts.no_ascii, 16);
    }
}

} // verus!
