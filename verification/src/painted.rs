//! Colored rows as a terminal takes them: which color the offset, the digits of each byte and its
//! character have.

use crate::bytes::{lemma_concat5, lemma_concat_assoc, monus, spaces, NEWLINE};
use crate::charset::char_text;
use crate::color::{byte_color, color_used, escape, panel_color, reset};
use crate::columns::{first_column, lemma_first_place, line_bytes, offset_size};
use crate::numeral::hex2;
use crate::options::{BorderStyle, CharTable, ColorScheme, ColorWhen, Options};
use crate::read::{in_case, lemma_hex2_value, lemma_offset_value, reads};
use crate::row::{
    bar, line_cell, line_cells, line_panel, offset_text, panel_close, panel_open, position_column,
    row, LayoutKind,
};
use crate::shown::is_aligned;
use vstd::prelude::*;

verus! {

/// The sequence by which a terminal is told a foreground color.
pub open spec fn ink(n: int) -> Seq<u8> {
    if n == 31 {
        seq![27u8, 91, 51, 49, 109]
    } else if n == 32 {
        seq![27u8, 91, 51, 50, 109]
    } else if n == 33 {
        seq![27u8, 91, 51, 51, 109]
    } else if n == 34 {
        seq![27u8, 91, 51, 52, 109]
    } else if n == 36 {
        seq![27u8, 91, 51, 54, 109]
    } else if n == 90 {
        seq![27u8, 91, 57, 48, 109]
    } else {
        seq![]
    }
}

/// The sequence by which a terminal goes back to its own color.
pub open spec fn no_ink() -> Seq<u8> {
    seq![27u8, 91, 48, 109]
}

/// The color of a byte's digits: green, or by its kind (zero, blank, visible, other ASCII, the
/// rest), or by its size (zero, and quarters of the range).
pub open spec fn digit_ink(scheme: ColorScheme, b: u8) -> int {
    match scheme {
        ColorScheme::Default => 32,
        ColorScheme::Type => if b == 0 {
            90
        } else if b == 32 {
            36
        } else if 33 <= b <= 126 {
            32
        } else if b <= 127 {
            33
        } else {
            31
        },
        ColorScheme::Gradient => if b == 0 {
            90
        } else if b <= 63 {
            34
        } else if b <= 127 {
            32
        } else if b <= 191 {
            33
        } else {
            31
        },
    }
}

proof fn lemma_ink(n: u8)
    requires
        n == 31 || n == 32 || n == 33 || n == 34 || n == 36 || n == 90,
    ensures
        escape(n) == ink(n as int),
        ink(n as int).len() == 5,
{
    assert(escape(n) =~= ink(n as int));
}

proof fn lemma_digit_ink(scheme: ColorScheme, b: u8)
    ensures
        escape(byte_color(b, scheme)) == ink(digit_ink(scheme, b)),
        ink(digit_ink(scheme, b)).len() == 5,
{
    lemma_ink(byte_color(b, scheme));
}

/// Each column with digits is longer by two sequences.
#[verifier::rlimit(50)]
proof fn lemma_colored_before(opts: Options, src: Seq<u8>, k: nat)
    requires
        k < opts.width,
        k <= src.len(),
    ensures
        line_cells(opts, src, true, k).len() == 12 * k + if k > opts.width as int / 2 {
            1int
        } else {
            0
        },
    decreases k,
{
    if k > 0 {
        let j = k - 1;
        lemma_colored_before(opts, src, j as nat);
        lemma_digit_ink(opts.scheme, src[j]);
        let a = ink(digit_ink(opts.scheme, src[j]));
        let h = hex2(src[j], opts.uppercase);
        assert(h.len() == 2) by {
            lemma_hex2_value(src[j], opts.uppercase);
        }
        assert((a + h + reset()).len() == 11);
        assert(line_cell(opts, src, true, j).len() == 12 + if j == opts.width as int / 2 {
            1int
        } else {
            0
        });
    }
}

proof fn lemma_colored_stands(opts: Options, src: Seq<u8>, i: nat, k: nat)
    requires
        i < k,
    ensures
        ({
            let at = line_cells(opts, src, true, i).len() as int;
            let c = line_cell(opts, src, true, i as int);
            let all = line_cells(opts, src, true, k);
            &&& at + c.len() <= all.len()
            &&& all.subrange(at, at + c.len()) == c
        }),
    decreases k,
{
    let at = line_cells(opts, src, true, i).len() as int;
    let c = line_cell(opts, src, true, i as int);
    let all = line_cells(opts, src, true, k);
    if i + 1 < k {
        lemma_colored_stands(opts, src, i, (k - 1) as nat);
        let front = line_cells(opts, src, true, (k - 1) as nat);
        assert(all.subrange(at, at + c.len()) =~= front.subrange(at, at + c.len()));
    } else {
        assert(all.subrange(at, at + c.len()) =~= c);
    }
}

/// What stands in front of a colored row's columns.
proof fn lemma_colored_front(opts: Options, off: u64)
    requires
        !opts.no_position,
    ensures
        (position_column(opts, off, true) + bar(opts.border)).len() == first_column(
            opts,
            offset_size(opts, off),
        ) + 9,
{
    lemma_ink(36);
    lemma_first_place(opts, off);
    let p = position_column(opts, off, false);
    let q = position_column(opts, off, true);
    assert(q.len() == p.len() + 9);
}

/// What stands in a colored row, as four parts.
proof fn lemma_colored_row(opts: Options, src: Seq<u8>, off: u64) -> (rest: Seq<u8>)
    requires
        is_aligned(opts),
    ensures
        row(LayoutKind::OutputLine, opts, src, off, true) == position_column(opts, off, true) + bar(
            opts.border,
        ) + (line_cells(opts, src, true, opts.width as nat) + rest),
{
    let p = position_column(opts, off, true) + bar(opts.border);
    let c = line_cells(opts, src, true, opts.width as nat);
    let o = panel_open(opts);
    let t = line_panel(opts, src, true);
    let pad = spaces(monus(opts.width as nat, src.len()));
    let z = panel_close(opts);
    let e = seq![NEWLINE];
    lemma_concat5(p + c, o, t, pad, z, e);
    lemma_concat_assoc(p, c, o + t + pad + z + e);
    o + t + pad + z + e
}

/// In a colored row the digits of each byte stand between the sequence of its color and that which
/// ends it.
#[verifier::rlimit(50)]
pub proof fn lemma_digits_colored(opts: Options, src: Seq<u8>, off: u64, i: int)
    requires
        opts.wf(),
        is_aligned(opts),
        0 <= i < src.len() <= opts.width,
    ensures
        ({
            let s = row(LayoutKind::OutputLine, opts, src, off, true);
            let at = first_column(opts, offset_size(opts, off)) + 9 + 12 * i + if i
                >= opts.width as int / 2 {
                1int
            } else {
                0
            };
            &&& 0 <= at
            &&& at + 11 <= s.len()
            &&& s.subrange(at, at + 5) == ink(digit_ink(opts.scheme, src[i]))
            &&& reads(s.subrange(at + 5, at + 7), 16, src[i] as nat)
            &&& in_case(s.subrange(at + 5, at + 7), opts.uppercase)
            &&& s.subrange(at + 7, at + 11) == no_ink()
        }),
{
    let w = opts.width as nat;
    let all = line_cells(opts, src, true, w);
    let p = position_column(opts, off, true) + bar(opts.border);
    let rest = lemma_colored_row(opts, src, off);
    lemma_colored_front(opts, off);
    lemma_colored_before(opts, src, i as nat);
    lemma_colored_stands(opts, src, i as nat, w);
    lemma_digit_ink(opts.scheme, src[i]);
    lemma_hex2_value(src[i], opts.uppercase);
    let first = line_cells(opts, src, true, i as nat).len() as int;
    let c = line_cell(opts, src, true, i);
    let gap: int = if i == opts.width as int / 2 {
        1
    } else {
        0
    };
    let a = ink(digit_ink(opts.scheme, src[i]));
    let h = hex2(src[i], opts.uppercase);
    lemma_cell_inked(opts, src, i);
    lemma_three_inside(p, all, rest, first, c, gap, a, h);
}

/// A column starts with its gap, and holds the digits between two sequences.
proof fn lemma_cell_inked(opts: Options, src: Seq<u8>, i: int)
    requires
        0 <= i < src.len(),
    ensures
        ({
            let c = line_cell(opts, src, true, i);
            let gap: int = if i == opts.width as int / 2 {
                1
            } else {
                0
            };
            let a = ink(digit_ink(opts.scheme, src[i]));
            let h = hex2(src[i], opts.uppercase);
            &&& c.len() >= gap + 11
            &&& c.subrange(gap, gap + 11) == a + h + no_ink()
        }),
{
    lemma_digit_ink(opts.scheme, src[i]);
    lemma_hex2_value(src[i], opts.uppercase);
    let c = line_cell(opts, src, true, i);
    let gap: int = if i == opts.width as int / 2 {
        1
    } else {
        0
    };
    let a = ink(digit_ink(opts.scheme, src[i]));
    let h = hex2(src[i], opts.uppercase);
    assert(reset() =~= no_ink());
    assert(c.subrange(gap, gap + 11) =~= a + h + no_ink());
}

proof fn lemma_three_inside(
    p: Seq<u8>,
    all: Seq<u8>,
    rest: Seq<u8>,
    first: int,
    c: Seq<u8>,
    gap: int,
    a: Seq<u8>,
    h: Seq<u8>,
)
    requires
        0 <= first,
        first + c.len() <= all.len(),
        all.subrange(first, first + c.len()) == c,
        0 <= gap,
        gap + 11 <= c.len(),
        a.len() == 5,
        h.len() == 2,
        c.subrange(gap, gap + 11) == a + h + no_ink(),
    ensures
        ({
            let s = p + (all + rest);
            let at = p.len() + first + gap;
            &&& at + 11 <= s.len()
            &&& s.subrange(at, at + 5) == a
            &&& s.subrange(at + 5, at + 7) == h
            &&& s.subrange(at + 7, at + 11) == no_ink()
        }),
{
    let s = p + (all + rest);
    let at = p.len() + first + gap;
    let m = a + h + no_ink();
    assert forall|j: int| 0 <= j < 11 implies #[trigger] s[at + j] == m[j] by {
        assert(c.subrange(gap, gap + 11)[j] == c[gap + j]);
        assert(all.subrange(first, first + c.len())[gap + j] == all[first + gap + j]);
    }
    assert forall|j: int| at <= j < at + 11 implies #[trigger] s[j] == m[j - at] by {
        assert(s[at + (j - at)] == m[j - at]);
    }
    assert(s.subrange(at, at + 5) =~= a);
    assert(s.subrange(at + 5, at + 7) =~= h);
    assert(s.subrange(at + 7, at + 11) =~= no_ink());
}

/// In a colored row the offset and the colon behind it are cyan.
#[verifier::rlimit(50)]
pub proof fn lemma_offset_colored(opts: Options, src: Seq<u8>, off: u64) -> (t: Seq<u8>)
    requires
        is_aligned(opts),
    ensures
        ({
            let s = row(LayoutKind::OutputLine, opts, src, off, true);
            let b = line_bytes(opts.border);
            let front = b + ink(36) + t + seq![0x3au8] + no_ink();
            &&& front.len() <= s.len()
            &&& s.take(front.len() as int) == front
        }),
        t.len() >= 8,
        t.len() > 8 ==> t[0] != 0x30,
        reads(
            t,
            if opts.offset_dec {
                10
            } else {
                16
            },
            off as nat,
        ),
        in_case(t, opts.uppercase),
{
    let t = offset_text(off, opts.offset_dec, opts.uppercase);
    lemma_offset_value(off, opts.offset_dec, opts.uppercase);
    lemma_ink(36);
    let rest = lemma_colored_row(opts, src, off);
    let s = row(LayoutKind::OutputLine, opts, src, off, true);
    let b = line_bytes(opts.border);
    assert(bar(opts.border) =~= b);
    let front = b + ink(36) + t + seq![0x3au8] + no_ink();
    assert(reset() =~= no_ink());
    let p = position_column(opts, off, true);
    assert(p.take(front.len() as int) =~= front);
    assert(s.take(front.len() as int) =~= p.take(front.len() as int));
    t
}

// ---------------------------------------------------------------- the panel

/// A byte's character in its color: green where it is visible in ASCII, and dim otherwise.
pub open spec fn inked_char(table: CharTable, b: u8) -> Seq<u8> {
    ink(
        if 32 <= b <= 126 {
            32
        } else {
            90
        },
    ) + char_text(table, b) + no_ink()
}

/// The characters of some bytes, each in its color.
pub open spec fn inked_chars(table: CharTable, src: Seq<u8>) -> Seq<u8>
    decreases src.len(),
{
    if src.len() == 0 {
        seq![]
    } else {
        inked_chars(table, src.drop_last()) + inked_char(table, src.last())
    }
}

proof fn lemma_inked(opts: Options, src: Seq<u8>)
    ensures
        line_panel(opts, src, true) == inked_chars(opts.table, src),
    decreases src.len(),
{
    if src.len() > 0 {
        lemma_inked(opts, src.drop_last());
        let b = src.last();
        lemma_ink(panel_color(b));
        assert(reset() =~= no_ink());
        let x = inked_chars(opts.table, src.drop_last());
        let e = escape(panel_color(b));
        let t = char_text(opts.table, b);
        assert(x + e + t + reset() =~= x + (e + t + no_ink()));
    }
}

/// The panel of a colored row shows each byte in its color, padded to the width of a full row. It
/// is the last thing in the row but for what closes it.
#[verifier::rlimit(50)]
pub proof fn lemma_panel_colored(opts: Options, src: Seq<u8>, off: u64) -> (before: Seq<u8>)
    requires
        is_aligned(opts),
        src.len() <= opts.width,
    ensures
        ({
            let s = row(LayoutKind::OutputLine, opts, src, off, true);
            let panel = inked_chars(opts.table, src);
            let close = if opts.border == BorderStyle::Off {
                seq![0x7cu8, 0x0a]
            } else {
                seq![0x20u8] + line_bytes(opts.border) + seq![0x0au8]
            };
            &&& s.len() == before.len() + panel.len() + (opts.width - src.len()) + close.len()
            &&& s.take(before.len() as int) == before
            &&& s.subrange(before.len() as int, (before.len() + panel.len()) as int) == panel
            &&& forall|j: int|
                before.len() + panel.len() <= j < s.len() - close.len() ==> #[trigger] s[j] == 0x20
            &&& s.skip(s.len() - close.len()) == close
        }),
{
    lemma_inked(opts, src);
    let p = position_column(opts, off, true) + bar(opts.border);
    let c = line_cells(opts, src, true, opts.width as nat);
    let before = p + c + panel_open(opts);
    let t = line_panel(opts, src, true);
    let pad = spaces(monus(opts.width as nat, src.len()));
    let z = panel_close(opts);
    let e = seq![NEWLINE];
    let s = row(LayoutKind::OutputLine, opts, src, off, true);
    let close = if opts.border == BorderStyle::Off {
        seq![0x7cu8, 0x0a]
    } else {
        seq![0x20u8] + line_bytes(opts.border) + seq![0x0au8]
    };
    assert(bar(opts.border) =~= line_bytes(opts.border));
    assert(z + e =~= close);
    assert(s == before + t + pad + z + e);
    lemma_concat_assoc(before + t + pad, z, e);
    lemma_four_parts(before, t, pad, close);
    before
}

proof fn lemma_four_parts(a: Seq<u8>, b: Seq<u8>, c: Seq<u8>, d: Seq<u8>)
    ensures
        ({
            let s = a + b + c + d;
            &&& s.take(a.len() as int) == a
            &&& s.subrange(a.len() as int, (a.len() + b.len()) as int) == b
            &&& forall|j: int|
                a.len() + b.len() <= j < s.len() - d.len() ==> #[trigger] s[j] == c[j - a.len()
                    - b.len()]
            &&& s.skip(s.len() - d.len()) == d
        }),
{
    let s = a + b + c + d;
    assert(s.take(a.len() as int) =~= a);
    assert(s.subrange(a.len() as int, (a.len() + b.len()) as int) =~= b);
    assert(s.skip(s.len() - d.len()) =~= d);
}

/// Rows that are not aligned have no colors.
pub proof fn lemma_not_colored(opts: Options, src: Seq<u8>, off: u64)
    ensures
        row(LayoutKind::Generic, opts, src, off, true) == row(
            LayoutKind::Generic,
            opts,
            src,
            off,
            false,
        ),
        !is_aligned(opts) ==> row(LayoutKind::OutputLine, opts, src, off, true) == row(
            LayoutKind::Generic,
            opts,
            src,
            off,
            false,
        ),
{
}

/// Colors are used where they are asked for, and on a terminal where that decides.
pub proof fn lemma_color_used(terminal: bool)
    ensures
        color_used(ColorWhen::Always, terminal),
        !color_used(ColorWhen::Never, terminal),
        color_used(ColorWhen::Auto, terminal) == terminal,
{
}

} // verus!
