//! The lengths of rows.

use crate::bytes::fill;
use crate::charset::{char_text, panel_text, CP437};
use crate::dump::{offset_at, row_bytes, row_text, rows_text, Style};
use crate::numeral::lemma_numeral_len;
use crate::options::{BorderStyle, CharTable, DisplayMode, Options};
use crate::row::{
    cell, cells, character_cell, line_cells, line_panel, offset_text, row, scalar_cells, LayoutKind,
};
use crate::template::{
    body_text, is_compact, is_generic, lemma_panel_index, lemma_row_is_template, panel_kind,
    patterned, prefix_text,
};
use vstd::prelude::*;
use vstd::utf8::*;

verus! {

/// Rows made from one template are equally long, as long as their offsets are.
pub proof fn lemma_equal_rows(
    kind: LayoutKind,
    opts: Options,
    a: Seq<u8>,
    b: Seq<u8>,
    off_a: u64,
    off_b: u64,
    color: bool,
)
    requires
        opts.wf(),
        patterned(kind, opts, a.len(), color),
        a.len() == b.len(),
        offset_text(off_a, opts.offset_dec, opts.uppercase).len() == offset_text(
            off_b,
            opts.offset_dec,
            opts.uppercase,
        ).len(),
    ensures
        row(kind, opts, a, off_a, color).len() == row(kind, opts, b, off_b, color).len(),
{
    lemma_row_is_template(kind, opts, a, off_a, color);
    lemma_row_is_template(kind, opts, b, off_b, color);
    let p = panel_kind(kind, opts, color);
    lemma_panel_index(p, a);
    lemma_panel_index(p, b);
    reveal(body_text);
    reveal(prefix_text);
}

/// Is `part` the `k`-th of the parts of length `len` that `text` consists of?
pub open spec fn stands_at(text: Seq<u8>, k: int, len: nat, part: Seq<u8>) -> bool {
    0 <= k * len && (k + 1) * len <= text.len() && text.subrange(k * len, (k + 1) * len) == part
}

/// Rows of one length that are made together stand one after the other, each as if it had been made
/// alone.
pub proof fn lemma_rows_placed(
    opts: Options,
    style: Style,
    start: u64,
    data: Seq<u8>,
    from: int,
    to: int,
    len: nat,
)
    requires
        from <= to,
        forall|r: int|
            from <= r < to ==> (#[trigger] row_text(opts, style, start, data, r)).len() == len,
    ensures
        rows_text(opts, style, start, data, from, to).len() == (to - from) * len,
        forall|r: int|
            from <= r < to ==> stands_at(
                rows_text(opts, style, start, data, from, to),
                r - from,
                len,
                #[trigger] row_text(opts, style, start, data, r),
            ),
    decreases to - from,
{
    if from == to {
        assert((to - from) * len == 0) by (nonlinear_arith)
            requires
                from == to,
        ;
    } else {
        let before = rows_text(opts, style, start, data, from, to - 1);
        let all = rows_text(opts, style, start, data, from, to);
        let last = row_text(opts, style, start, data, to - 1);
        lemma_rows_placed(opts, style, start, data, from, to - 1, len);
        assert((to - from) * len == (to - 1 - from) * len + len) by (nonlinear_arith);
        assert(all == before + last);
        assert forall|r: int| from <= r < to implies stands_at(
            all,
            r - from,
            len,
            #[trigger] row_text(opts, style, start, data, r),
        ) by {
            let k = r - from;
            assert(0 <= k * len && (k + 1) * len == k * len + len) by (nonlinear_arith)
                requires
                    k >= 0,
            ;
            if r < to - 1 {
                assert(stands_at(before, k, len, row_text(opts, style, start, data, r)));
                assert(all.subrange(k * len, (k + 1) * len) =~= before.subrange(
                    k * len,
                    (k + 1) * len,
                ));
            } else {
                assert(all.subrange(k * len, (k + 1) * len) =~= last);
            }
        }
    }
}

/// Four full rows made from a template at once are the four rows made one by one, each in its
/// place, where their offsets are equally long.
pub proof fn lemma_four_rows(opts: Options, style: Style, start: u64, data: Seq<u8>, first: int)
    requires
        opts.wf(),
        0 <= first,
        (first + 4) * opts.width <= data.len(),
        patterned(style.full, opts, opts.width as nat, style.color),
        forall|r: int|
            first <= r < first + 4 ==> offset_text(
                #[trigger] offset_at(start, r * opts.width),
                opts.offset_dec,
                opts.uppercase,
            ).len() == offset_text(
                offset_at(start, first * opts.width),
                opts.offset_dec,
                opts.uppercase,
            ).len(),
    ensures
        ({
            let len = row_text(opts, style, start, data, first).len();
            let text = rows_text(opts, style, start, data, first, first + 4);
            &&& text.len() == 4 * len
            &&& stands_at(text, 0, len, row_text(opts, style, start, data, first))
            &&& stands_at(text, 1, len, row_text(opts, style, start, data, first + 1))
            &&& stands_at(text, 2, len, row_text(opts, style, start, data, first + 2))
            &&& stands_at(text, 3, len, row_text(opts, style, start, data, first + 3))
        }),
{
    let w = opts.width as int;
    let len = row_text(opts, style, start, data, first).len();
    assert forall|r: int| first <= r < first + 4 implies (#[trigger] row_text(
        opts,
        style,
        start,
        data,
        r,
    )).len() == len by {
        assert(0 <= first * w && 0 <= r * w && r * w + w <= (first + 4) * w && first * w + w <= (
        first + 4) * w) by (nonlinear_arith)
            requires
                0 <= first <= r < first + 4,
                w > 0,
        ;
        lemma_equal_rows(
            style.full,
            opts,
            row_bytes(data, w, r),
            row_bytes(data, w, first),
            offset_at(start, r * opts.width),
            offset_at(start, first * opts.width),
            style.color,
        );
    }
    lemma_rows_placed(opts, style, start, data, first, first + 4, len);
}

/// Is a byte one column narrower than others in the character display?
pub open spec fn is_narrow(b: u8) -> bool {
    b == 0 || 0x07 <= b <= 0x0d
}

/// The number of bytes that are narrower than others.
pub open spec fn narrow_count(src: Seq<u8>) -> nat
    decreases src.len(),
{
    if src.len() == 0 {
        0
    } else {
        narrow_count(src.drop_last()) + if is_narrow(src.last()) {
            1nat
        } else {
            0
        }
    }
}

/// By how much a row is longer than one whose characters are all one byte long.
pub open spec fn row_delta(opts: Options, src: Seq<u8>) -> int {
    if opts.mode == DisplayMode::OneByteChar {
        -(narrow_count(src) as int)
    } else if opts.table == CharTable::Cp437 || opts.table == CharTable::Default {
        panel_text(opts.table, src).len() - src.len()
    } else {
        0
    }
}

/// Do the lengths of rows depend on their bytes?
pub open spec fn is_variable(opts: Options) -> bool {
    opts.mode == DisplayMode::OneByteChar || opts.mode == DisplayMode::Canonical && !opts.no_ascii
        && (opts.table == CharTable::Cp437 || opts.table == CharTable::Default)
}

/// The characters of the panel are one to three bytes long, and a plain letter is one.
proof fn lemma_char_len(table: CharTable, b: u8)
    requires
        table == CharTable::Cp437 || table == CharTable::Default,
    ensures
        1 <= char_text(table, b).len() <= 4,
        char_text(table, 0x55).len() == 1,
{
    if table == CharTable::Cp437 {
        assert(CP437@[0x55] == 'U');
    }
}

proof fn lemma_panel_len(table: CharTable, src: Seq<u8>)
    requires
        table == CharTable::Cp437 || table == CharTable::Default,
    ensures
        src.len() <= panel_text(table, src).len() <= 4 * src.len(),
        (forall|i: int| 0 <= i < src.len() ==> src[i] == 0x55) ==> panel_text(table, src).len()
            == src.len(),
    decreases src.len(),
{
    if src.len() > 0 {
        lemma_panel_len(table, src.drop_last());
        lemma_char_len(table, src.last());
    }
}

/// By how much a row is longer than one whose characters are all one byte long.
pub fn row_len_delta(opts: &Options, src: &[u8]) -> (r: i64)
    requires
        src@.len() <= 0x0fff_ffff_ffff_ffff,
    ensures
        r == row_delta(*opts, src@),
{
    let mut r: i64 = 0;
    if opts.mode == DisplayMode::OneByteChar {
        for i in 0..src.len()
            invariant
                src@.len() <= 0x0fff_ffff_ffff_ffff,
                r == -(narrow_count(src@.take(i as int)) as int),
                -(i as int) <= r <= 0,
        {
            let b: u8 = src[i];
            assert(src@.take(i + 1).drop_last() =~= src@.take(i as int));
            if b == 0 || b >= 0x07 && b <= 0x0d {
                r = r - 1;
            }
        }
        assert(src@.take(src@.len() as int) =~= src@);
        return r;
    }
    if opts.table != CharTable::Cp437 && opts.table != CharTable::Default {
        return 0;
    }
    for i in 0..src.len()
        invariant
            opts.table == CharTable::Cp437 || opts.table == CharTable::Default,
            src@.len() <= 0x0fff_ffff_ffff_ffff,
            r == panel_text(opts.table, src@.take(i as int)).len() - i,
            0 <= r <= 3 * i,
    {
        let n: i64 = char_len(opts.table, src[i]);
        proof {
            assert(src@.take(i + 1).drop_last() =~= src@.take(i as int));
            lemma_char_len(opts.table, src@[i as int]);
        }
        r = r + (n - 1);
    }
    assert(src@.take(src@.len() as int) =~= src@);
    r
}

/// The number of bytes that a character of the panel is encoded with.
fn char_len(table: CharTable, b: u8) -> (n: i64)
    requires
        table == CharTable::Cp437 || table == CharTable::Default,
    ensures
        n == char_text(table, b).len(),
{
    if table == CharTable::Cp437 {
        let v: u32 = CP437[b as usize] as u32;
        if v <= 0x7f {
            1
        } else if v <= 0x7ff {
            2
        } else if v <= 0xffff {
            3
        } else {
            4
        }
    } else if b >= 0x20 && b <= 0x7e {
        1
    } else {
        3
    }
}

/// Canonical columns are equally wide for all bytes.
proof fn lemma_canonical_len(opts: Options, a: Seq<u8>, b: Seq<u8>, k: nat)
    requires
        opts.mode == DisplayMode::Canonical,
        a.len() == b.len(),
    ensures
        cells(opts, a, k).len() == cells(opts, b, k).len(),
    decreases k,
{
    if k > 0 {
        lemma_canonical_len(opts, a, b, (k - 1) as nat);
    }
}

/// Columns of an aligned row are equally wide for all bytes.
proof fn lemma_line_len(opts: Options, a: Seq<u8>, b: Seq<u8>, color: bool, k: nat)
    requires
        a.len() == b.len(),
    ensures
        line_cells(opts, a, color, k).len() == line_cells(opts, b, color, k).len(),
    decreases k,
{
    if k > 0 {
        lemma_line_len(opts, a, b, color, (k - 1) as nat);
    }
}

/// The panel of an aligned row is its characters and their colors.
proof fn lemma_line_panel_len(opts: Options, src: Seq<u8>, color: bool)
    ensures
        line_panel(opts, src, color).len() == panel_text(opts.table, src).len() + if color {
            9 * src.len()
        } else {
            0
        },
    decreases src.len(),
{
    if src.len() > 0 {
        lemma_line_panel_len(opts, src.drop_last(), color);
    }
}

/// The cells of the character display; a short row is filled up with spaces.
proof fn lemma_character_len(opts: Options, src: Seq<u8>, k: nat)
    requires
        opts.mode == DisplayMode::OneByteChar,
    ensures
        cells(opts, src, k).len() + narrow_count(
            if k <= src.len() {
                src.take(k as int)
            } else {
                src
            },
        ) == 4 * k,
    decreases k,
{
    if k > 0 {
        lemma_character_len(opts, src, (k - 1) as nat);
        if k <= src.len() {
            let b = src[k - 1];
            assert(src.take(k as int).drop_last() =~= src.take(k - 1));
            lemma_numeral_len(b as nat, 8, 3, false);
            assert(cell(opts, src, k - 1) == character_cell(b));
        } else {
            assert(src.take(src.len() as int) =~= src);
        }
    }
}

/// The characters of the other tables are equally long.
proof fn lemma_panel_fixed(table: CharTable, a: Seq<u8>, b: Seq<u8>)
    requires
        table != CharTable::Cp437,
        table != CharTable::Default,
        a.len() == b.len(),
    ensures
        panel_text(table, a).len() == panel_text(table, b).len(),
    decreases a.len(),
{
    if a.len() > 0 {
        lemma_panel_fixed(table, a.drop_last(), b.drop_last());
    }
}

/// The number of bytes by which `row_delta` differs is the number by which rows of the same number
/// of bytes differ in length. Inside a border the panel of a plain row is filled up, so that this
/// holds of full rows there; the character display is filled up as a whole. Rows of a fixed form
/// do not vary.
pub proof fn lemma_row_delta(
    kind: LayoutKind,
    opts: Options,
    a: Seq<u8>,
    b: Seq<u8>,
    off: u64,
    color: bool,
)
    requires
        opts.wf(),
        a.len() == b.len(),
        a.len() <= opts.width,
        opts.mode == DisplayMode::OneByteChar || opts.mode == DisplayMode::Canonical
            && !opts.no_ascii,
        kind == LayoutKind::Scalar ==> !is_variable(opts),
        !is_compact(kind, opts),
        opts.border == BorderStyle::Off || !is_variable(opts) || opts.mode == DisplayMode::Canonical
            && (a.len() == opts.width || !is_generic(kind, opts)),
    ensures
        row(kind, opts, a, off, color).len() - row(kind, opts, b, off, color).len() == row_delta(
            opts,
            a,
        ) - row_delta(opts, b),
{
    let w = opts.width as nat;
    if opts.mode == DisplayMode::OneByteChar {
        lemma_character_len(opts, a, w);
        lemma_character_len(opts, b, w);
        assert(a.take(a.len() as int) =~= a);
        assert(b.take(b.len() as int) =~= b);
    } else if kind == LayoutKind::Scalar {
        lemma_scalar_len(a, b, opts.no_ascii, 16);
        lemma_panel_fixed(CharTable::Ascii, a, b);
    } else {
        if is_variable(opts) {
            lemma_panel_len(opts.table, a);
            lemma_panel_len(opts.table, b);
        } else {
            lemma_panel_fixed(opts.table, a, b);
        }
        if is_generic(kind, opts) {
            lemma_canonical_len(opts, a, b, w);
        } else {
            lemma_line_len(opts, a, b, color, w);
            lemma_line_panel_len(opts, a, color);
            lemma_line_panel_len(opts, b, color);
        }
    }
}

proof fn lemma_scalar_len(a: Seq<u8>, b: Seq<u8>, no_ascii: bool, k: nat)
    requires
        a.len() == b.len(),
    ensures
        scalar_cells(a, no_ascii, k).len() == scalar_cells(b, no_ascii, k).len(),
    decreases k,
{
    if k > 0 {
        lemma_scalar_len(a, b, no_ascii, (k - 1) as nat);
    }
}

/// A row of plain letters is the one that others are measured by.
pub proof fn lemma_plain_delta(opts: Options, n: nat)
    ensures
        row_delta(opts, fill(n, 0x55)) == 0,
{
    lemma_no_narrow(fill(n, 0x55));
    if opts.table == CharTable::Cp437 || opts.table == CharTable::Default {
        lemma_panel_len(opts.table, fill(n, 0x55));
    }
}

proof fn lemma_no_narrow(src: Seq<u8>)
    requires
        forall|i: int| 0 <= i < src.len() ==> src[i] == 0x55,
    ensures
        narrow_count(src) == 0,
    decreases src.len(),
{
    if src.len() > 0 {
        lemma_no_narrow(src.drop_last());
    }
}

} // verus!
