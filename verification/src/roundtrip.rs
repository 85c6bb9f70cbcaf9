//! A dump read back gives the bytes that it was made of.

use crate::border::{head_text, repeated};
use crate::bytes::{
    fill, lemma_concat3, lemma_concat4, lemma_concat_assoc, lemma_concat_empty, spaces, BAR, COLON,
    NEWLINE, SPACE, STAR,
};
use crate::charset::{char_text, lemma_char_text_visible, panel_text};
use crate::color::{escape, reset, tint};
use crate::dump::{
    dump_text, lemma_offset_add, lemma_serial_all, lemma_tail, lemma_walk_split, memory_rows,
    offset_at, offset_line, repeats, row_bytes, serial_text, star_line, started, step_state,
    step_text, stream_rows, tail_bytes, tail_text, walk_state, walk_text, ProgressView, Style,
};
use crate::numeral::{digit, digit_count, hex2, numeral};
use crate::options::{BorderStyle, CharTable, DisplayMode, Endian, Options};
use crate::plain::plain_text;
use crate::reverse::{
    after_spaces, bare_offset, first_offset, has_colon, hex_number, hex_of, in_offset, is_hex,
    line_end, line_result, lines_bytes, offset_end, offset_value, pairs, prefixed, refill, reversed,
    separated, unread, LineResult, ReverseView,
};
use crate::row::{
    cell_count, gap_before, hex_text, line_panel, offset_text, position_column, row, space_after,
    wide_group, LayoutKind,
};
use crate::stream::{closing_text, end_offset, fed, opened, stream_start, stream_text};
use crate::template::{
    cell_slots, cells_slots, close_text, group_len, in_order, is_generic, lemma_row_parts,
    lemma_template_in_order, line_cell_slots, line_slots, lits, main_slots, open_text, pair_slots,
    panel_bytes, panel_kind, prefix_text, run_slots, scalar_cell_slots, scalar_slots, shaped,
    shown_bytes, shown_count, slot_value, swap_group, values, PanelCell, Slot,
};
use vstd::prelude::*;

verus! {

// ---------------------------------------------------------------- digits

/// 16 to the power of `k`.
spec fn pow16(k: nat) -> nat
    decreases k,
{
    if k == 0 {
        1
    } else {
        16 * pow16((k - 1) as nat)
    }
}

/// Are all bytes hexadecimal digits?
spec fn all_hex(s: Seq<u8>) -> bool {
    forall|i: int| 0 <= i < s.len() ==> is_hex(#[trigger] s[i])
}

/// A digit has its value.
proof fn lemma_digit_value(d: nat, upper: bool)
    requires
        d < 16,
    ensures
        is_hex(digit(d, upper)),
        hex_of(digit(d, upper)) == d,
{
}

/// Numerals are made of digits.
proof fn lemma_numeral_hex(v: nat, base: nat, len: nat, upper: bool)
    requires
        1 <= base <= 16,
    ensures
        all_hex(numeral(v, base, len, upper)),
        numeral(v, base, len, upper).len() == len,
    decreases len,
{
    if len > 0 {
        lemma_numeral_hex(v / base, base, (len - 1) as nat, upper);
        assert(v % base < base) by (nonlinear_arith)
            requires
                base >= 1,
        ;
        lemma_digit_value(v % base, upper);
    }
}

/// A numeral denotes its number.
proof fn lemma_numeral_number(v: nat, len: nat, upper: bool)
    requires
        v < pow16(len),
    ensures
        hex_number(numeral(v, 16, len, upper)) == v,
    decreases len,
{
    if len > 0 {
        let front = numeral(v / 16, 16, (len - 1) as nat, upper);
        lemma_numeral_number(v / 16, (len - 1) as nat, upper);
        lemma_digit_value(v % 16, upper);
        assert(numeral(v, 16, len, upper).drop_last() =~= front);
    }
}

/// A number fits in as many digits as it needs, and in more.
proof fn lemma_digits_suffice(v: nat, len: nat)
    requires
        digit_count(v, 16) <= len,
    ensures
        v < pow16(len),
    decreases v,
{
    if v < 16 {
        assert(len >= 1);
        lemma_pow16_positive((len - 1) as nat);
    } else {
        lemma_digits_suffice(v / 16, (len - 1) as nat);
    }
}

proof fn lemma_pow16_positive(k: nat)
    ensures
        pow16(k) >= 1,
    decreases k,
{
    if k > 0 {
        lemma_pow16_positive((k - 1) as nat);
    }
}

/// An offset in hexadecimal is read as it was written; in any base it is made of digits.
pub proof fn lemma_offset_read(off: u64, dec: bool, upper: bool)
    ensures
        offset_text(off, dec, upper).len() >= 8,
        forall|i: int|
            0 <= i < offset_text(off, dec, upper).len() ==> is_hex(
                #[trigger] offset_text(off, dec, upper)[i],
            ),
        !dec ==> offset_value(offset_text(off, dec, upper)) == Some(off),
{
    let base: nat = if dec {
        10
    } else {
        16
    };
    let count = digit_count(off as nat, base);
    let len = if count > 8 {
        count
    } else {
        8
    };
    lemma_numeral_hex(off as nat, base, len, upper);
    assert(all_hex(offset_text(off, dec, upper)));
    if !dec {
        lemma_digits_suffice(off as nat, len);
        lemma_numeral_number(off as nat, len, upper);
    }
}

/// A byte is read as it was written.
proof fn lemma_hex2_read(b: u8, upper: bool)
    ensures
        is_hex(hex2(b, upper)[0]),
        is_hex(hex2(b, upper)[1]),
        16 * hex_of(hex2(b, upper)[0]) + hex_of(hex2(b, upper)[1]) == b,
{
    lemma_digit_value((b / 16) as nat, upper);
    lemma_digit_value((b % 16) as nat, upper);
}

// ---------------------------------------------------------------- lines

/// Does the text hold no line feed?
spec fn one_line(s: Seq<u8>) -> bool {
    forall|i: int| 0 <= i < s.len() ==> #[trigger] s[i] != NEWLINE
}

proof fn lemma_line_end(line: Seq<u8>, rest: Seq<u8>, pos: int)
    requires
        one_line(line),
        0 <= pos <= line.len(),
    ensures
        line_end(line + seq![NEWLINE] + rest, pos) == line.len(),
    decreases line.len() - pos,
{
    let content = line + seq![NEWLINE] + rest;
    if pos < line.len() {
        assert(content[pos] == line[pos]);
        lemma_line_end(line, rest, pos + 1);
    } else {
        assert(content[pos] == NEWLINE);
    }
}

/// What lines hold does not depend on what stands before them.
proof fn lemma_line_end_shift(content: Seq<u8>, a: int, pos: int)
    requires
        0 <= a <= pos <= content.len(),
    ensures
        line_end(content, pos) == line_end(content.skip(a), pos - a) + a,
        pos <= line_end(content, pos) <= content.len(),
    decreases content.len() - pos,
{
    if pos < content.len() && content[pos] != NEWLINE {
        lemma_line_end_shift(content, a, pos + 1);
        assert(content.skip(a)[pos - a] == content[pos]);
    }
}

proof fn lemma_lines_shift(
    canonical: bool,
    jump: u64,
    st: ReverseView,
    content: Seq<u8>,
    a: int,
    pos: int,
)
    requires
        0 <= a <= pos <= content.len(),
    ensures
        lines_bytes(canonical, jump, st, content, pos) == lines_bytes(
            canonical,
            jump,
            st,
            content.skip(a),
            pos - a,
        ),
    decreases content.len() - pos,
{
    if pos < content.len() {
        lemma_line_end_shift(content, a, pos);
        let end = line_end(content, pos);
        assert(content.subrange(pos, end) =~= content.skip(a).subrange(pos - a, end - a));
        if let Some(r) = line_result(canonical, jump, st, content.subrange(pos, end)) {
            if end < content.len() {
                lemma_lines_shift(canonical, jump, r.state, content, a, end + 1);
            }
        }
    }
}

/// The first line is read, and then the others.
proof fn lemma_first_line(
    canonical: bool,
    jump: u64,
    st: ReverseView,
    line: Seq<u8>,
    rest: Seq<u8>,
)
    requires
        one_line(line),
    ensures
        lines_bytes(canonical, jump, st, line + seq![NEWLINE] + rest, 0) == match line_result(
            canonical,
            jump,
            st,
            line,
        ) {
            None => None,
            Some(r) => prefixed(r.bytes, lines_bytes(canonical, jump, r.state, rest, 0)),
        },
{
    let content = line + seq![NEWLINE] + rest;
    lemma_line_end(line, rest, 0);
    let end = line.len() as int;
    assert(content.subrange(0, end) =~= line);
    if let Some(r) = line_result(canonical, jump, st, line) {
        lemma_lines_shift(canonical, jump, r.state, content, end + 1, end + 1);
        assert(content.skip(end + 1) =~= rest);
    }
}

/// The offset at the start of a line.
proof fn lemma_offset_run(line: Seq<u8>, pos: int, end: int)
    requires
        0 <= pos <= end <= line.len(),
        forall|i: int| pos <= i < end ==> is_hex(#[trigger] line[i]),
        end < line.len() ==> !in_offset(line[end]),
    ensures
        offset_end(line, pos) == end,
    decreases end - pos,
{
    if pos < end {
        lemma_offset_run(line, pos + 1, end);
    }
}

/// A line that starts with an offset and a colon.
proof fn lemma_offset_line_start(text: Seq<u8>, rest: Seq<u8>)
    requires
        text.len() > 0,
        forall|i: int| 0 <= i < text.len() ==> is_hex(#[trigger] text[i]),
        rest.len() > 0 ==> !in_offset(rest[0]),
    ensures
        after_spaces(text + rest, 0) == 0,
        offset_end(text + rest, 0) == text.len(),
        (text + rest).subrange(0, text.len() as int) == text,
{
    let line = text + rest;
    assert(line[0] == text[0]);
    assert forall|i: int| 0 <= i < text.len() implies is_hex(#[trigger] line[i]) by {
        assert(line[i] == text[i]);
    }
    if rest.len() > 0 {
        assert(line[text.len() as int] == rest[0]);
    }
    lemma_offset_run(line, 0, text.len() as int);
    assert(line.subrange(0, text.len() as int) =~= text);
}

// ---------------------------------------------------------------- digits in a row

/// Are all fixed bytes of a template spaces?
spec fn gaps(t: Seq<Slot>) -> bool {
    forall|i: int| 0 <= i < t.len() ==> (#[trigger] t[i] matches Slot::Lit(b) ==> b == SPACE)
}

/// The digits of a template are read as the bytes that it shows.
proof fn lemma_pairs_template(
    line: Seq<u8>,
    pos: int,
    t: Seq<Slot>,
    shown: Seq<u8>,
    upper: bool,
    from: int,
    to: int,
)
    requires
        in_order(t, from, to),
        gaps(t),
        0 <= from <= to <= shown.len(),
        0 <= pos,
        pos + t.len() <= line.len(),
        forall|i: int|
            0 <= i < t.len() ==> #[trigger] line[pos + i] == slot_value(t[i], shown, upper),
    ensures
        pairs(line, pos) == shown.subrange(from, to) + pairs(line, pos + t.len()),
    decreases t.len(),
{
    if t.len() == 0 {
        assert(shown.subrange(from, to) =~= Seq::<u8>::empty());
        lemma_concat_empty(pairs(line, pos));
    } else {
        assert(line[pos + 0] == slot_value(t[0], shown, upper));
        match t[0] {
            Slot::Lit(_) => {
                let u = t.skip(1);
                assert forall|i: int| 0 <= i < u.len() implies #[trigger] line[pos + 1 + i]
                    == slot_value(u[i], shown, upper) by {
                    assert(line[pos + (i + 1)] == slot_value(t[i + 1], shown, upper));
                }
                lemma_pairs_template(line, pos + 1, u, shown, upper, from, to);
            },
            Slot::Hex(j, _) => {
                let u = t.skip(2);
                let b = shown[from];
                assert(line[pos + 1] == slot_value(t[1], shown, upper));
                lemma_in_order_range(u, from + 1, to);
                lemma_hex2_read(b, upper);
                assert forall|i: int| 0 <= i < u.len() implies #[trigger] line[pos + 2 + i]
                    == slot_value(u[i], shown, upper) by {
                    assert(line[pos + (i + 2)] == slot_value(t[i + 2], shown, upper));
                }
                lemma_pairs_template(line, pos + 2, u, shown, upper, from + 1, to);
                assert(shown.subrange(from, to) =~= seq![b] + shown.subrange(from + 1, to));
                lemma_concat_assoc(
                    seq![b],
                    shown.subrange(from + 1, to),
                    pairs(line, pos + t.len()),
                );
            },
        }
    }
}

proof fn lemma_in_order_range(t: Seq<Slot>, from: int, to: int)
    requires
        in_order(t, from, to),
    ensures
        from <= to,
    decreases t.len(),
{
    if t.len() > 0 {
        match t[0] {
            Slot::Lit(_) => {
                lemma_in_order_range(t.skip(1), from, to);
            },
            Slot::Hex(_, _) => {
                lemma_in_order_range(t.skip(2), from + 1, to);
            },
        }
    }
}

// ---------------------------------------------------------------- rows that can be read back

/// Can the rows under these settings be read back? They need an offset in front and hexadecimal
/// digits of the bytes in their order; borders and compact rows hide them, and groups of two bytes
/// and more must not be cut short.
pub open spec fn readable(opts: Options) -> bool {
    &&& opts.border == BorderStyle::Off
    &&& !opts.no_position
    &&& opts.mode == DisplayMode::Canonical && !opts.minimal || opts.mode == DisplayMode::OneByteHex
        || opts.mode == DisplayMode::TwoByteHex && opts.width as nat % wide_group(opts) == 0
    &&& opts.endian == Endian::Big || swap_group(opts) == 1
}

/// Does the kind of row suit the settings? Rows of sixteen have a fixed form.
pub open spec fn suits(kind: LayoutKind, opts: Options) -> bool {
    kind == LayoutKind::Scalar ==> opts.mode == DisplayMode::Canonical && opts.width == 16
        && opts.group == 1 && !opts.minimal && !opts.uppercase
}

/// Does a row of `n` bytes show whole groups?
pub open spec fn whole(opts: Options, n: nat) -> bool {
    opts.mode == DisplayMode::TwoByteHex ==> n % wide_group(opts) == 0
}

proof fn lemma_gaps_concat(a: Seq<Slot>, b: Seq<Slot>)
    requires
        gaps(a),
        gaps(b),
    ensures
        gaps(a + b),
{
    assert forall|i: int| 0 <= i < (a + b).len() implies (#[trigger] (a + b)[i] matches Slot::Lit(x)
        ==> x == SPACE) by {
        if i < a.len() {
            assert((a + b)[i] == a[i]);
        } else {
            assert((a + b)[i] == b[i - a.len()]);
        }
    }
}

proof fn lemma_gaps_spaces(n: nat)
    ensures
        gaps(lits(spaces(n))),
{
}

proof fn lemma_gaps_column(a: nat, b: Seq<Slot>, c: nat)
    requires
        gaps(b),
    ensures
        gaps(lits(spaces(a)) + b + lits(spaces(c))),
{
    lemma_gaps_spaces(a);
    lemma_gaps_spaces(c);
    lemma_gaps_concat(lits(spaces(a)), b);
    lemma_gaps_concat(lits(spaces(a)) + b, lits(spaces(c)));
}

proof fn lemma_gaps_run(from: int, len: nat)
    ensures
        gaps(run_slots(from, len)),
    decreases len,
{
    if len > 0 {
        lemma_gaps_run(from, (len - 1) as nat);
        lemma_gaps_concat(run_slots(from, (len - 1) as nat), pair_slots(from + len - 1));
    }
}

proof fn lemma_gaps_cells(opts: Options, n: nat, k: nat)
    requires
        opts.wf(),
        readable(opts),
        whole(opts, n),
    ensures
        gaps(cells_slots(opts, n, k)),
    decreases k,
{
    if k > 0 {
        let i = k - 1;
        lemma_gaps_cells(opts, n, i as nat);
        let b = if i < n {
            pair_slots(i)
        } else {
            lits(spaces(2))
        };
        lemma_gaps_spaces(2);
        match opts.mode {
            DisplayMode::Canonical => {
                lemma_gaps_column(
                    if gap_before(opts, i) {
                        1
                    } else {
                        0
                    },
                    b,
                    if space_after(opts, i) {
                        1
                    } else {
                        0
                    },
                );
            },
            DisplayMode::OneByteHex => {
                lemma_gaps_concat(lits(spaces(2)), b);
            },
            _ => {
                let g = wide_group(opts);
                lemma_gaps_spaces(1);
                if i * g < n {
                    let len = group_len(opts, n, i);
                    let zeros = fill((2 * (g - len)) as nat, 0x30);
                    lemma_whole_group(n as int, g as int, i);
                    assert(zeros =~= Seq::<u8>::empty());
                    lemma_gaps_run(i * g, len);
                    lemma_gaps_concat(lits(zeros), run_slots(i * g, len));
                    lemma_gaps_concat(lits(spaces(1)), lits(zeros) + run_slots(i * g, len));
                } else {
                    lemma_gaps_spaces((2 * g) as nat);
                    lemma_gaps_concat(lits(spaces(1)), lits(spaces((2 * g) as nat)));
                }
            },
        }
        lemma_gaps_concat(cells_slots(opts, n, i as nat), cell_slots(opts, n, i));
    }
}

/// A group that starts in a row of whole groups is complete.
proof fn lemma_whole_group(n: int, g: int, i: int)
    requires
        g > 0,
        n >= 0,
        n % g == 0,
        i >= 0,
        i * g < n,
    ensures
        i * g + g <= n,
{
    let q = n / g;
    assert(n == q * g) by (nonlinear_arith)
        requires
            n % g == 0,
            q == n / g,
            g > 0,
    ;
    assert(i + 1 <= q) by (nonlinear_arith)
        requires
            i * g < q * g,
            g > 0,
    ;
    assert((i + 1) * g <= q * g && (i + 1) * g == i * g + g) by (nonlinear_arith)
        requires
            i + 1 <= q,
            g > 0,
    ;
}

proof fn lemma_gaps_line(opts: Options, n: nat, k: nat)
    ensures
        gaps(line_slots(opts, n, false, k)),
    decreases k,
{
    if k > 0 {
        let i = k - 1;
        lemma_gaps_line(opts, n, i as nat);
        let none = tint(false, escape(32));
        let b = if i < n {
            lits(none) + pair_slots(i) + lits(tint(false, reset()))
        } else {
            lits(spaces(2))
        };
        lemma_gaps_spaces(2);
        if i < n {
            lemma_gaps_concat(lits(none), pair_slots(i));
            lemma_gaps_concat(lits(none) + pair_slots(i), lits(tint(false, reset())));
        }
        lemma_gaps_column(
            if i == opts.width / 2 {
                1
            } else {
                0
            },
            b,
            if space_after(opts, i) {
                1
            } else {
                0
            },
        );
        lemma_gaps_concat(line_slots(opts, n, false, i as nat), line_cell_slots(opts, n, false, i));
    }
}

proof fn lemma_gaps_scalar(n: nat, no_ascii: bool, k: nat)
    ensures
        gaps(scalar_slots(n, no_ascii, k)),
    decreases k,
{
    if k > 0 {
        let i = k - 1;
        lemma_gaps_scalar(n, no_ascii, i as nat);
        lemma_gaps_spaces(2);
        lemma_gaps_column(
            if i == 8 {
                1
            } else {
                0
            },
            if i < n {
                pair_slots(i)
            } else {
                lits(spaces(2))
            },
            if i < 15 || !no_ascii {
                1
            } else {
                0
            },
        );
        lemma_gaps_concat(scalar_slots(n, no_ascii, i as nat), scalar_cell_slots(n, no_ascii, i));
    }
}

/// Between the digits of a readable row there is nothing but space, and all bytes are shown.
proof fn lemma_readable_main(kind: LayoutKind, opts: Options, n: nat)
    requires
        opts.wf(),
        readable(opts),
        suits(kind, opts),
        whole(opts, n),
        n <= opts.width,
    ensures
        shaped(kind, opts, n, false),
        gaps(main_slots(kind, opts, n, false)),
        in_order(main_slots(kind, opts, n, false), 0, n as int),
{
    reveal(main_slots);
    if kind == LayoutKind::Scalar {
        lemma_gaps_scalar(n, opts.no_ascii, 16);
    } else if is_generic(kind, opts) {
        let cs = cells_slots(opts, n, cell_count(opts));
        let none = lits(Seq::<u8>::empty());
        lemma_gaps_cells(opts, n, cell_count(opts));
        lemma_gaps_concat(none, cs);
        lemma_gaps_concat(none + cs, none);
    } else {
        let none = lits(Seq::<u8>::empty());
        lemma_gaps_line(opts, n, opts.width as nat);
        lemma_gaps_concat(none, line_slots(opts, n, false, opts.width as nat));
    }
    lemma_template_in_order(kind, opts, n, false);
    lemma_shown_all(kind, opts, n);
}

proof fn lemma_shown_all(kind: LayoutKind, opts: Options, n: nat)
    requires
        opts.wf(),
        readable(opts),
        n <= opts.width,
    ensures
        shown_count(kind, opts, n) == n,
{
    let w = opts.width as int;
    if opts.mode == DisplayMode::TwoByteHex {
        let g = wide_group(opts) as int;
        assert(w % 2 == 0) by (nonlinear_arith)
            requires
                w % g == 0,
                g == 2 || g == 4 || g == 8,
        ;
        assert(w / 2 * g >= w) by (nonlinear_arith)
            requires
                w % 2 == 0,
                g >= 2,
                w >= 0,
        ;
    }
}

/// The panel of a row holds no line feed.
proof fn lemma_panel_one_line(table: CharTable, src: Seq<u8>)
    ensures
        one_line(panel_text(table, src)),
    decreases src.len(),
{
    if src.len() > 0 {
        let front = panel_text(table, src.drop_last());
        let cell = char_text(table, src.last());
        lemma_panel_one_line(table, src.drop_last());
        assert forall|k: int| 0 <= k < cell.len() implies #[trigger] cell[k] != NEWLINE by {
            lemma_char_text_visible(table, src.last(), k);
        }
        lemma_one_line_concat(front, cell);
    }
}

proof fn lemma_one_line_concat(a: Seq<u8>, b: Seq<u8>)
    requires
        one_line(a),
        one_line(b),
    ensures
        one_line(a + b),
{
    assert forall|i: int| 0 <= i < (a + b).len() implies #[trigger] (a + b)[i] != NEWLINE by {
        if i < a.len() {
            assert((a + b)[i] == a[i]);
        } else {
            assert((a + b)[i] == b[i - a.len()]);
        }
    }
}

/// Without colors the panel of an aligned row is that of its table.
proof fn lemma_line_panel_plain(opts: Options, src: Seq<u8>)
    ensures
        line_panel(opts, src, false) == panel_text(opts.table, src),
    decreases src.len(),
{
    if src.len() > 0 {
        let front = panel_text(opts.table, src.drop_last());
        lemma_line_panel_plain(opts, src.drop_last());
        lemma_concat_empty(front);
        lemma_concat_empty(front + char_text(opts.table, src.last()));
    }
}

/// The offset column of a readable row.
proof fn lemma_readable_prefix(kind: LayoutKind, opts: Options, off: u64)
    requires
        readable(opts),
        suits(kind, opts),
    ensures
        prefix_text(kind, opts, off, false) == offset_text(off, opts.offset_dec, opts.uppercase)
            + seq![COLON, SPACE],
{
    reveal(prefix_text);
    let text = offset_text(off, opts.offset_dec, opts.uppercase);
    let none = Seq::<u8>::empty();
    assert(position_column(opts, off, false) =~= text + seq![COLON, SPACE]);
    assert(prefix_text(kind, opts, off, false) == text + seq![COLON, SPACE]);
}

/// The shape of a readable row: an offset, a colon and a space; digits; and nothing, or a bar after
/// spaces.
proof fn lemma_row_line(kind: LayoutKind, opts: Options, src: Seq<u8>, off: u64) -> (r: (
    Seq<u8>,
    Seq<u8>,
))
    requires
        opts.wf(),
        readable(opts),
        suits(kind, opts),
        whole(opts, src.len()),
        src.len() <= opts.width,
    ensures
        ({
            let (text, rest) = r;
            let main = values(main_slots(kind, opts, src.len(), false), src, opts.uppercase);
            &&& row(kind, opts, src, off, false) == text + seq![COLON, SPACE] + main + rest + seq![
                NEWLINE,
            ]
            &&& one_line(rest)
            &&& rest.len() == 0 || rest[0] == BAR || rest.len() >= 2 && rest[0] == SPACE && rest[1]
                == BAR
            &&& text.len() > 0
            &&& forall|i: int| 0 <= i < text.len() ==> is_hex(#[trigger] text[i])
            &&& !opts.offset_dec ==> offset_value(text) == Some(off)
        }),
{
    let n = src.len();
    lemma_readable_main(kind, opts, n);
    lemma_row_parts(kind, opts, src, off, false);
    lemma_readable_prefix(kind, opts, off);
    let prefix = prefix_text(kind, opts, off, false);
    let text = offset_text(off, opts.offset_dec, opts.uppercase);
    lemma_offset_read(off, opts.offset_dec, opts.uppercase);
    assert(shown_bytes(opts, src) == src);
    let main = values(main_slots(kind, opts, n, false), src, opts.uppercase);
    let open = open_text(kind, opts, false);
    let panel = panel_bytes(kind, opts, src, false);
    let close = close_text(kind, opts, n, false);
    let last = close.drop_last();
    lemma_readable_panel(kind, opts, n);
    lemma_panel_one_line(opts.table, src);
    lemma_panel_one_line(CharTable::Ascii, src);
    lemma_line_panel_plain(opts, src);
    let rest = open + panel + last;
    lemma_one_line_concat(open, panel);
    lemma_one_line_concat(open + panel, last);
    assert(one_line(rest));
    if panel_kind(kind, opts, false) == PanelCell::Absent {
        assert(rest.len() == 0);
    } else {
        assert(rest[0] == open[0]);
        assert(open.len() >= 2 ==> rest[1] == open[1]);
    }
    lemma_join_parts(text, main, open, panel, last);
    (text, rest)
}

/// What stands around the panel of a readable row.
proof fn lemma_readable_panel(kind: LayoutKind, opts: Options, n: nat)
    requires
        readable(opts),
        suits(kind, opts),
    ensures
        ({
            let open = open_text(kind, opts, false);
            let close = close_text(kind, opts, n, false);
            let absent = panel_kind(kind, opts, false) == PanelCell::Absent;
            &&& close.len() > 0
            &&& close == close.drop_last() + seq![NEWLINE]
            &&& one_line(close.drop_last())
            &&& one_line(open)
            &&& absent ==> open.len() == 0 && close.len() == 1
            &&& !absent ==> open.len() > 0 && (open[0] == BAR || open.len() >= 2 && open[0] == SPACE
                && open[1] == BAR)
        }),
{
    reveal(open_text);
    reveal(close_text);
    let close = close_text(kind, opts, n, false);
    assert(close =~= close.drop_last() + seq![NEWLINE]);
}

proof fn lemma_join_parts(
    text: Seq<u8>,
    main: Seq<u8>,
    open: Seq<u8>,
    panel: Seq<u8>,
    last: Seq<u8>,
)
    ensures
        text + seq![COLON, SPACE] + (main + open + panel + (last + seq![NEWLINE])) == text + seq![
            COLON,
            SPACE,
        ] + main + (open + panel + last) + seq![NEWLINE],
{
    let head = text + seq![COLON, SPACE];
    lemma_concat4(head, main, open, panel, last + seq![NEWLINE]);
    lemma_concat3(head + main, open, panel, last);
    lemma_concat_assoc(head + main + open + panel, last, seq![NEWLINE]);
}

/// The digits of a template are no line feeds.
proof fn lemma_values_one_line(t: Seq<Slot>, shown: Seq<u8>, upper: bool, from: int, to: int)
    requires
        gaps(t),
        in_order(t, from, to),
    ensures
        one_line(values(t, shown, upper)),
    decreases t.len(),
{
    let v = values(t, shown, upper);
    if t.len() > 0 {
        match t[0] {
            Slot::Lit(_) => {
                lemma_values_one_line(t.skip(1), shown, upper, from, to);
                assert forall|i: int| 0 <= i < v.len() implies #[trigger] v[i] != NEWLINE by {
                    if i > 0 {
                        assert(v[i] == values(t.skip(1), shown, upper)[i - 1]);
                    }
                }
            },
            Slot::Hex(j, _) => {
                lemma_values_one_line(t.skip(2), shown, upper, from + 1, to);
                lemma_hex2_read(shown[j], upper);
                assert forall|i: int| 0 <= i < v.len() implies #[trigger] v[i] != NEWLINE by {
                    if i > 1 {
                        assert(v[i] == values(t.skip(2), shown, upper)[i - 2]);
                    }
                }
            },
        }
    }
}

/// What reading a row writes: the rows left out before it, and its bytes.
spec fn row_reads(opts: Options, st: ReverseView, src: Seq<u8>, off: u64, r: LineResult) -> bool {
    let filled = st.squeezing && st.last.len() > 0;
    &&& r.bytes == if filled {
        repeated(st.last, (off - st.offset) as nat / st.last.len()) + src
    } else {
        src
    }
    &&& r.state.last == src
    &&& r.state.squeezing == (st.squeezing && !filled)
    &&& !opts.offset_dec ==> r.state.offset == offset_at(off, src.len() as int)
}

/// A readable row is read as the bytes that it shows.
proof fn lemma_row_read(
    kind: LayoutKind,
    opts: Options,
    src: Seq<u8>,
    off: u64,
    st: ReverseView,
    rest: Seq<u8>,
    jump: u64,
) -> (r: LineResult)
    requires
        opts.wf(),
        readable(opts),
        suits(kind, opts),
        whole(opts, src.len()),
        0 < src.len() <= opts.width,
        st.squeezing && st.last.len() > 0 ==> !opts.offset_dec && st.offset <= off,
        jump > 0 ==> !opts.offset_dec,
    ensures
        if off < jump {
            r == (LineResult { state: st, bytes: seq![] })
        } else {
            row_reads(opts, st, src, off, r)
        },
        lines_bytes(true, jump, st, row(kind, opts, src, off, false) + rest, 0) == prefixed(
            r.bytes,
            lines_bytes(true, jump, r.state, rest, 0),
        ),
        has_colon(row(kind, opts, src, off, false)),
{
    let n = src.len();
    let upper = opts.uppercase;
    let t = main_slots(kind, opts, n, false);
    let main = values(t, src, upper);
    let (text, end) = lemma_row_line(kind, opts, src, off);
    lemma_readable_main(kind, opts, n);
    let sep = seq![COLON, SPACE];
    let line = text + sep + main + end;
    let whole_row = row(kind, opts, src, off, false);
    assert(whole_row == line + seq![NEWLINE]);
    assert(whole_row[text.len() as int] == COLON);
    // the line is one line
    lemma_values_one_line(t, src, upper, 0, n as int);
    assert(one_line(text));
    lemma_one_line_concat(text, sep);
    lemma_one_line_concat(text + sep, main);
    lemma_one_line_concat(text + sep + main, end);
    lemma_first_line(true, jump, st, line, rest);
    lemma_line_read(opts, text, t, end, src, off, st, jump)
}

/// The case of one line, in parts.
proof fn lemma_line_read(
    opts: Options,
    text: Seq<u8>,
    t: Seq<Slot>,
    end: Seq<u8>,
    src: Seq<u8>,
    off: u64,
    st: ReverseView,
    jump: u64,
) -> (r: LineResult)
    requires
        text.len() > 0,
        forall|i: int| 0 <= i < text.len() ==> is_hex(#[trigger] text[i]),
        gaps(t),
        in_order(t, 0, src.len() as int),
        src.len() > 0,
        end.len() == 0 || end[0] == BAR || end.len() >= 2 && end[0] == SPACE && end[1] == BAR,
        !opts.offset_dec ==> offset_value(text) == Some(off),
        st.squeezing && st.last.len() > 0 ==> !opts.offset_dec && st.offset <= off,
        jump > 0 ==> !opts.offset_dec,
    ensures
        line_result(
            true,
            jump,
            st,
            text + seq![COLON, SPACE] + values(t, src, opts.uppercase) + end,
        ) == Some(r),
        if off < jump {
            r == (LineResult { state: st, bytes: seq![] })
        } else {
            row_reads(opts, st, src, off, r)
        },
{
    let upper = opts.uppercase;
    let sep = seq![COLON, SPACE];
    let main = values(t, src, upper);
    let line = text + sep + main + end;
    let k = text.len() as int;
    let after = sep + main + end;
    lemma_concat3(text, sep, main, end);
    assert(line == text + after);
    assert(after[0] == COLON);
    lemma_offset_line_start(text, after);
    assert(line[k] == COLON && line[k + 1] == SPACE);
    assert(separated(line, k));
    assert(line.len() >= 2);
    assert(line != seq![STAR]);
    assert(bare_offset(text) == text) by {
        if text.len() >= 2 {
            assert(is_hex(text[1]));
        }
    }
    // the digits
    assert forall|i: int| 0 <= i < t.len() implies #[trigger] line[k + 2 + i] == slot_value(
        t[i],
        src,
        upper,
    ) by {
        assert(line[k + 2 + i] == main[i]);
    }
    lemma_pairs_template(line, k + 2, t, src, upper, 0, src.len() as int);
    let e = k + 2 + t.len();
    assert(pairs(line, e) =~= Seq::<u8>::empty()) by {
        if end.len() > 0 {
            assert(line[e] == end[0]);
            if end[0] != BAR {
                assert(line[e + 1] == end[1]);
            }
        }
        reveal_with_fuel(pairs, 3);
    }
    assert(src.subrange(0, src.len() as int) =~= src);
    lemma_concat_empty(src);
    assert(pairs(line, k + 1) == pairs(line, k + 2));
    assert(pairs(line, k + 1) == src);
    lemma_concat_empty(src);
    line_result(true, jump, st, line).unwrap()
}

// ---------------------------------------------------------------- whole dumps

/// How far reading lags behind writing: `c` rows were left out since the last row, which is that
/// which was read last, and the offsets differ by those rows.
spec fn follows(opts: Options, p: ProgressView, st: ReverseView, c: nat, len: nat) -> bool {
    if opts.squeeze {
        &&& !opts.offset_dec
        &&& p.squeezed == (c > 0)
        &&& st.squeezing == (c > 0)
        &&& st.last == p.prev
        &&& c > 0 ==> st.last.len() == opts.width
        &&& st.last.len() > 0 ==> p.offset - st.offset == c * opts.width
        &&& p.offset + len <= u64::MAX
    } else {
        &&& c == 0
        &&& !st.squeezing
    }
}

/// What stands after the full rows: a short row and the offset after the last byte.
spec fn ending(opts: Options, style: Style, tail: Seq<u8>, off: u64) -> Seq<u8> {
    (if tail.len() > 0 {
        row(style.tail, opts, tail, off, false)
    } else {
        seq![]
    }) + offset_line(opts, false, offset_at(off, tail.len() as int))
}

/// The rows left out are as many as fit between the offsets.
proof fn lemma_lag(x: int, c: int, w: int)
    requires
        0 <= x - c * w < w,
    ensures
        x / w == c,
{
    vstd::arithmetic::div_mod::lemma_fundamental_div_mod_converse(x, w, c, x - c * w);
}

/// The last line of a dump.
proof fn lemma_last_line(opts: Options, off: u64, st: ReverseView, jump: u64)
    requires
        st.squeezing ==> !opts.offset_dec && st.offset <= off,
    ensures
        lines_bytes(true, jump, st, offset_line(opts, false, off), 0) == Some(
            if st.squeezing && st.last.len() > 0 {
                repeated(st.last, (off - st.offset) as nat / st.last.len())
            } else {
                seq![]
            },
        ),
{
    let text = offset_text(off, opts.offset_dec, opts.uppercase);
    let none = Seq::<u8>::empty();
    lemma_offset_read(off, opts.offset_dec, opts.uppercase);
    assert(offset_line(opts, false, off) =~= text + seq![NEWLINE] + none);
    assert(one_line(text));
    lemma_first_line(true, jump, st, text, none);
    lemma_concat_empty(text);
    lemma_offset_line_start(text, none);
    assert(text.len() >= 8);
    assert(!separated(text, text.len() as int));
    let r = refill(
        st,
        match offset_value(text) {
            Some(v) => v,
            None => st.offset,
        },
    );
    assert(line_result(true, jump, st, text) == r);
    lemma_concat_empty(r.unwrap().bytes);
}

/// What stands after the full rows is read as the rows left out and the bytes of the short row.
proof fn lemma_ending_read(
    opts: Options,
    style: Style,
    p: ProgressView,
    st: ReverseView,
    tail: Seq<u8>,
    c: nat,
)
    requires
        opts.wf(),
        readable(opts),
        suits(style.tail, opts),
        whole(opts, tail.len()),
        tail.len() < opts.width,
        follows(opts, p, st, c, tail.len()),
    ensures
        lines_bytes(true, 0, st, ending(opts, style, tail, p.offset), 0) == Some(
            repeated(st.last, c) + tail,
        ),
{
    let off = p.offset;
    let w = opts.width as int;
    let end = offset_line(opts, false, offset_at(off, tail.len() as int));
    if opts.squeeze {
        assert(0 <= c * w) by (nonlinear_arith)
            requires
                w >= 0,
        ;
        if st.last.len() > 0 {
            lemma_lag(off - st.offset, c as int, w);
        }
    }
    if tail.len() > 0 {
        let r = lemma_row_read(style.tail, opts, tail, off, st, end, 0);
        lemma_last_line(opts, offset_at(off, tail.len() as int), r.state, 0);
        lemma_concat_empty(r.bytes);
        lemma_concat_empty(tail);
    } else {
        lemma_concat_empty(end);
        assert(tail =~= Seq::<u8>::empty());
        assert(offset_at(off, 0) == off);
        lemma_last_line(opts, off, st, 0);
        lemma_concat_empty(repeated(st.last, c));
    }
}

/// The full rows of a dump and what stands after them are read as the rows left out and the bytes.
proof fn lemma_walk_read(
    opts: Options,
    style: Style,
    p: ProgressView,
    st: ReverseView,
    data: Seq<u8>,
    c: nat,
)
    requires
        opts.wf(),
        readable(opts),
        suits(style.full, opts),
        suits(style.tail, opts),
        !style.color,
        whole(opts, data.len()),
        opts.max_lines is None,
        follows(opts, p, st, c, data.len()),
    ensures
        ({
            let rows = data.len() / opts.width as nat;
            lines_bytes(
                true,
                0,
                st,
                walk_text(opts, style, p, data, rows) + ending(
                    opts,
                    style,
                    tail_bytes(data, opts.width as int),
                    walk_state(opts, p, data, rows).offset,
                ),
                0,
            )
        }) == Some(repeated(st.last, c) + data),
    decreases data.len(),
{
    let w = opts.width as int;
    let rows = data.len() / opts.width as nat;
    let tail = tail_bytes(data, w);
    lemma_tail(data.len() as int, w);
    if rows == 0 {
        assert(tail =~= data);
        lemma_ending_read(opts, style, p, st, tail, c);
        lemma_concat_empty(ending(opts, style, tail, p.offset));
    } else {
        let src = row_bytes(data, w, 0);
        let rest = data.skip(w);
        assert(rows * w >= w) by (nonlinear_arith)
            requires
                rows >= 1,
                w >= 0,
        ;
        let more = (rows - 1) as nat;
        let q = step_state(opts, p, src);
        lemma_row_first(data, w);
        lemma_whole_rest(opts, data.len());
        lemma_walk_split(opts, style, p, data, 1, more);
        reveal_with_fuel(walk_state, 2);
        reveal_with_fuel(walk_text, 2);
        let first = step_text(opts, style, p, src);
        let end = ending(opts, style, tail, walk_state(opts, p, data, rows).offset);
        let others = walk_text(opts, style, q, rest, more);
        lemma_concat_empty(first);
        assert(1 * w == w);
        assert(walk_text(opts, style, p, data, rows) == first + others);
        lemma_concat_assoc(first, others, end);
        if repeats(opts, p, src) {
            let st2 = ReverseView { offset: st.offset, last: st.last, squeezing: true };
            lemma_repeat_follows(opts, style, p, st, src, rest.len(), c, others + end);
            lemma_walk_read(opts, style, q, st2, rest, c + 1);
            lemma_concat_assoc(repeated(st.last, c), src, rest);
        } else {
            let r = lemma_row_follows(opts, style, p, st, src, rest.len(), c, others + end);
            lemma_walk_read(opts, style, q, r.state, rest, 0);
            lemma_concat_empty(rest);
            lemma_concat_assoc(repeated(st.last, c), src, rest);
        }
    }
}

/// The first row and the others.
proof fn lemma_row_first(data: Seq<u8>, w: int)
    requires
        w > 0,
        data.len() >= w,
    ensures
        row_bytes(data, w, 0) + data.skip(w) == data,
        data.skip(w).len() as int / w == data.len() as int / w - 1,
        tail_bytes(data.skip(w), w) == tail_bytes(data, w),
        row_bytes(data, w, 0).len() == w,
{
    let rest = data.skip(w);
    let n = data.len() as int;
    assert((n - w) / w == n / w - 1 && (n / w - 1) * w == n / w * w - w) by (nonlinear_arith)
        requires
            w > 0,
            n >= w,
    ;
    lemma_tail(n, w);
    lemma_tail(n - w, w);
    assert(tail_bytes(rest, w) =~= tail_bytes(data, w));
    assert(row_bytes(data, w, 0) + rest =~= data);
}

/// After a full row there are still whole groups.
proof fn lemma_whole_rest(opts: Options, n: nat)
    requires
        opts.wf(),
        readable(opts),
        whole(opts, n),
        n >= opts.width,
    ensures
        whole(opts, (n - opts.width) as nat),
        whole(opts, opts.width as nat),
{
    if opts.mode == DisplayMode::TwoByteHex {
        let g = wide_group(opts);
        let m = (n - opts.width) as nat;
        if g == 2 {
            assert(m % 2 == 0);
        } else if g == 4 {
            assert(m % 4 == 0);
        } else {
            assert(g == 8);
            assert(n % 8 == 0 && opts.width as nat % 8 == 0);
            assert(m % 8 == 0);
        }
    }
}

/// A row that is left out adds nothing but its mark.
proof fn lemma_repeat_follows(
    opts: Options,
    style: Style,
    p: ProgressView,
    st: ReverseView,
    src: Seq<u8>,
    len: nat,
    c: nat,
    more: Seq<u8>,
)
    requires
        src.len() == opts.width,
        opts.max_lines is None,
        follows(opts, p, st, c, src.len() + len),
        repeats(opts, p, src),
    ensures
        ({
            let st2 = ReverseView { offset: st.offset, last: st.last, squeezing: true };
            &&& lines_bytes(true, 0, st, step_text(opts, style, p, src) + more, 0) == lines_bytes(
                true,
                0,
                st2,
                more,
                0,
            )
            &&& follows(opts, step_state(opts, p, src), st2, c + 1, len)
            &&& repeated(st.last, c + 1) == repeated(st.last, c) + src
        }),
{
    let w = opts.width as int;
    assert(0 <= c * w && (c + 1) * w == c * w + w) by (nonlinear_arith)
        requires
            w >= 0,
    ;
    let st2 = ReverseView { offset: st.offset, last: st.last, squeezing: true };
    if p.squeezed {
        lemma_concat_empty(more);
        assert(st2 == st);
    } else {
        let line = seq![STAR];
        assert(star_line() + more =~= line + seq![NEWLINE] + more);
        assert(one_line(line));
        lemma_first_line(true, 0, st, line, more);
        assert(line_result(true, 0, st, line) == Some(
            LineResult { state: st2, bytes: Seq::<u8>::empty() },
        ));
        if let Some(t) = lines_bytes(true, 0, st2, more, 0) {
            lemma_concat_empty(t);
        }
    }
}

/// A row that is written adds the rows left out before it, and its bytes.
proof fn lemma_row_follows(
    opts: Options,
    style: Style,
    p: ProgressView,
    st: ReverseView,
    src: Seq<u8>,
    len: nat,
    c: nat,
    more: Seq<u8>,
) -> (r: LineResult)
    requires
        opts.wf(),
        readable(opts),
        suits(style.full, opts),
        !style.color,
        whole(opts, src.len()),
        src.len() == opts.width,
        opts.max_lines is None,
        follows(opts, p, st, c, src.len() + len),
        !repeats(opts, p, src),
    ensures
        lines_bytes(true, 0, st, step_text(opts, style, p, src) + more, 0) == prefixed(
            r.bytes,
            lines_bytes(true, 0, r.state, more, 0),
        ),
        follows(opts, step_state(opts, p, src), r.state, 0, len),
        r.bytes == repeated(st.last, c) + src,
{
    let w = opts.width as int;
    let off = p.offset;
    if opts.squeeze {
        assert(0 <= c * w) by (nonlinear_arith)
            requires
                w >= 0,
        ;
        if st.last.len() > 0 {
            lemma_lag(off - st.offset, c as int, w);
        }
    }
    assert(0 * w == 0);
    lemma_concat_empty(src);
    assert(step_text(opts, style, p, src) == row(style.full, opts, src, off, false));
    lemma_row_read(style.full, opts, src, off, st, more, 0)
}

/// The settings under which a whole dump of `data` can be read back: the rows can, and where
/// identical rows are left out, the offsets tell how many. Offsets are then hexadecimal and must not
/// wrap around.
pub open spec fn recoverable(opts: Options, style: Style, start: u64, data: Seq<u8>) -> bool {
    &&& opts.wf()
    &&& readable(opts)
    &&& suits(style.full, opts)
    &&& suits(style.tail, opts)
    &&& !style.color
    &&& whole(opts, data.len())
    &&& opts.max_lines is None
    &&& 0 < data.len()
    &&& opts.squeeze ==> !opts.offset_dec && start + data.len() <= u64::MAX
}

/// A text has a colon where a part of it has.
proof fn lemma_colon_concat(a: Seq<u8>, b: Seq<u8>)
    requires
        has_colon(a) || has_colon(b),
    ensures
        has_colon(a + b),
{
    if has_colon(a) {
        let i = choose|i: int| 0 <= i < a.len() && a[i] == COLON;
        assert((a + b)[i] == COLON);
    } else {
        let i = choose|i: int| 0 <= i < b.len() && b[i] == COLON;
        assert((a + b)[a.len() + i] == COLON);
    }
}

/// The rows of a dump have colons.
proof fn lemma_dump_colon(opts: Options, style: Style, start: u64, data: Seq<u8>)
    requires
        recoverable(opts, style, start, data),
    ensures
        ({
            let rows = data.len() / opts.width as nat;
            has_colon(
                walk_text(opts, style, started(start), data, rows) + ending(
                    opts,
                    style,
                    tail_bytes(data, opts.width as int),
                    walk_state(opts, started(start), data, rows).offset,
                ),
            )
        }),
{
    let w = opts.width as int;
    let rows = data.len() / opts.width as nat;
    let p = started(start);
    let tail = tail_bytes(data, w);
    let off = walk_state(opts, p, data, rows).offset;
    let all = walk_text(opts, style, p, data, rows);
    let end = ending(opts, style, tail, off);
    lemma_tail(data.len() as int, w);
    if rows == 0 {
        assert(data.len() as int / w == 0);
        assert(0 * w == 0);
        assert(tail =~= data);
        let _ = lemma_row_read(style.tail, opts, tail, off, unread(), Seq::<u8>::empty(), 0);
        lemma_colon_concat(
            row(style.tail, opts, tail, off, false),
            offset_line(opts, false, offset_at(off, tail.len() as int)),
        );
    } else {
        let src = row_bytes(data, w, 0);
        let more = (rows - 1) as nat;
        assert(rows * w >= w) by (nonlinear_arith)
            requires
                rows >= 1,
                w >= 0,
        ;
        lemma_row_first(data, w);
        lemma_whole_rest(opts, data.len());
        lemma_walk_split(opts, style, p, data, 1, more);
        reveal_with_fuel(walk_state, 2);
        reveal_with_fuel(walk_text, 2);
        let _ = lemma_row_read(style.full, opts, src, start, unread(), Seq::<u8>::empty(), 0);
        let first = step_text(opts, style, p, src);
        lemma_concat_empty(first);
        assert(!repeats(opts, p, src));
        assert(first == row(style.full, opts, src, start, false));
        assert(walk_text(opts, style, p, data, 1) == first);
        lemma_colon_concat(
            first,
            walk_text(
                opts,
                style,
                walk_state(opts, p, data, 1),
                data.skip(1 * w),
                more,
            ),
        );
        assert(has_colon(all));
    }
    lemma_colon_concat(all, end);
}

/// The rows and what stands after them are read as the bytes.
proof fn lemma_rows_reversed(opts: Options, style: Style, start: u64, data: Seq<u8>)
    requires
        recoverable(opts, style, start, data),
    ensures
        ({
            let rows = data.len() / opts.width as nat;
            reversed(
                walk_text(opts, style, started(start), data, rows) + ending(
                    opts,
                    style,
                    tail_bytes(data, opts.width as int),
                    walk_state(opts, started(start), data, rows).offset,
                ),
                0,
            )
        }) == Some(data),
{
    lemma_dump_colon(opts, style, start, data);
    assert(0 * opts.width == 0);
    lemma_walk_read(opts, style, started(start), unread(), data, 0);
    lemma_concat_empty(data);
}

/// The offset after the full rows.
proof fn lemma_walk_offset(opts: Options, p: ProgressView, data: Seq<u8>, k: nat)
    requires
        opts.max_lines is None,
    ensures
        walk_state(opts, p, data, k).offset == offset_at(p.offset, k * opts.width),
    decreases k,
{
    if k == 0 {
        assert(k * opts.width == 0) by (nonlinear_arith)
            requires
                k == 0,
        ;
    } else {
        let j = (k - 1) as nat;
        lemma_walk_offset(opts, p, data, j);
        lemma_offset_add(p.offset, j * opts.width, opts.width as int);
        assert(k * opts.width == j * opts.width + opts.width) by (nonlinear_arith)
            requires
                k == j + 1,
        ;
    }
}

/// Without a border nothing stands above the rows.
proof fn lemma_no_head(opts: Options)
    requires
        opts.border == BorderStyle::Off,
    ensures
        head_text(opts) == Seq::<u8>::empty(),
{
    assert(head_text(opts) =~= Seq::<u8>::empty());
}

/// A dump read back gives the bytes that it was made of, also where identical rows were left out.
pub proof fn lemma_reverse_serial(opts: Options, style: Style, start: u64, data: Seq<u8>)
    requires
        recoverable(opts, style, start, data),
    ensures
        reversed(serial_text(opts, style, start, data), 0) == Some(data),
{
    let w = opts.width as int;
    let rows = data.len() / opts.width as nat;
    let tail = tail_bytes(data, w);
    let off = offset_at(start, rows * w);
    let all = walk_text(opts, style, started(start), data, rows);
    let last = tail_text(opts, style, data, off);
    let end = offset_line(opts, false, offset_at(start, data.len() as int));
    lemma_tail(data.len() as int, w);
    lemma_walk_offset(opts, started(start), data, rows);
    lemma_offset_add(start, rows * w, tail.len() as int);
    lemma_rows_reversed(opts, style, start, data);
    lemma_no_head(opts);
    lemma_concat_empty(all);
    lemma_concat_assoc(all, last, end);
    assert(serial_text(opts, style, start, data) == all + last + end);
    assert(ending(opts, style, tail, off) == last + end);
}

/// The rows of a dump are the first one and those of the other bytes, where none is left out.
proof fn lemma_first_row(opts: Options, style: Style, p: ProgressView, data: Seq<u8>)
    requires
        opts.wf(),
        readable(opts),
        !style.color,
        whole(opts, data.len()),
        opts.max_lines is None,
        !opts.squeeze,
        data.len() >= opts.width,
    ensures
        ({
            let w = opts.width as int;
            let rows = data.len() / opts.width as nat;
            let src = row_bytes(data, w, 0);
            let rest = data.skip(w);
            let q = step_state(opts, p, src);
            let end = ending(
                opts,
                style,
                tail_bytes(data, w),
                walk_state(opts, p, data, rows).offset,
            );
            &&& rows > 0
            &&& src.len() == w
            &&& src + rest == data
            &&& rest.len() / opts.width as nat == rows - 1
            &&& tail_bytes(rest, w) == tail_bytes(data, w)
            &&& whole(opts, rest.len())
            &&& whole(opts, src.len())
            &&& q.offset == offset_at(p.offset, w)
            &&& walk_state(opts, q, rest, (rows - 1) as nat) == walk_state(opts, p, data, rows)
            &&& walk_text(opts, style, p, data, rows) + end == row(
                style.full,
                opts,
                src,
                p.offset,
                false,
            ) + (walk_text(opts, style, q, rest, (rows - 1) as nat) + end)
        }),
{
    let w = opts.width as int;
    let rows = data.len() / opts.width as nat;
    let tail = tail_bytes(data, w);
    let src = row_bytes(data, w, 0);
    let rest = data.skip(w);
    lemma_tail(data.len() as int, w);
    assert(rows > 0 && rows * w >= w) by (nonlinear_arith)
        requires
            rows == data.len() as int / w,
            data.len() >= w,
            w > 0,
    ;
    let more = (rows - 1) as nat;
    let q = step_state(opts, p, src);
    lemma_row_first(data, w);
    lemma_whole_rest(opts, data.len());
    lemma_walk_split(opts, style, p, data, 1, more);
    reveal_with_fuel(walk_state, 2);
    reveal_with_fuel(walk_text, 2);
    let first = step_text(opts, style, p, src);
    let end = ending(opts, style, tail, walk_state(opts, p, data, rows).offset);
    let others = walk_text(opts, style, q, rest, more);
    lemma_concat_empty(first);
    assert(1 * w == w);
    assert(walk_text(opts, style, p, data, rows) == first + others);
    lemma_concat_assoc(first, others, end);
}

/// What the rows of a dump and what stands after them are read as, from the offset `jump` on.
#[verifier::opaque]
spec fn read_from(
    opts: Options,
    style: Style,
    p: ProgressView,
    st: ReverseView,
    data: Seq<u8>,
    jump: u64,
) -> Option<Seq<u8>> {
    let rows = data.len() / opts.width as nat;
    lines_bytes(
        true,
        jump,
        st,
        walk_text(opts, style, p, data, rows) + ending(
            opts,
            style,
            tail_bytes(data, opts.width as int),
            walk_state(opts, p, data, rows).offset,
        ),
        0,
    )
}

/// The settings of a dump that is read from an offset on.
spec fn plainly_read(opts: Options, style: Style, p: ProgressView, data: Seq<u8>) -> bool {
    &&& opts.wf()
    &&& readable(opts)
    &&& suits(style.full, opts)
    &&& suits(style.tail, opts)
    &&& !style.color
    &&& whole(opts, data.len())
    &&& opts.max_lines is None
    &&& !opts.squeeze
    &&& !opts.offset_dec
    &&& p.offset + data.len() <= u64::MAX
}

/// Fewer bytes than a row holds.
proof fn lemma_short_jump(
    opts: Options,
    style: Style,
    p: ProgressView,
    st: ReverseView,
    data: Seq<u8>,
    jump: u64,
)
    requires
        plainly_read(opts, style, p, data),
        !st.squeezing,
        data.len() < opts.width,
    ensures
        read_from(opts, style, p, st, data, jump) == Some(
            if p.offset < jump {
                seq![]
            } else {
                data
            },
        ),
{
    reveal(read_from);
    let w = opts.width as int;
    let tail = tail_bytes(data, w);
    lemma_tail(data.len() as int, w);
    assert(data.len() as int / w == 0) by (nonlinear_arith)
        requires
            data.len() < w,
    ;
    assert(0 * w == 0);
    assert(tail =~= data);
    lemma_concat_empty(ending(opts, style, tail, p.offset));
    lemma_ending_jump(opts, style, p.offset, st, data, jump);
}

/// The first of several rows is left out, or read.
proof fn lemma_row_jump(
    opts: Options,
    style: Style,
    p: ProgressView,
    st: ReverseView,
    data: Seq<u8>,
    jump: u64,
) -> (r: (ProgressView, ReverseView))
    requires
        plainly_read(opts, style, p, data),
        !st.squeezing,
        data.len() >= opts.width,
    ensures
        ({
            let w = opts.width as int;
            let (q, st2) = r;
            &&& q.offset == p.offset + w
            &&& !st2.squeezing
            &&& plainly_read(opts, style, q, data.skip(w))
            &&& read_from(opts, style, p, st, data, jump) == prefixed(
                if p.offset < jump {
                    seq![]
                } else {
                    data.take(w)
                },
                read_from(opts, style, q, st2, data.skip(w), jump),
            )
        }),
{
    let w = opts.width as int;
    let rows = data.len() / opts.width as nat;
    let src = row_bytes(data, w, 0);
    let rest = data.skip(w);
    let q = step_state(opts, p, src);
    reveal(read_from);
    lemma_first_row(opts, style, p, data);
    let end = ending(
        opts,
        style,
        tail_bytes(data, w),
        walk_state(opts, p, data, rows).offset,
    );
    let others = walk_text(opts, style, q, rest, (rows - 1) as nat);
    let x = lemma_row_read(style.full, opts, src, p.offset, st, others + end, jump);
    assert(src =~= data.take(w)) by {
        assert(0 * w == 0);
    }
    (q, x.state)
}

/// Where all rows stand at the offset or further on, all bytes are read.
proof fn lemma_walk_kept(
    opts: Options,
    style: Style,
    p: ProgressView,
    st: ReverseView,
    data: Seq<u8>,
    jump: u64,
)
    requires
        plainly_read(opts, style, p, data),
        !st.squeezing,
        p.offset >= jump,
    ensures
        read_from(opts, style, p, st, data, jump) == Some(data),
    decreases data.len(),
{
    if data.len() < opts.width {
        lemma_short_jump(opts, style, p, st, data, jump);
    } else {
        let w = opts.width as int;
        let (q, st2) = lemma_row_jump(opts, style, p, st, data, jump);
        lemma_walk_kept(opts, style, q, st2, data.skip(w), jump);
        assert(data.take(w) + data.skip(w) =~= data);
    }
}

/// The first `r` rows stand before the offset, and are left out.
proof fn lemma_walk_jump(
    opts: Options,
    style: Style,
    p: ProgressView,
    st: ReverseView,
    data: Seq<u8>,
    jump: u64,
    r: nat,
)
    requires
        plainly_read(opts, style, p, data),
        !st.squeezing,
        r > 0 ==> (r - 1) * opts.width < data.len() && p.offset + (r - 1) * opts.width < jump,
        r * opts.width < data.len() ==> p.offset + r * opts.width >= jump,
    ensures
        read_from(opts, style, p, st, data, jump) == Some(
            from_row(data, opts.width as int, r as int),
        ),
    decreases r,
{
    let w = opts.width as int;
    let none = Seq::<u8>::empty();
    assert(0 * w == 0 && 1 * w == w);
    if r == 0 {
        assert(from_row(data, w, 0) =~= data);
        if data.len() == 0 {
            lemma_short_jump(opts, style, p, st, data, jump);
        } else {
            lemma_walk_kept(opts, style, p, st, data, jump);
        }
    } else {
        let k = (r - 1) as nat;
        assert(0 <= k * w && r * w == k * w + w && (k > 0 ==> k * w == (k - 1) * w + w && k * w
            >= w)) by (nonlinear_arith)
            requires
                r == k + 1,
                w > 0,
        ;
        if data.len() < w {
            lemma_short_jump(opts, style, p, st, data, jump);
        } else {
            let (q, st2) = lemma_row_jump(opts, style, p, st, data, jump);
            lemma_walk_jump(opts, style, q, st2, data.skip(w), jump, k);
            assert(from_row(data, w, r as int) =~= none + from_row(data.skip(w), w, k as int));
        }
    }
}

/// What stands after the full rows, from an offset on.
proof fn lemma_ending_jump(
    opts: Options,
    style: Style,
    off: u64,
    st: ReverseView,
    tail: Seq<u8>,
    jump: u64,
)
    requires
        opts.wf(),
        readable(opts),
        suits(style.tail, opts),
        whole(opts, tail.len()),
        tail.len() < opts.width,
        !opts.offset_dec,
        !st.squeezing,
    ensures
        lines_bytes(true, jump, st, ending(opts, style, tail, off), 0) == Some(
            if off < jump {
                seq![]
            } else {
                tail
            },
        ),
{
    let none = Seq::<u8>::empty();
    let end = offset_line(opts, false, offset_at(off, tail.len() as int));
    if tail.len() > 0 {
        let q = lemma_row_read(style.tail, opts, tail, off, st, end, jump);
        lemma_last_line(opts, offset_at(off, tail.len() as int), q.state, jump);
        lemma_concat_empty(q.bytes);
        lemma_concat_empty(tail);
    } else {
        lemma_concat_empty(end);
        assert(offset_at(off, 0) == off);
        lemma_last_line(opts, off, st, jump);
        assert(tail =~= none);
    }
}

/// The bytes of the rows from row `r` on.
pub open spec fn from_row(data: Seq<u8>, width: int, r: int) -> Seq<u8> {
    if r * width < data.len() {
        data.skip(r * width)
    } else {
        seq![]
    }
}

/// Reading a dump from an offset on gives the bytes of the rows that stand there or further on, and
/// no others. The first `r` rows of the dump are those whose offset lies before `jump`. A negative
/// number, or none, leaves out nothing.
pub proof fn lemma_reverse_jump(
    opts: Options,
    style: Style,
    start: u64,
    data: Seq<u8>,
    jump: Option<i64>,
    r: nat,
)
    requires
        recoverable(opts, style, start, data),
        !opts.squeeze,
        !opts.offset_dec,
        start + data.len() <= u64::MAX,
        jump is None || jump.unwrap() <= 0 ==> r == 0,
        jump matches Some(j) && j > 0 ==> {
            &&& r > 0 ==> (r - 1) * opts.width < data.len() && start + (r - 1) * opts.width
                < jump.unwrap()
            &&& r * opts.width < data.len() ==> start + r * opts.width >= jump.unwrap()
        },
    ensures
        reversed(dump_text(opts, style, start, data), first_offset(jump)) == Some(
            from_row(data, opts.width as int, r as int),
        ),
{
    let w = opts.width as int;
    let rows = data.len() / opts.width as nat;
    let tail = tail_bytes(data, w);
    let off = offset_at(start, rows * w);
    let all = walk_text(opts, style, started(start), data, rows);
    let last = tail_text(opts, style, data, off);
    let end = offset_line(opts, false, offset_at(start, data.len() as int));
    assert(0 * w == 0);
    lemma_serial_all(opts, style, start, data);
    lemma_tail(data.len() as int, w);
    lemma_walk_offset(opts, started(start), data, rows);
    lemma_offset_add(start, rows * w, tail.len() as int);
    lemma_dump_colon(opts, style, start, data);
    lemma_walk_jump(opts, style, started(start), unread(), data, first_offset(jump), r);
    reveal(read_from);
    lemma_no_head(opts);
    lemma_concat_empty(all);
    lemma_concat_assoc(all, last, end);
    assert(serial_text(opts, style, start, data) == all + last + end);
    assert(ending(opts, style, tail, off) == last + end);
}

/// A dump of all rows read back gives the bytes that it was made of.
pub proof fn lemma_reverse_dump(opts: Options, style: Style, start: u64, data: Seq<u8>)
    requires
        recoverable(opts, style, start, data),
        !opts.squeeze,
    ensures
        reversed(dump_text(opts, style, start, data), 0) == Some(data),
{
    lemma_serial_all(opts, style, start, data);
    lemma_reverse_serial(opts, style, start, data);
}

/// A dump of a stream read back gives the bytes of the stream.
pub proof fn lemma_reverse_stream(opts: Options, style: Style, data: Seq<u8>)
    requires
        recoverable(opts, style, stream_start(opts), data),
    ensures
        reversed(stream_text(opts, style, data), 0) == Some(data),
{
    let w = opts.width as int;
    let start = stream_start(opts);
    let rows = data.len() / opts.width as nat;
    let none = Seq::<u8>::empty();
    assert(none + data =~= data);
    let all = walk_text(opts, style, started(start), data, rows);
    let s = fed(opts, opened(opts), data);
    let off = s.progress.offset;
    let end = ending(opts, style, tail_bytes(data, w), off);
    lemma_rows_reversed(opts, style, start, data);
    lemma_no_head(opts);
    lemma_concat_empty(all);
    lemma_concat_empty(end);
    assert(offset_at(off, 0) == off);
    lemma_concat_empty(offset_line(opts, style.color, end_offset(opts, s)));
    assert(closing_text(opts, style, s) == end);
    assert(stream_text(opts, style, data) == all + end);
}

/// The rows that dumps are made of by themselves suit the settings.
pub proof fn lemma_styles_suit(opts: Options, simd: bool)
    ensures
        suits(memory_rows(opts, false, simd).full, opts),
        suits(memory_rows(opts, false, simd).tail, opts),
        suits(stream_rows(opts, false, simd).full, opts),
        suits(stream_rows(opts, false, simd).tail, opts),
{
}

/// Digits alone are read as the bytes.
proof fn lemma_pairs_plain(data: Seq<u8>, upper: bool, k: int)
    requires
        0 <= k <= data.len(),
    ensures
        hex_text(data, upper).len() == 2 * data.len(),
        all_hex(hex_text(data, upper)),
        pairs(hex_text(data, upper), 2 * k) == data.skip(k),
    decreases data.len() - k,
{
    let text = hex_text(data, upper);
    lemma_hex_index(data, upper);
    if k < data.len() {
        lemma_pairs_plain(data, upper, k + 1);
        lemma_hex2_read(data[k], upper);
        assert(text[2 * k] == hex2(data[k], upper)[0] && text[2 * k + 1] == hex2(data[k], upper)[1]);
        assert(data.skip(k) =~= seq![data[k]] + data.skip(k + 1));
    } else {
        assert(data.skip(k) =~= Seq::<u8>::empty());
    }
}

/// Where the digits of a byte stand.
proof fn lemma_hex_index(data: Seq<u8>, upper: bool)
    ensures
        hex_text(data, upper).len() == 2 * data.len(),
        forall|k: int|
            0 <= k < data.len() ==> hex_text(data, upper)[2 * k] == hex2(#[trigger] data[k], upper)[0]
                && hex_text(data, upper)[2 * k + 1] == hex2(data[k], upper)[1],
        all_hex(hex_text(data, upper)),
    decreases data.len(),
{
    if data.len() > 0 {
        let front = data.drop_last();
        let text = hex_text(data, upper);
        lemma_hex_index(front, upper);
        lemma_hex2_read(data.last(), upper);
        assert forall|k: int| 0 <= k < data.len() implies text[2 * k] == hex2(
            #[trigger] data[k],
            upper,
        )[0] && text[2 * k + 1] == hex2(data[k], upper)[1] by {
            if k < front.len() {
                assert(front[k] == data[k]);
            }
        }
        assert forall|i: int| 0 <= i < text.len() implies is_hex(#[trigger] text[i]) by {
            if i < 2 * front.len() {
                assert(text[i] == hex_text(front, upper)[i]);
            }
        }
    }
}

/// Plain digits read back give the bytes that they were made of.
pub proof fn lemma_reverse_plain(data: Seq<u8>, upper: bool)
    ensures
        reversed(plain_text(data, upper), 0) == Some(data),
{
    let text = hex_text(data, upper);
    let none = Seq::<u8>::empty();
    let content = plain_text(data, upper);
    lemma_pairs_plain(data, upper, 0);
    assert(data.skip(0) =~= data);
    assert(!has_colon(content)) by {
        assert forall|i: int| 0 <= i < content.len() implies content[i] != COLON by {
            if i < text.len() {
                assert(is_hex(text[i]));
            }
        }
    }
    assert(content =~= text + seq![NEWLINE] + none);
    assert(one_line(text));
    lemma_first_line(false, 0, unread(), text, none);
    lemma_concat_empty(data);
    if data.len() == 0 {
        assert(text.len() == 0);
        assert(data =~= none);
    } else {
        lemma_concat_empty(text);
        lemma_offset_line_start(text, none);
    }
}

} // verus!
