//! The sample row that a template is found from, and what the template then holds.

use crate::bytes::{fill, spaces};
use crate::charset::{char_text, panel_text};
use crate::numeral::numeral;
use crate::options::{BorderStyle, CharTable, DisplayMode, Endian, Options};
use crate::row::{diverts, gap_before, offset_text, row, LayoutKind};
use crate::template::{
    cells_slots, close_text, lemma_prefix_length, lemma_row_parts, lits, main_slots, open_text,
    pair_slots, panel_kind, prefix_length, prefix_text, shaped, PanelCell, Slot,
};
use vstd::prelude::*;

verus! {

/// The kind of the rows that a template is found for: an aligned row may give way to a generic one.
pub open spec fn base_kind(kind: LayoutKind, opts: Options) -> LayoutKind {
    if kind == LayoutKind::OutputLine && diverts(opts) {
        LayoutKind::Generic
    } else {
        kind
    }
}

/// The same options in big-endian order.
pub open spec fn big_endian(opts: Options) -> Options {
    Options { endian: Endian::Big, ..opts }
}

/// The sample row: the row at offset zero of `n` bytes 0x55.
pub open spec fn sample_row(kind: LayoutKind, opts: Options, n: nat, color: bool) -> Seq<u8> {
    row(base_kind(kind, opts), big_endian(opts), fill(n, 0x55), 0, color)
}

/// The length of the sample row's offset column.
pub open spec fn sample_prefix(kind: LayoutKind, opts: Options, color: bool) -> nat {
    prefix_length(base_kind(kind, opts), opts, color, 8)
}

/// Where the panel starts, in rows of `n` bytes whose sample is `len` bytes long without its offset
/// column: behind the digits, or at the end where there is no panel or the digits vary in length.
pub open spec fn panel_start(
    kind: LayoutKind,
    opts: Options,
    n: nat,
    color: bool,
    len: nat,
) -> nat {
    let k = base_kind(kind, opts);
    if !shaped(k, opts, n, color) || panel_kind(k, opts, color) == PanelCell::Absent {
        len
    } else {
        main_slots(k, opts, n, color).len() + open_text(k, opts, color).len()
    }
}

/// Where the digits stand in rows of `n` bytes; there are none to go by where they vary in length.
pub open spec fn row_places(kind: LayoutKind, opts: Options, n: nat, color: bool) -> Seq<int> {
    let k = base_kind(kind, opts);
    if shaped(k, opts, n, color) {
        digit_places(main_slots(k, opts, n, color))
    } else {
        seq![]
    }
}

/// The places at which the digits of a template start, from left to right.
pub open spec fn digit_places(main: Seq<Slot>) -> Seq<int>
    decreases main.len(),
{
    if main.len() == 0 {
        seq![]
    } else {
        let front = digit_places(main.drop_last());
        match main.last() {
            Slot::Hex(_, h) if h == 0 => front.push(main.len() - 1),
            _ => front,
        }
    }
}

/// The last pair of digits in the window that starts with the pair `q0`, given that it reaches
/// `q1`. A window is sixteen places wide, and never crosses from one half of a block to the next.
pub open spec fn window_last(ps: Seq<int>, q0: int, q1: int) -> int
    decreases ps.len() - q1,
{
    if 0 <= q1 && q1 + 1 < ps.len() && (q1 + 1) / 16 == q0 / 16 && ((q1 + 1) % 16 >= 8) == (q0 % 16
        >= 8) && ps[q1 + 1] + 2 - ps[q0] <= 16 {
        window_last(ps, q0, q1 + 1)
    } else {
        q1
    }
}

/// How many windows it takes to show the digits from the pair `q0` on.
pub open spec fn window_count(ps: Seq<int>, q0: int) -> nat
    decreases ps.len() - q0,
{
    if q0 < 0 || q0 >= ps.len() {
        0
    } else {
        let q1 = window_last(ps, q0, q0);
        if q0 <= q1 < ps.len() {
            1 + window_count(ps, q1 + 1)
        } else {
            1
        }
    }
}

/// The first pair of digits in window `w`.
pub open spec fn window_first(ps: Seq<int>, w: int) -> int
    decreases w,
{
    if w <= 0 {
        0
    } else {
        let q = window_first(ps, w - 1);
        window_last(ps, q, q) + 1
    }
}

/// The offset zero has eight digits.
pub proof fn lemma_sample_prefix(kind: LayoutKind, opts: Options, color: bool)
    ensures
        prefix_text(base_kind(kind, opts), big_endian(opts), 0, color).len() == sample_prefix(
            kind,
            opts,
            color,
        ),
{
    let k = base_kind(kind, opts);
    lemma_prefix_length(k, big_endian(opts), 0, color);
    reveal_with_fuel(numeral, 9);
    assert(offset_text(0, opts.offset_dec, opts.uppercase).len() == 8);
}

/// Plain canonical rows: single bytes in two halves of equal width, with a panel and no border.
pub open spec fn is_plain(kind: LayoutKind, opts: Options) -> bool {
    &&& kind == LayoutKind::Generic
    &&& opts.mode == DisplayMode::Canonical
    &&& opts.group == 1
    &&& opts.border == BorderStyle::Off
    &&& !opts.no_ascii
    &&& !opts.minimal
    &&& opts.width % 2 == 0
}

proof fn lemma_gap(opts: Options, i: int)
    requires
        is_plain(LayoutKind::Generic, opts),
        0 <= i < opts.width,
    ensures
        gap_before(opts, i) == (i == opts.width / 2),
{
    let h = opts.width as int / 2;
    if i < h {
        vstd::arithmetic::div_mod::lemma_small_mod(i as nat, h as nat);
    } else if i > h {
        vstd::arithmetic::div_mod::lemma_mod_multiples_vanish(1, i - h, h);
        vstd::arithmetic::div_mod::lemma_small_mod((i - h) as nat, h as nat);
        assert(h * 1 + (i - h) == i);
    } else {
        vstd::arithmetic::div_mod::lemma_mod_self_0(h);
    }
}

/// Where column `i` of a plain row has its digits.
pub open spec fn column_place(opts: Options, i: int) -> int {
    3 * i + if i >= opts.width / 2 {
        1int
    } else {
        0
    }
}

proof fn lemma_no_places(a: Seq<Slot>, s: Seq<u8>)
    ensures
        digit_places(a + lits(s)) == digit_places(a),
    decreases s.len(),
{
    let t = a + lits(s);
    if s.len() == 0 {
        assert(t =~= a);
    } else {
        lemma_no_places(a, s.drop_last());
        assert(t.drop_last() =~= a + lits(s.drop_last()));
        assert(t.last() == Slot::Lit(s.last()));
    }
}

proof fn lemma_pair_place(a: Seq<Slot>, j: int)
    ensures
        digit_places(a + pair_slots(j)) == digit_places(a).push(a.len() as int),
{
    let t = a + pair_slots(j);
    assert(t.last() == Slot::Hex(j, 1));
    assert(t.drop_last() =~= a.push(Slot::Hex(j, 0)));
    let u = a.push(Slot::Hex(j, 0));
    assert(u.drop_last() =~= a);
    assert(u.last() == Slot::Hex(j, 0));
    assert(digit_places(u) == digit_places(a).push(u.len() - 1));
}

/// The digits of the first `k` columns of a plain row.
proof fn lemma_plain_cells(opts: Options, k: nat)
    requires
        is_plain(LayoutKind::Generic, opts),
        opts.width >= 2,
        k <= opts.width,
    ensures
        cells_slots(opts, opts.width as nat, k).len() == 3 * k + if k > opts.width / 2 {
            1int
        } else {
            0
        },
        digit_places(cells_slots(opts, opts.width as nat, k)) == Seq::new(
            k,
            |i: int| column_place(opts, i),
        ),
    decreases k,
{
    let n = opts.width as nat;
    if k > 0 {
        let i = k - 1;
        lemma_plain_cells(opts, i as nat);
        lemma_gap(opts, i);
        let before = cells_slots(opts, n, i as nat);
        let gap = spaces(
            if gap_before(opts, i) {
                1
            } else {
                0
            },
        );
        assert(cells_slots(opts, n, k) =~= before + lits(gap) + pair_slots(i) + lits(spaces(1)));
        lemma_no_places(before, gap);
        lemma_pair_place(before + lits(gap), i);
        lemma_no_places(before + lits(gap) + pair_slots(i), spaces(1));
    }
}

proof fn lemma_plain_panel(table: CharTable, n: nat)
    ensures
        panel_text(table, fill(n, 0x55)).len() == n * char_text(table, 0x55).len(),
    decreases n,
{
    let c = char_text(table, 0x55).len();
    if n > 0 {
        lemma_plain_panel(table, (n - 1) as nat);
        assert(fill(n, 0x55).drop_last() =~= fill((n - 1) as nat, 0x55));
        assert((n - 1) * c + c == n * c) by (nonlinear_arith);
    } else {
        assert(0 * c == 0);
    }
}

/// A plain row of `w` bytes has its panel behind `3 * w + 3` bytes, and sixteen bytes take four
/// windows.
pub proof fn lemma_plain_layout(opts: Options, color: bool)
    requires
        opts.wf(),
        is_plain(LayoutKind::Generic, opts),
    ensures
        ({
            let n = opts.width as nat;
            let kind = LayoutKind::Generic;
            let len = sample_row(kind, opts, n, color).len() - sample_prefix(kind, opts, color);
            let start = panel_start(kind, opts, n, color, len as nat);
            &&& start == 3 * n + 3
            &&& len == start + n * char_text(opts.table, 0x55).len() + 2
            &&& n == 16 ==> window_count(row_places(kind, opts, n, color), 0) == 4
        }),
{
    reveal(main_slots);
    reveal(open_text);
    reveal(close_text);
    let n = opts.width as nat;
    let kind = LayoutKind::Generic;
    let big = big_endian(opts);
    let src = fill(n, 0x55);
    lemma_plain_cells(opts, n);
    lemma_plain_cells(big, n);
    lemma_plain_panel(opts.table, n);
    lemma_sample_prefix(kind, opts, color);
    assert(main_slots(kind, opts, n, color) =~= cells_slots(opts, n, n));
    assert(main_slots(kind, big, n, color) =~= cells_slots(big, n, n));
    lemma_row_parts(kind, big, src, 0, color);
    if n == 16 {
        lemma_sixteen(digit_places(main_slots(kind, opts, n, color)));
    }
}

proof fn lemma_sixteen(ps: Seq<int>)
    requires
        ps.len() == 16,
        forall|i: int| 0 <= i < 16 ==> #[trigger] ps[i] == 3 * i + if i >= 8 {
            1int
        } else {
            0
        },
    ensures
        window_count(ps, 0) == 4,
{
    reveal_with_fuel(window_last, 6);
    assert(window_last(ps, 0, 0) == 4);
    assert(window_last(ps, 5, 5) == 7);
    assert(window_last(ps, 8, 8) == 12);
    assert(window_last(ps, 13, 13) == 15);
    assert(window_count(ps, 16) == 0);
    assert(window_count(ps, 13) == 1);
    assert(window_count(ps, 8) == 2);
    assert(window_count(ps, 5) == 3);
}

proof fn lemma_window_end(ps: Seq<int>, q0: int, q1: int)
    requires
        0 <= q0 <= q1 < ps.len(),
        q1 / 8 == q0 / 8,
        q0 < q1 ==> ps[q1] + 2 - ps[q0] <= 16,
    ensures
        ({
            let q = window_last(ps, q0, q1);
            &&& q1 <= q < ps.len()
            &&& q / 8 == q0 / 8
            &&& q0 < q ==> ps[q] + 2 - ps[q0] <= 16
            &&& q + 1 < ps.len() && (q + 1) / 8 == q0 / 8 ==> ps[q + 1] + 2 - ps[q0] > 16
        }),
    decreases ps.len() - q1,
{
    assert((q1 + 1) / 8 == q0 / 8 <==> (q1 + 1) / 16 == q0 / 16 && ((q1 + 1) % 16 >= 8) == (q0 % 16
        >= 8));
    if q1 + 1 < ps.len() && (q1 + 1) / 8 == q0 / 8 && ps[q1 + 1] + 2 - ps[q0] <= 16 {
        lemma_window_end(ps, q0, q1 + 1);
    }
}

/// A window holds the pairs of digits that stand within sixteen places of its start and belong to
/// the same eight bytes of the row: all of these, and no others.
pub proof fn lemma_window(ps: Seq<int>, q0: int)
    requires
        0 <= q0 < ps.len(),
    ensures
        ({
            let q = window_last(ps, q0, q0);
            &&& q0 <= q < ps.len()
            &&& q / 8 == q0 / 8
            &&& q0 < q ==> ps[q] + 2 - ps[q0] <= 16
            &&& q + 1 < ps.len() && (q + 1) / 8 == q0 / 8 ==> ps[q + 1] + 2 - ps[q0] > 16
        }),
{
    lemma_window_end(ps, q0, q0);
}

/// Windows follow each other, and together they show all pairs of digits.
pub proof fn lemma_windows(ps: Seq<int>)
    ensures
        window_first(ps, 0) == 0,
        window_first(ps, window_count(ps, 0) as int) == ps.len(),
{
    lemma_windows_from(ps, 0);
}

proof fn lemma_windows_from(ps: Seq<int>, w: nat)
    requires
        0 <= window_first(ps, w as int) <= ps.len(),
        window_count(ps, 0) == w + window_count(ps, window_first(ps, w as int)),
    ensures
        window_first(ps, window_count(ps, 0) as int) == ps.len(),
    decreases ps.len() - window_first(ps, w as int),
{
    let q = window_first(ps, w as int);
    if q < ps.len() {
        lemma_window(ps, q);
        lemma_windows_from(ps, w + 1);
    }
}

} // verus!
