//! Rows made from a template: the template is found once, from two sample rows, and every row is
//! then a copy of it with the digits and characters filled in.

use crate::bytes::{
    fill, lemma_concat3, lemma_concat_assoc, lemma_concat_empty, push_byte, push_bytes, push_fill,
    to_vec, SPACE,
};
use crate::charset::{ascii_byte, char_text};
use crate::color::{escape, panel_color, push_escape, push_reset, reset};
use crate::numeral::{digit_byte, hex2};
use crate::options::{BorderStyle, CharTable, ColorScheme, DisplayMode, Endian, Options};
use crate::row::{
    diverts, offset_text, output_line_diverts, push_position, push_row, row, shows_panel,
    write_offset, LayoutKind,
};
use crate::sample::{
    base_kind, big_endian, digit_places, is_plain, lemma_plain_layout, lemma_sample_prefix,
    panel_start, row_places, sample_prefix, sample_row, window_count, window_first, window_last,
};
use crate::template::{
    body_text, close_text, in_order, lemma_diverted_template, lemma_main_fits, lemma_panel_index,
    lemma_prefix_length, lemma_row_is_template, lemma_row_prefix, lemma_same_places, lemma_same_row,
    lemma_same_template, lemma_template_in_order, main_slots, open_text, panel_cell, panel_cells,
    panel_kind, panel_step, patterned, prefix_length, prefix_text, same_shape, shaped, shown_bytes,
    shown_count, slot_value, swap_group, values, PanelCell, Slot,
};
use vstd::prelude::*;

verus! {

/// Sixteen neighbouring places of a row. Place `k` shows digit `idx[k]` of eight bytes, or the
/// fixed byte `sp[k]` where `idx[k]` is negative. The eight bytes are half a block of sixteen.
pub struct HexWin {
    pub off: usize,
    pub idx: [i8; 16],
    pub sp: [u8; 16],
    pub hi: bool,
    pub block: usize,
}

impl HexWin {
    /// The first of the eight bytes.
    pub open spec fn first(self) -> int {
        self.block * 16 + if self.hi {
            8int
        } else {
            0
        }
    }

    /// What the window shows at its place `k`.
    pub open spec fn at(self, k: int, shown: Seq<u8>, upper: bool) -> u8 {
        if self.idx@[k] >= 0 {
            hex2(shown[self.first() + self.idx@[k] as int / 2], upper)[self.idx@[k] as int % 2]
        } else {
            self.sp@[k]
        }
    }

    /// Does the window cover place `p` of the row?
    pub open spec fn covers(self, p: int) -> bool {
        self.off <= p < self.off + 16
    }

    /// The window shows digits of the first `n` bytes only.
    pub open spec fn within(self, n: nat) -> bool {
        forall|k: int|
            0 <= k < 16 ==> (#[trigger] self.idx@[k] >= 0 ==> self.idx@[k] < 16 && self.first()
                + self.idx@[k] as int / 2 < n)
    }
}

/// The last of the first `k` windows that covers place `p`, or a negative number.
pub open spec fn top(ws: Seq<HexWin>, k: int, p: int) -> int
    decreases k,
{
    if k <= 0 {
        -1
    } else if ws[k - 1].covers(p) {
        k - 1
    } else {
        top(ws, k - 1, p)
    }
}

/// Place `p` of a row after the first `k` windows have been laid over `base`.
pub open spec fn laid(
    ws: Seq<HexWin>,
    k: int,
    base: Seq<u8>,
    p: int,
    shown: Seq<u8>,
    upper: bool,
) -> u8 {
    let t = top(ws, k, p);
    if t >= 0 {
        ws[t].at(p - ws[t].off, shown, upper)
    } else {
        base[p]
    }
}

/// The template of rows of `count` bytes.
pub struct RowLayout {
    /// A sample row, without its offset column.
    pub base: Vec<u8>,
    pub windows: Vec<HexWin>,
    pub panel: PanelCell,
    /// Where the panel's first cell stands.
    pub panel_off: usize,
    pub count: usize,
}

impl RowLayout {
    /// The windows laid over the sample row.
    pub open spec fn digits(self, shown: Seq<u8>, upper: bool) -> Seq<u8> {
        Seq::new(
            self.base@.len(),
            |p: int|
                laid(self.windows@, self.windows@.len() as int, self.base@, p, shown, upper),
        )
    }

    /// The place after the panel's last cell.
    pub open spec fn panel_end(self) -> int {
        self.panel_off + panel_step(self.panel) * self.count
    }

    /// The row for the bytes `src`, without its offset column.
    pub open spec fn text(self, src: Seq<u8>, shown: Seq<u8>, upper: bool) -> Seq<u8> {
        let all = self.digits(shown, upper);
        all.take(self.panel_off as int) + panel_cells(self.panel, src) + all.skip(self.panel_end())
    }

    /// The parts of the template lie within the row.
    pub open spec fn wf(self) -> bool {
        &&& self.panel_end() <= self.base@.len()
        &&& forall|w: int|
            0 <= w < self.windows@.len() ==> #[trigger] self.windows@[w].within(self.count as nat)
    }

    /// Are the rows of this template those of the given kind?
    pub open spec fn shows(self, kind: LayoutKind, opts: Options, color: bool) -> bool {
        &&& self.wf()
        &&& forall|src: Seq<u8>|
            src.len() == self.count ==> #[trigger] self.text(
                src,
                shown_bytes(opts, src),
                opts.uppercase,
            ) == body_text(kind, opts, src, color)
    }
}

// ---------------------------------------------------------------- finding the digits

/// Place `c` of the `q`-th pair.
pub open spec fn slot(pairs: Seq<(usize, usize)>, q: int, c: int) -> int {
    if c == 0 {
        pairs[q].0 as int
    } else {
        pairs[q].1 as int
    }
}

/// Is no digit shown at place `p`?
pub open spec fn free(pairs: Seq<(usize, usize)>, p: int) -> bool {
    forall|q: int| 0 <= q < pairs.len() ==> #[trigger] pairs[q].0 != p && pairs[q].1 != p
}

/// The pairs are neighbouring places, from left to right.
pub open spec fn ascending(pairs: Seq<(usize, usize)>) -> bool {
    &&& forall|q: int| 0 <= q < pairs.len() ==> #[trigger] pairs[q].1 == pairs[q].0 + 1
    &&& forall|a: int, b: int|
        0 <= a < b < pairs.len() ==> (#[trigger] pairs[a]).1 < (#[trigger] pairs[b]).0
}

/// The pairs are where the template has its digits.
pub open spec fn places(pairs: Seq<(usize, usize)>, main: Seq<Slot>) -> bool {
    &&& ascending(pairs)
    &&& forall|q: int|
        0 <= q < pairs.len() ==> (#[trigger] pairs[q]).1 < main.len() && main[pairs[q].0 as int]
            == Slot::Hex(q, 0) && main[pairs[q].1 as int] == Slot::Hex(q, 1)
    &&& forall|p: int|
        0 <= p < main.len() ==> (#[trigger] main[p] matches Slot::Hex(q, c) ==> 0 <= q < pairs.len()
            && (c == 0 || c == 1) && slot(pairs, q, c) == p)
}

/// Finds the places at which two sample rows differ: the pairs of digits of up to `n` bytes, and
/// the first place behind them.
#[verifier::spinoff_prover]
fn find_places(
    r1: &[u8],
    r2: &[u8],
    n: usize,
    Ghost(main): Ghost<Seq<Slot>>,
    Ghost(m): Ghost<int>,
) -> (r: (Vec<(usize, usize)>, Option<usize>))
    requires
        r1@.len() == r2@.len(),
        main.len() <= r1@.len(),
        0 <= m <= n,
        in_order(main, 0, m),
        forall|p: int|
            0 <= p < main.len() ==> ((#[trigger] r1@[p] != r2@[p]) <==> main[p] is Hex),
        m < n ==> forall|p: int| main.len() <= p < r1@.len() ==> #[trigger] r1@[p] == r2@[p],
    ensures
        places(r.0@, main),
        r.0@.len() == m,
        match r.1 {
            Some(f) => main.len() <= f < r1@.len() && r1@[f as int] != r2@[f as int] && forall|
                p: int,
            |
                main.len() <= p < f ==> #[trigger] r1@[p] == r2@[p],
            None => forall|p: int| main.len() <= p < r1@.len() ==> #[trigger] r1@[p] == r2@[p],
        },
{
    let mut pairs: Vec<(usize, usize)> = Vec::new();
    let mut i: usize = 0;
    let len: usize = r1.len();
    assert(main.skip(0) =~= main);
    while i < len
        invariant
            i <= len,
            len == r1@.len(),
            r1@.len() == r2@.len(),
            main.len() <= r1@.len(),
            0 <= m <= n,
            in_order(main, 0, m),
            forall|p: int|
                0 <= p < main.len() ==> ((#[trigger] r1@[p] != r2@[p]) <==> main[p] is Hex),
            m < n ==> forall|p: int| main.len() <= p < r1@.len() ==> #[trigger] r1@[p] == r2@[p],
            ascending(pairs@),
            pairs@.len() <= m,
            forall|q: int| 0 <= q < pairs@.len() ==> (#[trigger] pairs@[q]).1 < i,
            forall|q: int|
                0 <= q < pairs@.len() ==> (#[trigger] pairs@[q]).1 < main.len()
                    && main[pairs@[q].0 as int] == Slot::Hex(q, 0) && main[pairs@[q].1 as int]
                    == Slot::Hex(q, 1),
            forall|p: int|
                0 <= p < main.len() && p < i ==> (#[trigger] main[p] matches Slot::Hex(q, c) ==> 0
                    <= q < pairs@.len() && (c == 0 || c == 1) && slot(pairs@, q, c) == p),
            i <= main.len() ==> in_order(main.skip(i as int), pairs@.len() as int, m),
            i >= main.len() ==> pairs@.len() == m,
            forall|p: int| main.len() <= p < i ==> #[trigger] r1@[p] == r2@[p],
        decreases len - i,
    {
        let ghost rest = main.skip(i as int);
        if r1[i] != r2[i] {
            if pairs.len() < n && i + 1 < len && r1[i + 1] != r2[i + 1] {
                assert(i < main.len());
                assert(rest[0] == main[i as int]);
                assert(rest.len() >= 2 && rest[1] == main[i + 1]);
                let ghost before = pairs@;
                pairs.push((i, i + 1));
                proof {
                    lemma_in_order_bound(rest.skip(2), before.len() as int + 1, m);
                    assert(rest.skip(2) =~= main.skip(i + 2));
                    assert(in_order(main.skip(i + 2), before.len() as int + 1, m));
                    if i + 2 >= main.len() {
                        assert(main.skip(i + 2).len() == 0);
                    }
                    assert forall|p: int| 0 <= p < main.len() && p < i + 2 implies (
                    #[trigger] main[p] matches Slot::Hex(q, c) ==> 0 <= q < pairs@.len() && (c == 0
                        || c == 1) && slot(pairs@, q, c) == p) by {
                        if p < i {
                            if let Slot::Hex(q, c) = main[p] {
                                assert(pairs@[q] == before[q]);
                            }
                        }
                    }
                }
                i = i + 2;
            } else {
                assert(i >= main.len()) by {
                    if i < main.len() {
                        assert(rest[0] == main[i as int]);
                        assert(rest[1] == main[i + 1]);
                        lemma_in_order_bound(rest.skip(2), pairs@.len() as int + 1, m);
                        assert(r1@[i + 1] != r2@[i + 1]);
                    }
                }
                return (pairs, Some(i));
            }
        } else {
            proof {
                if i < main.len() {
                    assert(rest[0] == main[i as int]);
                    assert(rest.skip(1) =~= main.skip(i + 1));
                    assert(in_order(main.skip(i + 1), pairs@.len() as int, m));
                    if i + 1 >= main.len() {
                        assert(main.skip(i + 1).len() == 0);
                    }
                }
            }
            i = i + 1;
        }
    }
    (pairs, None)
}

/// Digits are counted upwards.
proof fn lemma_in_order_bound(t: Seq<Slot>, from: int, to: int)
    requires
        in_order(t, from, to),
    ensures
        from <= to,
    decreases t.len(),
{
    if t.len() > 0 {
        match t[0] {
            Slot::Lit(_) => {
                lemma_in_order_bound(t.skip(1), from, to);
            },
            Slot::Hex(_, _) => {
                lemma_in_order_bound(t.skip(2), from + 1, to);
            },
        }
    }
}

// ---------------------------------------------------------------- windows

/// A window shows the digits of the pairs `q0` up to `q1`, and the sample row elsewhere.
pub open spec fn window_of(
    w: HexWin,
    pairs: Seq<(usize, usize)>,
    q0: int,
    q1: int,
    base: Seq<u8>,
) -> bool {
    &&& w.off == pairs[q0].0
    &&& w.block == q0 / 16
    &&& w.hi == (q0 % 16 >= 8)
    &&& forall|q: int, c: int|
        q0 <= q <= q1 && 0 <= c < 2 ==> w.idx@[#[trigger] slot(pairs, q, c) - w.off] == 2 * (q % 8)
            + c
    &&& forall|k: int|
        0 <= k < 16 ==> (#[trigger] w.idx@[k] >= 0 ==> exists|q: int, c: int|
            q0 <= q <= q1 && 0 <= c < 2 && #[trigger] slot(pairs, q, c) == w.off + k && w.idx@[k]
                == 2 * (q % 8) + c)
    &&& forall|k: int| 0 <= k < 16 ==> #[trigger] w.sp@[k] == window_byte(w, k, base)
    &&& forall|k: int| 0 <= k < 16 ==> -1 <= #[trigger] w.idx@[k] < 16
}

/// The byte that a window has at place `k`: that of the sample row where no digit stands, or a
/// space behind its end.
pub open spec fn window_byte(w: HexWin, k: int, base: Seq<u8>) -> u8 {
    if w.idx@[k] >= 0 {
        0
    } else if w.off + k < base.len() {
        base[w.off + k]
    } else {
        SPACE
    }
}

/// Place `c` of the digits that start at `ps[q]`.
pub open spec fn place(ps: Seq<int>, q: int, c: int) -> int {
    ps[q] + c
}

/// A window starts with the digits of pair `q0` and shows those up to pair `q1`, and no others;
/// elsewhere it has the bytes of the sample row.
pub open spec fn window_at(w: HexWin, ps: Seq<int>, q0: int, q1: int, base: Seq<u8>) -> bool {
    &&& w.off == ps[q0]
    &&& w.off < base.len()
    &&& w.block == q0 / 16
    &&& w.hi == (q0 % 16 >= 8)
    &&& forall|q: int, c: int|
        q0 <= q <= q1 && 0 <= c < 2 ==> {
            let k = #[trigger] place(ps, q, c) - w.off;
            0 <= k < 16 && w.idx@[k] == 2 * (q % 8) + c
        }
    &&& forall|k: int|
        0 <= k < 16 ==> -1 <= (#[trigger] w.idx@[k]) && (w.idx@[k] >= 0 ==> exists|q: int, c: int|
            q0 <= q <= q1 && 0 <= c < 2 && #[trigger] place(ps, q, c) == w.off + k)
    &&& forall|k: int| 0 <= k < 16 ==> #[trigger] w.sp@[k] == window_byte(w, k, base)
}

/// The windows that show the digits at the places `ps`, from left to right.
pub open spec fn windows_at(ws: Seq<HexWin>, ps: Seq<int>, base: Seq<u8>) -> bool {
    &&& ws.len() == window_count(ps, 0)
    &&& forall|w: int|
        0 <= w < ws.len() ==> {
            let q = window_first(ps, w);
            window_at(#[trigger] ws[w], ps, q, window_last(ps, q, q), base)
        }
}

/// A window for some pairs is one for the places of their digits.
proof fn lemma_window_at(w: HexWin, pairs: Seq<(usize, usize)>, q0: int, q1: int, base: Seq<u8>)
    requires
        0 <= q0 <= q1 < pairs.len(),
        ascending(pairs),
        window_of(w, pairs, q0, q1, base),
        pairs[q1].1 + 1 - pairs[q0].0 <= 16,
        pairs[q1].1 < base.len(),
    ensures
        window_at(w, firsts(pairs), q0, q1, base),
{
    let ps = firsts(pairs);
    assert forall|q: int, c: int| q0 <= q <= q1 && 0 <= c < 2 implies {
        let k = #[trigger] place(ps, q, c) - w.off;
        0 <= k < 16 && w.idx@[k] == 2 * (q % 8) + c
    } by {
        assert(pairs[q].1 == pairs[q].0 + 1);
        assert(slot(pairs, q, c) == place(ps, q, c));
        if q0 < q {
            assert(pairs[q0].1 < pairs[q].0);
        }
        if q < q1 {
            assert(pairs[q].1 < pairs[q1].0);
        }
        assert(pairs[q1].1 == pairs[q1].0 + 1);
    }
    assert forall|k: int| 0 <= k < 16 && #[trigger] w.idx@[k] >= 0 implies exists|q: int, c: int|
        q0 <= q <= q1 && 0 <= c < 2 && #[trigger] place(ps, q, c) == w.off + k by {
        let (q, c) = choose|q: int, c: int|
            q0 <= q <= q1 && 0 <= c < 2 && #[trigger] slot(pairs, q, c) == w.off + k && w.idx@[k]
                == 2 * (q % 8) + c;
        assert(pairs[q].1 == pairs[q].0 + 1);
        assert(place(ps, q, c) == w.off + k);
    }
    assert(pairs[q0].0 < base.len()) by {
        assert(pairs[q1].1 == pairs[q1].0 + 1);
        if q0 < q1 {
            assert(pairs[q0].1 < pairs[q1].0);
        }
    }
}

/// The digit at place `pos`, counted within eight bytes, among the pairs `q0` up to `q1`.
fn digit_at(pairs: &Vec<(usize, usize)>, q0: usize, q1: usize, pos: usize) -> (hit: i8)
    requires
        q0 <= q1 < pairs@.len(),
        ascending(pairs@),
    ensures
        -1 <= hit < 16,
        hit >= 0 ==> exists|q: int, c: int|
            q0 <= q <= q1 && 0 <= c < 2 && #[trigger] slot(pairs@, q, c) == pos && hit == 2 * (q
                % 8) + c,
        forall|q: int, c: int|
            q0 <= q <= q1 && 0 <= c < 2 && #[trigger] slot(pairs@, q, c) == pos ==> hit == 2 * (q
                % 8) + c,
{
    let mut hit: i8 = -1;
    assert(pairs.len() == pairs@.len());
    for q in q0..q1 + 1
        invariant
            q0 <= q1 < pairs@.len(),
            ascending(pairs@),
            -1 <= hit < 16,
            hit >= 0 ==> exists|t: int, c: int|
                q0 <= t < q && 0 <= c < 2 && #[trigger] slot(pairs@, t, c) == pos && hit == 2 * (t
                    % 8) + c,
            forall|t: int, c: int|
                q0 <= t < q && 0 <= c < 2 && #[trigger] slot(pairs@, t, c) == pos ==> hit == 2 * (t
                    % 8) + c,
    {
        let within: i8 = (q % 8) as i8;
        if pairs[q].0 == pos {
            hit = 2 * within;
            assert(slot(pairs@, q as int, 0) == pos);
        } else if pairs[q].1 == pos {
            hit = 2 * within + 1;
            assert(slot(pairs@, q as int, 1) == pos);
        }
    }
    hit
}

/// The window for the pairs `q0` up to `q1`.
fn build_window(pairs: &Vec<(usize, usize)>, q0: usize, q1: usize, base: &[u8]) -> (w: HexWin)
    requires
        q0 <= q1 < pairs@.len(),
        ascending(pairs@),
        q1 / 16 == q0 / 16,
        (q1 % 16 >= 8) == (q0 % 16 >= 8),
        pairs@[q1 as int].1 + 1 - pairs@[q0 as int].0 <= 16,
        pairs@[q1 as int].1 < base@.len(),
    ensures
        window_of(w, pairs@, q0 as int, q1 as int, base@),
        w.within((q1 + 1) as nat),
{
    let start: usize = pairs[q0].0;
    let mut idx: [i8; 16] = [-1; 16];
    let mut sp: [u8; 16] = [0; 16];
    for k in 0..16usize
        invariant
            q0 <= q1 < pairs@.len(),
            ascending(pairs@),
            start == pairs@[q0 as int].0,
            forall|q: int| q0 <= q <= q1 ==> (#[trigger] pairs@[q]).1 < base@.len(),
            start < base@.len(),
            pairs@[q1 as int].1 < start + 16,
            forall|t: int| k <= t < 16 ==> #[trigger] idx@[t] == -1,
            forall|t: int|
                0 <= t < k ==> (#[trigger] idx@[t] >= 0 ==> exists|q: int, c: int|
                    q0 <= q <= q1 && 0 <= c < 2 && #[trigger] slot(pairs@, q, c) == start + t
                        && idx@[t] == 2 * (q % 8) + c),
            forall|q: int, c: int|
                q0 <= q <= q1 && 0 <= c < 2 && start <= #[trigger] slot(pairs@, q, c) < start + k
                    ==> idx@[slot(pairs@, q, c) - start] == 2 * (q % 8) + c,
            forall|t: int| 0 <= t < k ==> -1 <= #[trigger] idx@[t] < 16,
            forall|t: int|
                0 <= t < k ==> #[trigger] sp@[t] == if idx@[t] >= 0 {
                    0
                } else if start + t < base@.len() {
                    base@[start + t]
                } else {
                    SPACE
                },
            forall|t: int| k <= t < 16 ==> #[trigger] sp@[t] == 0,
    {
        if k < base.len() - start {
            let hit: i8 = digit_at(pairs, q0, q1, start + k);
            idx[k] = hit;
            if hit < 0 {
                sp[k] = base[start + k];
            }
        } else {
            sp[k] = SPACE;
        }
    }
    let w = HexWin { off: start, idx, sp, hi: q0 % 16 >= 8, block: q0 / 16 };
    proof {
        lemma_window_within(w, pairs@, q0 as int, q1 as int);
    }
    w
}

/// A window shows digits of the bytes that it was built for.
proof fn lemma_window_within(w: HexWin, pairs: Seq<(usize, usize)>, q0: int, q1: int)
    requires
        0 <= q0 <= q1 < pairs.len(),
        q1 / 16 == q0 / 16,
        (q1 % 16 >= 8) == (q0 % 16 >= 8),
        w.block == q0 / 16,
        w.hi == (q0 % 16 >= 8),
        forall|k: int|
            0 <= k < 16 ==> (#[trigger] w.idx@[k] >= 0 ==> exists|q: int, c: int|
                q0 <= q <= q1 && 0 <= c < 2 && #[trigger] slot(pairs, q, c) == w.off + k && w.idx@[k]
                    == 2 * (q % 8) + c),
        forall|k: int| 0 <= k < 16 ==> #[trigger] w.idx@[k] < 16,
    ensures
        w.within((q1 + 1) as nat),
{
    assert forall|k: int| 0 <= k < 16 && #[trigger] w.idx@[k] >= 0 implies w.idx@[k] < 16
        && w.first() + w.idx@[k] as int / 2 < q1 + 1 by {
        let (q, c) = choose|q: int, c: int|
            q0 <= q <= q1 && 0 <= c < 2 && #[trigger] slot(pairs, q, c) == w.off + k && w.idx@[k]
                == 2 * (q % 8) + c;
        lemma_half_block(q0, q, q1);
    }
}

/// A number is the start of its half block plus its remainder.
proof fn lemma_half_block(q0: int, q: int, q1: int)
    requires
        0 <= q0 <= q <= q1,
        q1 / 16 == q0 / 16,
        (q1 % 16 >= 8) == (q0 % 16 >= 8),
    ensures
        q0 / 16 * 16 + (if q0 % 16 >= 8 {
            8int
        } else {
            0
        }) + q % 8 == q,
{
}

/// The windows show all digits of the first `m` pairs, and the sample row where no digit stands.
pub open spec fn windows_of(
    ws: Seq<HexWin>,
    pairs: Seq<(usize, usize)>,
    m: int,
    base: Seq<u8>,
) -> bool {
    &&& forall|q: int, c: int|
        0 <= q < m && 0 <= c < 2 ==> {
            let p = #[trigger] slot(pairs, q, c);
            let t = top(ws, ws.len() as int, p);
            &&& 0 <= t < ws.len()
            &&& ws[t].covers(p)
            &&& ws[t].idx@[p - ws[t].off] == 2 * (q % 8) + c
            &&& ws[t].block == q / 16
            &&& ws[t].hi == (q % 16 >= 8)
        }
    &&& forall|p: int|
        #![trigger top(ws, ws.len() as int, p)]
        free(pairs, p) && 0 <= p < base.len() && top(ws, ws.len() as int, p) >= 0 ==> {
            let t = top(ws, ws.len() as int, p);
            &&& 0 <= t < ws.len()
            &&& ws[t].covers(p)
            &&& ws[t].idx@[p - ws[t].off] < 0
            &&& ws[t].sp@[p - ws[t].off] == base[p]
        }
}

/// One more window changes only the places that it covers.
proof fn lemma_top_push(ws: Seq<HexWin>, w: HexWin, p: int)
    ensures
        top(ws.push(w), ws.len() as int + 1, p) == if w.covers(p) {
            ws.len() as int
        } else {
            top(ws, ws.len() as int, p)
        },
{
    lemma_top_prefix(ws, w, ws.len() as int, p);
}

proof fn lemma_top_prefix(ws: Seq<HexWin>, w: HexWin, k: int, p: int)
    requires
        k <= ws.len(),
    ensures
        top(ws.push(w), k, p) == top(ws, k, p),
    decreases k,
{
    if k > 0 {
        lemma_top_prefix(ws, w, k - 1, p);
    }
}

/// One more window, for the pairs from `m` up to `q1`.
proof fn lemma_windows_push(
    ws: Seq<HexWin>,
    w: HexWin,
    pairs: Seq<(usize, usize)>,
    m: int,
    q1: int,
    base: Seq<u8>,
)
    requires
        ascending(pairs),
        0 <= m <= q1 < pairs.len(),
        windows_of(ws, pairs, m, base),
        window_of(w, pairs, m, q1, base),
        q1 / 16 == m / 16,
        (q1 % 16 >= 8) == (m % 16 >= 8),
        pairs[q1].1 + 1 - pairs[m].0 <= 16,
    ensures
        windows_of(ws.push(w), pairs, q1 + 1, base),
{
    let all = ws.push(w);
    assert forall|q: int, c: int| 0 <= q < q1 + 1 && 0 <= c < 2 implies {
        let p = #[trigger] slot(pairs, q, c);
        let t = top(all, all.len() as int, p);
        &&& 0 <= t < all.len()
        &&& all[t].covers(p)
        &&& all[t].idx@[p - all[t].off] == 2 * (q % 8) + c
        &&& all[t].block == q / 16
        &&& all[t].hi == (q % 16 >= 8)
    } by {
        let p = slot(pairs, q, c);
        lemma_top_push(ws, w, p);
        if q < m {
            assert(pairs[q].1 < pairs[m].0);
            let t = top(ws, ws.len() as int, p);
            assert(all[t] == ws[t]);
        } else {
            assert(slot(pairs, m, 0) <= p <= slot(pairs, q1, 1));
            assert(w.covers(p));
        }
    }
    assert forall|p: int|
        #![trigger top(all, all.len() as int, p)]
        free(pairs, p) && 0 <= p < base.len() && top(all, all.len() as int, p) >= 0 implies {
        let t = top(all, all.len() as int, p);
        &&& 0 <= t < all.len()
        &&& all[t].covers(p)
        &&& all[t].idx@[p - all[t].off] < 0
        &&& all[t].sp@[p - all[t].off] == base[p]
    } by {
        lemma_top_push(ws, w, p);
        if w.covers(p) {
            let k = p - w.off;
            if w.idx@[k] >= 0 {
                let (q, c) = choose|q: int, c: int|
                    m <= q <= q1 && 0 <= c < 2 && #[trigger] slot(pairs, q, c) == w.off + k
                        && w.idx@[k] == 2 * (q % 8) + c;
                assert(pairs[q].0 == p || pairs[q].1 == p);
            }
        } else {
            let t = top(ws, ws.len() as int, p);
            assert(all[t] == ws[t]);
        }
    }
}

/// Where the first digits of some pairs stand.
pub open spec fn firsts(pairs: Seq<(usize, usize)>) -> Seq<int> {
    Seq::new(pairs.len(), |q: int| pairs[q].0 as int)
}

/// The pairs that were found stand where the template has its digits.
proof fn lemma_found_places(pairs: Seq<(usize, usize)>, main: Seq<Slot>)
    requires
        places(pairs, main),
    ensures
        digit_places(main) == firsts(pairs),
{
    let c = lemma_found_before(pairs, main, main.len() as int);
    assert(main.take(main.len() as int) =~= main);
    assert(c == pairs.len()) by {
        if c < pairs.len() {
            assert(pairs[c].0 < main.len());
        }
    }
    assert(firsts(pairs).take(c) =~= firsts(pairs));
}

proof fn lemma_found_before(pairs: Seq<(usize, usize)>, main: Seq<Slot>, k: int) -> (c: int)
    requires
        places(pairs, main),
        0 <= k <= main.len(),
    ensures
        0 <= c <= pairs.len(),
        digit_places(main.take(k)) == firsts(pairs).take(c),
        forall|q: int| 0 <= q < c ==> (#[trigger] pairs[q]).0 < k,
        forall|q: int| c <= q < pairs.len() ==> (#[trigger] pairs[q]).0 >= k,
    decreases k,
{
    if k == 0 {
        assert(digit_places(main.take(0)) =~= firsts(pairs).take(0));
        0
    } else {
        let c = lemma_found_before(pairs, main, k - 1);
        assert(main.take(k).drop_last() =~= main.take(k - 1));
        assert(main.take(k).last() == main[k - 1]);
        let ps = firsts(pairs);
        match main[k - 1] {
            Slot::Hex(q, h) if h == 0 => {
                assert(slot(pairs, q, 0) == k - 1);
                assert(pairs[q].0 == k - 1);
                if q < c {
                    assert(pairs[q].0 < k - 1);
                }
                if c < q {
                    assert(pairs[c].1 < pairs[q].0);
                    assert(pairs[c].1 == pairs[c].0 + 1);
                }
                assert(q == c);
                assert(ps.take(c + 1) =~= ps.take(c).push(k - 1));
                assert forall|r: int| c + 1 <= r < pairs.len() implies (#[trigger] pairs[r]).0
                    >= k by {
                    assert(pairs[c].1 < pairs[r].0);
                }
                c + 1
            },
            _ => {
                assert forall|r: int| c <= r < pairs.len() implies (#[trigger] pairs[r]).0
                    >= k by {
                    assert(main[pairs[r].0 as int] == Slot::Hex(r, 0));
                }
                c
            },
        }
    }
}

/// The windows for all pairs. A window never crosses from one half of a block to the next.
fn build_windows(pairs: &Vec<(usize, usize)>, base: &[u8]) -> (ws: Vec<HexWin>)
    requires
        ascending(pairs@),
        forall|q: int| 0 <= q < pairs@.len() ==> (#[trigger] pairs@[q]).1 < base@.len(),
    ensures
        windows_of(ws@, pairs@, pairs@.len() as int, base@),
        forall|w: int| 0 <= w < ws@.len() ==> #[trigger] ws@[w].within(pairs@.len()),
        windows_at(ws@, firsts(pairs@), base@),
{
    let ghost ps = firsts(pairs@);
    let mut ws: Vec<HexWin> = Vec::new();
    let mut q0: usize = 0;
    let n: usize = pairs.len();
    let len: usize = base.len();
    while q0 < n
        invariant
            n == pairs@.len(),
            len == base@.len(),
            q0 <= n,
            ascending(pairs@),
            forall|q: int| 0 <= q < pairs@.len() ==> (#[trigger] pairs@[q]).1 < base@.len(),
            windows_of(ws@, pairs@, q0 as int, base@),
            forall|w: int| 0 <= w < ws@.len() ==> #[trigger] ws@[w].within(pairs@.len()),
            ps == firsts(pairs@),
            ws@.len() + window_count(ps, q0 as int) == window_count(ps, 0),
            q0 == window_first(ps, ws@.len() as int),
            forall|w: int|
                0 <= w < ws@.len() ==> {
                    let q = window_first(ps, w);
                    window_at(#[trigger] ws@[w], ps, q, window_last(ps, q, q), base@)
                },
        decreases n - q0,
    {
        let start: usize = pairs[q0].0;
        let mut q1: usize = q0;
        while q1 + 1 < n && (q1 + 1) / 16 == q0 / 16 && ((q1 + 1) % 16 >= 8) == (q0 % 16 >= 8)
            && pairs[q1 + 1].1 + 1 - start <= 16
            invariant
                n == pairs@.len(),
                len == base@.len(),
                q0 <= q1 < n,
                ascending(pairs@),
                forall|q: int| 0 <= q < pairs@.len() ==> (#[trigger] pairs@[q]).1 < base@.len(),
                start == pairs@[q0 as int].0,
                q1 / 16 == q0 / 16,
                (q1 % 16 >= 8) == (q0 % 16 >= 8),
                pairs@[q1 as int].1 + 1 - start <= 16,
                ps == firsts(pairs@),
                window_last(ps, q0 as int, q0 as int) == window_last(ps, q0 as int, q1 as int),
            decreases n - q1,
        {
            assert(pairs@[q1 + 1].1 == pairs@[q1 + 1].0 + 1);
            q1 = q1 + 1;
        }
        assert(window_last(ps, q0 as int, q0 as int) == q1) by {
            if q1 + 1 < n {
                assert(pairs@[q1 + 1].1 == pairs@[q1 + 1].0 + 1);
            }
        }
        let w = build_window(pairs, q0, q1, base);
        proof {
            lemma_windows_push(ws@, w, pairs@, q0 as int, q1 as int, base@);
            lemma_window_at(w, pairs@, q0 as int, q1 as int, base@);
        }
        ws.push(w);
        q0 = q1 + 1;
    }
    ws
}

// ---------------------------------------------------------------- the template

/// How many fixed bytes a panel's cell starts with.
pub open spec fn lead(p: PanelCell) -> int {
    match p {
        PanelCell::Absent | PanelCell::Plain => 0,
        PanelCell::Braille => 1,
        PanelCell::Colored => 2,
    }
}

/// The settings of `opts` that shape a row, in big-endian order.
fn big_endian_twin(opts: &Options) -> (r: Options)
    ensures
        same_shape(*opts, r),
        r.endian == Endian::Big,
        opts.wf() ==> r.wf(),
        opts.fits() ==> r.fits(),
{
    Options {
        mode: opts.mode,
        width: opts.width,
        group: opts.group,
        endian: Endian::Big,
        border: opts.border,
        no_ascii: opts.no_ascii,
        minimal: opts.minimal,
        no_position: opts.no_position,
        skip: 0,
        length: None,
        jump: 0,
        uppercase: opts.uppercase,
        offset_dec: opts.offset_dec,
        color: opts.color,
        scheme: opts.scheme,
        table: opts.table,
        squeeze: false,
        max_lines: None,
        quiet: false,
        formats: Vec::new(),
        files: Vec::new(),
        reverse_jump: None,
        include_name: None,
    }
}

/// Appends the offset column of a row and returns its length. It is the column that rows of the
/// kind have: compact rows stand outside of any border, and generic rows have no color.
pub fn write_prefix(
    dst: &mut Vec<u8>,
    off: u64,
    kind: LayoutKind,
    opts: &Options,
    color: bool,
) -> (n: usize)
    ensures
        final(dst)@ == old(dst)@ + prefix_text(kind, *opts, off, color),
        n == prefix_text(kind, *opts, off, color).len(),
        n == prefix_length(
            kind,
            *opts,
            color,
            offset_text(off, opts.offset_dec, opts.uppercase).len(),
        ),
{
    proof {
        lemma_prefix_length(kind, *opts, off, color);
        reveal(prefix_text);
    }
    let ghost before = dst@;
    let start: usize = dst.len();
    let generic: bool = match kind {
        LayoutKind::Generic => true,
        LayoutKind::OutputLine => output_line_diverts(opts),
        LayoutKind::Scalar => false,
    };
    if generic && opts.minimal && opts.mode == DisplayMode::Canonical {
        if !opts.no_position {
            write_offset(dst, off, opts.offset_dec, opts.uppercase);
            push_byte(dst, SPACE);
            proof {
                lemma_concat_assoc(
                    before,
                    offset_text(off, opts.offset_dec, opts.uppercase),
                    seq![SPACE],
                );
            }
        } else {
            proof {
                lemma_concat_empty(before);
            }
        }
    } else {
        push_position(dst, off, opts, color && !generic);
    }
    dst.len() - start
}

/// The kind of panel in a row.
fn panel_of(kind: LayoutKind, opts: &Options, color: bool) -> (p: PanelCell)
    ensures
        p == panel_kind(kind, *opts, color),
{
    let generic: bool = match kind {
        LayoutKind::Generic => true,
        LayoutKind::OutputLine => output_line_diverts(opts),
        LayoutKind::Scalar => false,
    };
    if generic && opts.minimal && opts.mode == DisplayMode::Canonical || kind
        == LayoutKind::Scalar {
        if opts.no_ascii {
            PanelCell::Absent
        } else {
            PanelCell::Plain
        }
    } else if generic && !shows_panel(opts) {
        PanelCell::Absent
    } else if !generic && color {
        PanelCell::Colored
    } else if opts.table == CharTable::Braille {
        PanelCell::Braille
    } else {
        PanelCell::Plain
    }
}

/// The two sample rows differ at the digits, and next in the panel, behind the fixed bytes that
/// its first cell starts with.
proof fn lemma_samples(kind: LayoutKind, d: Options, n: nat, color: bool, s1: Seq<u8>, s2: Seq<u8>)
    requires
        d.wf(),
        d.endian == Endian::Big,
        n > 0,
        patterned(kind, d, n, color),
        s1 == body_text(kind, d, fill(n, 0x55), color),
        s2 == body_text(kind, d, fill(n, 0xaa), color),
    ensures
        ({
            let main = main_slots(kind, d, n, color);
            let po = main.len() + open_text(kind, d, color).len();
            let p = panel_kind(kind, d, color);
            &&& s1.len() == s2.len()
            &&& po + panel_step(p) * n <= s1.len()
            &&& forall|i: int|
                0 <= i < main.len() ==> ((#[trigger] s1[i] != s2[i]) <==> main[i] is Hex)
            &&& forall|i: int| main.len() <= i < po + lead(p) && i < s1.len() ==> #[trigger] s1[i] == s2[i]
            &&& p == PanelCell::Absent ==> forall|i: int|
                main.len() <= i < s1.len() ==> #[trigger] s1[i] == s2[i]
            &&& p != PanelCell::Absent ==> po + lead(p) < s1.len() && s1[po + lead(p)] != s2[po
                + lead(p)]
        }),
{
    reveal(body_text);
    let a = fill(n, 0x55);
    let b = fill(n, 0xaa);
    let main = main_slots(kind, d, n, color);
    let open = open_text(kind, d, color);
    let close = close_text(kind, d, n, color);
    let p = panel_kind(kind, d, color);
    let po = main.len() + open.len();
    let step = panel_step(p);
    assert(shown_bytes(d, a) == a);
    assert(shown_bytes(d, b) == b);
    lemma_panel_index(p, a);
    lemma_panel_index(p, b);
    let va = values(main, a, d.uppercase);
    let vb = values(main, b, d.uppercase);
    let pa = panel_cells(p, a);
    let pb = panel_cells(p, b);
    assert(s1 == va + open + pa + close);
    assert(s2 == vb + open + pb + close);
    lemma_template_in_order(kind, d, n, color);
    assert forall|i: int| 0 <= i < main.len() implies ((#[trigger] s1[i] != s2[i])
        <==> main[i] is Hex) by {
        lemma_digit_bytes(main, 0, shown_count(kind, d, n), i);
        assert(s1[i] == slot_value(main[i], a, d.uppercase));
        assert(s2[i] == slot_value(main[i], b, d.uppercase));
    }
    assert(step * n >= 0) by (nonlinear_arith);
    if p != PanelCell::Absent {
        let f = po + lead(p);
        assert(step * n >= step) by (nonlinear_arith)
            requires
                n >= 1,
                step >= 0,
        ;
        assert forall|c: int| 0 <= c < step implies #[trigger] pa[c] == panel_cell(p, 0x55)[c]
            && pb[c] == panel_cell(p, 0xaa)[c] by {
            assert(pa[step * 0 + c] == panel_cell(p, a[0])[c]);
            assert(pb[step * 0 + c] == panel_cell(p, b[0])[c]);
        }
        assert(s1[f] == pa[lead(p)]);
        assert(s2[f] == pb[lead(p)]);
        assert forall|i: int| main.len() <= i < f implies #[trigger] s1[i] == s2[i] by {
            if i >= po {
                assert(s1[i] == pa[i - po]);
                assert(s2[i] == pb[i - po]);
            }
        }
    } else {
        assert(step * n == 0) by (nonlinear_arith)
            requires
                step == 0,
        ;
        assert(pa.len() == 0 && pb.len() == 0);
    }
}

/// Digits in order belong to bytes in range.
proof fn lemma_digit_bytes(t: Seq<Slot>, from: int, to: int, i: int)
    requires
        in_order(t, from, to),
        0 <= i < t.len(),
    ensures
        t[i] matches Slot::Hex(j, c) ==> from <= j < to && (c == 0 || c == 1),
    decreases t.len(),
{
    match t[0] {
        Slot::Lit(_) => {
            if i > 0 {
                lemma_digit_bytes(t.skip(1), from, to, i - 1);
            }
        },
        Slot::Hex(_, _) => {
            lemma_in_order_bound(t.skip(2), from + 1, to);
            if i > 1 {
                lemma_digit_bytes(t.skip(2), from + 1, to, i - 2);
            }
        },
    }
}

/// A template found from a sample row shows the rows of its kind.
proof fn lemma_layout_shows(
    l: RowLayout,
    kind: LayoutKind,
    opts: Options,
    d: Options,
    color: bool,
    pairs: Seq<(usize, usize)>,
)
    requires
        opts.wf(),
        same_shape(opts, d),
        d.endian == Endian::Big,
        kind == LayoutKind::OutputLine ==> !diverts(opts),
        patterned(kind, opts, l.count as nat, color),
        l.base@ == body_text(kind, d, fill(l.count as nat, 0x55), color),
        l.panel == panel_kind(kind, d, color),
        l.panel_off == if l.panel == PanelCell::Absent {
            l.base@.len()
        } else {
            main_slots(kind, d, l.count as nat, color).len() + open_text(kind, d, color).len()
        },
        places(pairs, main_slots(kind, d, l.count as nat, color)),
        windows_of(l.windows@, pairs, pairs.len() as int, l.base@),
        pairs.len() <= l.count,
        forall|w: int| 0 <= w < l.windows@.len() ==> #[trigger] l.windows@[w].within(pairs.len()),
    ensures
        l.shows(kind, opts, color),
{
    reveal(body_text);
    let n = l.count as nat;
    let a = fill(n, 0x55);
    let main = main_slots(kind, d, n, color);
    let open = open_text(kind, d, color);
    let close = close_text(kind, d, n, color);
    let step = panel_step(l.panel);
    let po = l.panel_off as int;
    lemma_same_template(kind, opts, d, n, color);
    lemma_panel_index(l.panel, a);
    assert(shown_bytes(d, a) == a);
    let va = values(main, a, d.uppercase);
    let pa = panel_cells(l.panel, a);
    assert(l.base@ == va + open + pa + close);
    assert(step * n >= 0) by (nonlinear_arith);
    lemma_panel_fits(l.panel, n, po, va.len() + open.len(), close.len());
    assert forall|w: int| 0 <= w < l.windows@.len() implies #[trigger] l.windows@[w].within(n) by {
        assert(l.windows@[w].within(pairs.len()));
    }
    assert(l.wf());
    assert forall|src: Seq<u8>| src.len() == l.count implies #[trigger] l.text(
        src,
        shown_bytes(opts, src),
        opts.uppercase,
    ) == body_text(kind, opts, src, color) by {
        lemma_layout_text(
            l,
            main,
            open,
            close,
            pairs,
            va,
            pa,
            src,
            shown_bytes(opts, src),
            opts.uppercase,
        );
    }
}

/// The text of a template is that of its parts.
proof fn lemma_layout_text(
    l: RowLayout,
    main: Seq<Slot>,
    open: Seq<u8>,
    close: Seq<u8>,
    pairs: Seq<(usize, usize)>,
    va: Seq<u8>,
    pa: Seq<u8>,
    src: Seq<u8>,
    shown: Seq<u8>,
    upper: bool,
)
    requires
        places(pairs, main),
        windows_of(l.windows@, pairs, pairs.len() as int, l.base@),
        l.base@ == va + open + pa + close,
        va.len() == main.len(),
        forall|i: int|
            0 <= i < main.len() ==> (#[trigger] main[i] matches Slot::Lit(b) ==> va[i] == b),
        src.len() == l.count,
        pa.len() == panel_step(l.panel) * l.count,
        l.panel_off == if l.panel == PanelCell::Absent {
            l.base@.len()
        } else {
            main.len() + open.len()
        },
    ensures
        l.text(src, shown, upper) == values(main, shown, upper) + open + panel_cells(l.panel, src)
            + close,
{
    let all = l.digits(shown, upper);
    let v = values(main, shown, upper);
    let p = panel_cells(l.panel, src);
    let po = l.panel_off as int;
    lemma_panel_index(l.panel, src);
    lemma_panel_fits(l.panel, l.count as nat, po, va.len() + open.len(), close.len());
    assert forall|i: int| 0 <= i < main.len() implies all[i] == v[i] by {
        assert(main[i] matches Slot::Lit(b) ==> l.base@[i] == b);
        lemma_digit_laid(l, main, pairs, shown, upper, i);
    }
    assert forall|i: int| main.len() <= i < l.base@.len() implies all[i] == l.base@[i] by {
        lemma_rest_laid(l, main, pairs, shown, upper, i);
    }
    if l.panel == PanelCell::Absent {
        assert(all.take(po) =~= v + open + p + close);
        assert(all.skip(l.panel_end()) =~= Seq::<u8>::empty());
        assert(p =~= Seq::<u8>::empty());
        lemma_concat_empty(all.take(po));
    } else {
        assert(all.take(po) =~= v + open);
        assert(all.skip(l.panel_end()) =~= close);
    }
}

/// The panel lies within the row.
proof fn lemma_panel_fits(p: PanelCell, n: nat, po: int, before: nat, after: nat)
    requires
        po == if p == PanelCell::Absent {
            before + panel_step(p) * n + after
        } else {
            before
        },
    ensures
        po + panel_step(p) * n <= before + panel_step(p) * n + after,
        p == PanelCell::Absent ==> panel_step(p) * n == 0,
{
    assert(p == PanelCell::Absent ==> panel_step(p) * n == 0) by (nonlinear_arith)
        requires
            p == PanelCell::Absent ==> panel_step(p) == 0,
    ;
}

/// The windows show the digits, and leave fixed bytes as they are.
proof fn lemma_digit_laid(
    l: RowLayout,
    main: Seq<Slot>,
    pairs: Seq<(usize, usize)>,
    shown: Seq<u8>,
    upper: bool,
    i: int,
)
    requires
        places(pairs, main),
        windows_of(l.windows@, pairs, pairs.len() as int, l.base@),
        0 <= i < main.len() <= l.base@.len(),
        main[i] matches Slot::Lit(b) ==> l.base@[i] == b,
    ensures
        laid(l.windows@, l.windows@.len() as int, l.base@, i, shown, upper) == slot_value(
            main[i],
            shown,
            upper,
        ),
{
    let ws = l.windows@;
    let t = top(ws, ws.len() as int, i);
    match main[i] {
        Slot::Lit(_) => {
            assert forall|q: int| 0 <= q < pairs.len() implies #[trigger] pairs[q].0 != i
                && pairs[q].1 != i by {}
            assert(free(pairs, i));
        },
        Slot::Hex(q, c) => {
            assert(slot(pairs, q, c) == i);
            lemma_half_block(q, q, q);
        },
    }
}

/// Behind the digits the windows leave the row as it is.
proof fn lemma_rest_laid(
    l: RowLayout,
    main: Seq<Slot>,
    pairs: Seq<(usize, usize)>,
    shown: Seq<u8>,
    upper: bool,
    i: int,
)
    requires
        places(pairs, main),
        windows_of(l.windows@, pairs, pairs.len() as int, l.base@),
        main.len() <= i < l.base@.len(),
    ensures
        laid(l.windows@, l.windows@.len() as int, l.base@, i, shown, upper) == l.base@[i],
{
    let ws = l.windows@;
    let t = top(ws, ws.len() as int, i);
    assert(free(pairs, i));
}

/// The body of a sample row, made of `n` bytes `b`.
fn sample_body(
    kind: LayoutKind,
    opts: &Options,
    b: u8,
    off: u64,
    n: usize,
    color: bool,
) -> (body: Vec<u8>)
    requires
        opts.wf(),
        opts.fits(),
        patterned(kind, *opts, n as nat, color),
    ensures
        body@ == body_text(kind, *opts, fill(n as nat, b), color),
{
    let ghost bytes = fill(n as nat, b);
    let mut src: Vec<u8> = Vec::new();
    push_fill(&mut src, n, b);
    let mut head: Vec<u8> = Vec::new();
    let skip: usize = write_prefix(&mut head, off, kind, opts, color);
    let mut line: Vec<u8> = Vec::new();
    push_row(&mut line, kind, &src, off, opts, color);
    proof {
        lemma_concat_empty(bytes);
        lemma_row_is_template(kind, *opts, bytes, off, color);
        lemma_concat_empty(row(kind, *opts, bytes, off, color));
    }
    let body: Vec<u8> = to_vec(vstd::slice::slice_subrange(line.as_slice(), skip, line.len()));
    assert(body@ =~= body_text(kind, *opts, bytes, color));
    body
}

/// The kind of row whose template is used: an aligned row may give way to a generic one.
fn base_of(kind: LayoutKind, opts: &Options) -> (r: LayoutKind)
    ensures
        r == base_kind(kind, *opts),
{
    if kind == LayoutKind::OutputLine && output_line_diverts(opts) {
        LayoutKind::Generic
    } else {
        kind
    }
}

/// What two sample rows tell: the first of them behind its offset column, where its digits stand,
/// and where its panel starts.
struct Sample {
    base: Vec<u8>,
    pairs: Vec<(usize, usize)>,
    panel_off: usize,
}

/// Finds the digits and the panel in rows that have a template, in big-endian order.
#[verifier::spinoff_prover]
fn find_sample(opts: &Options, n: usize, kind: LayoutKind, color: bool) -> (r: Sample)
    requires
        opts.wf(),
        opts.fits(),
        opts.endian == Endian::Big,
        0 < n,
        patterned(kind, *opts, n as nat, color),
    ensures
        r.base@ == body_text(kind, *opts, fill(n as nat, 0x55), color),
        places(r.pairs@, main_slots(kind, *opts, n as nat, color)),
        r.pairs@.len() <= n,
        main_slots(kind, *opts, n as nat, color).len() <= r.base@.len(),
        r.panel_off == if panel_kind(kind, *opts, color) == PanelCell::Absent {
            r.base@.len()
        } else {
            main_slots(kind, *opts, n as nat, color).len() + open_text(kind, *opts, color).len()
        },
{
    let base: Vec<u8> = sample_body(kind, opts, 0x55, 0, n, color);
    let other: Vec<u8> = sample_body(kind, opts, 0xaa, 1, n, color);
    let ghost main = main_slots(kind, *opts, n as nat, color);
    let ghost open = open_text(kind, *opts, color);
    let ghost m = shown_count(kind, *opts, n as nat);
    let panel: PanelCell = panel_of(kind, opts, color);
    proof {
        lemma_samples(kind, *opts, n as nat, color, base@, other@);
        lemma_template_in_order(kind, *opts, n as nat, color);
    }
    let (pairs, first) = find_places(&base, &other, n, Ghost(main), Ghost(m));
    let panel_off: usize = panel_place(
        panel,
        first,
        base.len(),
        Ghost(base@),
        Ghost(other@),
        Ghost(main.len()),
        Ghost(main.len() + open.len()),
    );
    Sample { base, pairs, panel_off }
}

/// Finds the template of rows that are of their own kind; `twin` has the same shape in big-endian
/// order.
fn layout_of(
    opts: &Options,
    twin: &Options,
    n: usize,
    kind: LayoutKind,
    color: bool,
) -> (l: RowLayout)
    requires
        opts.wf(),
        twin.wf(),
        twin.fits(),
        same_shape(*opts, *twin),
        twin.endian == Endian::Big,
        0 < n,
        patterned(kind, *opts, n as nat, color),
        patterned(kind, *twin, n as nat, color),
        kind == LayoutKind::OutputLine ==> !diverts(*opts),
    ensures
        l.count == n,
        l.shows(kind, *opts, color),
        l.base@ == body_text(kind, *twin, fill(n as nat, 0x55), color),
        l.panel == panel_kind(kind, *twin, color),
        l.panel_off == if l.panel == PanelCell::Absent {
            l.base@.len()
        } else {
            main_slots(kind, *twin, n as nat, color).len() + open_text(kind, *twin, color).len()
        },
        windows_at(
            l.windows@,
            digit_places(main_slots(kind, *twin, n as nat, color)),
            l.base@,
        ),
{
    let sample = find_sample(twin, n, kind, color);
    let windows: Vec<HexWin> = build_windows(&sample.pairs, &sample.base);
    let panel: PanelCell = panel_of(kind, twin, color);
    let l = RowLayout {
        base: sample.base,
        windows,
        panel,
        panel_off: sample.panel_off,
        count: n,
    };
    proof {
        lemma_layout_shows(l, kind, *opts, *twin, color, sample.pairs@);
        lemma_found_places(sample.pairs@, main_slots(kind, *twin, n as nat, color));
    }
    l
}

/// Where the panel's first cell stands, given the first place behind the digits at which the
/// samples differ.
fn panel_place(
    panel: PanelCell,
    first: Option<usize>,
    len: usize,
    Ghost(s1): Ghost<Seq<u8>>,
    Ghost(s2): Ghost<Seq<u8>>,
    Ghost(main): Ghost<nat>,
    Ghost(po): Ghost<nat>,
) -> (r: usize)
    requires
        len == s1.len(),
        main <= po,
        forall|i: int| main <= i < po + lead(panel) && i < len ==> #[trigger] s1[i] == s2[i],
        panel == PanelCell::Absent ==> forall|i: int| main <= i < len ==> #[trigger] s1[i] == s2[i],
        panel != PanelCell::Absent ==> po + lead(panel) < len && s1[po + lead(panel)] != s2[po
            + lead(panel)],
        match first {
            Some(f) => main <= f < len && s1[f as int] != s2[f as int] && forall|i: int|
                main <= i < f ==> #[trigger] s1[i] == s2[i],
            None => forall|i: int| main <= i < len ==> #[trigger] s1[i] == s2[i],
        },
    ensures
        r == if panel == PanelCell::Absent {
            len as nat
        } else {
            po
        },
{
    match first {
        Some(f) => {
            assert(s1[f as int] != s2[f as int]);
            match panel {
                PanelCell::Absent | PanelCell::Plain => f,
                PanelCell::Braille => f - 1,
                PanelCell::Colored => f - 2,
            }
        },
        None => len,
    }
}

/// The sample row of `n` bytes 0x55 behind its offset column.
spec fn sample_tail(kind: LayoutKind, opts: Options, n: nat, color: bool) -> Seq<u8> {
    row(kind, opts, fill(n, 0x55), 0, color).skip(prefix_text(kind, opts, 0, color).len() as int)
}

/// Makes the sample row behind its offset column.
fn sample_rest(kind: LayoutKind, opts: &Options, n: usize, color: bool) -> (body: Vec<u8>)
    requires
        opts.wf(),
        opts.fits(),
    ensures
        body@ == sample_tail(kind, *opts, n as nat, color),
{
    let mut src: Vec<u8> = Vec::new();
    push_fill(&mut src, n, 0x55);
    let mut head: Vec<u8> = Vec::new();
    let skip: usize = write_prefix(&mut head, 0, kind, opts, color);
    let mut line: Vec<u8> = Vec::new();
    push_row(&mut line, kind, &src, 0, opts, color);
    proof {
        lemma_concat_empty(src@);
        lemma_concat_empty(fill(n as nat, 0x55));
        lemma_concat_empty(row(kind, *opts, fill(n as nat, 0x55), 0, color));
        lemma_row_prefix(kind, *opts, fill(n as nat, 0x55), 0, color);
    }
    let body: Vec<u8> = to_vec(vstd::slice::slice_subrange(line.as_slice(), skip, line.len()));
    assert(body@ =~= row(kind, *opts, fill(n as nat, 0x55), 0, color).skip(skip as int));
    body
}

/// Finds where the digits and the panel stand in rows whose characters differ in length: where
/// they stand in rows of ASCII characters.
fn places_of(
    opts: &Options,
    n: usize,
    kind: LayoutKind,
    color: bool,
    base: Vec<u8>,
) -> (l: RowLayout)
    requires
        opts.wf(),
        opts.fits(),
        0 < n,
        kind == LayoutKind::OutputLine ==> !diverts(*opts),
        shaped(kind, *opts, n as nat, color),
        main_slots(kind, *opts, n as nat, color).len() <= base@.len(),
    ensures
        l.count == n,
        l.base == base,
        l.panel == panel_kind(kind, *opts, color),
        l.panel_off == if l.panel == PanelCell::Absent {
            base@.len()
        } else {
            main_slots(kind, *opts, n as nat, color).len() + open_text(kind, *opts, color).len()
        },
        windows_at(
            l.windows@,
            digit_places(main_slots(kind, *opts, n as nat, color)),
            base@,
        ),
{
    let mut twin = big_endian_twin(opts);
    twin.table = CharTable::Ascii;
    proof {
        lemma_same_places(kind, *opts, twin, n as nat, color);
    }
    let plain = find_sample(&twin, n, kind, color);
    proof {
        lemma_found_places(plain.pairs@, main_slots(kind, twin, n as nat, color));
    }
    let windows: Vec<HexWin> = build_windows(&plain.pairs, &base);
    let panel: PanelCell = panel_of(kind, opts, color);
    let panel_off: usize = if panel == PanelCell::Absent {
        base.len()
    } else {
        plain.panel_off
    };
    RowLayout { base, windows, panel, panel_off, count: n }
}

/// Finds the template of rows that have one; `twin` has the same shape in big-endian order.
fn template_of(
    opts: &Options,
    twin: &Options,
    n: usize,
    kind: LayoutKind,
    color: bool,
) -> (l: RowLayout)
    requires
        opts.wf(),
        twin.wf(),
        twin.fits(),
        same_shape(*opts, *twin),
        twin.endian == Endian::Big,
        0 < n,
        patterned(kind, *opts, n as nat, color),
    ensures
        l.count == n,
        l.shows(kind, *opts, color),
        l.base@ == sample_tail(base_kind(kind, *opts), *twin, n as nat, color),
        l.panel == panel_kind(base_kind(kind, *opts), *opts, color),
        l.panel_off == panel_start(kind, *opts, n as nat, color, l.base@.len()),
        windows_at(l.windows@, row_places(kind, *opts, n as nat, color), l.base@),
{
    let k: LayoutKind = base_of(kind, opts);
    let l = layout_of(opts, twin, n, k, color);
    proof {
        let bytes = fill(n as nat, 0x55);
        let prefix = prefix_text(k, *twin, 0, color);
        lemma_same_places(k, *opts, *twin, n as nat, color);
        lemma_row_is_template(k, *twin, bytes, 0, color);
        assert((prefix + l.base@).skip(prefix.len() as int) =~= l.base@);
        if k != kind {
            reveal(body_text);
            lemma_diverted_template(*opts, n as nat, color);
            assert forall|src: Seq<u8>| src.len() == l.count implies #[trigger] l.text(
                src,
                shown_bytes(*opts, src),
                opts.uppercase,
            ) == body_text(kind, *opts, src, color) by {}
        }
    }
    l
}

/// The sample of the options and of a twin in big-endian order are one.
proof fn lemma_twin_sample(kind: LayoutKind, opts: Options, twin: Options, n: nat, color: bool)
    requires
        same_shape(opts, twin),
        twin.endian == Endian::Big,
    ensures
        sample_tail(base_kind(kind, opts), twin, n, color) == sample_row(kind, opts, n, color).skip(
            sample_prefix(kind, opts, color) as int,
        ),
        sample_prefix(kind, opts, color) <= sample_row(kind, opts, n, color).len(),
{
    let k = base_kind(kind, opts);
    lemma_same_row(k, big_endian(opts), twin, fill(n, 0x55), 0, color);
    lemma_sample_prefix(kind, opts, color);
    lemma_row_prefix(k, twin, fill(n, 0x55), 0, color);
}

/// Finds where digits stand in rows without a template; `twin` has the same shape in big-endian
/// order.
fn sample_of(
    opts: &Options,
    twin: &Options,
    n: usize,
    kind: LayoutKind,
    color: bool,
) -> (l: RowLayout)
    requires
        opts.wf(),
        opts.fits(),
        twin.wf(),
        twin.fits(),
        same_shape(*opts, *twin),
        twin.endian == Endian::Big,
        0 < n,
    ensures
        l.count == n,
        l.base@ == sample_tail(base_kind(kind, *opts), *twin, n as nat, color),
        l.panel == panel_kind(base_kind(kind, *opts), *opts, color),
        l.panel_off == panel_start(kind, *opts, n as nat, color, l.base@.len()),
        windows_at(l.windows@, row_places(kind, *opts, n as nat, color), l.base@),
{
    let k: LayoutKind = base_of(kind, opts);
    let base: Vec<u8> = sample_rest(k, twin, n, color);
    if has_shape(k, opts, n, color) {
        proof {
            lemma_same_places(k, *opts, *twin, n as nat, color);
            lemma_main_fits(k, *twin, fill(n as nat, 0x55), 0, color);
        }
        places_of(opts, n, k, color, base)
    } else {
        let panel: PanelCell = panel_of(k, opts, color);
        let panel_off: usize = base.len();
        RowLayout { base, windows: Vec::new(), panel, panel_off, count: n }
    }
}

/// Windows start inside the sample row.
proof fn lemma_windows_inside(ws: Seq<HexWin>, ps: Seq<int>, base: Seq<u8>)
    requires
        windows_at(ws, ps, base),
    ensures
        forall|w: int| 0 <= w < ws.len() ==> (#[trigger] ws[w]).off < base.len(),
{
    assert forall|w: int| 0 <= w < ws.len() implies (#[trigger] ws[w]).off < base.len() by {
        let q = window_first(ps, w);
        assert(window_at(ws[w], ps, q, window_last(ps, q, q), base));
    }
}

/// What the template of plain rows holds.
proof fn lemma_plain_template(l: RowLayout, opts: Options, color: bool)
    requires
        opts.wf(),
        is_plain(LayoutKind::Generic, opts),
        ({
            let n = opts.width as nat;
            let kind = LayoutKind::Generic;
            &&& l.base@.len() + sample_prefix(kind, opts, color) == sample_row(
                kind,
                opts,
                n,
                color,
            ).len()
            &&& l.panel_off == panel_start(kind, opts, n, color, l.base@.len())
            &&& windows_at(l.windows@, row_places(kind, opts, n, color), l.base@)
        }),
    ensures
        l.panel_off == 3 * opts.width + 3,
        l.base@.len() == l.panel_off + opts.width * char_text(opts.table, 0x55).len() + 2,
        opts.width == 16 ==> l.windows@.len() == 4,
{
    lemma_plain_layout(opts, color);
}

/// Finds the template of rows, or their sample alone where they have none.
fn find_layout(opts: &Options, n: usize, kind: LayoutKind, color: bool) -> (l: RowLayout)
    requires
        opts.wf(),
        opts.fits(),
        0 < n,
    ensures
        l.count == n,
        l.base@ == sample_row(kind, *opts, n as nat, color).skip(
            sample_prefix(kind, *opts, color) as int,
        ),
        sample_prefix(kind, *opts, color) <= sample_row(kind, *opts, n as nat, color).len(),
        l.panel == panel_kind(base_kind(kind, *opts), *opts, color),
        l.panel_off == panel_start(kind, *opts, n as nat, color, l.base@.len()),
        windows_at(l.windows@, row_places(kind, *opts, n as nat, color), l.base@),
        patterned(kind, *opts, n as nat, color) ==> l.shows(kind, *opts, color),
{
    let twin = big_endian_twin(opts);
    proof {
        lemma_twin_sample(kind, *opts, twin, n as nat, color);
    }
    if has_template(kind, opts, n, color) {
        template_of(opts, &twin, n, kind, color)
    } else {
        sample_of(opts, &twin, n, kind, color)
    }
}

/// Finds the template of the rows of `n` bytes of a kind, from a sample row without its offset
/// column. Rows whose digits or characters vary in length have the sample, but no template.
pub fn build_layout(opts: &Options, n: usize, kind: LayoutKind, color: bool) -> (l: RowLayout)
    requires
        opts.wf(),
        opts.fits(),
        0 < n,
    ensures
        l.count == n,
        l.base@ == sample_row(kind, *opts, n as nat, color).skip(
            sample_prefix(kind, *opts, color) as int,
        ),
        l.base@.len() + sample_prefix(kind, *opts, color) == sample_row(
            kind,
            *opts,
            n as nat,
            color,
        ).len(),
        l.panel == panel_kind(base_kind(kind, *opts), *opts, color),
        l.panel_off == panel_start(kind, *opts, n as nat, color, l.base@.len()),
        windows_at(l.windows@, row_places(kind, *opts, n as nat, color), l.base@),
        forall|w: int|
            0 <= w < l.windows@.len() ==> (#[trigger] l.windows@[w]).off < l.base@.len(),
        patterned(kind, *opts, n as nat, color) ==> l.shows(kind, *opts, color),
        is_plain(kind, *opts) && n == opts.width ==> l.panel_off == 3 * n + 3 && l.base@.len()
            == l.panel_off + n * char_text(opts.table, 0x55).len() + 2,
        is_plain(kind, *opts) && n == opts.width && n == 16 ==> l.windows@.len() == 4,
{
    let l = find_layout(opts, n, kind, color);
    proof {
        lemma_windows_inside(l.windows@, row_places(kind, *opts, n as nat, color), l.base@);
        if is_plain(kind, *opts) && n == opts.width {
            lemma_plain_template(l, *opts, color);
        }
    }
    l
}

// ---------------------------------------------------------------- filling in a row

/// The bytes in the order in which a row shows them.
fn show_bytes(opts: &Options, src: &[u8]) -> (r: Vec<u8>)
    requires
        opts.wf(),
    ensures
        r@ == shown_bytes(*opts, src@),
{
    let g: usize = match opts.mode {
        DisplayMode::TwoByteHex => if opts.group > 2 {
            opts.group
        } else {
            2
        },
        DisplayMode::Canonical => if opts.minimal {
            1
        } else {
            opts.group
        },
        _ => 1,
    };
    if opts.endian != Endian::Little || g <= 1 {
        return to_vec(src);
    }
    let mut r: Vec<u8> = Vec::with_capacity(src.len());
    for i in 0..src.len()
        invariant
            g == swap_group(*opts),
            opts.endian == Endian::Little,
            g > 1,
            r@ == shown_bytes(*opts, src@).take(i as int),
    {
        let within: usize = i % g;
        assert(within < g);
        assert(i / g * g == i - within) by (nonlinear_arith)
            requires
                within == i % g,
                g > 0,
        ;
        let start: usize = i - within;
        let b: u8 = if g - 1 - within < src.len() - start {
            src[start + (g - 1 - within)]
        } else {
            0
        };
        r.push(b);
        assert(r@ =~= shown_bytes(*opts, src@).take(i + 1));
    }
    assert(r@ =~= shown_bytes(*opts, src@));
    r
}

/// Lays one window over the row in `buf`.
fn lay_window(buf: &mut Vec<u8>, w: &HexWin, shown: &[u8], upper: bool)
    requires
        w.within(shown@.len()),
    ensures
        final(buf)@.len() == old(buf)@.len(),
        forall|p: int|
            0 <= p < old(buf)@.len() ==> #[trigger] final(buf)@[p] == if w.covers(p) {
                w.at(p - w.off, shown@, upper)
            } else {
                old(buf)@[p]
            },
{
    let ghost before = buf@;
    let len: usize = buf.len();
    let _n: usize = shown.len();
    for k in 0..16usize
        invariant
            len == buf@.len() == before.len(),
            w.within(shown@.len()),
            shown@.len() <= usize::MAX,
            forall|p: int|
                0 <= p < len ==> #[trigger] buf@[p] == if w.off <= p < w.off + k {
                    w.at(p - w.off, shown@, upper)
                } else {
                    before[p]
                },
    {
        if w.off < len && k < len - w.off {
            let i: i8 = w.idx[k];
            let b: u8 = if i >= 0 {
                assert(w.idx@[k as int] >= 0);
                let first: usize = w.block * 16 + if w.hi {
                    8
                } else {
                    0
                };
                let source: u8 = shown[first + (i as usize) / 2];
                if i % 2 == 0 {
                    digit_byte(source / 16, upper)
                } else {
                    digit_byte(source % 16, upper)
                }
            } else {
                w.sp[k]
            };
            buf.set(w.off + k, b);
        }
    }
}

/// Appends the panel's cells for the bytes `src`.
fn push_panel_cells(dst: &mut Vec<u8>, p: PanelCell, src: &[u8])
    ensures
        final(dst)@ == old(dst)@ + panel_cells(p, src@),
{
    let ghost before = dst@;
    proof {
        lemma_concat_empty(before);
    }
    for i in 0..src.len()
        invariant
            dst@ == before + panel_cells(p, src@.take(i as int)),
    {
        let ghost start = dst@;
        let b: u8 = src[i];
        match p {
            PanelCell::Absent => {
                proof {
                    lemma_concat_empty(start);
                }
            },
            PanelCell::Plain => {
                ascii_byte(b, CharTable::Ascii, dst);
            },
            PanelCell::Braille => {
                ascii_byte(b, CharTable::Braille, dst);
            },
            PanelCell::Colored => {
                let n: u8 = if b >= 0x20 && b <= 0x7e {
                    32
                } else {
                    90
                };
                push_escape(dst, n, true);
                ascii_byte(b, CharTable::Ascii, dst);
                push_reset(dst, true);
                proof {
                    lemma_concat3(
                        start,
                        escape(panel_color(b)),
                        char_text(CharTable::Ascii, b),
                        reset(),
                    );
                }
            },
        }
        proof {
            assert(dst@ == start + panel_cell(p, b));
            assert(src@.take(i + 1).drop_last() =~= src@.take(i as int));
            lemma_concat_assoc(before, panel_cells(p, src@.take(i as int)), panel_cell(p, b));
        }
    }
    assert(src@.take(src@.len() as int) =~= src@);
}

/// Appends a row made from its template.
pub fn format_row(
    dst: &mut Vec<u8>,
    src: &[u8],
    off: u64,
    kind: LayoutKind,
    opts: &Options,
    color: bool,
    layout: &RowLayout,
)
    requires
        opts.wf(),
        src@.len() == layout.count,
        patterned(kind, *opts, src@.len(), color),
        layout.shows(kind, *opts, color),
    ensures
        final(dst)@ == old(dst)@ + row(kind, *opts, src@, off, color),
{
    let ghost before = dst@;
    write_prefix(dst, off, kind, opts, color);
    let ghost prefixed = dst@;
    let shown: Vec<u8> = show_bytes(opts, src);
    let mut buf: Vec<u8> = to_vec(&layout.base);
    for w in 0..layout.windows.len()
        invariant
            layout.wf(),
            shown@.len() == layout.count,
            buf@.len() == layout.base@.len(),
            forall|p: int|
                0 <= p < buf@.len() ==> #[trigger] buf@[p] == laid(
                    layout.windows@,
                    w as int,
                    layout.base@,
                    p,
                    shown@,
                    opts.uppercase,
                ),
    {
        assert(layout.windows@[w as int].within(shown@.len()));
        lay_window(&mut buf, &layout.windows[w], &shown, opts.uppercase);
    }
    assert(buf@ =~= layout.digits(shown@, opts.uppercase));
    let step: usize = match layout.panel {
        PanelCell::Absent => 0,
        PanelCell::Plain => 1,
        PanelCell::Braille => 3,
        PanelCell::Colored => 10,
    };
    let _len: usize = buf.len();
    assert(0 <= step * layout.count) by (nonlinear_arith);
    let end: usize = layout.panel_off + step * layout.count;
    push_bytes(dst, vstd::slice::slice_subrange(buf.as_slice(), 0, layout.panel_off));
    push_panel_cells(dst, layout.panel, src);
    push_bytes(dst, vstd::slice::slice_subrange(buf.as_slice(), end, buf.len()));
    proof {
        let all = layout.digits(shown@, opts.uppercase);
        let body = layout.text(src@, shown@, opts.uppercase);
        assert(all.subrange(0, layout.panel_off as int) =~= all.take(layout.panel_off as int));
        assert(all.subrange(end as int, all.len() as int) =~= all.skip(end as int));
        lemma_concat3(
            prefixed,
            all.take(layout.panel_off as int),
            panel_cells(layout.panel, src@),
            all.skip(end as int),
        );
        assert(dst@ == prefixed + body);
        assert(body == body_text(kind, *opts, src@, color));
        lemma_row_is_template(kind, *opts, src@, off, color);
        lemma_concat_assoc(before, prefix_text(kind, *opts, off, color), body);
    }
}

/// Do the digits in rows of `n` bytes stand at the same places for all bytes?
pub fn has_shape(kind: LayoutKind, opts: &Options, n: usize, color: bool) -> (r: bool)
    requires
        opts.wf(),
    ensures
        r == shaped(kind, *opts, n as nat, color),
{
    let g: usize = if opts.group > 2 {
        opts.group
    } else {
        2
    };
    let size_ok: bool = match kind {
        LayoutKind::Scalar => opts.mode == DisplayMode::Canonical && opts.group == 1
            && !opts.minimal && !opts.uppercase && n <= 16,
        _ => n <= opts.width,
    };
    let mode_ok: bool = match opts.mode {
        DisplayMode::Canonical | DisplayMode::OneByteHex | DisplayMode::TwoByteHex => true,
        _ => false,
    };
    let colored: bool = kind == LayoutKind::OutputLine && !output_line_diverts(opts) && color;
    let color_ok: bool = !colored || opts.scheme == ColorScheme::Default;
    let order_ok: bool = opts.mode != DisplayMode::TwoByteHex || opts.endian != Endian::Little || n
        % g == 0;
    size_ok && mode_ok && color_ok && order_ok
}

/// Can rows of `n` bytes be made from a template?
pub fn has_template(kind: LayoutKind, opts: &Options, n: usize, color: bool) -> (r: bool)
    requires
        opts.wf(),
    ensures
        r == patterned(kind, *opts, n as nat, color),
{
    let colored: bool = kind == LayoutKind::OutputLine && !output_line_diverts(opts) && color;
    let table_ok: bool = opts.table == CharTable::Ascii || opts.table == CharTable::Braille
        && !colored;
    table_ok && has_shape(kind, opts, n, color)
}

/// How the rows of a dump are made: full rows from a template where there is one.
pub struct RowCfg<'a> {
    pub opts: &'a Options,
    pub full_kind: LayoutKind,
    pub tail_kind: LayoutKind,
    pub color: bool,
    pub full: Option<RowLayout>,
}

impl<'a> RowCfg<'a> {
    /// The template is that of the full rows.
    pub open spec fn wf(self) -> bool {
        &&& self.opts.wf()
        &&& self.opts.fits()
        &&& self.full matches Some(l) ==> l.count == self.opts.width && l.shows(
            self.full_kind,
            *self.opts,
            self.color,
        ) && patterned(self.full_kind, *self.opts, self.opts.width as nat, self.color)
    }

    /// The kind of a row of `n` bytes.
    pub open spec fn kind(self, n: nat) -> LayoutKind {
        if n == self.opts.width {
            self.full_kind
        } else {
            self.tail_kind
        }
    }

    /// Prepares the rows of a dump whose last row may be short.
    pub fn new(
        opts: &'a Options,
        full_kind: LayoutKind,
        tail_kind: LayoutKind,
        color: bool,
    ) -> (r: Self)
        requires
            opts.wf(),
            opts.fits(),
        ensures
            r.wf(),
            r.opts == opts,
            r.full_kind == full_kind,
            r.tail_kind == tail_kind,
            r.color == color,
    {
        let full: Option<RowLayout> = if has_template(full_kind, opts, opts.width, color) {
            Some(build_layout(opts, opts.width, full_kind, color))
        } else {
            None
        };
        RowCfg { opts, full_kind, tail_kind, color, full }
    }

    /// The length of the offset column of a full row, given the number of digits of its offset.
    pub fn prefix_len(&self, field_len: usize) -> (n: usize)
        requires
            field_len <= 64,
        ensures
            n == prefix_length(self.full_kind, *self.opts, self.color, field_len as nat),
    {
        let opts: &Options = self.opts;
        let generic: bool = match self.full_kind {
            LayoutKind::Generic => true,
            LayoutKind::OutputLine => output_line_diverts(opts),
            LayoutKind::Scalar => false,
        };
        if opts.no_position {
            return 0;
        }
        if generic && opts.minimal && opts.mode == DisplayMode::Canonical {
            return field_len + 1;
        }
        let tinted: usize = if !generic && self.color {
            9
        } else {
            0
        };
        let bar_len: usize = match opts.border {
            BorderStyle::Off => {
                return tinted + field_len + 2;
            },
            BorderStyle::Ascii => 1,
            BorderStyle::Unicode => 3,
        };
        let pos_w: usize = if opts.offset_dec {
            21
        } else {
            17
        };
        tinted + bar_len + if field_len + 1 > pos_w {
            field_len + 1
        } else {
            pos_w
        }
    }

    /// Appends the row of the bytes `src`.
    pub fn push(&self, dst: &mut Vec<u8>, src: &[u8], off: u64)
        requires
            self.wf(),
        ensures
            final(dst)@ == old(dst)@ + row(
                self.kind(src@.len()),
                *self.opts,
                src@,
                off,
                self.color,
            ),
    {
        if src.len() == self.opts.width {
            match &self.full {
                Some(layout) => {
                    format_row(dst, src, off, self.full_kind, self.opts, self.color, layout);
                },
                None => {
                    push_row(dst, self.full_kind, src, off, self.opts, self.color);
                },
            }
        } else {
            push_row(dst, self.tail_kind, src, off, self.opts, self.color);
        }
    }
}

} // verus!
