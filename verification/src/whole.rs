//! Dumps as wholes: how the dump of some bytes is made up of those of its parts, which rows are
//! left out, and what stands below the rows.

use crate::border::{columns, edge_line, head_text, Edge};
use crate::bytes::{lemma_concat_assoc, lemma_concat_empty};
use crate::dump::{
    dump_text, footer_text, halted, lemma_line_limit, lemma_offset_add, lemma_row_ends,
    lemma_rows_join, lines_written, memory_rows, offset_at, plain_settings, planned, planned_stream,
    row_bytes, rows_text, serial_text, simd_eligible, started, stream_footer, stream_rows,
    tail_bytes, tail_text, walk_state, walk_text, Plan, ProgressView, Style,
};
use crate::options::{BorderStyle, CharTable, ColorScheme, DisplayMode, Options};
use crate::read::{in_case, lemma_offset_value, reads};
use crate::row::{offset_text, row, LayoutKind};
use crate::stream::{closing_text, fed, has_rest, limited, opened, stream_start, stream_text};
use vstd::prelude::*;

verus! {

// ---------------------------------------------------------------- dumps of parts

/// A row's place: what the offset of a byte is, `n` bytes after `start`.
pub open spec fn is_after(start: u64, n: int, off: u64) -> bool {
    &&& start + n <= u64::MAX ==> off == start + n
    &&& (start + n - off) % 0x1_0000_0000_0000_0000 == 0
}

/// A dump of up to one row is that row between what stands above and below.
#[verifier::rlimit(50)]
pub proof fn lemma_one_row(opts: Options, style: Style, start: u64, data: Seq<u8>)
    requires
        opts.wf(),
        0 < data.len() <= opts.width,
    ensures
        dump_text(opts, style, start, data) == head_text(opts) + row(
            if data.len() == opts.width {
                style.full
            } else {
                style.tail
            },
            opts,
            data,
            start,
            style.color,
        ) + footer_text(opts, style.color, offset_at(start, data.len() as int)),
        is_after(start, data.len() as int, offset_at(start, data.len() as int)),
{
    let w = opts.width as int;
    let h = head_text(opts);
    let none = Seq::<u8>::empty();
    let f = footer_text(opts, style.color, offset_at(start, data.len() as int));
    if data.len() < w {
        assert(data.len() as int / w == 0) by (nonlinear_arith)
            requires
                0 <= data.len() < w,
        ;
        assert(0 * w == 0);
        assert(rows_text(opts, style, start, data, 0, 0) =~= none);
        assert(tail_bytes(data, w) =~= data);
        lemma_concat_empty(h);
        assert(h + none =~= h);
    } else {
        assert(data.len() as int / w == 1) by (nonlinear_arith)
            requires
                data.len() == w,
                w > 0,
        ;
        assert(1 * w == w);
        assert(0 * w == 0);
        assert(row_bytes(data, w, 0) =~= data);
        let r = row(style.full, opts, data, start, style.color);
        reveal_with_fuel(rows_text, 2);
        assert(rows_text(opts, style, start, data, 0, 0) =~= none);
        assert(rows_text(opts, style, start, data, 0, 1) =~= r);
        assert(tail_bytes(data, w) =~= none);
        assert((h + r) + none =~= h + r);
    }
}

/// The rows of a dump, without what stands above and below.
spec fn inner(opts: Options, style: Style, start: u64, data: Seq<u8>) -> Seq<u8> {
    let rows = data.len() as int / opts.width as int;
    rows_text(opts, style, start, data, 0, rows) + tail_text(
        opts,
        style,
        data,
        offset_at(start, rows * opts.width),
    )
}

proof fn lemma_inner(opts: Options, style: Style, start: u64, data: Seq<u8>)
    ensures
        dump_text(opts, style, start, data) == head_text(opts) + inner(opts, style, start, data)
            + footer_text(opts, style.color, offset_at(start, data.len() as int)),
{
    let rows = data.len() as int / opts.width as int;
    lemma_concat_assoc(
        head_text(opts),
        rows_text(opts, style, start, data, 0, rows),
        tail_text(opts, style, data, offset_at(start, rows * opts.width)),
    );
}

/// The rows of the first part are rows of the whole.
proof fn lemma_first_rows(
    opts: Options,
    style: Style,
    start: u64,
    a: Seq<u8>,
    b: Seq<u8>,
    k: int,
)
    requires
        0 <= k,
        k * opts.width <= a.len(),
    ensures
        rows_text(opts, style, start, a + b, 0, k) == rows_text(opts, style, start, a, 0, k),
    decreases k,
{
    if k > 0 {
        let w = opts.width as int;
        assert((k - 1) * w + w == k * w) by (nonlinear_arith);
        assert((k - 1) * w >= 0) by (nonlinear_arith)
            requires
                k >= 1,
                w >= 0,
        ;
        lemma_first_rows(opts, style, start, a, b, k - 1);
        assert(row_bytes(a + b, w, k - 1) =~= row_bytes(a, w, k - 1));
    }
}

/// The rows of the second part, behind `k` rows, are rows of the whole.
proof fn lemma_second_rows(
    opts: Options,
    style: Style,
    start: u64,
    a: Seq<u8>,
    b: Seq<u8>,
    k: int,
    n: int,
)
    requires
        0 <= k,
        0 <= n,
        a.len() == k * opts.width,
        n * opts.width <= b.len(),
    ensures
        rows_text(opts, style, start, a + b, k, k + n) == rows_text(
            opts,
            style,
            offset_at(start, a.len() as int),
            b,
            0,
            n,
        ),
    decreases n,
{
    if n > 0 {
        let w = opts.width as int;
        assert((n - 1) * w + w == n * w) by (nonlinear_arith);
        lemma_second_rows(opts, style, start, a, b, k, n - 1);
        assert((k + n - 1) * w == k * w + (n - 1) * w) by (nonlinear_arith);
        assert((n - 1) * w >= 0) by (nonlinear_arith)
            requires
                n >= 1,
                w >= 0,
        ;
        assert(row_bytes(a + b, w, k + n - 1) =~= row_bytes(b, w, n - 1));
        lemma_offset_add(start, a.len() as int, (n - 1) * w);
    }
}

/// A dump of some rows and of more bytes behind them holds the rows of the dump of the first part
/// and then those of the second part at the offset it has there, between what stands above and
/// below. The three parts are given back: the first rows, the further ones, and what stands below
/// the first part alone.
#[verifier::rlimit(50)]
pub proof fn lemma_dump_parts(
    opts: Options,
    style: Style,
    start: u64,
    a: Seq<u8>,
    b: Seq<u8>,
) -> (parts: (Seq<u8>, Seq<u8>))
    requires
        opts.wf(),
        a.len() % opts.width as nat == 0,
    ensures
        ({
            let (first, more) = parts;
            let mid = offset_at(start, a.len() as int);
            let end = offset_at(start, (a + b).len() as int);
            let h = head_text(opts);
            &&& is_after(start, a.len() as int, mid)
            &&& is_after(start, (a + b).len() as int, end)
            &&& dump_text(opts, style, start, a) == h + first + footer_text(opts, style.color, mid)
            &&& dump_text(opts, style, mid, b) == h + more + footer_text(opts, style.color, end)
            &&& dump_text(opts, style, start, a + b) == h + (first + more) + footer_text(
                opts,
                style.color,
                end,
            )
        }),
{
    let w = opts.width as int;
    let k = a.len() as int / w;
    let n = b.len() as int / w;
    let data = a + b;
    let mid = offset_at(start, a.len() as int);
    let none = Seq::<u8>::empty();
    assert(a.len() == k * w) by (nonlinear_arith)
        requires
            a.len() as int % w == 0,
            k == a.len() as int / w,
            w > 0,
    ;
    assert(k >= 0 && n >= 0 && n * w <= b.len()) by (nonlinear_arith)
        requires
            w > 0,
            k == a.len() as int / w,
            n == b.len() as int / w,
    ;
    assert(data.len() as int / w == k + n) by (nonlinear_arith)
        requires
            w > 0,
            data.len() == k * w + b.len(),
            n == b.len() as int / w,
    ;
    assert((k + n) * w == k * w + n * w) by (nonlinear_arith);
    lemma_first_rows(opts, style, start, a, b, k);
    lemma_second_rows(opts, style, start, a, b, k, n);
    lemma_rows_join(opts, style, start, data, 0, k, k + n);
    lemma_offset_add(start, a.len() as int, b.len() as int);
    lemma_offset_add(start, a.len() as int, n * w);
    assert(tail_bytes(data, w) =~= tail_bytes(b, w));
    assert(tail_bytes(a, w) =~= none);
    lemma_inner(opts, style, start, a);
    lemma_inner(opts, style, mid, b);
    lemma_inner(opts, style, start, data);
    let first = rows_text(opts, style, start, a, 0, k);
    assert(inner(opts, style, start, a) =~= first);
    lemma_concat_assoc(
        first,
        rows_text(opts, style, mid, b, 0, n),
        tail_text(opts, style, b, offset_at(mid, n * w)),
    );
    (first, inner(opts, style, mid, b))
}

// ---------------------------------------------------------------- rows that are left out

/// Is row `k` of `data` the same as that before it?
pub open spec fn same_as_before(data: Seq<u8>, width: int, k: int) -> bool {
    k > 0 && data.subrange(k * width, k * width + width) == data.subrange(
        k * width - width,
        k * width,
    )
}

/// What is remembered of the rows before.
#[verifier::rlimit(50)]
proof fn lemma_walked(opts: Options, style: Style, start: u64, data: Seq<u8>, k: nat)
    requires
        opts.wf(),
        k * opts.width <= data.len(),
    ensures
        ({
            let p = walk_state(opts, started(start), data, k);
            let w = opts.width as int;
            &&& opts.max_lines matches Some(m) ==> p.lines == lines_written(
                opts,
                style,
                started(start),
                data,
                k,
            )
            &&& !halted(opts, p) ==> {
                &&& p.offset == offset_at(start, k * w)
                &&& opts.squeeze && k > 0 ==> p.prev == row_bytes(data, w, k - 1)
                &&& opts.squeeze && k == 0 ==> p.prev.len() == 0
                &&& p.squeezed == (opts.squeeze && same_as_before(data, w, k - 1))
            }
        }),
    decreases k,
{
    let w = opts.width as int;
    if k == 0 {
        assert(k * w == 0) by (nonlinear_arith)
            requires
                k == 0,
        ;
    } else {
        let j = (k - 1) as nat;
        assert(j * w + w == k * w) by (nonlinear_arith)
            requires
                k == j + 1,
        ;
        assert(j * w >= 0) by (nonlinear_arith)
            requires
                w >= 0,
                j >= 0,
        ;
        lemma_walked(opts, style, start, data, j);
        let p = walk_state(opts, started(start), data, j);
        let src = row_bytes(data, w, j as int);
        lemma_row_ends(style.full, opts, src, p.offset, style.color);
        lemma_offset_add(start, j * w, w);
        match opts.max_lines {
            Some(m) => {
                lemma_line_limit(opts, style, start, data, k, m);
            },
            None => {},
        }
        if j > 0 {
            assert((j - 1) * w == j * w - w) by (nonlinear_arith);
            assert(row_bytes(data, w, j - 1) == data.subrange(j * w - w, j * w));
        } else {
            assert(src.len() == w);
        }
    }
}

/// What one more row adds to a dump. Once as many lines stand there as are asked for, nothing. A
/// row is left out only where identical rows are to be, and only where its bytes are those of the
/// row before it; the first such row leaves a star on a line of its own, further ones leave
/// nothing. Every other row is written with its bytes, at its offset.
#[verifier::rlimit(50)]
pub proof fn lemma_row_added(opts: Options, style: Style, start: u64, data: Seq<u8>, k: nat)
    requires
        opts.wf(),
        k * opts.width + opts.width <= data.len(),
    ensures
        ({
            let w = opts.width as int;
            let off = offset_at(start, k * w);
            let before = walk_text(opts, style, started(start), data, k);
            &&& is_after(start, k * w, off)
            &&& walk_text(opts, style, started(start), data, k + 1) == before + (
            if (opts.max_lines matches Some(m) && lines_written(
                opts,
                style,
                started(start),
                data,
                k,
            ) >= m) {
                seq![]
            } else if !opts.squeeze || !same_as_before(data, w, k as int) {
                row(
                    style.full,
                    opts,
                    data.subrange(k * w, k * w + w),
                    off,
                    style.color,
                )
            } else if same_as_before(data, w, k - 1) {
                seq![]
            } else {
                seq![0x2au8, 0x0a]
            })
        }),
{
    let w = opts.width as int;
    lemma_walked(opts, style, start, data, k);
    assert((k - 1) * w == k * w - w) by (nonlinear_arith);
    assert(k * w >= 0) by (nonlinear_arith)
        requires
            w >= 0,
            k >= 0,
    ;
    let p = walk_state(opts, started(start), data, k);
    let src = row_bytes(data, w, k as int);
    if k == 0 {
        assert(src.len() == w);
    }
    assert(p.prev == src || p.prev != src);
}

/// A dump with rows left out stands between what stands above and below any dump, and its short
/// last row is written unless as many lines stand there as are asked for.
#[verifier::rlimit(50)]
pub proof fn lemma_serial_parts(opts: Options, style: Style, start: u64, data: Seq<u8>, k: nat)
    requires
        opts.wf(),
        k * opts.width <= data.len() < k * opts.width + opts.width,
    ensures
        ({
            let w = opts.width as int;
            let h = head_text(opts);
            let walked = walk_text(opts, style, started(start), data, k);
            let full = opts.max_lines matches Some(m) && lines_written(
                opts,
                style,
                started(start),
                data,
                k,
            ) >= m;
            let rest = data.skip(k * w);
            let f = footer_text(opts, style.color, offset_at(start, data.len() as int));
            &&& is_after(start, data.len() as int, offset_at(start, data.len() as int))
            &&& is_after(start, k * w, offset_at(start, k * w))
            &&& serial_text(opts, style, start, data) == if full || rest.len() == 0 {
                h + walked + f
            } else {
                h + walked + row(style.tail, opts, rest, offset_at(start, k * w), style.color) + f
            }
        }),
{
    let w = opts.width as int;
    assert(data.len() / opts.width as nat == k) by (nonlinear_arith)
        requires
            k * opts.width <= data.len() < k * opts.width + opts.width,
    ;
    lemma_walked(opts, style, start, data, k);
    let walked = walk_text(opts, style, started(start), data, k);
    let h = head_text(opts);
    assert(data.len() as int / w * w == k * w);
    lemma_concat_empty(h + walked);
}

// ---------------------------------------------------------------- below the rows

/// Without a border, the offset behind the last byte stands below the rows, on a line of its own.
pub proof fn lemma_footer_offset(opts: Options, off: u64) -> (t: Seq<u8>)
    requires
        opts.border == BorderStyle::Off,
        !opts.no_position,
    ensures
        footer_text(opts, false, off) == t + seq![0x0au8],
        footer_text(opts, true, off) == seq![0x1bu8, 0x5b, 0x33, 0x36, 0x6d] + t + seq![
            0x1bu8,
            0x5b,
            0x30,
            0x6d,
            0x0a,
        ],
        stream_footer(opts, false, off) == footer_text(opts, false, off),
        stream_footer(opts, true, off) == footer_text(opts, true, off),
        t.len() >= 8,
        t.len() > 8 ==> t[0] != 0x30,
        reads(
            t,
            if opts.offset_dec {
                10
            } else {
                16
            },
            off as nat,
        ),
        in_case(t, opts.uppercase),
{
    let t = offset_text(off, opts.offset_dec, opts.uppercase);
    lemma_offset_value(off, opts.offset_dec, opts.uppercase);
    assert(footer_text(opts, false, off) =~= t + seq![0x0au8]);
    assert(footer_text(opts, true, off) =~= seq![0x1bu8, 0x5b, 0x33, 0x36, 0x6d] + t + seq![
        0x1bu8,
        0x5b,
        0x30,
        0x6d,
        0x0a,
    ]);
    lemma_concat_empty(footer_text(opts, false, off));
    lemma_concat_empty(footer_text(opts, true, off));
    t
}

/// Without a border nothing stands above the rows, and without offsets nothing below them.
pub proof fn lemma_bare(opts: Options, color: bool, off: u64)
    requires
        opts.border == BorderStyle::Off,
    ensures
        head_text(opts).len() == 0,
        opts.no_position ==> footer_text(opts, color, off).len() == 0,
        opts.no_position ==> stream_footer(opts, color, off).len() == 0,
{
}

/// Within a border, the line that closes it stands below the rows; a stream's offset stands above
/// that line.
pub proof fn lemma_footer_border(opts: Options, color: bool, off: u64)
    requires
        opts.border != BorderStyle::Off,
    ensures
        ({
            let open = Options { border: BorderStyle::Off, ..opts };
            let last = edge_line(Edge::Bottom, columns(opts), opts.border);
            &&& footer_text(opts, color, off) == last
            &&& stream_footer(opts, color, off) == footer_text(open, color, off) + last
        }),
{
}

// ---------------------------------------------------------------- streams

/// Of a stream no more bytes are shown than asked for, from its first on, and fewer only where it
/// ends.
pub proof fn lemma_limited(length: Option<u64>, data: Seq<u8>)
    ensures
        ({
            let s = limited(length, data);
            &&& s.len() <= data.len()
            &&& forall|i: int| 0 <= i < s.len() ==> #[trigger] s[i] == data[i]
            &&& length is None ==> s.len() == data.len()
            &&& length matches Some(n) ==> s.len() <= n && (s.len() < n ==> s.len() == data.len())
        }),
{
}

/// The first offset of a stream is the number of bytes left out before it, moved by the jump. A
/// count from the end leaves nothing out.
pub proof fn lemma_stream_start(opts: Options)
    ensures
        opts.skip >= 0 && 0 <= opts.skip + opts.jump ==> stream_start(opts) == opts.skip
            + opts.jump,
        opts.skip < 0 && opts.jump >= 0 ==> stream_start(opts) == opts.jump,
        opts.skip >= 0 && opts.skip + opts.jump < 0 ==> stream_start(opts) - opts.skip - opts.jump
            == 0x1_0000_0000_0000_0000,
        opts.skip < 0 && opts.jump < 0 ==> stream_start(opts) - opts.jump
            == 0x1_0000_0000_0000_0000,
{
}

/// Below a stream stands the offset behind the last byte shown: all of them, or those of the rows
/// before the limit on lines was reached.
#[verifier::rlimit(50)]
pub proof fn lemma_stream_end(opts: Options, style: Style, data: Seq<u8>, k: nat)
    requires
        opts.wf(),
        k * opts.width <= data.len() < k * opts.width + opts.width,
    ensures
        ({
            let w = opts.width as int;
            let start = stream_start(opts);
            let walked = walk_text(opts, style, started(start), data, k);
            let rest = data.skip(k * w);
            let s = stream_text(opts, style, data);
            let full = opts.max_lines matches Some(m) && lines_written(
                opts,
                style,
                started(start),
                data,
                k,
            ) >= m;
            let end = offset_at(start, data.len() as int);
            !full ==> is_after(start, data.len() as int, end) && s == if rest.len() == 0 {
                head_text(opts) + walked + stream_footer(opts, style.color, end)
            } else {
                head_text(opts) + walked + (row(
                    style.tail,
                    opts,
                    rest,
                    offset_at(start, k * w),
                    style.color,
                ) + stream_footer(opts, style.color, end))
            }
        }),
{
    let w = opts.width as int;
    let start = stream_start(opts);
    assert(data.len() / opts.width as nat == k) by (nonlinear_arith)
        requires
            k * opts.width <= data.len() < k * opts.width + opts.width,
    ;
    let first = opened(opts);
    assert(first.carry + data =~= data);
    lemma_walked(opts, style, start, data, k);
    assert(data.len() as int / w * w == k * w);
    lemma_offset_add(start, k * w, data.len() - k * w);
    let f = stream_footer(opts, style.color, offset_at(start, data.len() as int));
    let none = Seq::<u8>::empty();
    assert(none + f =~= f);
}

/// Once the limit has been reached, rows change nothing.
proof fn lemma_walk_stops(opts: Options, style: Style, p: ProgressView, data: Seq<u8>, r: nat, k: nat)
    requires
        r <= k,
        halted(opts, walk_state(opts, p, data, r)),
    ensures
        walk_state(opts, p, data, k) == walk_state(opts, p, data, r),
        walk_text(opts, style, p, data, k) == walk_text(opts, style, p, data, r),
    decreases k,
{
    if r < k {
        lemma_walk_stops(opts, style, p, data, r, (k - 1) as nat);
        lemma_concat_empty(walk_text(opts, style, p, data, r));
    }
}

/// Where the limit on lines is reached with row `r - 1`, nothing of a stream is shown behind that
/// row, and the offset below the rows is that behind it.
#[verifier::rlimit(50)]
pub proof fn lemma_stream_limit(opts: Options, style: Style, data: Seq<u8>, r: nat, limit: u64)
    requires
        opts.wf(),
        opts.max_lines == Some(limit),
        r * opts.width <= data.len(),
        lines_written(opts, style, started(stream_start(opts)), data, r) >= limit,
        r > 0 ==> lines_written(
            opts,
            style,
            started(stream_start(opts)),
            data,
            (r - 1) as nat,
        ) < limit,
    ensures
        ({
            let start = stream_start(opts);
            let end = offset_at(start, r * opts.width);
            &&& is_after(start, r * opts.width, end)
            &&& stream_text(opts, style, data) == head_text(opts) + walk_text(
                opts,
                style,
                started(start),
                data,
                r,
            ) + stream_footer(opts, style.color, end)
        }),
{
    lemma_limit_offset(opts, style, stream_start(opts), data, r, limit);
    lemma_stream_halted(opts, style, data, r);
}

/// The state with which the limit is reached.
proof fn lemma_limit_offset(
    opts: Options,
    style: Style,
    start: u64,
    data: Seq<u8>,
    r: nat,
    limit: u64,
)
    requires
        opts.wf(),
        opts.max_lines == Some(limit),
        r * opts.width <= data.len(),
        lines_written(opts, style, started(start), data, r) >= limit,
        r > 0 ==> lines_written(opts, style, started(start), data, (r - 1) as nat) < limit,
    ensures
        halted(opts, walk_state(opts, started(start), data, r)),
        walk_state(opts, started(start), data, r).offset == offset_at(start, r * opts.width),
{
    let w = opts.width as int;
    lemma_line_limit(opts, style, start, data, r, limit);
    if r == 0 {
        assert(r * w == 0) by (nonlinear_arith)
            requires
                r == 0,
        ;
    } else {
        let j = (r - 1) as nat;
        assert(j * w + w == r * w) by (nonlinear_arith)
            requires
                r == j + 1,
        ;
        lemma_walked(opts, style, start, data, j);
        lemma_line_limit(opts, style, start, data, j, limit);
        lemma_offset_add(start, j * w, w);
    }
}

/// A stream that is shown no further ends with what stands below its rows.
proof fn lemma_stream_halted(opts: Options, style: Style, data: Seq<u8>, r: nat)
    requires
        opts.wf(),
        r * opts.width <= data.len(),
        halted(opts, walk_state(opts, started(stream_start(opts)), data, r)),
    ensures
        stream_text(opts, style, data) == head_text(opts) + walk_text(
            opts,
            style,
            started(stream_start(opts)),
            data,
            r,
        ) + stream_footer(
            opts,
            style.color,
            walk_state(opts, started(stream_start(opts)), data, r).offset,
        ),
{
    let w = opts.width as int;
    let start = stream_start(opts);
    let rows = data.len() / opts.width as nat;
    assert(r <= rows) by (nonlinear_arith)
        requires
            r * w <= data.len(),
            w > 0,
            rows == data.len() as int / w,
    ;
    let first = opened(opts);
    assert(first.carry + data =~= data);
    lemma_walk_stops(opts, style, started(start), data, r, rows);
    let s = fed(opts, first, data);
    assert(s.progress == walk_state(opts, started(start), data, r));
    assert(!has_rest(opts, s));
    let f = stream_footer(opts, style.color, s.progress.offset);
    assert(closing_text(opts, style, s) == f) by {
        assert(Seq::<u8>::empty() + f =~= f);
    }
}

// ---------------------------------------------------------------- what is made of a file

/// Nothing is written for no bytes. The mode decides before formats do, and formats before the
/// limits on rows.
pub proof fn lemma_planned(opts: Options, len: int)
    ensures
        planned(opts, len) == Plan::Nothing <==> len == 0,
        planned(opts, len) == Plan::Plain <==> len != 0 && opts.mode == DisplayMode::Plain,
        planned(opts, len) == Plan::CInclude <==> len != 0 && opts.mode == DisplayMode::CInclude,
        planned(opts, len) == Plan::Custom <==> len != 0 && opts.mode != DisplayMode::Plain
            && opts.mode != DisplayMode::CInclude && opts.formats@.len() > 0,
        planned(opts, len) == Plan::Parallel ==> !opts.squeeze && opts.max_lines is None,
        planned(opts, len) == Plan::Serial ==> opts.squeeze || opts.max_lines is Some,
        planned_stream(opts) == planned(opts, 1) || planned_stream(opts) == Plan::Serial && planned(
            opts,
            1,
        ) == Plan::Parallel,
{
}

/// Compact rows are compact in a dump of a file as in one of a stream. Other rows are aligned where
/// there is color, and in a file on every machine.
pub proof fn lemma_rows_chosen(opts: Options, color: bool, simd: bool)
    ensures
        memory_rows(opts, color, simd).color == color,
        stream_rows(opts, color, simd).color == color,
        opts.minimal ==> memory_rows(opts, color, simd).full == LayoutKind::Generic
            && memory_rows(opts, color, simd).tail == LayoutKind::Generic && stream_rows(
            opts,
            color,
            simd,
        ) == memory_rows(opts, color, simd),
        !opts.minimal && color ==> memory_rows(opts, color, simd).full == LayoutKind::OutputLine
            && memory_rows(opts, color, simd).tail == LayoutKind::OutputLine && stream_rows(
            opts,
            color,
            simd,
        ) == memory_rows(opts, color, simd),
        !opts.minimal ==> memory_rows(opts, color, false).full == LayoutKind::OutputLine
            && memory_rows(opts, color, false).tail == LayoutKind::OutputLine,
        !opts.minimal && opts.border != BorderStyle::Off && opts.mode == DisplayMode::Canonical && (
        opts.table == CharTable::Ascii || opts.table == CharTable::Braille) && opts.formats@.len()
            == 0 ==> stream_rows(opts, color, simd) == memory_rows(opts, color, false),
        !opts.minimal && !color && opts.border == BorderStyle::Off && opts.width != 16
            ==> stream_rows(opts, color, simd).full == LayoutKind::Generic && stream_rows(
            opts,
            color,
            simd,
        ).tail == LayoutKind::Generic,
        !opts.minimal && !color && opts.mode != DisplayMode::Canonical ==> stream_rows(
            opts,
            color,
            simd,
        ).full == LayoutKind::Generic && stream_rows(opts, color, simd).tail == LayoutKind::Generic,
{
}

/// Vector instructions suit canonical rows of ASCII or Braille characters without formats; in color
/// only those of ASCII with a panel, in the default colors and without a border.
pub proof fn lemma_simd_suits(opts: Options)
    ensures
        simd_eligible(opts, true) ==> simd_eligible(opts, false),
        simd_eligible(opts, false) ==> opts.mode == DisplayMode::Canonical && opts.formats@.len()
            == 0,
        simd_eligible(opts, false) && opts.table != CharTable::Ascii ==> opts.table
            == CharTable::Braille && !simd_eligible(opts, true),
        simd_eligible(opts, false) && (opts.no_ascii || opts.border != BorderStyle::Off
            || opts.scheme != ColorScheme::Default) ==> !simd_eligible(opts, true),
        opts.mode == DisplayMode::Canonical && opts.formats@.len() == 0 && (opts.table
            == CharTable::Ascii || opts.table == CharTable::Braille) ==> simd_eligible(opts, false),
        opts.mode == DisplayMode::Canonical && opts.formats@.len() == 0 && opts.table
            == CharTable::Ascii && !opts.no_ascii && opts.border == BorderStyle::Off && opts.scheme
            == ColorScheme::Default ==> simd_eligible(opts, true),
        plain_settings(opts) ==> simd_eligible(opts, false),
{
}

} // verus!
