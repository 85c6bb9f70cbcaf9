//! Dumps of a stream, whose bytes arrive in pieces.

use crate::border::{head_text, push_head};
use crate::bytes::{lemma_concat_assoc, lemma_concat_empty, push_bytes, to_vec};
use crate::custom::{custom_dump, first_lines, limit_lines, run_custom_format};
use crate::dump::{
    advance, display_start, dump_text, footer_text, halted, lemma_machine_walk, lemma_offset_add,
    lemma_serial_all, lemma_tail, lemma_walk_split, memory_rows, offset_at, plain_settings,
    push_stream_footer, row_bytes, serial_text, started, stream_footer, stream_rows, stream_style,
    style_of, tail_bytes, tail_text, walk_rows, walk_state, walk_text, Progress, ProgressView,
    Style,
};
use crate::layout::RowCfg;
use crate::options::{BorderStyle, Options};
use crate::row::{row, LayoutKind};
use crate::text::texts;
use vstd::prelude::*;

verus! {

/// The state of a dump between two pieces.
pub struct Stream {
    pub progress: Progress,
    /// The bytes that do not fill a row yet.
    pub carry: Vec<u8>,
    /// The number of bytes read.
    pub total: u64,
}

/// The state of a dump between two pieces.
pub struct StreamView {
    pub progress: ProgressView,
    pub carry: Seq<u8>,
    pub total: int,
}

impl View for Stream {
    type V = StreamView;

    open spec fn view(&self) -> StreamView {
        StreamView { progress: self.progress@, carry: self.carry@, total: self.total as int }
    }
}

/// The offset displayed for the first byte. A count from the end leaves out nothing until the end
/// is known.
pub open spec fn stream_start(opts: Options) -> u64 {
    offset_at(
        0,
        (if opts.skip < 0 {
            0
        } else {
            opts.skip as int
        }) + opts.jump,
    )
}

/// The offset displayed for the first byte.
pub fn first_offset(opts: &Options) -> (r: u64)
    ensures
        r == stream_start(*opts),
        opts.skip >= 0 && opts.skip + opts.jump >= 0 ==> r == opts.skip + opts.jump,
        opts.skip < 0 && opts.jump >= 0 ==> r == opts.jump,
{
    let skip: u64 = if opts.skip < 0 {
        0
    } else {
        opts.skip as u64
    };
    display_start(skip, opts.jump)
}

/// The state before the first piece.
pub open spec fn opened(opts: Options) -> StreamView {
    StreamView { progress: started(stream_start(opts)), carry: seq![], total: 0 }
}

/// The number of bytes that may still be read after `total`, with room for `room`.
pub open spec fn within_limit(length: Option<u64>, total: int, room: int) -> int {
    match length {
        Some(lim) => if lim <= total {
            0
        } else if lim - total < room {
            lim - total
        } else {
            room
        },
        None => room,
    }
}

/// The number of bytes that may still be read after `total`, with room for `room`.
pub fn read_limit(length: Option<u64>, total: u64, room: usize) -> (n: usize)
    ensures
        n == within_limit(length, total as int, room as int),
        n <= room,
        length is None ==> n == room,
        // up to the limit and no further, and less than there is room for only at the limit
        length matches Some(lim) ==> (n > 0 ==> total + n <= lim) && (n < room ==> total + n >= lim),
{
    match length {
        Some(lim) => {
            if lim <= total {
                0
            } else if lim - total < room as u64 {
                (lim - total) as usize
            } else {
                room
            }
        },
        None => room,
    }
}

/// The number of bytes to ask for, with room for `room`; nothing more is read where it is zero.
pub open spec fn wanted_bytes(opts: Options, s: StreamView, room: int) -> int {
    if halted(opts, s.progress) {
        0
    } else {
        within_limit(opts.length, s.total, room)
    }
}

/// The state after a piece.
pub open spec fn fed(opts: Options, s: StreamView, input: Seq<u8>) -> StreamView {
    let data = s.carry + input;
    StreamView {
        progress: walk_state(opts, s.progress, data, data.len() / opts.width as nat),
        carry: tail_bytes(data, opts.width as int),
        total: s.total + input.len(),
    }
}

/// What is written for a piece.
pub open spec fn fed_text(opts: Options, style: Style, s: StreamView, input: Seq<u8>) -> Seq<u8> {
    let data = s.carry + input;
    walk_text(opts, style, s.progress, data, data.len() / opts.width as nat)
}

/// Are the bytes that do not fill a row shown at the end?
pub open spec fn has_rest(opts: Options, s: StreamView) -> bool {
    s.carry.len() > 0 && !halted(opts, s.progress)
}

/// The offset after the last byte that is shown.
pub open spec fn end_offset(opts: Options, s: StreamView) -> u64 {
    if has_rest(opts, s) {
        offset_at(s.progress.offset, s.carry.len() as int)
    } else {
        s.progress.offset
    }
}

/// What is written at the end: a short row, and what stands below the rows.
pub open spec fn closing_text(opts: Options, style: Style, s: StreamView) -> Seq<u8> {
    (if has_rest(opts, s) {
        row(style.tail, opts, s.carry, s.progress.offset, style.color)
    } else {
        seq![]
    }) + stream_footer(opts, style.color, end_offset(opts, s))
}

/// A dump of the whole stream.
pub open spec fn stream_text(opts: Options, style: Style, data: Seq<u8>) -> Seq<u8> {
    head_text(opts) + fed_text(opts, style, opened(opts), data) + closing_text(
        opts,
        style,
        fed(opts, opened(opts), data),
    )
}

impl Stream {
    /// Starts a dump: returns its state, and appends what stands above the rows.
    pub fn open(opts: &Options, out: &mut Vec<u8>) -> (s: Stream)
        requires
            opts.wf(),
            opts.fits(),
        ensures
            s@ == opened(*opts),
            s.carry@.len() < opts.width,
            final(out)@ == old(out)@ + head_text(*opts),
    {
        push_head(out, opts);
        let start: u64 = first_offset(opts);
        let s = Stream { progress: Progress::new(start), carry: Vec::new(), total: 0 };
        assert(s.carry@ =~= Seq::<u8>::empty());
        s
    }

    /// The number of bytes to ask for next, with room for `room`. The input has ended, as far as
    /// the dump is concerned, where it is zero.
    pub fn wanted(&self, opts: &Options, room: usize) -> (n: usize)
        ensures
            n == wanted_bytes(*opts, self@, room as int),
    {
        if self.progress.is_halted(opts) {
            return 0;
        }
        read_limit(opts.length, self.total, room)
    }

    /// Takes a piece of the input, and appends the rows that it fills.
    pub fn feed(&mut self, cfg: &RowCfg, input: &[u8], out: &mut Vec<u8>)
        requires
            cfg.wf(),
            old(self).total + input@.len() <= u64::MAX,
        ensures
            final(self)@ == fed(*cfg.opts, old(self)@, input@),
            final(self).carry@.len() < cfg.opts.width,
            final(out)@ == old(out)@ + fed_text(*cfg.opts, style_of(*cfg), old(self)@, input@),
    {
        let mut data: Vec<u8> = to_vec(&self.carry);
        push_bytes(&mut data, input);
        walk_rows(&mut self.progress, cfg, &data, out);
        let n: usize = data.len();
        proof {
            lemma_tail(n as int, cfg.opts.width as int);
        }
        let at: usize = n / cfg.opts.width * cfg.opts.width;
        self.carry = to_vec(vstd::slice::slice_subrange(data.as_slice(), at, n));
        self.total = self.total + input.len() as u64;
        assert(self.carry@ =~= tail_bytes(data@, cfg.opts.width as int));
    }

    /// Ends a dump: appends the rest.
    pub fn close(&self, cfg: &RowCfg, out: &mut Vec<u8>)
        requires
            cfg.wf(),
            self.carry@.len() < cfg.opts.width,
        ensures
            final(out)@ == old(out)@ + closing_text(*cfg.opts, style_of(*cfg), self@),
    {
        let ghost before = out@;
        let opts: &Options = cfg.opts;
        let mut off: u64 = self.progress.offset;
        let rest: bool = self.carry.len() > 0 && !self.progress.is_halted(opts);
        if rest {
            cfg.push(out, &self.carry, off);
            off = advance(off, self.carry.len());
        } else {
            proof {
                lemma_concat_empty(before);
            }
        }
        push_stream_footer(out, opts, cfg.color, off);
        proof {
            lemma_concat_assoc(
                before,
                if rest {
                    row(cfg.tail_kind, *opts, self.carry@, self.progress.offset, cfg.color)
                } else {
                    seq![]
                },
                stream_footer(*opts, cfg.color, off),
            );
        }
    }
}

// ---------------------------------------------------------------- laws

/// What the rows of `data` write depends on the rows alone.
proof fn lemma_walk_prefix(
    opts: Options,
    style: Style,
    p: ProgressView,
    a: Seq<u8>,
    b: Seq<u8>,
    k: nat,
)
    requires
        k * opts.width <= a.len(),
        a.len() <= b.len(),
        a == b.take(a.len() as int),
    ensures
        walk_state(opts, p, a, k) == walk_state(opts, p, b, k),
        walk_text(opts, style, p, a, k) == walk_text(opts, style, p, b, k),
    decreases k,
{
    if k > 0 {
        let w = opts.width as int;
        let j = (k - 1) as nat;
        assert(0 <= j * w && j * w + w == k * w) by (nonlinear_arith)
            requires
                k == j + 1,
                w >= 0,
        ;
        lemma_walk_prefix(opts, style, p, a, b, j);
        assert(row_bytes(a, w, j as int) =~= row_bytes(b, w, j as int));
    }
}

/// Where the input is cut into pieces makes no difference: two pieces are worth their
/// concatenation.
pub proof fn lemma_feed_join(opts: Options, style: Style, s: StreamView, a: Seq<u8>, b: Seq<u8>)
    requires
        opts.wf(),
    ensures
        fed(opts, fed(opts, s, a), b) == fed(opts, s, a + b),
        fed_text(opts, style, s, a) + fed_text(opts, style, fed(opts, s, a), b) == fed_text(
            opts,
            style,
            s,
            a + b,
        ),
{
    let w = opts.width as int;
    let first = s.carry + a;
    let all = s.carry + (a + b);
    let i = first.len() / opts.width as nat;
    let rest = tail_bytes(first, w);
    let second = rest + b;
    let j = second.len() / opts.width as nat;
    lemma_tail(first.len() as int, w);
    lemma_tail(second.len() as int, w);
    lemma_tail(all.len() as int, w);
    assert(all =~= first + b);
    assert(all.take(first.len() as int) =~= first);
    assert(all.skip(i * w) =~= second);
    assert(all.len() == i * w + second.len());
    assert(all.len() as int / w == i + j && (i + j) * w == i * w + j * w) by (nonlinear_arith)
        requires
            w > 0,
            i >= 0,
            j >= 0,
            all.len() == i * w + second.len(),
            second.len() - second.len() as int / w * w == second.len() as int % w,
            0 <= second.len() as int % w < w,
            j == second.len() as int / w,
    ;
    lemma_walk_prefix(opts, style, s.progress, first, all, i);
    lemma_walk_split(opts, style, s.progress, all, i, j);
    assert(tail_bytes(all, w) =~= tail_bytes(second, w));
}

/// Once the limit on lines has been reached, further input writes nothing, and nothing of it is
/// shown at the end.
pub proof fn lemma_halted_done(opts: Options, style: Style, s: StreamView, input: Seq<u8>)
    requires
        opts.wf(),
        halted(opts, s.progress),
    ensures
        fed_text(opts, style, s, input) == Seq::<u8>::empty(),
        closing_text(opts, style, fed(opts, s, input)) == closing_text(opts, style, s),
{
    let data = s.carry + input;
    lemma_halted_walk(opts, style, s.progress, data, data.len() / opts.width as nat);
}

proof fn lemma_halted_walk(opts: Options, style: Style, p: ProgressView, data: Seq<u8>, k: nat)
    requires
        halted(opts, p),
    ensures
        walk_state(opts, p, data, k) == p,
        walk_text(opts, style, p, data, k) == Seq::<u8>::empty(),
    decreases k,
{
    if k > 0 {
        lemma_halted_walk(opts, style, p, data, (k - 1) as nat);
        lemma_concat_empty(Seq::<u8>::empty());
    }
}

/// A stream is dumped as bytes in memory are, where the number of lines is not limited. A border
/// is the exception: below a stream the offset stands inside it.
pub proof fn lemma_stream_agrees(opts: Options, style: Style, data: Seq<u8>)
    requires
        opts.wf(),
        opts.max_lines is None,
        opts.border == BorderStyle::Off || opts.no_position,
    ensures
        stream_text(opts, style, data) == serial_text(opts, style, stream_start(opts), data),
{
    let w = opts.width as int;
    let start = stream_start(opts);
    let rows = data.len() / opts.width as nat;
    let first = opened(opts);
    assert(first.carry + data =~= data);
    let end = walk_state(opts, started(start), data, rows);
    lemma_tail(data.len() as int, w);
    lemma_walk_offset(opts, started(start), data, rows);
    lemma_offset_add(start, rows * w, data.len() - rows * w);
    let rest = tail_text(opts, style, data, end.offset);
    let footer = footer_text(opts, style.color, offset_at(start, data.len() as int));
    lemma_concat_empty(footer);
    assert(stream_footer(opts, style.color, offset_at(start, data.len() as int)) =~= footer);
    lemma_concat_assoc(
        head_text(opts) + walk_text(opts, style, started(start), data, rows),
        rest,
        footer,
    );
}

/// Where the number of lines is not limited, every row moves the offset on.
proof fn lemma_walk_offset(opts: Options, p: ProgressView, data: Seq<u8>, k: nat)
    requires
        opts.max_lines is None,
    ensures
        walk_state(opts, p, data, k).offset == offset_at(p.offset, k * opts.width),
    decreases k,
{
    if k == 0 {
        assert(k * opts.width == 0) by (nonlinear_arith)
            requires
                k == 0,
        ;
    } else {
        let j = (k - 1) as nat;
        lemma_walk_offset(opts, p, data, j);
        lemma_offset_add(p.offset, j * opts.width, opts.width as int);
        assert(k * opts.width == j * opts.width + opts.width) by (nonlinear_arith)
            requires
                k == j + 1,
        ;
    }
}

/// What a machine can do makes no difference to a dump of a stream.
pub proof fn lemma_stream_machine(opts: Options, color: bool, data: Seq<u8>)
    requires
        opts.wf(),
    ensures
        stream_text(opts, stream_rows(opts, color, true), data) == stream_text(
            opts,
            stream_rows(opts, color, false),
            data,
        ),
{
    if !opts.minimal && !color && plain_settings(opts) {
        let first = opened(opts);
        let all = first.carry + data;
        lemma_tail(all.len() as int, 16);
        lemma_machine_walk(opts, first.progress, all, all.len() / 16);
    }
}

/// Under the plainest of settings a stream gives the same dump as a file of the same bytes.
pub proof fn lemma_stream_file(opts: Options, data: Seq<u8>, simd: bool)
    requires
        plain_settings(opts),
        !opts.minimal,
        !opts.squeeze,
        opts.max_lines is None,
    ensures
        stream_text(opts, stream_rows(opts, false, simd), data) == dump_text(
            opts,
            memory_rows(opts, false, simd),
            stream_start(opts),
            data,
        ),
{
    let style = stream_rows(opts, false, simd);
    lemma_stream_agrees(opts, style, data);
    lemma_serial_all(opts, style, stream_start(opts), data);
}

// ---------------------------------------------------------------- whole streams

/// The bytes of some pieces, one after the other.
pub open spec fn joined(pieces: Seq<Vec<u8>>) -> Seq<u8>
    decreases pieces.len(),
{
    if pieces.len() == 0 {
        seq![]
    } else {
        joined(pieces.drop_last()) + pieces.last()@
    }
}

/// The bytes of a stream that are read.
pub open spec fn limited(length: Option<u64>, data: Seq<u8>) -> Seq<u8> {
    match length {
        Some(lim) => if lim < data.len() {
            data.take(lim as int)
        } else {
            data
        },
        None => data,
    }
}

/// The first bytes of a stream, and a piece after them, cut off at the limit.
proof fn lemma_limited_next(length: Option<u64>, data: Seq<u8>, piece: Seq<u8>)
    ensures
        ({
            let so_far = limited(length, data);
            let n = within_limit(length, so_far.len() as int, piece.len() as int);
            &&& 0 <= n <= piece.len()
            &&& limited(length, data + piece) == so_far + piece.take(n)
        }),
{
    let so_far = limited(length, data);
    let n = within_limit(length, so_far.len() as int, piece.len() as int);
    assert(limited(length, data + piece) =~= so_far + piece.take(n));
}

/// Makes a dump of a stream whose bytes arrive in the given pieces, by custom formats where there
/// are any. Neither the pieces nor the place at which reading stops make a difference.
pub fn run_streaming(opts: &Options, pieces: &Vec<Vec<u8>>, color: bool, simd: bool) -> (out: Vec<
    u8,
>)
    requires
        opts.wf(),
        opts.fits(),
        joined(pieces@).len() <= u64::MAX,
    ensures
        out@ == if opts.formats@.len() > 0 {
            first_lines(
                opts.max_lines,
                custom_dump(
                    texts(opts.formats@),
                    limited(opts.length, joined(pieces@)),
                    stream_start(*opts),
                ),
            )
        } else {
            stream_text(
                *opts,
                stream_rows(*opts, color, simd),
                limited(opts.length, joined(pieces@)),
            )
        },
{
    if opts.formats.len() > 0 {
        stream_custom(opts, pieces)
    } else {
        stream_rows_of(opts, pieces, color, simd)
    }
}

/// The bytes of a stream that are read, in one piece.
fn collect(length: Option<u64>, pieces: &Vec<Vec<u8>>) -> (data: Vec<u8>)
    requires
        joined(pieces@).len() <= u64::MAX,
    ensures
        data@ == limited(length, joined(pieces@)),
{
    let mut data: Vec<u8> = Vec::new();
    assert(data@ =~= limited(length, joined(pieces@.take(0))));
    for i in 0..pieces.len()
        invariant
            joined(pieces@).len() <= u64::MAX,
            data@ == limited(length, joined(pieces@.take(i as int))),
    {
        let piece: &Vec<u8> = &pieces[i];
        proof {
            assert(pieces@.take(i + 1).drop_last() =~= pieces@.take(i as int));
            lemma_limited_next(length, joined(pieces@.take(i as int)), piece@);
            lemma_joined_part(pieces@, i as int);
        }
        let n: usize = read_limit(length, data.len() as u64, piece.len());
        let part: &[u8] = vstd::slice::slice_subrange(piece.as_slice(), 0, n);
        assert(part@ =~= piece@.take(n as int));
        push_bytes(&mut data, part);
    }
    assert(pieces@.take(pieces@.len() as int) =~= pieces@);
    data
}

/// Makes a dump of a stream by custom formats.
fn stream_custom(opts: &Options, pieces: &Vec<Vec<u8>>) -> (out: Vec<u8>)
    requires
        joined(pieces@).len() <= u64::MAX,
    ensures
        out@ == first_lines(
            opts.max_lines,
            custom_dump(
                texts(opts.formats@),
                limited(opts.length, joined(pieces@)),
                stream_start(*opts),
            ),
        ),
{
    let data: Vec<u8> = collect(opts.length, pieces);
    let text: Vec<u8> = run_custom_format(&opts.formats, &data, first_offset(opts));
    limit_lines(opts.max_lines, text)
}

/// Makes a dump of a stream row by row.
fn stream_rows_of(opts: &Options, pieces: &Vec<Vec<u8>>, color: bool, simd: bool) -> (out: Vec<
    u8,
>)
    requires
        opts.wf(),
        opts.fits(),
        joined(pieces@).len() <= u64::MAX,
    ensures
        out@ == stream_text(
            *opts,
            stream_rows(*opts, color, simd),
            limited(opts.length, joined(pieces@)),
        ),
{
    let style: Style = stream_style(opts, color, simd);
    let cfg = RowCfg::new(opts, style.full, style.tail, style.color);
    let mut out: Vec<u8> = Vec::new();
    let mut s = Stream::open(opts, &mut out);
    let ghost first = opened(*opts);
    let ghost head = head_text(*opts);
    proof {
        lemma_concat_empty(head);
        lemma_feed_nothing(*opts, style, first);
    }
    for i in 0..pieces.len()
        invariant
            cfg.wf(),
            opts == cfg.opts,
            style == style_of(cfg),
            joined(pieces@).len() <= u64::MAX,
            first == opened(*opts),
            s.carry@.len() < opts.width,
            ({
                let so_far = limited(opts.length, joined(pieces@.take(i as int)));
                &&& out@ == head + fed_text(*opts, style, first, so_far)
                &&& closing_text(*opts, style, s@) == closing_text(
                    *opts,
                    style,
                    fed(*opts, first, so_far),
                )
                &&& if halted(*opts, s.progress@) {
                    halted(*opts, fed(*opts, first, so_far).progress)
                } else {
                    s@ == fed(*opts, first, so_far) && s.total == so_far.len()
                }
            }),
    {
        let piece: &Vec<u8> = &pieces[i];
        let ghost before = limited(opts.length, joined(pieces@.take(i as int)));
        let n: usize = s.wanted(opts, piece.len());
        proof {
            assert(pieces@.take(i + 1).drop_last() =~= pieces@.take(i as int));
            lemma_limited_next(opts.length, joined(pieces@.take(i as int)), piece@);
            lemma_joined_part(pieces@, i + 1);
        }
        let ghost m = within_limit(opts.length, before.len() as int, piece@.len() as int);
        let ghost part = piece@.take(m);
        proof {
            lemma_feed_join(*opts, style, first, before, part);
            lemma_concat_assoc(
                head,
                fed_text(*opts, style, first, before),
                fed_text(*opts, style, fed(*opts, first, before), part),
            );
        }
        if s.progress.is_halted(opts) {
            proof {
                lemma_halted_done(*opts, style, fed(*opts, first, before), part);
                lemma_halted_stays(*opts, fed(*opts, first, before), part);
                lemma_concat_empty(out@);
            }
        } else {
            let input: &[u8] = vstd::slice::slice_subrange(piece.as_slice(), 0, n);
            assert(input@ =~= part);
            s.feed(&cfg, input, &mut out);
        }
    }
    assert(pieces@.take(pieces@.len() as int) =~= pieces@);
    s.close(&cfg, &mut out);
    out
}

/// Once the limit on lines has been reached, it stays so.
proof fn lemma_halted_stays(opts: Options, s: StreamView, input: Seq<u8>)
    requires
        halted(opts, s.progress),
    ensures
        halted(opts, fed(opts, s, input).progress),
{
    let data = s.carry + input;
    let style = Style {
        full: LayoutKind::Generic,
        tail: LayoutKind::Generic,
        color: false,
    };
    lemma_halted_walk(opts, style, s.progress, data, data.len() / opts.width as nat);
}

/// No input changes nothing.
proof fn lemma_feed_nothing(opts: Options, style: Style, s: StreamView)
    requires
        opts.wf(),
        s.carry.len() < opts.width,
    ensures
        fed(opts, s, Seq::<u8>::empty()) == s,
        fed_text(opts, style, s, Seq::<u8>::empty()) == Seq::<u8>::empty(),
{
    let data = s.carry + Seq::<u8>::empty();
    lemma_concat_empty(s.carry);
    lemma_tail(data.len() as int, opts.width as int);
    assert(data.len() as int / opts.width as int == 0) by (nonlinear_arith)
        requires
            data.len() < opts.width,
    ;
    assert(tail_bytes(data, opts.width as int) =~= s.carry);
}

/// The bytes of some pieces are no more than those of all.
proof fn lemma_joined_part(pieces: Seq<Vec<u8>>, k: int)
    requires
        0 <= k <= pieces.len(),
    ensures
        joined(pieces.take(k)).len() <= joined(pieces).len(),
    decreases pieces.len(),
{
    if k < pieces.len() {
        lemma_joined_part(pieces.drop_last(), k);
        assert(pieces.drop_last().take(k) =~= pieces.take(k));
    } else {
        assert(pieces.take(k) =~= pieces);
    }
}

} // verus!
