//! Dumps of bytes in memory: which bytes, which rows, and what stands around them.

use crate::border::{border_bottom, columns, columns_of, edge_line, head_text, push_head, Edge};
use crate::bytes::{
    lemma_concat4, lemma_concat_assoc, lemma_concat_empty, push_byte, push_bytes, same_bytes,
    spaces, to_vec, NEWLINE, STAR,
};
use crate::charset::{char_text, panel_text};
use crate::color::{escape, push_escape, push_reset, reset, tint, CYAN};
use crate::layout::RowCfg;
use crate::numeral::hex2;
use crate::options::{BorderStyle, CharTable, ColorScheme, DisplayMode, Endian, Options};
use crate::plan::plan_chunks;
use crate::row::{
    bar, cell, cells, gap_before, line_cell, line_cells, line_panel, offset_text, panel_open,
    position_column, row, write_offset, LayoutKind,
};
use vstd::prelude::*;

verus! {

// ---------------------------------------------------------------- offsets

/// The offset `n` bytes after `start`; offsets wrap around at two to the power of 64.
pub open spec fn offset_at(start: u64, n: int) -> u64 {
    ((start + n) % 0x1_0000_0000_0000_0000) as u64
}

/// Moving on twice is moving on by the sum.
pub proof fn lemma_offset_add(start: u64, a: int, b: int)
    ensures
        offset_at(offset_at(start, a), b) == offset_at(start, a + b),
{
}

/// The offset `n` bytes after `start`.
pub fn advance(start: u64, n: usize) -> (r: u64)
    ensures
        r == offset_at(start, n as int),
        start + n <= u64::MAX ==> r == start + n,
{
    start.wrapping_add(n as u64)
}

// ---------------------------------------------------------------- which bytes are shown

/// How many bytes at the start of `len` are left out. A negative count is taken from the end.
pub open spec fn skipped(skip: i64, len: int) -> int {
    if skip < 0 {
        if len + skip > 0 {
            len + skip
        } else {
            0
        }
    } else if skip < len {
        skip as int
    } else {
        len
    }
}

/// How many bytes are shown after that.
pub open spec fn taken(opts: Options, len: int) -> int {
    let rest = len - skipped(opts.skip, len);
    match opts.length {
        Some(lim) => if lim < rest {
            lim as int
        } else {
            rest
        },
        None => rest,
    }
}

/// The range of bytes of a file of length `len` that is shown.
pub fn select_range(opts: &Options, len: usize) -> (r: (usize, usize))
    requires
        len <= i64::MAX,
    ensures
        r.0 == skipped(opts.skip, len as int),
        r.1 == r.0 + taken(*opts, len as int),
        r.0 <= r.1 <= len,
        // what is left out, from the start or up to so many bytes before the end
        0 <= opts.skip <= len ==> r.0 == opts.skip,
        opts.skip > len ==> r.0 == len,
        opts.skip < 0 && len + opts.skip >= 0 ==> len - r.0 == -opts.skip,
        opts.skip < 0 && len + opts.skip < 0 ==> r.0 == 0,
        // no more bytes than asked for, and fewer only where the file ends
        opts.length is None ==> r.1 == len,
        opts.length matches Some(n) ==> r.1 - r.0 <= n && (r.1 - r.0 < n ==> r.1 == len),
{
    let from: usize = if opts.skip < 0 {
        let at: i64 = len as i64 + opts.skip;
        if at > 0 {
            at as usize
        } else {
            0
        }
    } else if (opts.skip as u64) < len as u64 {
        opts.skip as usize
    } else {
        len
    };
    let rest: usize = len - from;
    let count: usize = match opts.length {
        Some(lim) => if lim < rest as u64 {
            lim as usize
        } else {
            rest
        },
        None => rest,
    };
    (from, from + count)
}

/// Which bytes are shown. What is left out counts from the start, or from the end where it is
/// negative; and whatever is left out, no more bytes are shown than asked for, and fewer only where
/// there are no more.
pub proof fn lemma_selected(opts: Options, len: int)
    requires
        0 <= len,
    ensures
        ({
            let from = skipped(opts.skip, len);
            let count = taken(opts, len);
            &&& 0 <= from
            &&& 0 <= count
            &&& from + count <= len
            &&& 0 <= opts.skip <= len ==> from == opts.skip
            &&& opts.skip > len ==> from == len
            &&& opts.skip < 0 && len + opts.skip >= 0 ==> len - from == -opts.skip
            &&& opts.skip < 0 && len + opts.skip < 0 ==> from == 0
            &&& opts.length is None ==> from + count == len
            &&& opts.length matches Some(n) ==> count <= n && (count < n ==> from + count == len)
        }),
{
}

/// The offset displayed for the first byte, given how many bytes were left out before it.
pub fn display_start(skip: u64, jump: i64) -> (r: u64)
    ensures
        r == offset_at(skip, jump as int),
        0 <= skip + jump <= u64::MAX ==> r == skip + jump,
{
    skip.wrapping_add_signed(jump)
}

// ---------------------------------------------------------------- which rows are used

/// The kinds of a dump's rows: of full rows and of a short last row.
#[derive(Clone, Copy, PartialEq, Eq, Debug, Structural)]
pub struct Style {
    pub full: LayoutKind,
    pub tail: LayoutKind,
    pub color: bool,
}

/// Can rows be made by the vector instructions of a machine? They are canonical rows whose digits
/// and characters stand at fixed places.
pub open spec fn simd_eligible(opts: Options, color: bool) -> bool {
    &&& opts.mode == DisplayMode::Canonical
    &&& opts.table == CharTable::Ascii || opts.table == CharTable::Braille
    &&& opts.formats@.len() == 0
    &&& color ==> opts.scheme == ColorScheme::Default && opts.table == CharTable::Ascii
        && opts.border == BorderStyle::Off && !opts.no_ascii
}

/// Can rows be made by the vector instructions of a machine?
pub fn is_simd_eligible(opts: &Options, do_color: bool) -> (r: bool)
    ensures
        r == simd_eligible(*opts, do_color),
{
    opts.mode == DisplayMode::Canonical && (opts.table == CharTable::Ascii || opts.table
        == CharTable::Braille) && opts.formats.len() == 0 && (!do_color || opts.scheme
        == ColorScheme::Default && opts.table == CharTable::Ascii && opts.border
        == BorderStyle::Off && !opts.no_ascii)
}

/// Are these the default settings, as far as rows are concerned?
pub open spec fn plain_settings(opts: Options) -> bool {
    &&& opts.mode == DisplayMode::Canonical
    &&& opts.width == 16
    &&& opts.group == 1
    &&& opts.endian == Endian::Big
    &&& !opts.no_ascii
    &&& !opts.no_position
    &&& opts.border == BorderStyle::Off
    &&& !opts.uppercase
    &&& !opts.offset_dec
    &&& opts.table == CharTable::Ascii
    &&& opts.formats@.len() == 0
}

/// Are these the default settings, as far as rows are concerned?
pub fn old_simd_eligible(opts: &Options) -> (r: bool)
    ensures
        r == plain_settings(*opts),
{
    opts.mode == DisplayMode::Canonical && opts.width == 16 && opts.group == 1 && opts.endian
        == Endian::Big && !opts.no_ascii && !opts.no_position && opts.border == BorderStyle::Off
        && !opts.uppercase && !opts.offset_dec && opts.table == CharTable::Ascii
        && opts.formats.len() == 0
}

/// The rows of a dump of bytes in memory. `simd` tells whether the machine has vector
/// instructions, which the plainest of settings make use of.
pub open spec fn memory_rows(opts: Options, color: bool, simd: bool) -> Style {
    if opts.minimal {
        Style { full: LayoutKind::Generic, tail: LayoutKind::Generic, color }
    } else if simd && !color && plain_settings(opts) {
        Style { full: LayoutKind::Generic, tail: LayoutKind::OutputLine, color }
    } else {
        Style { full: LayoutKind::OutputLine, tail: LayoutKind::OutputLine, color }
    }
}

/// The rows of a dump of bytes in memory.
pub fn memory_style(opts: &Options, color: bool, simd: bool) -> (r: Style)
    ensures
        r == memory_rows(*opts, color, simd),
{
    if opts.minimal {
        Style { full: LayoutKind::Generic, tail: LayoutKind::Generic, color }
    } else if simd && !color && old_simd_eligible(opts) {
        Style { full: LayoutKind::Generic, tail: LayoutKind::OutputLine, color }
    } else {
        Style { full: LayoutKind::OutputLine, tail: LayoutKind::OutputLine, color }
    }
}

/// The rows of a dump of a stream. Under the plainest of settings they are those of a dump of bytes
/// in memory.
pub open spec fn stream_rows(opts: Options, color: bool, simd: bool) -> Style {
    if opts.minimal {
        Style { full: LayoutKind::Generic, tail: LayoutKind::Generic, color }
    } else if color {
        Style { full: LayoutKind::OutputLine, tail: LayoutKind::OutputLine, color }
    } else if plain_settings(opts) {
        memory_rows(opts, color, simd)
    } else if simd_eligible(opts, color) && opts.border != BorderStyle::Off {
        Style { full: LayoutKind::OutputLine, tail: LayoutKind::OutputLine, color }
    } else {
        Style { full: LayoutKind::Generic, tail: LayoutKind::Generic, color }
    }
}

/// The rows of a dump of a stream.
pub fn stream_style(opts: &Options, color: bool, simd: bool) -> (r: Style)
    ensures
        r == stream_rows(*opts, color, simd),
{
    if opts.minimal {
        Style { full: LayoutKind::Generic, tail: LayoutKind::Generic, color }
    } else if color {
        Style { full: LayoutKind::OutputLine, tail: LayoutKind::OutputLine, color }
    } else if old_simd_eligible(opts) {
        memory_style(opts, color, simd)
    } else if is_simd_eligible(opts, color) && opts.border != BorderStyle::Off {
        Style { full: LayoutKind::OutputLine, tail: LayoutKind::OutputLine, color }
    } else {
        Style { full: LayoutKind::Generic, tail: LayoutKind::Generic, color }
    }
}

/// What is made of the bytes of a file.
#[derive(Clone, Copy, PartialEq, Eq, Debug, Structural)]
pub enum Plan {
    /// There are no bytes, and nothing is written.
    Nothing,
    Plain,
    CInclude,
    /// Rows by custom formats.
    Custom,
    /// Rows one after the other: identical rows may be left out, and their number may be limited.
    Serial,
    /// All rows.
    Parallel,
}

/// What is made of `len` bytes under the given settings.
pub open spec fn planned(opts: Options, len: int) -> Plan {
    if len == 0 {
        Plan::Nothing
    } else if opts.mode == DisplayMode::Plain {
        Plan::Plain
    } else if opts.mode == DisplayMode::CInclude {
        Plan::CInclude
    } else if opts.formats@.len() > 0 {
        Plan::Custom
    } else if opts.squeeze || opts.max_lines is Some {
        Plan::Serial
    } else {
        Plan::Parallel
    }
}

/// What is made of `len` bytes under the given settings.
pub fn plan(opts: &Options, len: usize) -> (r: Plan)
    ensures
        r == planned(*opts, len as int),
{
    if len == 0 {
        Plan::Nothing
    } else if opts.mode == DisplayMode::Plain {
        Plan::Plain
    } else if opts.mode == DisplayMode::CInclude {
        Plan::CInclude
    } else if opts.formats.len() > 0 {
        Plan::Custom
    } else if opts.squeeze || opts.max_lines.is_some() {
        Plan::Serial
    } else {
        Plan::Parallel
    }
}

/// What is made of the bytes of a stream, whose number is not known.
pub open spec fn planned_stream(opts: Options) -> Plan {
    if opts.mode == DisplayMode::Plain {
        Plan::Plain
    } else if opts.mode == DisplayMode::CInclude {
        Plan::CInclude
    } else if opts.formats@.len() > 0 {
        Plan::Custom
    } else {
        Plan::Serial
    }
}

/// What is made of the bytes of a stream.
pub fn stream_plan(opts: &Options) -> (r: Plan)
    ensures
        r == planned_stream(*opts),
{
    if opts.mode == DisplayMode::Plain {
        Plan::Plain
    } else if opts.mode == DisplayMode::CInclude {
        Plan::CInclude
    } else if opts.formats.len() > 0 {
        Plan::Custom
    } else {
        Plan::Serial
    }
}

// ---------------------------------------------------------------- rows one after the other

/// How far a dump has come.
pub struct Progress {
    /// The last row written, where identical rows are left out.
    pub prev: Vec<u8>,
    /// Has the mark for identical rows been written since?
    pub squeezed: bool,
    /// The number of lines written, where it is limited.
    pub lines: u64,
    /// The offset of the next row.
    pub offset: u64,
}

/// How far a dump has come.
pub struct ProgressView {
    pub prev: Seq<u8>,
    pub squeezed: bool,
    pub lines: u64,
    pub offset: u64,
}

impl View for Progress {
    type V = ProgressView;

    open spec fn view(&self) -> ProgressView {
        ProgressView {
            prev: self.prev@,
            squeezed: self.squeezed,
            lines: self.lines,
            offset: self.offset,
        }
    }
}

/// The mark for identical rows.
pub open spec fn star_line() -> Seq<u8> {
    seq![STAR, NEWLINE]
}

/// The state before the first row.
pub open spec fn started(start: u64) -> ProgressView {
    ProgressView { prev: seq![], squeezed: false, lines: 0, offset: start }
}

/// Has the limit on lines been reached?
pub open spec fn halted(opts: Options, p: ProgressView) -> bool {
    opts.max_lines matches Some(m) && p.lines >= m
}

/// Is a row left out because it is that before it?
pub open spec fn repeats(opts: Options, p: ProgressView, src: Seq<u8>) -> bool {
    opts.squeeze && src == p.prev
}

/// The number of lines after one more.
pub open spec fn counted(opts: Options, p: ProgressView) -> u64 {
    if opts.max_lines is Some {
        (p.lines + 1) as u64
    } else {
        p.lines
    }
}

/// What is written for a full row.
pub open spec fn step_text(opts: Options, style: Style, p: ProgressView, src: Seq<u8>) -> Seq<u8> {
    if halted(opts, p) {
        seq![]
    } else if repeats(opts, p, src) {
        if p.squeezed {
            seq![]
        } else {
            star_line()
        }
    } else {
        row(style.full, opts, src, p.offset, style.color)
    }
}

/// The state after a full row.
pub open spec fn step_state(opts: Options, p: ProgressView, src: Seq<u8>) -> ProgressView {
    if halted(opts, p) {
        p
    } else if repeats(opts, p, src) {
        ProgressView {
            prev: p.prev,
            squeezed: true,
            lines: if p.squeezed {
                p.lines
            } else {
                counted(opts, p)
            },
            offset: offset_at(p.offset, opts.width as int),
        }
    } else {
        ProgressView {
            prev: if opts.squeeze {
                src
            } else {
                p.prev
            },
            squeezed: false,
            lines: counted(opts, p),
            offset: offset_at(p.offset, opts.width as int),
        }
    }
}

/// Row `r` of `data`.
pub open spec fn row_bytes(data: Seq<u8>, width: int, r: int) -> Seq<u8> {
    data.subrange(r * width, r * width + width)
}

/// The state after the first `k` full rows of `data`.
pub open spec fn walk_state(opts: Options, p: ProgressView, data: Seq<u8>, k: nat) -> ProgressView
    decreases k,
{
    if k == 0 {
        p
    } else {
        step_state(
            opts,
            walk_state(opts, p, data, (k - 1) as nat),
            row_bytes(data, opts.width as int, k - 1),
        )
    }
}

/// What is written for the first `k` full rows of `data`.
pub open spec fn walk_text(
    opts: Options,
    style: Style,
    p: ProgressView,
    data: Seq<u8>,
    k: nat,
) -> Seq<u8>
    decreases k,
{
    if k == 0 {
        seq![]
    } else {
        walk_text(opts, style, p, data, (k - 1) as nat) + step_text(
            opts,
            style,
            walk_state(opts, p, data, (k - 1) as nat),
            row_bytes(data, opts.width as int, k - 1),
        )
    }
}

impl Progress {
    /// The state before the first row.
    pub fn new(start: u64) -> (r: Progress)
        ensures
            r@ == started(start),
    {
        let r = Progress { prev: Vec::new(), squeezed: false, lines: 0, offset: start };
        assert(r.prev@ =~= Seq::<u8>::empty());
        r
    }

    /// Has the limit on lines been reached?
    pub fn is_halted(&self, opts: &Options) -> (r: bool)
        ensures
            r == halted(*opts, self@),
    {
        match opts.max_lines {
            Some(m) => self.lines >= m,
            None => false,
        }
    }

    /// Writes a full row, or what stands for it.
    pub fn step(&mut self, cfg: &RowCfg, src: &[u8], out: &mut Vec<u8>)
        requires
            cfg.wf(),
            src@.len() == cfg.opts.width,
        ensures
            final(self)@ == step_state(*cfg.opts, old(self)@, src@),
            final(out)@ == old(out)@ + step_text(*cfg.opts, style_of(*cfg), old(self)@, src@),
    {
        let ghost before = self@;
        let ghost text = out@;
        proof {
            lemma_concat_empty(text);
        }
        let opts: &Options = cfg.opts;
        if self.is_halted(opts) {
            return;
        }
        let lines: u64 = if opts.max_lines.is_some() {
            self.lines + 1
        } else {
            self.lines
        };
        if opts.squeeze && same_bytes(src, &self.prev) {
            if !self.squeezed {
                push_bytes(out, &[STAR, NEWLINE]);
                assert([STAR, NEWLINE]@ =~= star_line());
                self.squeezed = true;
                self.lines = lines;
            }
        } else {
            if opts.squeeze {
                self.prev = to_vec(src);
            }
            self.squeezed = false;
            cfg.push(out, src, self.offset);
            self.lines = lines;
        }
        self.offset = advance(self.offset, opts.width);
    }
}

/// The kinds of row that are prepared.
pub open spec fn style_of(cfg: RowCfg) -> Style {
    Style { full: cfg.full_kind, tail: cfg.tail_kind, color: cfg.color }
}

/// Writes the full rows of `data`.
pub fn walk_rows(p: &mut Progress, cfg: &RowCfg, data: &[u8], out: &mut Vec<u8>)
    requires
        cfg.wf(),
    ensures
        final(p)@ == walk_state(*cfg.opts, old(p)@, data@, (data@.len() / cfg.opts.width as nat)),
        final(out)@ == old(out)@ + walk_text(
            *cfg.opts,
            style_of(*cfg),
            old(p)@,
            data@,
            (data@.len() / cfg.opts.width as nat),
        ),
{
    let ghost first = p@;
    let ghost before = out@;
    let ghost opts = *cfg.opts;
    let ghost style = style_of(*cfg);
    let width: usize = cfg.opts.width;
    let rows: usize = data.len() / width;
    proof {
        lemma_concat_empty(before);
    }
    for r in 0..rows
        invariant
            cfg.wf(),
            opts == *cfg.opts,
            style == style_of(*cfg),
            width == opts.width,
            width > 0,
            rows == data@.len() / width as nat,
            p@ == walk_state(opts, first, data@, r as nat),
            out@ == before + walk_text(opts, style, first, data@, r as nat),
    {
        let src: &[u8] = row_slice(data, r, width);
        let ghost state = p@;
        p.step(cfg, src, out);
        proof {
            lemma_concat_assoc(
                before,
                walk_text(opts, style, first, data@, r as nat),
                step_text(opts, style, state, src@),
            );
        }
    }
}

/// Walking the rows in two parts is walking all of them.
pub proof fn lemma_walk_split(
    opts: Options,
    style: Style,
    p: ProgressView,
    data: Seq<u8>,
    i: nat,
    j: nat,
)
    requires
        (i + j) * opts.width <= data.len(),
    ensures
        walk_state(opts, p, data, i + j) == walk_state(
            opts,
            walk_state(opts, p, data, i),
            data.skip(i * opts.width),
            j,
        ),
        walk_text(opts, style, p, data, i + j) == walk_text(opts, style, p, data, i) + walk_text(
            opts,
            style,
            walk_state(opts, p, data, i),
            data.skip(i * opts.width),
            j,
        ),
    decreases j,
{
    let w = opts.width as int;
    let rest = data.skip(i * w);
    let mid = walk_state(opts, p, data, i);
    assert(0 <= i * w <= (i + j) * w) by (nonlinear_arith)
        requires
            w >= 0,
    ;
    if j == 0 {
        lemma_concat_empty(walk_text(opts, style, p, data, i));
    } else {
        let h = (j - 1) as nat;
        assert((i + h) * w == i * w + h * w && (i + h) * w + w == (i + j) * w && 0 <= h * w)
            by (nonlinear_arith)
            requires
                j == h + 1,
                w >= 0,
        ;
        lemma_walk_split(opts, style, p, data, i, h);
        assert(row_bytes(data, w, (i + h) as int) =~= row_bytes(rest, w, h as int));
        lemma_concat_assoc(
            walk_text(opts, style, p, data, i),
            walk_text(opts, style, mid, rest, h),
            step_text(
                opts,
                style,
                walk_state(opts, mid, rest, h),
                row_bytes(rest, w, h as int),
            ),
        );
    }
}

/// Row `r` of `data`.
fn row_slice(data: &[u8], r: usize, width: usize) -> (src: &[u8])
    requires
        width > 0,
        r < data@.len() / width as nat,
    ensures
        src@ == row_bytes(data@, width as int, r as int),
        src@.len() == width,
        r * width + width <= data@.len(),
{
    let n: usize = data.len();
    proof {
        lemma_row_in_range(n as int, width as int, r as int);
    }
    vstd::slice::slice_subrange(data, r * width, r * width + width)
}

/// A full row lies within the bytes.
pub proof fn lemma_row_in_range(n: int, width: int, r: int)
    requires
        width > 0,
        0 <= r < n / width,
    ensures
        0 <= r * width,
        r * width + width <= n,
{
    assert(0 <= r * width && r * width + width <= n) by (nonlinear_arith)
        requires
            width > 0,
            0 <= r < n / width,
    ;
}

// ---------------------------------------------------------------- all rows

/// Row `r` of a dump of `data`.
pub open spec fn row_text(opts: Options, style: Style, start: u64, data: Seq<u8>, r: int) -> Seq<
    u8,
> {
    row(
        style.full,
        opts,
        row_bytes(data, opts.width as int, r),
        offset_at(start, r * opts.width),
        style.color,
    )
}

/// The full rows `from` up to `to` of a dump of `data`.
pub open spec fn rows_text(
    opts: Options,
    style: Style,
    start: u64,
    data: Seq<u8>,
    from: int,
    to: int,
) -> Seq<u8>
    decreases to - from,
{
    if to <= from {
        seq![]
    } else {
        rows_text(opts, style, start, data, from, to - 1) + row_text(
            opts,
            style,
            start,
            data,
            to - 1,
        )
    }
}

/// Rows can be made in pieces: the rows of two neighbouring pieces are those of both together.
pub proof fn lemma_rows_join(
    opts: Options,
    style: Style,
    start: u64,
    data: Seq<u8>,
    a: int,
    b: int,
    c: int,
)
    requires
        a <= b <= c,
    ensures
        rows_text(opts, style, start, data, a, b) + rows_text(opts, style, start, data, b, c)
            == rows_text(opts, style, start, data, a, c),
    decreases c - b,
{
    let left = rows_text(opts, style, start, data, a, b);
    if b == c {
        lemma_concat_empty(left);
    } else {
        lemma_rows_join(opts, style, start, data, a, b, c - 1);
        lemma_concat_assoc(
            left,
            rows_text(opts, style, start, data, b, c - 1),
            row_text(opts, style, start, data, c - 1),
        );
    }
}

/// Where no row may be left out, walking the rows writes all of them.
pub proof fn lemma_walk_all(opts: Options, style: Style, start: u64, data: Seq<u8>, k: nat)
    requires
        !opts.squeeze,
        opts.max_lines is None,
    ensures
        walk_text(opts, style, started(start), data, k) == rows_text(
            opts,
            style,
            start,
            data,
            0,
            k as int,
        ),
        walk_state(opts, started(start), data, k).offset == offset_at(start, k * opts.width),
    decreases k,
{
    if k == 0 {
        assert(k * opts.width == 0) by (nonlinear_arith)
            requires
                k == 0,
        ;
    } else {
        let j = (k - 1) as nat;
        lemma_walk_all(opts, style, start, data, j);
        lemma_offset_add(start, j * opts.width, opts.width as int);
        assert(k * opts.width == j * opts.width + opts.width) by (nonlinear_arith)
            requires
                k == j + 1,
        ;
    }
}

/// A row ends with a line break.
pub proof fn lemma_row_ends(kind: LayoutKind, opts: Options, src: Seq<u8>, off: u64, color: bool)
    ensures
        row(kind, opts, src, off, color).len() > 0,
        row(kind, opts, src, off, color).last() == NEWLINE,
{
}

/// How many of the first `k` rows of `data` write a line, be it a row or the mark for identical
/// rows.
pub open spec fn lines_written(
    opts: Options,
    style: Style,
    p: ProgressView,
    data: Seq<u8>,
    k: nat,
) -> nat
    decreases k,
{
    if k == 0 {
        0
    } else {
        let j = (k - 1) as nat;
        let state = walk_state(opts, p, data, j);
        let text = step_text(opts, style, state, row_bytes(data, opts.width as int, j as int));
        lines_written(opts, style, p, data, j) + if text.len() > 0 {
            1nat
        } else {
            0nat
        }
    }
}

/// Where the number of lines is limited, no more are written. Lines are written until the limit has
/// been reached: where fewer are, none was left out on its account.
pub proof fn lemma_line_limit(
    opts: Options,
    style: Style,
    start: u64,
    data: Seq<u8>,
    k: nat,
    limit: u64,
)
    requires
        opts.max_lines == Some(limit),
    ensures
        lines_written(opts, style, started(start), data, k) <= limit,
        walk_state(opts, started(start), data, k).lines == lines_written(
            opts,
            style,
            started(start),
            data,
            k,
        ),
        halted(opts, walk_state(opts, started(start), data, k)) <==> lines_written(
            opts,
            style,
            started(start),
            data,
            k,
        ) == limit,
    decreases k,
{
    if k > 0 {
        let j = (k - 1) as nat;
        lemma_line_limit(opts, style, start, data, j, limit);
        let state = walk_state(opts, started(start), data, j);
        let src = row_bytes(data, opts.width as int, j as int);
        lemma_row_ends(style.full, opts, src, state.offset, style.color);
    }
}

/// Where identical rows are left out, a run of them writes the row and one mark.
pub proof fn lemma_squeezed_run(
    opts: Options,
    style: Style,
    p: ProgressView,
    data: Seq<u8>,
    k: nat,
)
    requires
        opts.squeeze,
        opts.max_lines is None,
        k > 0,
        p.prev != row_bytes(data, opts.width as int, 0),
        forall|r: int|
            0 <= r < k ==> #[trigger] row_bytes(data, opts.width as int, r) == row_bytes(
                data,
                opts.width as int,
                0,
            ),
    ensures
        walk_text(opts, style, p, data, k) == row(
            style.full,
            opts,
            row_bytes(data, opts.width as int, 0),
            p.offset,
            style.color,
        ) + if k == 1 {
            seq![]
        } else {
            star_line()
        },
        walk_state(opts, p, data, k).prev == row_bytes(data, opts.width as int, 0),
        walk_state(opts, p, data, k).squeezed == (k > 1),
    decreases k,
{
    let src = row_bytes(data, opts.width as int, 0);
    let first = row(style.full, opts, src, p.offset, style.color);
    reveal_with_fuel(walk_text, 2);
    reveal_with_fuel(walk_state, 2);
    lemma_concat_empty(first);
    if k == 1 {
        assert(walk_text(opts, style, p, data, 1) =~= first);
    } else {
        let j = (k - 1) as nat;
        lemma_squeezed_run(opts, style, p, data, j);
        assert(row_bytes(data, opts.width as int, j as int) == src);
        lemma_concat_empty(walk_text(opts, style, p, data, j));
        assert(walk_text(opts, style, p, data, k) =~= first + star_line());
    }
}

/// Makes the full rows `from` up to `to` of a dump of `data`.
pub fn format_rows(cfg: &RowCfg, data: &[u8], start: u64, from: usize, to: usize) -> (out: Vec<u8>)
    requires
        cfg.wf(),
        from <= to <= data@.len() / cfg.opts.width as nat,
    ensures
        out@ == rows_text(*cfg.opts, style_of(*cfg), start, data@, from as int, to as int),
{
    let mut out: Vec<u8> = Vec::new();
    let width: usize = cfg.opts.width;
    for r in from..to
        invariant
            cfg.wf(),
            width == cfg.opts.width,
            width > 0,
            from <= to <= data@.len() / width as nat,
            out@ == rows_text(*cfg.opts, style_of(*cfg), start, data@, from as int, r as int),
    {
        let src: &[u8] = row_slice(data, r, width);
        let _n: usize = data.len();
        proof {
            lemma_row_in_range(data@.len() as int, width as int, r as int);
        }
        cfg.push(&mut out, src, advance(start, r * width));
    }
    out
}

/// Consecutive ranges that cover the numbers up to `n`.
pub open spec fn covers(ranges: Seq<(usize, usize)>, n: int) -> bool {
    &&& forall|i: int| 0 <= i < ranges.len() ==> (#[trigger] ranges[i]).0 < ranges[i].1
    &&& forall|i: int, j: int|
        0 <= i && j == i + 1 && j < ranges.len() ==> (#[trigger] ranges[i]).1 == (
        #[trigger] ranges[j]).0
    &&& ranges.len() > 0 ==> ranges[0].0 == 0
    &&& n == if ranges.len() == 0 {
        0
    } else {
        ranges[ranges.len() - 1].1
    }
}

/// Splits `rows` rows into ranges of `size` rows; the last may be shorter.
pub fn chunk_ranges(rows: usize, size: usize) -> (r: Vec<(usize, usize)>)
    requires
        size > 0,
    ensures
        covers(r@, rows as int),
        forall|i: int|
            0 <= i < r@.len() ==> (#[trigger] r@[i]).1 - r@[i].0 <= size && (i < r@.len() - 1
                ==> r@[i].1 - r@[i].0 == size),
{
    let mut r: Vec<(usize, usize)> = Vec::new();
    let mut at: usize = 0;
    while at < rows
        invariant
            size > 0,
            at <= rows,
            covers(r@, at as int),
            forall|i: int|
                0 <= i < r@.len() ==> (#[trigger] r@[i]).1 - r@[i].0 <= size && (i < r@.len() - 1
                    || at < rows ==> r@[i].1 - r@[i].0 == size),
        decreases rows - at,
    {
        let end: usize = if size < rows - at {
            at + size
        } else {
            rows
        };
        r.push((at, end));
        at = end;
    }
    r
}

/// What the pieces of a dump hold, one after the other.
pub open spec fn pieces_text(
    opts: Options,
    style: Style,
    start: u64,
    data: Seq<u8>,
    ranges: Seq<(usize, usize)>,
) -> Seq<u8>
    decreases ranges.len(),
{
    if ranges.len() == 0 {
        seq![]
    } else {
        pieces_text(opts, style, start, data, ranges.drop_last()) + rows_text(
            opts,
            style,
            start,
            data,
            ranges.last().0 as int,
            ranges.last().1 as int,
        )
    }
}

/// Pieces made apart, in any order, and then joined in their order give the whole dump.
pub proof fn lemma_pieces_join(
    opts: Options,
    style: Style,
    start: u64,
    data: Seq<u8>,
    ranges: Seq<(usize, usize)>,
    n: int,
)
    requires
        covers(ranges, n),
    ensures
        pieces_text(opts, style, start, data, ranges) == rows_text(opts, style, start, data, 0, n),
    decreases ranges.len(),
{
    if ranges.len() > 0 {
        let front = ranges.drop_last();
        let last = ranges.last();
        assert(last == ranges[ranges.len() - 1]);
        if front.len() > 0 {
            assert(front[front.len() - 1] == ranges[ranges.len() - 2]);
        }
        lemma_pieces_join(opts, style, start, data, front, last.0 as int);
        lemma_rows_join(opts, style, start, data, 0, last.0 as int, last.1 as int);
    }
}

// ---------------------------------------------------------------- whole dumps

/// The line with the offset after the last byte.
pub open spec fn offset_line(opts: Options, color: bool, off: u64) -> Seq<u8> {
    tint(color, escape(CYAN)) + offset_text(off, opts.offset_dec, opts.uppercase) + tint(
        color,
        reset(),
    ) + seq![NEWLINE]
}

/// What stands below the rows: the end of the border, or the offset after the last byte.
pub open spec fn footer_text(opts: Options, color: bool, off: u64) -> Seq<u8> {
    if opts.border != BorderStyle::Off {
        edge_line(Edge::Bottom, columns(opts), opts.border)
    } else if !opts.no_position {
        offset_line(opts, color, off)
    } else {
        seq![]
    }
}

/// What stands below the rows of a stream: the offset after the last byte, and the end of the
/// border.
pub open spec fn stream_footer(opts: Options, color: bool, off: u64) -> Seq<u8> {
    (if opts.no_position {
        seq![]
    } else {
        offset_line(opts, color, off)
    }) + if opts.border != BorderStyle::Off {
        edge_line(Edge::Bottom, columns(opts), opts.border)
    } else {
        seq![]
    }
}

/// The bytes after the last full row.
pub open spec fn tail_bytes(data: Seq<u8>, width: int) -> Seq<u8> {
    data.skip(data.len() as int / width * width)
}

/// The short last row, where there is one.
pub open spec fn tail_text(opts: Options, style: Style, data: Seq<u8>, off: u64) -> Seq<u8> {
    let tail = tail_bytes(data, opts.width as int);
    if tail.len() > 0 {
        row(style.tail, opts, tail, off, style.color)
    } else {
        seq![]
    }
}

/// A dump of all rows.
pub open spec fn dump_text(opts: Options, style: Style, start: u64, data: Seq<u8>) -> Seq<u8> {
    let rows = data.len() as int / opts.width as int;
    head_text(opts) + rows_text(opts, style, start, data, 0, rows) + tail_text(
        opts,
        style,
        data,
        offset_at(start, rows * opts.width),
    ) + footer_text(opts, style.color, offset_at(start, data.len() as int))
}

/// A dump that may leave rows out.
pub open spec fn serial_text(opts: Options, style: Style, start: u64, data: Seq<u8>) -> Seq<u8> {
    let rows = data.len() / opts.width as nat;
    let end = walk_state(opts, started(start), data, rows);
    head_text(opts) + walk_text(opts, style, started(start), data, rows) + (if halted(opts, end) {
        seq![]
    } else {
        tail_text(opts, style, data, offset_at(start, rows * opts.width))
    }) + footer_text(opts, style.color, offset_at(start, data.len() as int))
}

/// Where no row may be left out, both ways of making a dump write the same.
pub proof fn lemma_serial_all(opts: Options, style: Style, start: u64, data: Seq<u8>)
    requires
        opts.wf(),
        !opts.squeeze,
        opts.max_lines is None,
    ensures
        serial_text(opts, style, start, data) == dump_text(opts, style, start, data),
{
    lemma_walk_all(opts, style, start, data, data.len() / opts.width as nat);
}

// ---------------------------------------------------------------- one dump on every machine

/// Under the plainest of settings the first `k` columns are the same in both kinds of row.
proof fn lemma_columns_alike(opts: Options, src: Seq<u8>, k: nat)
    requires
        plain_settings(opts),
        src.len() == 16,
        k <= 16,
    ensures
        cells(opts, src, k) == line_cells(opts, src, false, k),
    decreases k,
{
    if k > 0 {
        let i = k - 1;
        lemma_columns_alike(opts, src, i as nat);
        assert(gap_before(opts, i) == (i == 8));
        let h = hex2(src[i], opts.uppercase);
        assert(Seq::<u8>::empty() + h + Seq::<u8>::empty() =~= h);
        assert(cell(opts, src, i) == line_cell(opts, src, false, i));
    }
}

/// Without colors both panels are the same.
pub proof fn lemma_panels_alike(opts: Options, src: Seq<u8>)
    ensures
        line_panel(opts, src, false) == panel_text(opts.table, src),
    decreases src.len(),
{
    if src.len() > 0 {
        let front = src.drop_last();
        lemma_panels_alike(opts, front);
        assert(line_panel(opts, src, false) =~= panel_text(opts.table, front) + char_text(
            opts.table,
            src.last(),
        ));
    }
}

/// Under the plainest of settings a full row is the same in both kinds.
pub proof fn lemma_rows_alike(opts: Options, src: Seq<u8>, off: u64)
    requires
        plain_settings(opts),
        !opts.minimal,
        src.len() == 16,
    ensures
        row(LayoutKind::Generic, opts, src, off, false) == row(
            LayoutKind::OutputLine,
            opts,
            src,
            off,
            false,
        ),
{
    lemma_columns_alike(opts, src, 16);
    lemma_panels_alike(opts, src);
    let text = cells(opts, src, 16);
    let panel = panel_text(opts.table, src);
    let head = position_column(opts, off, false) + bar(opts.border);
    lemma_concat_empty(text);
    assert(spaces(0) =~= Seq::<u8>::empty());
    lemma_concat_empty(panel_open(opts) + panel);
    lemma_concat_assoc(head + text, panel_open(opts), panel);
    lemma_concat_empty(head + text + panel_open(opts) + panel);
}

/// What a machine can do makes no difference to a dump.
pub proof fn lemma_machine(opts: Options, color: bool, start: u64, data: Seq<u8>)
    requires
        opts.wf(),
    ensures
        dump_text(opts, memory_rows(opts, color, true), start, data) == dump_text(
            opts,
            memory_rows(opts, color, false),
            start,
            data,
        ),
        serial_text(opts, memory_rows(opts, color, true), start, data) == serial_text(
            opts,
            memory_rows(opts, color, false),
            start,
            data,
        ),
{
    if !opts.minimal && !color && plain_settings(opts) {
        let rows = data.len() / 16;
        lemma_tail(data.len() as int, 16);
        lemma_machine_rows(opts, start, data, rows);
        lemma_machine_walk(opts, started(start), data, rows);
    }
}

proof fn lemma_machine_rows(opts: Options, start: u64, data: Seq<u8>, k: nat)
    requires
        plain_settings(opts),
        !opts.minimal,
        16 * k <= data.len(),
    ensures
        rows_text(opts, memory_rows(opts, false, true), start, data, 0, k as int) == rows_text(
            opts,
            memory_rows(opts, false, false),
            start,
            data,
            0,
            k as int,
        ),
    decreases k,
{
    if k > 0 {
        lemma_machine_rows(opts, start, data, (k - 1) as nat);
        lemma_rows_alike(opts, row_bytes(data, 16, k - 1), offset_at(start, (k - 1) * 16));
    }
}

/// The same of rows one after the other.
pub proof fn lemma_machine_walk(opts: Options, p: ProgressView, data: Seq<u8>, k: nat)
    requires
        plain_settings(opts),
        !opts.minimal,
        16 * k <= data.len(),
    ensures
        walk_text(opts, memory_rows(opts, false, true), p, data, k) == walk_text(
            opts,
            memory_rows(opts, false, false),
            p,
            data,
            k,
        ),
    decreases k,
{
    if k > 0 {
        let j = (k - 1) as nat;
        lemma_machine_walk(opts, p, data, j);
        lemma_rows_alike(
            opts,
            row_bytes(data, 16, j as int),
            walk_state(opts, p, data, j).offset,
        );
    }
}

/// Appends the line with an offset.
pub fn push_offset_line(out: &mut Vec<u8>, opts: &Options, color: bool, off: u64)
    ensures
        final(out)@ == old(out)@ + offset_line(*opts, color, off),
{
    let ghost before = out@;
    push_escape(out, CYAN, color);
    write_offset(out, off, opts.offset_dec, opts.uppercase);
    push_reset(out, color);
    push_byte(out, NEWLINE);
    proof {
        lemma_concat4(
            before,
            tint(color, escape(CYAN)),
            offset_text(off, opts.offset_dec, opts.uppercase),
            tint(color, reset()),
            seq![NEWLINE],
        );
    }
}

/// Appends what stands below the rows.
pub fn push_footer(out: &mut Vec<u8>, opts: &Options, color: bool, off: u64)
    requires
        opts.wf(),
        opts.fits(),
    ensures
        final(out)@ == old(out)@ + footer_text(*opts, color, off),
{
    if opts.border != BorderStyle::Off {
        let c = columns_of(opts);
        border_bottom(out, c.pos_w, c.hex_w, c.ascii_w, c.has_pos, c.has_ascii, opts.border);
    } else if !opts.no_position {
        push_offset_line(out, opts, color, off);
    } else {
        proof {
            lemma_concat_empty(out@);
        }
    }
}

/// Appends what stands below the rows of a stream.
pub fn push_stream_footer(out: &mut Vec<u8>, opts: &Options, color: bool, off: u64)
    requires
        opts.wf(),
        opts.fits(),
    ensures
        final(out)@ == old(out)@ + stream_footer(*opts, color, off),
{
    let ghost before = out@;
    let ghost line = if opts.no_position {
        Seq::<u8>::empty()
    } else {
        offset_line(*opts, color, off)
    };
    proof {
        lemma_concat_empty(before);
        lemma_concat_empty(before + line);
        lemma_concat_empty(line);
    }
    if !opts.no_position {
        push_offset_line(out, opts, color, off);
    }
    if opts.border != BorderStyle::Off {
        let c = columns_of(opts);
        border_bottom(out, c.pos_w, c.hex_w, c.ascii_w, c.has_pos, c.has_ascii, opts.border);
        proof {
            lemma_concat_assoc(
                before,
                line,
                edge_line(Edge::Bottom, columns(*opts), opts.border),
            );
        }
    }
}

/// Appends the short last row of `data`, where there is one.
fn push_tail(out: &mut Vec<u8>, cfg: &RowCfg, data: &[u8], off: u64)
    requires
        cfg.wf(),
    ensures
        final(out)@ == old(out)@ + tail_text(*cfg.opts, style_of(*cfg), data@, off),
{
    let width: usize = cfg.opts.width;
    let n: usize = data.len();
    let rows: usize = n / width;
    proof {
        lemma_tail(n as int, width as int);
        lemma_concat_empty(out@);
    }
    let at: usize = rows * width;
    if at < n {
        let tail: &[u8] = vstd::slice::slice_subrange(data, at, n);
        assert(tail@ =~= tail_bytes(data@, width as int));
        cfg.push(out, tail, off);
    }
}

/// The bytes after the last full row are fewer than a row holds.
pub proof fn lemma_tail(n: int, width: int)
    requires
        width > 0,
        n >= 0,
    ensures
        0 <= n / width * width <= n,
        n - n / width * width == n % width,
        n % width < width,
{
    assert(0 <= n / width * width <= n && n - n / width * width == n % width && n % width < width)
        by (nonlinear_arith)
        requires
            width > 0,
            n >= 0,
    ;
}

/// Appends the short last row and what stands below the rows, to the rows of `data`.
pub fn finish_rows(out: &mut Vec<u8>, cfg: &RowCfg, data: &[u8], start: u64)
    requires
        cfg.wf(),
    ensures
        final(out)@ == old(out)@ + tail_text(
            *cfg.opts,
            style_of(*cfg),
            data@,
            offset_at(start, data@.len() as int / cfg.opts.width as int * cfg.opts.width),
        ) + footer_text(*cfg.opts, cfg.color, offset_at(start, data@.len() as int)),
{
    let n: usize = data.len();
    proof {
        lemma_tail(n as int, cfg.opts.width as int);
    }
    let at: usize = n / cfg.opts.width * cfg.opts.width;
    push_tail(out, cfg, data, advance(start, at));
    push_footer(out, cfg.opts, cfg.color, advance(start, n));
}

/// Makes a dump of all rows of `data`, in pieces of at most `size` rows.
fn run_parallel(opts: &Options, data: &[u8], start: u64, style: Style, size: usize) -> (out: Vec<
    u8,
>)
    requires
        opts.wf(),
        opts.fits(),
        size > 0,
    ensures
        out@ == dump_text(*opts, style, start, data@),
{
    let cfg = RowCfg::new(opts, style.full, style.tail, style.color);
    let mut out: Vec<u8> = Vec::new();
    push_head(&mut out, opts);
    let ghost head = head_text(*opts);
    proof {
        lemma_concat_empty(head);
        lemma_tail(data@.len() as int, opts.width as int);
    }
    let rows: usize = data.len() / opts.width;
    let ranges: Vec<(usize, usize)> = plan_chunks(start, rows, opts.width, opts.offset_dec, size);
    assert(rows as int == data@.len() as int / opts.width as int);
    for i in 0..ranges.len()
        invariant
            cfg.wf(),
            opts == cfg.opts,
            style == style_of(cfg),
            rows == data@.len() / opts.width as nat,
            covers(ranges@, rows as int),
            out@ == head + pieces_text(*opts, style, start, data@, ranges@.take(i as int)),
    {
        let (from, to) = ranges[i];
        proof {
            lemma_range_end(ranges@, rows as int, i as int);
        }
        let piece: Vec<u8> = format_rows(&cfg, data, start, from, to);
        push_bytes(&mut out, &piece);
        proof {
            let front = ranges@.take(i as int);
            assert(ranges@.take(i + 1).drop_last() =~= front);
            lemma_concat_assoc(head, pieces_text(*opts, style, start, data@, front), piece@);
        }
    }
    proof {
        assert(ranges@.take(ranges@.len() as int) =~= ranges@);
        lemma_pieces_join(*opts, style, start, data@, ranges@, rows as int);
    }
    finish_rows(&mut out, &cfg, data, start);
    out
}

/// Makes a dump of all rows of `data` on a machine with vector instructions, in pieces of at most
/// `size` rows.
pub fn run_parallel_mmap(
    opts: &Options,
    data: &[u8],
    start: u64,
    color: bool,
    size: usize,
) -> (out: Vec<u8>)
    requires
        opts.wf(),
        opts.fits(),
        size > 0,
    ensures
        out@ == dump_text(*opts, memory_rows(*opts, color, true), start, data@),
{
    run_parallel(opts, data, start, memory_style(opts, color, true), size)
}

/// Makes a dump of all rows of `data` on any machine, in pieces of at most `size` rows.
pub fn run_parallel_scalar(
    opts: &Options,
    data: &[u8],
    start: u64,
    color: bool,
    size: usize,
) -> (out: Vec<u8>)
    requires
        opts.wf(),
        opts.fits(),
        size > 0,
    ensures
        out@ == dump_text(*opts, memory_rows(*opts, color, false), start, data@),
{
    run_parallel(opts, data, start, memory_style(opts, color, false), size)
}

/// Every range ends within the numbers that are covered.
pub proof fn lemma_range_end(ranges: Seq<(usize, usize)>, n: int, i: int)
    requires
        covers(ranges, n),
        0 <= i < ranges.len(),
    ensures
        ranges[i].0 <= ranges[i].1 <= n,
    decreases ranges.len() - i,
{
    if i < ranges.len() - 1 {
        lemma_range_end(ranges, n, i + 1);
        assert(ranges[i].1 == ranges[i + 1].0);
    }
}

/// Makes a dump of `data` that may leave rows out.
pub fn run_serial_mmap(
    opts: &Options,
    data: &[u8],
    start: u64,
    color: bool,
    simd: bool,
) -> (out: Vec<u8>)
    requires
        opts.wf(),
        opts.fits(),
    ensures
        out@ == serial_text(*opts, memory_rows(*opts, color, simd), start, data@),
{
    let style: Style = memory_style(opts, color, simd);
    let cfg = RowCfg::new(opts, style.full, style.tail, style.color);
    let mut out: Vec<u8> = Vec::new();
    push_head(&mut out, opts);
    proof {
        lemma_concat_empty(head_text(*opts));
    }
    let mut p = Progress::new(start);
    walk_rows(&mut p, &cfg, data, &mut out);
    let n: usize = data.len();
    if p.is_halted(opts) {
        proof {
            lemma_concat_empty(out@);
        }
    } else {
        proof {
            lemma_tail(n as int, opts.width as int);
        }
        let at: usize = n / opts.width * opts.width;
        push_tail(&mut out, &cfg, data, advance(start, at));
    }
    push_footer(&mut out, opts, style.color, advance(start, n));
    out
}

} // verus!
