//! How the rows of a dump are divided among workers.

use crate::dump::{chunk_ranges, covers, lemma_range_end, offset_at};
use crate::numeral::{digit, digit_count, lemma_numeral_len, numeral};
use crate::reverse::hex_of;
use crate::row::offset_text;
use vstd::prelude::*;

verus! {

// ---------------------------------------------------------------- the lengths of offsets

/// `base` to the power of `k`.
pub open spec fn power(base: nat, k: nat) -> nat
    decreases k,
{
    if k == 0 {
        1
    } else {
        base * power(base, (k - 1) as nat)
    }
}

/// A number with `n` digits lies between two powers of the base.
proof fn lemma_digit_range(v: nat, base: nat)
    requires
        base >= 2,
        v > 0,
    ensures
        digit_count(v, base) >= 1,
        power(base, (digit_count(v, base) - 1) as nat) <= v < power(base, digit_count(v, base)),
    decreases v,
{
    reveal_with_fuel(power, 2);
    if v >= base {
        let q = v / base;
        assert(0 < q < v && q * base <= v < q * base + base) by (nonlinear_arith)
            requires
                v >= base,
                base >= 2,
                q == v / base,
        ;
        lemma_digit_range(q, base);
        let c = digit_count(q, base);
        let lo = power(base, (c - 1) as nat);
        let hi = power(base, c);
        assert(base * lo <= v && v < base * hi) by (nonlinear_arith)
            requires
                lo <= q,
                q + 1 <= hi,
                q * base <= v < q * base + base,
        ;
        assert(digit_count(v, base) == c + 1);
        assert(power(base, c) == base * lo);
        assert(power(base, c + 1) == base * hi);
    } else {
        assert(power(base, 0) == 1);
        assert(power(base, 1) == base * power(base, 0));
        assert(base * 1 == base);
    }
}

proof fn lemma_power_grows(base: nat, a: nat, b: nat)
    requires
        base >= 2,
        a <= b,
    ensures
        1 <= power(base, a) <= power(base, b),
    decreases b,
{
    if a < b {
        lemma_power_grows(base, a, (b - 1) as nat);
        let p = power(base, (b - 1) as nat);
        assert(base * p >= p) by (nonlinear_arith)
            requires
                base >= 2,
        ;
    } else if a > 0 {
        lemma_power_grows(base, (a - 1) as nat, (b - 1) as nat);
        let p = power(base, (b - 1) as nat);
        assert(base * p >= 1) by (nonlinear_arith)
            requires
                base >= 2,
                p >= 1,
        ;
    }
}

/// A larger number has no fewer digits.
proof fn lemma_count_grows(a: nat, b: nat, base: nat)
    requires
        base >= 2,
        a <= b,
    ensures
        digit_count(a, base) <= digit_count(b, base),
    decreases b,
{
    if a >= base {
        assert(a / base <= b / base && b / base < b) by (nonlinear_arith)
            requires
                base >= 2,
                base <= a <= b,
        ;
        lemma_count_grows(a / base, b / base, base);
    }
}

/// The number of digits that an offset is shown with.
pub open spec fn field_len(off: nat, base: nat) -> nat {
    let count = digit_count(off, base);
    if count > 8 {
        count
    } else {
        8
    }
}

/// The base of offsets.
pub open spec fn offset_base(dec: bool) -> nat {
    if dec {
        10
    } else {
        16
    }
}

/// Two numbers between which no power of the base lies are shown with equally many digits.
proof fn lemma_same_field(a: nat, b: nat, base: nat, last: nat)
    requires
        base >= 2,
        a <= b < power(base, last + 1),
        forall|k: nat| 8 <= k <= last ==> !(a < #[trigger] power(base, k) <= b),
    ensures
        field_len(a, base) == field_len(b, base),
{
    lemma_count_grows(a, b, base);
    let c = digit_count(b, base);
    if c > 8 {
        lemma_digit_range(b, base);
        let k = (c - 1) as nat;
        if k > last {
            lemma_power_grows(base, last + 1, k);
        }
        assert(!(a < power(base, k) <= b));
        assert(a > 0) by {
            lemma_power_grows(base, 0, k);
        }
        lemma_digit_range(a, base);
        if digit_count(a, base) < c {
            lemma_power_grows(base, digit_count(a, base), k);
        }
    }
}

/// Two numbers between which a power of the base lies are shown with different numbers of digits.
proof fn lemma_wider_field(a: nat, b: nat, base: nat, e: nat)
    requires
        base >= 2,
        e >= 8,
        a < power(base, e) <= b,
    ensures
        field_len(a, base) < field_len(b, base),
{
    lemma_power_grows(base, 0, e);
    if a > 0 {
        lemma_digit_range(a, base);
        let c = digit_count(a, base);
        if c > e {
            lemma_power_grows(base, e, (c - 1) as nat);
        }
    }
    lemma_digit_range(b, base);
    let c = digit_count(b, base);
    if c <= e {
        lemma_power_grows(base, c, e);
    }
}

/// The text of an offset has that many digits.
proof fn lemma_field_len(off: u64, dec: bool, upper: bool)
    ensures
        offset_text(off, dec, upper).len() == field_len(off as nat, offset_base(dec)),
{
    lemma_numeral_len(
        off as nat,
        offset_base(dec),
        field_len(off as nat, offset_base(dec)),
        upper,
    );
}

/// The number that some digits denote.
pub open spec fn digits_value(s: Seq<u8>, base: nat) -> nat
    decreases s.len(),
{
    if s.len() == 0 {
        0
    } else {
        digits_value(s.drop_last(), base) * base + hex_of(s.last()) as nat
    }
}

/// A number that the digits can hold is read back, and its first digit is zero only where fewer
/// digits would do.
proof fn lemma_numeral_read(v: nat, base: nat, len: nat, upper: bool)
    requires
        2 <= base <= 16,
        v < power(base, len),
    ensures
        numeral(v, base, len, upper).len() == len,
        digits_value(numeral(v, base, len, upper), base) == v,
        len > 0 && v >= power(base, (len - 1) as nat) ==> numeral(v, base, len, upper)[0] != 0x30,
    decreases len,
{
    reveal_with_fuel(power, 2);
    if len > 0 {
        let q = v / base;
        let d = v % base;
        let h = power(base, (len - 1) as nat);
        assert(q < h && d < base && q * base + d == v) by (nonlinear_arith)
            requires
                v < base * h,
                base >= 2,
                q == v / base,
                d == v % base,
        ;
        lemma_numeral_read(q, base, (len - 1) as nat, upper);
        let front = numeral(q, base, (len - 1) as nat, upper);
        assert(numeral(v, base, len, upper).drop_last() =~= front);
        if len == 1 && v >= h {
            assert(h == 1 && q == 0);
            assert(q * base == 0) by (nonlinear_arith)
                requires
                    q == 0,
            ;
            assert(front.len() == 0);
            assert(numeral(v, base, len, upper)[0] == digit(d, upper));
        } else if v >= h {
            let g = power(base, (len - 2) as nat);
            assert(h == base * g);
            assert(q >= g) by (nonlinear_arith)
                requires
                    v >= base * g,
                    base >= 2,
                    q == v / base,
            ;
            assert(numeral(v, base, len, upper)[0] == front[0]);
        }
    }
}

/// An offset is read back from its digits, decimal or hexadecimal, and one of more than eight
/// digits has no leading zero.
pub proof fn lemma_offset_digits(off: u64, dec: bool, upper: bool)
    ensures
        digits_value(offset_text(off, dec, upper), offset_base(dec)) == off,
        offset_text(off, dec, upper).len() >= 8,
        offset_text(off, dec, upper).len() > 8 ==> offset_text(off, dec, upper)[0] != 0x30,
{
    let base = offset_base(dec);
    let v = off as nat;
    let len = field_len(v, base);
    let count = digit_count(v, base);
    if v > 0 {
        lemma_digit_range(v, base);
        lemma_power_grows(base, count, len);
    } else {
        lemma_power_grows(base, 0, len);
    }
    lemma_numeral_read(v, base, len, upper);
}

// ---------------------------------------------------------------- segments

/// The last exponent at which an offset grows by a digit.
pub open spec fn last_exponent(dec: bool) -> nat {
    if dec {
        19
    } else {
        15
    }
}

/// The longest offsets are those of 64 bits.
pub proof fn lemma_offset_bound(off: u64, dec: bool, upper: bool)
    ensures
        offset_text(off, dec, upper).len() <= last_exponent(dec) + 1,
{
    let base = offset_base(dec);
    lemma_field_len(off, dec, upper);
    lemma_powers(dec);
    if off > 0 {
        lemma_digit_range(off as nat, base);
        let c = digit_count(off as nat, base);
        if c > last_exponent(dec) + 1 {
            lemma_power_grows(base, last_exponent(dec) + 1, (c - 1) as nat);
        }
    }
}

/// The first row whose offset is `limit` or more.
pub open spec fn first_row(start: int, limit: int, width: int) -> int {
    (limit - start + width - 1) / width
}

/// Does a new segment start where offsets reach `limit`?
pub open spec fn splits(bounds: Seq<usize>, start: int, limit: int, width: int, rows: int) -> bool {
    limit <= start || first_row(start, limit, width) >= rows || exists|t: int|
        0 <= t < bounds.len() && #[trigger] bounds[t] == first_row(start, limit, width)
}

/// Are the rows `i` and `j` in the same segment?
pub open spec fn together(bounds: Seq<usize>, i: int, j: int) -> bool {
    forall|t: int| 0 <= t < bounds.len() ==> !(i < #[trigger] bounds[t] <= j)
}

/// Ascending bounds from zero up to the number of rows.
pub open spec fn is_division(bounds: Seq<usize>, rows: int) -> bool {
    &&& bounds.len() >= 1
    &&& bounds[0] == 0
    &&& bounds.last() == rows
    &&& forall|a: int, b: int|
        0 <= a < b < bounds.len() ==> #[trigger] bounds[a] < #[trigger] bounds[b]
}

proof fn lemma_powers(dec: bool)
    ensures
        power(offset_base(dec), last_exponent(dec) + 1) >= 0x1_0000_0000_0000_0000,
        power(10, 8) == 100_000_000,
        power(16, 8) == 0x1_0000_0000,
        power(10, 19) == 10_000_000_000_000_000_000,
        power(16, 15) == 0x1000_0000_0000_0000,
{
    reveal_with_fuel(power, 21);
}

/// The first row at or after a limit, for a limit after the start.
proof fn lemma_first_row(start: int, limit: int, width: int)
    requires
        width > 0,
        limit > start,
    ensures
        first_row(start, limit, width) == (limit - start - 1) / width + 1,
        first_row(start, limit, width) >= 1,
{
    let x = limit - start - 1;
    assert((x + width) / width == x / width + 1 && x / width >= 0) by (nonlinear_arith)
        requires
            width > 0,
            x >= 0,
    ;
}

/// A higher limit is reached no earlier.
proof fn lemma_first_row_grows(start: int, a: int, b: int, width: int)
    requires
        width > 0,
        a <= b,
    ensures
        first_row(start, a, width) <= first_row(start, b, width),
{
    let x = a - start + width - 1;
    let y = b - start + width - 1;
    assert(x / width <= y / width) by (nonlinear_arith)
        requires
            width > 0,
            x <= y,
    ;
}

/// Rows before the first one at a limit have smaller offsets, and the others do not.
proof fn lemma_row_side(start: int, limit: int, width: int, i: int)
    requires
        width > 0,
        limit > start,
    ensures
        start + i * width < limit <==> i < first_row(start, limit, width),
{
    let d = limit - start;
    let r = first_row(start, limit, width);
    assert(r == (d + width - 1) / width);
    assert(i * width < d <==> i < r) by (nonlinear_arith)
        requires
            width > 0,
            r == (d + width - 1) / width,
    ;
}

/// One more bound keeps what the others divide.
proof fn lemma_splits_kept(
    before: Seq<usize>,
    after: Seq<usize>,
    start: int,
    limit: int,
    width: int,
    rows: int,
)
    requires
        splits(before, start, limit, width, rows),
        before.len() <= after.len(),
        forall|t: int| 0 <= t < before.len() ==> before[t] == #[trigger] after[t],
    ensures
        splits(after, start, limit, width, rows),
{
    let r = first_row(start, limit, width);
    if !(limit <= start) && !(r >= rows) {
        let t = choose|t: int| 0 <= t < before.len() && #[trigger] before[t] == r;
        assert(after[t] == r);
    }
}

/// Within a segment offsets have equally many digits.
proof fn lemma_bounds(bounds: Seq<usize>, start: u64, rows: int, width: int, dec: bool)
    requires
        width > 0,
        rows >= 0,
        start + rows * width <= 0x1_0000_0000_0000_0000,
        forall|e: nat|
            8 <= e <= last_exponent(dec) ==> splits(
                bounds,
                start as int,
                #[trigger] power(offset_base(dec), e) as int,
                width,
                rows,
            ),
    ensures
        forall|i: int, j: int, upper: bool|
            0 <= i <= j < rows && together(bounds, i, j) ==> #[trigger] offset_text(
                offset_at(start, i * width),
                dec,
                upper,
            ).len() == #[trigger] offset_text(offset_at(start, j * width), dec, upper).len(),
{
    let base = offset_base(dec);
    let last = last_exponent(dec);
    lemma_powers(dec);
    assert forall|i: int, j: int, upper: bool|
        0 <= i <= j < rows && together(bounds, i, j) implies #[trigger] offset_text(
        offset_at(start, i * width),
        dec,
        upper,
    ).len() == #[trigger] offset_text(offset_at(start, j * width), dec, upper).len() by {
        assert(0 <= i * width <= j * width && j * width + width <= rows * width)
            by (nonlinear_arith)
            requires
                0 <= i <= j < rows,
                width > 0,
        ;
        let a = (start + i * width) as nat;
        let b = (start + j * width) as nat;
        assert forall|k: nat| 8 <= k <= last implies !(a < #[trigger] power(base, k) <= b) by {
            let limit = power(base, k) as int;
            if a < limit <= b {
                lemma_row_side(start as int, limit, width, i);
                lemma_row_side(start as int, limit, width, j);
                assert(splits(bounds, start as int, limit, width, rows));
                let r = first_row(start as int, limit, width);
                let t = choose|t: int| 0 <= t < bounds.len() && #[trigger] bounds[t] == r;
                assert(i < bounds[t] <= j);
            }
        }
        lemma_same_field(a, b, base, last);
        lemma_field_len(offset_at(start, i * width), dec, upper);
        lemma_field_len(offset_at(start, j * width), dec, upper);
    }
}

/// Does row `r` have a longer offset than the row before?
pub open spec fn grows_at(start: u64, r: int, width: int, dec: bool) -> bool {
    offset_text(offset_at(start, (r - 1) * width), dec, false).len() < offset_text(
        offset_at(start, r * width),
        dec,
        false,
    ).len()
}

/// Is `r` the first row whose offset reaches a power of the base?
spec fn starts_power(start: int, r: int, width: int, base: nat, e: nat) -> bool {
    start < power(base, e) && r == first_row(start, power(base, e) as int, width)
}

/// The first row at a power of the base has a longer offset than the row before.
proof fn lemma_grows_at(start: u64, r: int, rows: int, width: int, dec: bool, e: nat)
    requires
        width > 0,
        0 < r < rows,
        start + rows * width <= 0x1_0000_0000_0000_0000,
        e >= 8,
        starts_power(start as int, r, width, offset_base(dec), e),
    ensures
        grows_at(start, r, width, dec),
{
    let base = offset_base(dec);
    let limit = power(base, e) as int;
    lemma_row_side(start as int, limit, width, r - 1);
    lemma_row_side(start as int, limit, width, r);
    assert(0 <= (r - 1) * width <= r * width && r * width + width <= rows * width)
        by (nonlinear_arith)
        requires
            0 < r < rows,
            width > 0,
    ;
    lemma_wider_field(
        (start + (r - 1) * width) as nat,
        (start + r * width) as nat,
        base,
        e,
    );
    lemma_field_len(offset_at(start, (r - 1) * width), dec, false);
    lemma_field_len(offset_at(start, r * width), dec, false);
}

/// Divides the rows of a dump into segments whose offsets have equally many digits, and no more
/// segments than that takes.
pub fn row_bounds(start: u64, rows: usize, width: usize, dec: bool) -> (bounds: Vec<usize>)
    requires
        width > 0,
        start + rows * width <= 0x1_0000_0000_0000_0000,
    ensures
        is_division(bounds@, rows as int),
        forall|i: int, j: int, upper: bool|
            0 <= i <= j < rows && together(bounds@, i, j) ==> #[trigger] offset_text(
                offset_at(start, i * width),
                dec,
                upper,
            ).len() == #[trigger] offset_text(offset_at(start, j * width), dec, upper).len(),
        forall|t: int|
            0 < t < bounds@.len() - 1 ==> grows_at(
                start,
                #[trigger] bounds@[t] as int,
                width as int,
                dec,
            ),
{
    let base: u64 = if dec {
        10
    } else {
        16
    };
    let last: u64 = if dec {
        19
    } else {
        15
    };
    let mut limit: u64 = if dec {
        100_000_000
    } else {
        0x1_0000_0000
    };
    let mut bounds: Vec<usize> = Vec::new();
    bounds.push(0);
    let mut k: u64 = 8;
    proof {
        lemma_powers(dec);
    }
    while k <= last
        invariant
            width > 0,
            base == offset_base(dec),
            last == last_exponent(dec),
            8 <= k <= last + 1,
            k <= last ==> limit == power(base as nat, k as nat),
            bounds@.len() >= 1,
            bounds@[0] == 0,
            forall|a: int, b: int|
                0 <= a < b < bounds@.len() ==> #[trigger] bounds@[a] < #[trigger] bounds@[b],
            forall|a: int| 1 <= a < bounds@.len() ==> 0 < #[trigger] bounds@[a] < rows,
            start + rows * width <= 0x1_0000_0000_0000_0000,
            forall|a: int|
                1 <= a < bounds@.len() ==> grows_at(
                    start,
                    #[trigger] bounds@[a] as int,
                    width as int,
                    dec,
                ),
            bounds@.len() > 1 ==> bounds@.last() <= first_row(
                start as int,
                limit as int,
                width as int,
            ) || k > last,
            forall|e: nat|
                8 <= e < k ==> splits(
                    bounds@,
                    start as int,
                    #[trigger] power(base as nat, e) as int,
                    width as int,
                    rows as int,
                ),
        decreases last + 1 - k,
    {
        let ghost before = bounds@;
        if limit > start {
            let gap: u64 = limit - start;
            // the first row at or after the limit
            let r: u64 = (gap - 1) / (width as u64) + 1;
            proof {
                lemma_first_row(start as int, limit as int, width as int);
            }
            if r < rows as u64 {
                let at: usize = r as usize;
                proof {
                    lemma_grows_at(
                        start,
                        at as int,
                        rows as int,
                        width as int,
                        dec,
                        k as nat,
                    );
                }
                if bounds[bounds.len() - 1] < at {
                    bounds.push(at);
                }
                assert(bounds@.last() == at);
            }
        }
        proof {
            assert(splits(bounds@, start as int, limit as int, width as int, rows as int)) by {
                if limit > start && first_row(start as int, limit as int, width as int) < rows {
                    assert(bounds@[bounds@.len() - 1] == first_row(
                        start as int,
                        limit as int,
                        width as int,
                    ));
                }
            }
            assert forall|e: nat| 8 <= e < k implies splits(
                bounds@,
                start as int,
                #[trigger] power(base as nat, e) as int,
                width as int,
                rows as int,
            ) by {
                lemma_splits_kept(
                    before,
                    bounds@,
                    start as int,
                    power(base as nat, e) as int,
                    width as int,
                    rows as int,
                );
            }
        }
        if k < last {
            let ghost old_limit = limit;
            proof {
                lemma_power_grows(base as nat, (k + 1) as nat, last as nat);
                lemma_powers(dec);
                lemma_first_row_grows(
                    start as int,
                    limit as int,
                    limit * base,
                    width as int,
                );
            }
            limit = limit * base;
        }
        k = k + 1;
    }
    let ghost before = bounds@;
    if bounds[bounds.len() - 1] < rows {
        bounds.push(rows);
    }
    proof {
        assert forall|e: nat| 8 <= e <= last implies splits(
            bounds@,
            start as int,
            #[trigger] power(base as nat, e) as int,
            width as int,
            rows as int,
        ) by {
            lemma_splits_kept(
                before,
                bounds@,
                start as int,
                power(base as nat, e) as int,
                width as int,
                rows as int,
            );
        }
        lemma_bounds(bounds@, start, rows as int, width as int, dec);
    }
    bounds
}

// ---------------------------------------------------------------- ranges of rows

/// Are all rows of each range shown with offsets of one length?
pub open spec fn level(ranges: Seq<(usize, usize)>, start: u64, width: int, dec: bool) -> bool {
    forall|t: int, i: int, j: int, upper: bool|
        #![trigger ranges[t], offset_text(offset_at(start, i * width), dec, upper), offset_text(
            offset_at(start, j * width),
            dec,
            upper,
        )]
        0 <= t < ranges.len() && ranges[t].0 <= i < ranges[t].1 && ranges[t].0 <= j < ranges[t].1
            ==> offset_text(offset_at(start, i * width), dec, upper).len() == offset_text(
            offset_at(start, j * width),
            dec,
            upper,
        ).len()
}

/// Does each range hold `size` rows, or fewer where all rows end or where offsets grow after it?
pub open spec fn full_or_last(
    ranges: Seq<(usize, usize)>,
    start: u64,
    rows: int,
    width: int,
    dec: bool,
    size: int,
) -> bool {
    forall|t: int|
        0 <= t < ranges.len() ==> {
            let (from, to) = #[trigger] ranges[t];
            to - from == size || to - from < size && (to == rows || grows_at(
                start,
                to as int,
                width,
                dec,
            ))
        }
}

/// Does no bound lie inside a range?
spec fn unbroken(ranges: Seq<(usize, usize)>, bounds: Seq<usize>) -> bool {
    forall|t: int, b: int|
        0 <= t < ranges.len() && 0 <= b < bounds.len() ==> !((#[trigger] ranges[t]).0 < (
        #[trigger] bounds[b]) < ranges[t].1)
}

/// Divides the rows of a dump into ranges of at most `size` rows. Unless offsets wrap around, all
/// rows of a range have offsets of one length.
pub fn plan_chunks(start: u64, rows: usize, width: usize, dec: bool, size: usize) -> (r: Vec<
    (usize, usize),
>)
    requires
        width > 0,
        size > 0,
        rows * width <= usize::MAX,
    ensures
        covers(r@, rows as int),
        full_or_last(r@, start, rows as int, width as int, dec, size as int),
        start + rows * width <= 0x1_0000_0000_0000_0000 ==> level(r@, start, width as int, dec),
{
    let bytes: u64 = (rows * width) as u64;
    if bytes > 0 && bytes - 1 > u64::MAX - start {
        let all: Vec<(usize, usize)> = chunk_ranges(rows, size);
        assert(full_or_last(all@, start, rows as int, width as int, dec, size as int));
        return all;
    }
    let bounds: Vec<usize> = row_bounds(start, rows, width, dec);
    let mut r: Vec<(usize, usize)> = Vec::new();
    let mut s: usize = 0;
    let n: usize = bounds.len();
    while s + 1 < n
        invariant
            size > 0,
            n == bounds@.len(),
            s < n,
            is_division(bounds@, rows as int),
            forall|t: int|
                0 < t < bounds@.len() - 1 ==> grows_at(
                    start,
                    #[trigger] bounds@[t] as int,
                    width as int,
                    dec,
                ),
            covers(r@, bounds@[s as int] as int),
            unbroken(r@, bounds@),
            full_or_last(r@, start, rows as int, width as int, dec, size as int),
        decreases n - s,
    {
        let end: usize = bounds[s + 1];
        let mut at: usize = bounds[s];
        assert(bounds@[s as int] < bounds@[s + 1]);
        while at < end
            invariant
                size > 0,
                n == bounds@.len(),
                s + 1 < n,
                is_division(bounds@, rows as int),
                end == bounds@[s + 1],
                end == rows || grows_at(start, end as int, width as int, dec),
                bounds@[s as int] <= at <= end,
                covers(r@, at as int),
                unbroken(r@, bounds@),
                full_or_last(r@, start, rows as int, width as int, dec, size as int),
            decreases end - at,
        {
            let stop: usize = if size < end - at {
                at + size
            } else {
                end
            };
            let ghost before = r@;
            r.push((at, stop));
            proof {
                assert forall|t: int, b: int|
                    0 <= t < r@.len() && 0 <= b < bounds@.len() implies !((#[trigger] r@[t]).0 < (
                #[trigger] bounds@[b]) < r@[t].1) by {
                    if t < before.len() {
                        assert(r@[t] == before[t]);
                    } else if b <= s {
                        assert(bounds@[b] <= bounds@[s as int]);
                    } else {
                        assert(bounds@[s + 1] <= bounds@[b]);
                    }
                }
            }
            at = stop;
        }
        s = s + 1;
    }
    proof {
        let w = width as int;
        assert forall|t: int, i: int, j: int, upper: bool|
            #![trigger r@[t], offset_text(offset_at(start, i * w), dec, upper), offset_text(
                offset_at(start, j * w),
                dec,
                upper,
            )]
            0 <= t < r@.len() && r@[t].0 <= i < r@[t].1 && r@[t].0 <= j < r@[t].1 implies offset_text(
            offset_at(start, i * w),
            dec,
            upper,
        ).len() == offset_text(offset_at(start, j * w), dec, upper).len() by {
            lemma_range_end(r@, rows as int, t);
            let (a, b) = if i <= j {
                (i, j)
            } else {
                (j, i)
            };
            assert(together(bounds@, a, b)) by {
                assert forall|k: int| 0 <= k < bounds@.len() implies !(a < #[trigger] bounds@[k]
                    <= b) by {
                    assert(!(r@[t].0 < bounds@[k] < r@[t].1));
                }
            }
        }
    }
    r
}

} // verus!
