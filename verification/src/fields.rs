//! Custom formats as a reader takes them: what each field of a format writes.

use crate::bytes::lemma_concat_assoc;
use crate::custom::{
    custom_dump, custom_rows, decimal_number, decimals_end, digits_start, field_name, field_of,
    field_text, find_part, first_lines, format_units, latin, latin_text, lines_end, offset_field,
    prefix_at, quoted_end, quoted_text, row_count, row_size, spaces_end, span, unit_run, unit_text,
    units_from, units_text, upper_offset, Field, FieldAt, UnitView, PERCENT,
};
use crate::dump::offset_at;
use crate::plain::utf8;
use crate::read::{
    in_case, lemma_count_below, lemma_hex2_value, lemma_numeral_value, lemma_offset_value,
    lemma_powers, reads, value, worth,
};
use crate::row::big_value;
use crate::text::trimmed;
use vstd::prelude::*;

verus! {

// ---------------------------------------------------------------- fields in a text

/// Text that stands for itself: ASCII, without a percent sign or a low line.
pub open spec fn is_literal(s: Seq<u8>) -> bool {
    forall|i: int| 0 <= i < s.len() ==> #[trigger] s[i] < 0x80 && s[i] != 0x25 && s[i] != 0x5f
}

/// `%02x`
pub open spec fn hex_mark() -> Seq<u8> {
    seq![0x25u8, 0x30, 0x32, 0x78]
}

/// `%03o`
pub open spec fn octal_mark() -> Seq<u8> {
    seq![0x25u8, 0x30, 0x33, 0x6f]
}

/// `%05d`
pub open spec fn decimal_mark() -> Seq<u8> {
    seq![0x25u8, 0x30, 0x35, 0x64]
}

/// `%_c`
pub open spec fn char_mark() -> Seq<u8> {
    seq![0x25u8, 0x5f, 0x63]
}

/// `%08_ax`
pub open spec fn hex_offset_mark() -> Seq<u8> {
    seq![0x25u8, 0x30, 0x38, 0x5f, 0x61, 0x78]
}

/// `%08_Ax`
pub open spec fn upper_offset_mark() -> Seq<u8> {
    seq![0x25u8, 0x30, 0x38, 0x5f, 0x41, 0x78]
}

/// `%08_Ad`
pub open spec fn decimal_offset_mark() -> Seq<u8> {
    seq![0x25u8, 0x30, 0x38, 0x5f, 0x41, 0x64]
}

/// A part that starts with a byte which stands in one place only is found there or not at all.
proof fn lemma_one_place(s: Seq<u8>, part: Seq<u8>, p: int, i: int)
    requires
        part.len() > 0,
        0 <= i <= p,
        forall|j: int| 0 <= j < s.len() && #[trigger] s[j] == part[0] ==> j == p,
    ensures
        find_part(s, part, i) == if p + part.len() <= s.len() && s.subrange(p, p + part.len())
            == part {
            Some(p)
        } else {
            None
        },
    decreases p - i,
{
    if i + part.len() <= s.len() {
        if i < p {
            assert(s.subrange(i, i + part.len())[0] == s[i]);
            lemma_one_place(s, part, p, i + 1);
        } else if s.subrange(i, i + part.len()) != part {
            lemma_gone(s, part, i + 1);
        }
    }
}

/// A part that starts with a byte which does not stand any more is not found.
proof fn lemma_gone(s: Seq<u8>, part: Seq<u8>, i: int)
    requires
        part.len() > 0,
        0 <= i,
        forall|j: int| i <= j < s.len() ==> #[trigger] s[j] != part[0],
    ensures
        find_part(s, part, i) is None,
    decreases s.len() - i,
{
    if i + part.len() <= s.len() {
        assert(s.subrange(i, i + part.len())[0] == s[i]);
        lemma_gone(s, part, i + 1);
    }
}

/// The field that a text with one mark has.
pub open spec fn mark_of(f: Field) -> Seq<u8> {
    match f {
        Field::Hex => hex_mark(),
        Field::Octal => octal_mark(),
        Field::Decimal => decimal_mark(),
        Field::Character => char_mark(),
        Field::HexOffset => hex_offset_mark(),
        Field::DecimalOffset => decimal_offset_mark(),
        Field::Text => seq![],
    }
}

proof fn lemma_mark_places(a: Seq<u8>, m: Seq<u8>, b: Seq<u8>)
    requires
        is_literal(a),
        is_literal(b),
        m.len() >= 3,
        m[0] == 0x25,
        forall|i: int| 0 < i < m.len() ==> #[trigger] m[i] != 0x25,
    ensures
        forall|j: int| 0 <= j < (a + m + b).len() && #[trigger] (a + m + b)[j] == 0x25 ==> j
            == a.len(),
        forall|j: int| 0 <= j < (a + m + b).len() && #[trigger] (a + m + b)[j] == 0x5f ==> a.len()
            < j < a.len() + m.len() && m[j - a.len()] == 0x5f,
        forall|j: int| 0 <= j < m.len() ==> (a + m + b)[a.len() + j] == #[trigger] m[j],
{
    let s = a + m + b;
    assert forall|j: int| 0 <= j < s.len() && #[trigger] s[j] == 0x25 implies j == a.len() by {
        if j < a.len() {
            assert(s[j] == a[j]);
        } else if j < a.len() + m.len() {
            assert(s[j] == m[j - a.len()]);
        } else {
            assert(s[j] == b[j - a.len() - m.len()]);
        }
    }
    assert forall|j: int| 0 <= j < s.len() && #[trigger] s[j] == 0x5f implies a.len() < j < a.len()
        + m.len() && m[j - a.len()] == 0x5f by {
        if j < a.len() {
            assert(s[j] == a[j]);
        } else if j < a.len() + m.len() {
            assert(s[j] == m[j - a.len()]);
        } else {
            assert(s[j] == b[j - a.len() - m.len()]);
        }
    }
}

proof fn lemma_named(a: Seq<u8>, m: Seq<u8>, b: Seq<u8>, part: Seq<u8>)
    requires
        is_literal(a),
        is_literal(b),
        m.len() >= 3,
        m[0] == 0x25,
        forall|i: int| 0 < i < m.len() ==> #[trigger] m[i] != 0x25,
        part.len() >= 3,
        part[0] == 0x25,
        part.len() == m.len() || part[1] != m[1],
    ensures
        find_part(a + m + b, part, 0) == if part == m {
            Some(a.len() as int)
        } else {
            None
        },
{
    let s = a + m + b;
    let p = a.len() as int;
    lemma_mark_places(a, m, b);
    lemma_one_place(s, part, p, 0);
    if p + part.len() <= s.len() {
        let t = s.subrange(p, p + part.len());
        if t == part {
            assert(t[1] == s[p + 1] && s[p + 1] == m[1]);
            assert(t =~= m) by {
                assert forall|j: int| 0 <= j < t.len() implies #[trigger] t[j] == m[j] by {
                    assert(t[j] == s[p + j]);
                }
            }
        } else if part == m {
            assert(t =~= m);
        }
    }
}

/// Where there is no low line, there is no offset and no character.
proof fn lemma_no_low_line(s: Seq<u8>)
    requires
        forall|j: int| 0 <= j < s.len() ==> #[trigger] s[j] != 0x5f,
    ensures
        find_part(s, field_name(Field::HexOffset), 0) is None,
        find_part(s, upper_offset(), 0) is None,
        find_part(s, field_name(Field::DecimalOffset), 0) is None,
{
    lemma_gone(s, field_name(Field::HexOffset), 0);
    lemma_gone(s, upper_offset(), 0);
    lemma_gone(s, field_name(Field::DecimalOffset), 0);
}

/// A text with one mark has the field of the mark, with the rest of the text around it.
#[verifier::rlimit(50)]
proof fn lemma_field_found(a: Seq<u8>, f: Field, b: Seq<u8>)
    requires
        is_literal(a),
        is_literal(b),
        f == Field::Hex || f == Field::Octal || f == Field::Decimal || f == Field::Character,
    ensures
        field_of(a + mark_of(f) + b) == (FieldAt {
            field: f,
            from: a.len() as int,
            to: (a.len() + mark_of(f).len()) as int,
        }),
{
    let m = mark_of(f);
    let s = a + m + b;
    let p = a.len() as int;
    lemma_mark_places(a, m, b);
    let char_name = field_name(Field::Character);
    let hex_name = field_name(Field::Hex);
    let octal_name = field_name(Field::Octal);
    let decimal_name = field_name(Field::Decimal);
    if f == Field::Character {
        assert(s[p + 1] == m[1] && s[p + 2] == m[2]);
        lemma_one_place(s, field_name(Field::HexOffset), p + 1, 0);
        lemma_one_place(s, upper_offset(), p + 1, 0);
        lemma_one_place(s, field_name(Field::DecimalOffset), p + 1, 0);
        assert(p + 4 <= s.len() ==> s.subrange(p + 1, p + 4)[1] == 0x63);
        lemma_named(a, m, b, char_name);
        assert(char_name =~= m);
    } else {
        lemma_no_low_line(s);
        assert(char_name[1] != m[1]);
        lemma_named(a, m, b, char_name);
        assert(char_name != m);
        lemma_named(a, m, b, hex_name);
        lemma_named(a, m, b, octal_name);
        lemma_named(a, m, b, decimal_name);
        assert(hex_name =~= hex_mark() && octal_name =~= octal_mark() && decimal_name
            =~= decimal_mark());
        assert(hex_mark()[2] == 0x32 && octal_mark()[2] == 0x33 && decimal_mark()[2] == 0x35);
    }
}

/// A text with an offset mark has an offset field.
proof fn lemma_offset_found(a: Seq<u8>, m: Seq<u8>, b: Seq<u8>)
    requires
        is_literal(a),
        is_literal(b),
        m == hex_offset_mark() || m == upper_offset_mark() || m == decimal_offset_mark(),
    ensures
        field_of(a + m + b) == (FieldAt {
            field: if m == decimal_offset_mark() {
                Field::DecimalOffset
            } else {
                Field::HexOffset
            },
            from: a.len() as int,
            to: (a.len() + 6) as int,
        }),
{
    let s = a + m + b;
    let p = a.len() as int;
    lemma_mark_places(a, m, b);
    lemma_one_place(s, field_name(Field::HexOffset), p + 3, 0);
    lemma_one_place(s, upper_offset(), p + 3, 0);
    lemma_one_place(s, field_name(Field::DecimalOffset), p + 3, 0);
    let t = s.subrange(p + 3, p + 6);
    assert(s[p] == m[0] && s[p + 1] == m[1] && s[p + 2] == m[2] && s[p + 3] == m[3] && s[p + 4]
        == m[4] && s[p + 5] == m[5]);
    assert(t =~= seq![m[3], m[4], m[5]]);
    assert(hex_offset_mark()[4] == 0x61 && upper_offset_mark()[4] == 0x41
        && decimal_offset_mark()[4] == 0x41);
    assert(hex_offset_mark()[5] == 0x78 && upper_offset_mark()[5] == 0x78
        && decimal_offset_mark()[5] == 0x64);
    assert(field_name(Field::HexOffset)[1] == 0x61 && upper_offset()[1] == 0x41
        && field_name(Field::DecimalOffset)[1] == 0x41);
    assert(upper_offset()[2] == 0x78 && field_name(Field::DecimalOffset)[2] == 0x64);
    assert(t[1] == m[4] && t[2] == m[5]);
    if m == hex_offset_mark() {
        assert(t =~= field_name(Field::HexOffset));
    } else if m == upper_offset_mark() {
        assert(t =~= upper_offset());
    } else {
        assert(t =~= field_name(Field::DecimalOffset));
    }
    reveal_with_fuel(digits_start, 4);
    assert(digits_start(s, p + 3) == p + 1);
}

/// A text in ASCII is written as it stands.
proof fn lemma_latin(s: Seq<u8>)
    requires
        is_literal(s),
    ensures
        latin_text(s) == s,
    decreases s.len(),
{
    if s.len() > 0 {
        let t = s.drop_last();
        assert(is_literal(t)) by {
            assert forall|i: int| 0 <= i < t.len() implies #[trigger] t[i] < 0x80 && t[i] != 0x25
                && t[i] != 0x5f by {
                assert(t[i] == s[i]);
            }
        }
        lemma_latin(t);
        assert(s[s.len() - 1] < 0x80);
        assert(latin_text(s) =~= s);
    } else {
        assert(latin_text(s) =~= s);
    }
}

/// The byte at a place, or zero behind the end.
pub open spec fn byte_at(data: Seq<u8>, cur: int) -> u8 {
    if 0 <= cur < data.len() {
        data[cur]
    } else {
        0
    }
}

/// The number that the `size` bytes from `cur` on denote, or those that are left, the first one the
/// most significant.
pub open spec fn number_at(data: Seq<u8>, cur: int, size: int) -> nat
    decreases size,
{
    if size <= 0 {
        0
    } else if 0 <= cur + size - 1 < data.len() {
        number_at(data, cur, size - 1) * 256 + data[cur + size - 1] as nat
    } else {
        number_at(data, cur, size - 1)
    }
}

proof fn lemma_number_at(data: Seq<u8>, cur: int, size: int)
    requires
        0 <= cur,
        0 <= size,
    ensures
        big_value(crate::custom::taken(data, cur, size)) == number_at(data, cur, size),
    decreases size,
{
    let t = crate::custom::taken(data, cur, size);
    if size > 0 {
        lemma_number_at(data, cur, size - 1);
        let u = crate::custom::taken(data, cur, size - 1);
        if cur + size - 1 < data.len() {
            assert(t.drop_last() =~= u);
            assert(t.last() == data[cur + size - 1]);
        } else {
            assert(t =~= u);
        }
    } else {
        assert(t =~= Seq::<u8>::empty());
    }
}

/// What a field writes of the byte or bytes at `cur`, as a reader takes it: numbers by their digits,
/// and characters.
pub open spec fn field_reads(f: Field, size: int, data: Seq<u8>, start: u64, cur: int, t: Seq<u8>) -> bool {
    let b = byte_at(data, cur);
    match f {
        Field::Hex => t.len() == 2 && reads(t, 16, b as nat) && in_case(t, false),
        Field::Octal => t.len() == 3 && reads(t, 8, b as nat),
        Field::Decimal => t.len() == 5 && reads(t, 10, number_at(data, cur, size) % 65536),
        Field::Character => t == seq![
            if 0x20 <= b <= 0x7e {
                b
            } else {
                0x2e
            },
        ],
        Field::HexOffset => t.len() >= 8 && reads(
            t,
            16,
            ((start + cur) % 0x1_0000_0000_0000_0000) as nat,
        ),
        Field::DecimalOffset => t.len() >= 8 && reads(
            t,
            10,
            ((start + cur) % 0x1_0000_0000_0000_0000) as nat,
        ),
        Field::Text => t.len() == 0,
    }
}

proof fn lemma_field_reads(f: Field, size: int, data: Seq<u8>, start: u64, cur: int)
    requires
        0 <= cur,
        0 <= size,
    ensures
        field_reads(f, size, data, start, cur, field_text(f, size, data, start, cur)),
{
    let b = byte_at(data, cur);
    match f {
        Field::Hex => {
            lemma_hex2_value(b, false);
        },
        Field::Octal => {
            lemma_powers();
            lemma_count_below(b as nat, 8, 3);
            lemma_numeral_value(b as nat, 8, 3, false);
        },
        Field::Decimal => {
            let v = number_at(data, cur, size) % 65536;
            lemma_number_at(data, cur, size);
            lemma_powers();
            lemma_count_below(v, 10, 5);
            lemma_numeral_value(v, 10, 5, false);
        },
        Field::Character => {},
        Field::HexOffset => {
            lemma_offset_value(offset_at(start, cur), false, false);
        },
        Field::DecimalOffset => {
            lemma_offset_value(offset_at(start, cur), true, false);
        },
        Field::Text => {},
    }
}

/// A unit with one field writes the text before it, what the field shows, and the text after it,
/// and nothing else. Returns what the field shows.
#[verifier::rlimit(50)]
pub proof fn lemma_unit_shows(
    a: Seq<u8>,
    f: Field,
    b: Seq<u8>,
    count: int,
    size: int,
    data: Seq<u8>,
    start: u64,
    cur: int,
) -> (t: Seq<u8>)
    requires
        is_literal(a),
        is_literal(b),
        f != Field::Text,
        0 <= cur,
        0 <= size,
    ensures
        unit_text(UnitView { count, size, fmt: a + mark_of(f) + b }, data, start, cur) == a + t + b,
        field_reads(f, size, data, start, cur, t),
{
    let m = mark_of(f);
    let s = a + m + b;
    if f == Field::HexOffset || f == Field::DecimalOffset {
        lemma_offset_found(a, m, b);
        assert(hex_offset_mark()[4] != decimal_offset_mark()[4]);
    } else {
        lemma_field_found(a, f, b);
    }
    lemma_field_reads(f, size, data, start, cur);
    lemma_latin(a);
    lemma_latin(b);
    assert(s.take(a.len() as int) =~= a);
    assert(s.skip((a.len() + m.len()) as int) =~= b);
    field_text(f, size, data, start, cur)
}

/// The other way to write an offset shows the same.
pub proof fn lemma_upper_offset_shows(
    a: Seq<u8>,
    b: Seq<u8>,
    count: int,
    size: int,
    data: Seq<u8>,
    start: u64,
    cur: int,
) -> (t: Seq<u8>)
    requires
        is_literal(a),
        is_literal(b),
        0 <= cur,
        0 <= size,
    ensures
        unit_text(
            UnitView { count, size, fmt: a + upper_offset_mark() + b },
            data,
            start,
            cur,
        ) == a + t + b,
        field_reads(Field::HexOffset, size, data, start, cur, t),
{
    let m = upper_offset_mark();
    let s = a + m + b;
    lemma_offset_found(a, m, b);
    assert(m[5] != decimal_offset_mark()[5]);
    lemma_field_reads(Field::HexOffset, size, data, start, cur);
    lemma_latin(a);
    lemma_latin(b);
    assert(s.take(a.len() as int) =~= a);
    assert(s.skip((a.len() + m.len()) as int) =~= b);
    field_text(Field::HexOffset, size, data, start, cur)
}

/// A unit without a field writes its text.
pub proof fn lemma_text_shows(
    a: Seq<u8>,
    count: int,
    size: int,
    data: Seq<u8>,
    start: u64,
    cur: int,
)
    requires
        is_literal(a),
    ensures
        unit_text(UnitView { count, size, fmt: a }, data, start, cur) == a,
{
    lemma_no_low_line(a);
    lemma_gone(a, field_name(Field::Character), 0);
    lemma_gone(a, field_name(Field::Hex), 0);
    lemma_gone(a, field_name(Field::Octal), 0);
    lemma_gone(a, field_name(Field::Decimal), 0);
    lemma_latin(a);
    assert(a.take(a.len() as int) =~= a);
    assert(a.skip(a.len() as int) =~= Seq::<u8>::empty());
    assert(unit_text(UnitView { count, size, fmt: a }, data, start, cur) =~= a);
}

// ---------------------------------------------------------------- rows of units

/// What a unit that takes one byte at a time writes of `m` bytes from `cur` on, one after the other.
pub open spec fn in_turn(u: UnitView, data: Seq<u8>, start: u64, cur: int, m: nat) -> Seq<u8>
    decreases m,
{
    if m == 0 {
        seq![]
    } else {
        in_turn(u, data, start, cur, (m - 1) as nat) + unit_text(u, data, start, cur + m - 1)
    }
}

proof fn lemma_run_in_turn(u: UnitView, data: Seq<u8>, start: u64, cur: int, k: nat)
    requires
        u.size == 1,
    ensures
        unit_run(u, data, start, cur, k as int) == in_turn(u, data, start, cur, k),
    decreases k,
{
    if k > 0 {
        lemma_run_in_turn(u, data, start, cur, (k - 1) as nat);
        assert((k - 1) * u.size == k - 1) by (nonlinear_arith)
            requires
                u.size == 1,
        ;
    }
}

proof fn lemma_in_turn_join(u: UnitView, data: Seq<u8>, start: u64, cur: int, a: nat, b: nat)
    ensures
        in_turn(u, data, start, cur, a) + in_turn(u, data, start, cur + a, b) == in_turn(
            u,
            data,
            start,
            cur,
            a + b,
        ),
    decreases b,
{
    let front = in_turn(u, data, start, cur, a);
    if b == 0 {
        assert(front + Seq::<u8>::empty() =~= front);
    } else {
        lemma_in_turn_join(u, data, start, cur, a, (b - 1) as nat);
        lemma_concat_assoc(
            front,
            in_turn(u, data, start, cur + a, (b - 1) as nat),
            unit_text(u, data, start, cur + a + b - 1),
        );
    }
}

/// The number of rows is the least that takes all bytes.
pub proof fn lemma_enough_rows(units: Seq<UnitView>, len: int, n: int)
    requires
        0 <= len,
        1 <= n,
        row_size(units) == n,
    ensures
        ({
            let rows = row_count(units, len);
            &&& 0 <= rows
            &&& rows * n >= len
            &&& rows > 0 ==> (rows - 1) * n < len
            &&& len == 0 ==> rows == 0
        }),
{
    if len > 0 {
        let q = (len - 1) / n;
        assert(q * n <= len - 1 < (q + 1) * n && 0 <= q) by (nonlinear_arith)
            requires
                q == (len - 1) / n,
                n >= 1,
                len > 0,
        ;
    }
}

/// Rows made of a text or an offset, a unit that takes `n` bytes one by one, and another text: each
/// row shows the next `n` bytes in their order, between its two texts.
#[verifier::rlimit(50)]
pub proof fn lemma_next_row(
    pre: UnitView,
    u: UnitView,
    post: UnitView,
    data: Seq<u8>,
    start: u64,
    k: nat,
)
    requires
        pre.count == 1,
        pre.size == 0,
        post.count == 1,
        post.size == 0,
        u.size == 1,
        u.count >= 1,
    ensures
        ({
            let n = u.count;
            let units = seq![pre, u, post];
            &&& row_size(units) == n
            &&& custom_rows(units, data, start, k as int + 1) == custom_rows(units, data, start, k as int)
                + (unit_text(pre, data, start, k * n) + in_turn(u, data, start, k * n, n as nat)
                + unit_text(post, data, start, k * n + n))
        }),
{
    let n = u.count;
    let units = seq![pre, u, post];
    let cur = k * n;
    assert(1 * 0 == 0 && n * 1 == n);
    reveal_with_fuel(span, 4);
    reveal_with_fuel(units_text, 4);
    assert(pre.count * pre.size == 0);
    assert(post.count * post.size == 0);
    assert(u.count * u.size == n) by (nonlinear_arith)
        requires
            u.size == 1,
            u.count == n,
    ;
    assert(span(units, 1) == 0 && span(units, 2) == n && span(units, 3) == n);
    assert(row_size(units) == n);
    assert(0 * pre.size == 0 && 0 * post.size == 0);
    reveal_with_fuel(unit_run, 2);
    let x = unit_text(pre, data, start, cur);
    let y = in_turn(u, data, start, cur, n as nat);
    let z = unit_text(post, data, start, cur + n);
    lemma_run_in_turn(u, data, start, cur, n as nat);
    assert(unit_run(pre, data, start, cur, 1) =~= x);
    assert(unit_run(post, data, start, cur + n, 1) =~= z);
    assert(units_text(units, data, start, cur, 3) =~= x + y + z);
}

/// Rows of one unit that takes `n` bytes one by one show all bytes in their order.
pub proof fn lemma_only_unit(u: UnitView, data: Seq<u8>, start: u64, k: nat)
    requires
        u.size == 1,
        u.count >= 1,
    ensures
        row_size(seq![u]) == u.count,
        custom_rows(seq![u], data, start, k as int) == in_turn(
            u,
            data,
            start,
            0,
            (k * u.count) as nat,
        ),
    decreases k,
{
    let n = u.count;
    let units = seq![u];
    reveal_with_fuel(span, 3);
    reveal_with_fuel(units_text, 3);
    assert(u.count * u.size == n) by (nonlinear_arith)
        requires
            u.size == 1,
            u.count == n,
    ;
    assert(span(units, 1) == n);
    assert(0 * n == 0);
    if k > 0 {
        let j = (k - 1) as nat;
        lemma_only_unit(u, data, start, j);
        assert(k * n == j * n + n && 0 <= j * n) by (nonlinear_arith)
            requires
                k == j + 1,
                n >= 1,
        ;
        lemma_run_in_turn(u, data, start, j * n, n as nat);
        lemma_in_turn_join(u, data, start, 0, (j * n) as nat, n as nat);
        assert(units_text(units, data, start, j * n, 1) =~= in_turn(
            u,
            data,
            start,
            j * n,
            n as nat,
        ));
    }
}

/// Where the digits of byte `i` stand: between the texts of a unit.
proof fn lemma_hex_in_turn(
    a: Seq<u8>,
    b: Seq<u8>,
    count: int,
    data: Seq<u8>,
    start: u64,
    m: nat,
    i: int,
)
    requires
        is_literal(a),
        is_literal(b),
        0 <= i < m,
    ensures
        ({
            let u = UnitView { count, size: 1, fmt: a + hex_mark() + b };
            let t = in_turn(u, data, start, 0, m);
            let step = a.len() + 2 + b.len();
            let at = i * step + a.len();
            &&& t.len() == m * step
            &&& 0 <= i * step
            &&& at + 2 + b.len() <= t.len()
            &&& t.subrange(i * step, at) == a
            &&& reads(t.subrange(at, at + 2), 16, byte_at(data, i) as nat)
            &&& t.subrange(at + 2, at + 2 + b.len()) == b
        }),
    decreases m,
{
    let u = UnitView { count, size: 1, fmt: a + hex_mark() + b };
    let step = a.len() + 2 + b.len();
    let j = (m - 1) as nat;
    let front = in_turn(u, data, start, 0, j);
    let t = in_turn(u, data, start, 0, m);
    let x = lemma_unit_shows(a, Field::Hex, b, count, 1, data, start, j as int);
    assert(0 <= i * step && m * step == j * step + step) by (nonlinear_arith)
        requires
            m == j + 1,
            0 <= i,
            step >= 0,
    ;
    if j == 0 {
        assert(front =~= Seq::<u8>::empty());
        assert(0 * step == 0);
    } else {
        lemma_hex_in_turn(a, b, count, data, start, j, 0);
    }
    assert(front.len() == j * step);
    assert(t == front + (a + x + b));
    let at = i * step + a.len();
    if i == j {
        assert(t.subrange(i * step, at) =~= a);
        assert(t.subrange(at, at + 2) =~= x);
        assert(t.subrange(at + 2, at + 2 + b.len()) =~= b);
    } else {
        lemma_hex_in_turn(a, b, count, data, start, j, i);
        assert(t.subrange(i * step, at) =~= front.subrange(i * step, at));
        assert(t.subrange(at, at + 2) =~= front.subrange(at, at + 2));
        assert(t.subrange(at + 2, at + 2 + b.len()) =~= front.subrange(at + 2, at + 2 + b.len()));
    }
}

/// The fields `%02x` of a dump, read in their order, give the data: the digits of byte `i` stand
/// behind those of the bytes before it, with the text of the format around them.
pub proof fn lemma_hex_fields(
    a: Seq<u8>,
    b: Seq<u8>,
    count: int,
    data: Seq<u8>,
    start: u64,
    i: int,
)
    requires
        is_literal(a),
        is_literal(b),
        count >= 1,
        0 <= i < data.len(),
    ensures
        ({
            let units = seq![UnitView { count, size: 1, fmt: a + hex_mark() + b }];
            let t = custom_rows(units, data, start, row_count(units, data.len() as int));
            let step = a.len() + 2 + b.len();
            let at = i * step + a.len();
            &&& at + 2 + b.len() <= t.len()
            &&& t.subrange(i * step, at) == a
            &&& reads(t.subrange(at, at + 2), 16, data[i] as nat)
            &&& t.subrange(at + 2, at + 2 + b.len()) == b
        }),
{
    let u = UnitView { count, size: 1, fmt: a + hex_mark() + b };
    let units = seq![u];
    lemma_only_unit(u, data, start, 0);
    let rows = row_count(units, data.len() as int);
    lemma_enough_rows(units, data.len() as int, count);
    lemma_only_unit(u, data, start, rows as nat);
    lemma_hex_in_turn(a, b, count, data, start, (rows * count) as nat, i);
}

// ---------------------------------------------------------------- formats

/// Text that can stand between quotation marks as it is.
pub open spec fn is_quotable(s: Seq<u8>) -> bool {
    forall|i: int| 0 <= i < s.len() ==> #[trigger] s[i] != 0x22 && s[i] != 0x5c
}

proof fn lemma_quoted(pre: Seq<u8>, body: Seq<u8>, rest: Seq<u8>, k: int)
    requires
        is_quotable(body),
        0 <= k <= body.len(),
    ensures
        ({
            let s = pre + body + seq![0x22u8] + rest;
            &&& quoted_text(s, pre.len() + k) == body.skip(k)
            &&& quoted_end(s, pre.len() + k) == pre.len() + body.len()
        }),
    decreases body.len() - k,
{
    let s = pre + body + seq![0x22u8] + rest;
    let pos = pre.len() + k;
    if k == body.len() {
        assert(s[pos] == 0x22);
        assert(body.skip(k) =~= Seq::<u8>::empty());
    } else {
        assert(s[pos] == body[k]);
        lemma_quoted(pre, body, rest, k + 1);
        assert(body.skip(k) =~= seq![body[k]] + body.skip(k + 1));
    }
}

proof fn lemma_digits_stop(pre: Seq<u8>, digits: Seq<u8>, rest: Seq<u8>, k: int)
    requires
        0 <= k <= digits.len(),
        forall|i: int| 0 <= i < digits.len() ==> 0x30 <= #[trigger] digits[i] <= 0x39,
        rest.len() > 0,
        !(0x30 <= rest[0] <= 0x39),
    ensures
        decimals_end(pre + digits + rest, pre.len() + k) == pre.len() + digits.len(),
    decreases digits.len() - k,
{
    let s = pre + digits + rest;
    if k == digits.len() {
        assert(s[pre.len() + k] == rest[0]);
    } else {
        assert(s[pre.len() + k] == digits[k]);
        lemma_digits_stop(pre, digits, rest, k + 1);
    }
}

proof fn lemma_digits_count(s: Seq<u8>)
    requires
        forall|i: int| 0 <= i < s.len() ==> 0x30 <= #[trigger] s[i] <= 0x39,
    ensures
        decimal_number(s) == value(s, 10),
    decreases s.len(),
{
    if s.len() > 0 {
        let t = s.drop_last();
        assert forall|i: int| 0 <= i < t.len() implies 0x30 <= #[trigger] t[i] <= 0x39 by {
            assert(t[i] == s[i]);
        }
        lemma_digits_count(t);
        assert(0x30 <= s[s.len() - 1] <= 0x39);
    }
}

/// A count, a slash, a size and a quoted text are one unit: so many times, of so many bytes each,
/// with the text between the quotation marks. What follows is read on its own.
#[verifier::rlimit(50)]
pub proof fn lemma_unit_read(
    n: usize,
    m: usize,
    count: Seq<u8>,
    size: Seq<u8>,
    body: Seq<u8>,
    rest: Seq<u8>,
)
    requires
        reads(count, 10, n as nat),
        reads(size, 10, m as nat),
        is_quotable(body),
    ensures
        ({
            let s = count + seq![0x2fu8] + size + seq![0x20u8, 0x22] + body + seq![0x22u8] + rest;
            let unit = UnitView { count: n as int, size: m as int, fmt: body };
            units_from(s, 0) == seq![unit] + units_from(
                s,
                s.len() - rest.len(),
            )
        }),
{
    let head = count + seq![0x2fu8] + size + seq![0x20u8, 0x22];
    let s = head + body + seq![0x22u8] + rest;
    assert(s =~= count + seq![0x2fu8] + size + seq![0x20u8, 0x22] + body + seq![0x22u8] + rest);
    assert forall|i: int| 0 <= i < count.len() implies 0x30 <= #[trigger] count[i] <= 0x39 by {
        assert(worth(count[i]) < 10);
    }
    assert forall|i: int| 0 <= i < size.len() implies 0x30 <= #[trigger] size[i] <= 0x39 by {
        assert(worth(size[i]) < 10);
    }
    let none = Seq::<u8>::empty();
    let after = seq![0x2fu8] + size + seq![0x20u8, 0x22] + body + seq![0x22u8] + rest;
    assert(s =~= none + count + after);
    lemma_digits_stop(none, count, after, 0);
    let end = count.len() as int;
    assert(s[0] == count[0] && s[end] == 0x2f);
    let tail = seq![0x20u8, 0x22] + body + seq![0x22u8] + rest;
    assert(s =~= count + seq![0x2fu8] + size + tail);
    lemma_digits_stop(count + seq![0x2fu8], size, tail, 0);
    let stop = end + 1 + size.len();
    assert(s[stop] == 0x20 && s[stop + 1] == 0x22);
    reveal_with_fuel(spaces_end, 3);
    assert(spaces_end(s, stop) == stop + 1);
    assert(s.subrange(0, end) =~= count);
    assert(s.subrange(end + 1, stop) =~= size);
    lemma_digits_count(count);
    lemma_digits_count(size);
    lemma_quoted(head, body, rest, 0);
    assert(body.skip(0) =~= body);
    let p = prefix_at(s, 0);
    assert(p.count == n && p.size == m && p.next == stop + 1);
    if rest.len() == 0 {
        assert(units_from(s, s.len() as int) =~= Seq::<UnitView>::empty());
    }
}

/// A format that shows bytes in hexadecimal, `N/1 "%02x..."`: all digits can be read back.
#[verifier::rlimit(50)]
pub proof fn lemma_hex_format(
    formats: Seq<Seq<char>>,
    n: usize,
    count: Seq<u8>,
    a: Seq<u8>,
    b: Seq<u8>,
    data: Seq<u8>,
    start: u64,
    i: int,
)
    requires
        formats.len() == 1,
        n >= 1,
        reads(count, 10, n as nat),
        is_literal(a) && is_quotable(a),
        is_literal(b) && is_quotable(b),
        utf8(trimmed(formats[0])) == count + seq![0x2fu8, 0x31, 0x20, 0x22] + (a + hex_mark() + b)
            + seq![0x22u8],
        0 <= i < data.len(),
    ensures
        ({
            let t = custom_dump(formats, data, start);
            let step = a.len() + 2 + b.len();
            let at = i * step + a.len();
            &&& at + 2 + b.len() <= t.len()
            &&& t.subrange(i * step, at) == a
            &&& reads(t.subrange(at, at + 2), 16, data[i] as nat)
            &&& t.subrange(at + 2, at + 2 + b.len()) == b
        }),
{
    let body = a + hex_mark() + b;
    let s = utf8(trimmed(formats[0]));
    let one = seq![0x31u8];
    reveal_with_fuel(value, 2);
    assert(one.drop_last() =~= Seq::<u8>::empty());
    assert forall|k: int| 0 <= k < body.len() implies #[trigger] body[k] != 0x22 && body[k]
        != 0x5c by {
        if k < a.len() {
            assert(body[k] == a[k]);
        } else if k < a.len() + 4 {
            assert(body[k] == hex_mark()[k - a.len()]);
        } else {
            assert(body[k] == b[k - a.len() - 4]);
        }
    }
    let none = Seq::<u8>::empty();
    lemma_unit_read(n, 1, count, one, body, none);
    assert(s =~= count + seq![0x2fu8] + one + seq![0x20u8, 0x22] + body + seq![0x22u8] + none);
    let unit = UnitView { count: n as int, size: 1, fmt: body };
    assert(units_from(s, s.len() as int) =~= Seq::<UnitView>::empty());
    reveal_with_fuel(format_units, 2);
    assert(format_units(formats, 1) =~= seq![unit]);
    lemma_hex_fields(a, b, n as int, data, start, i);
}

// ---------------------------------------------------------------- units without a count

/// A quoted text without a count is one unit that is applied once. It takes one byte where it has a
/// field that shows bytes, and none where it shows an offset or itself alone.
#[verifier::rlimit(50)]
pub proof fn lemma_bare_unit_read(a: Seq<u8>, f: Field, b: Seq<u8>, rest: Seq<u8>)
    requires
        is_literal(a) && is_quotable(a),
        is_literal(b) && is_quotable(b),
    ensures
        ({
            let body = a + mark_of(f) + b;
            let s = seq![0x22u8] + body + seq![0x22u8] + rest;
            let unit = UnitView {
                count: 1,
                size: match f {
                    Field::HexOffset | Field::DecimalOffset | Field::Text => 0,
                    _ => 1,
                },
                fmt: body,
            };
            units_from(s, 0) == seq![unit] + units_from(s, s.len() - rest.len())
        }),
{
    let m = mark_of(f);
    let body = a + m + b;
    let head = seq![0x22u8];
    let s = head + body + seq![0x22u8] + rest;
    assert forall|k: int| 0 <= k < body.len() implies #[trigger] body[k] != 0x22 && body[k]
        != 0x5c by {
        if k < a.len() {
            assert(body[k] == a[k]);
        } else if k < a.len() + m.len() {
            assert(body[k] == m[k - a.len()]);
        } else {
            assert(body[k] == b[k - a.len() - m.len()]);
        }
    }
    lemma_quoted(head, body, rest, 0);
    assert(body.skip(0) =~= body);
    match f {
        Field::HexOffset | Field::DecimalOffset => {
            lemma_offset_found(a, m, b);
        },
        Field::Text => {
            assert(body =~= a + b);
            assert forall|k: int| 0 <= k < body.len() implies #[trigger] body[k] != 0x5f && body[k]
                != 0x25 by {
                if k < a.len() {
                    assert(body[k] == a[k]);
                } else {
                    assert(body[k] == b[k - a.len()]);
                }
            }
            lemma_no_low_line(body);
            lemma_gone(body, field_name(Field::Character), 0);
            lemma_gone(body, field_name(Field::Hex), 0);
            lemma_gone(body, field_name(Field::Octal), 0);
            lemma_gone(body, field_name(Field::Decimal), 0);
            lemma_gone(body, seq![PERCENT], 0);
        },
        _ => {
            lemma_field_found(a, f, b);
        },
    }
    assert(s[0] == 0x22);
    let p = prefix_at(s, 0);
    assert(p.count == 1 && p.size == 1 && p.next == 0);
    if rest.len() == 0 {
        assert(units_from(s, s.len() as int) =~= Seq::<UnitView>::empty());
    }
}

/// Spaces between units make no difference.
pub proof fn lemma_space_read(s: Seq<u8>, pos: int)
    requires
        0 <= pos < s.len(),
        s[pos] == 0x20,
    ensures
        units_from(s, pos) == units_from(s, pos + 1),
{
}

/// A backslash gives the byte behind it another meaning, or takes its own away.
pub proof fn lemma_escape_read(head: Seq<u8>, b: u8, rest: Seq<u8>)
    ensures
        ({
            let s = head + seq![0x5cu8, b] + rest;
            let n = head.len() as int;
            let more = quoted_text(s, n + 2);
            &&& b == 0x6e ==> quoted_text(s, n) == seq![0x0au8] + more
            &&& b == 0x74 ==> quoted_text(s, n) == seq![0x09u8] + more
            &&& b == 0x30 ==> quoted_text(s, n) == seq![0x00u8] + more
            &&& b != 0x6e && b != 0x74 && b != 0x30 ==> quoted_text(s, n) == seq![b] + more
            &&& quoted_end(s, n) == quoted_end(s, n + 2)
        }),
{
    let s = head + seq![0x5cu8, b] + rest;
    let n = head.len() as int;
    assert(s[n] == 0x5c && s[n + 1] == b);
}

/// The units of several formats follow each other.
pub proof fn lemma_formats_join(formats: Seq<Seq<char>>, k: nat)
    requires
        k < formats.len(),
    ensures
        format_units(formats, k + 1) == format_units(formats, k) + format_units(
            seq![formats[k as int]],
            1,
        ),
        format_units(formats, 0).len() == 0,
{
    reveal_with_fuel(format_units, 2);
    let none = Seq::<UnitView>::empty();
    let u = units_from(utf8(trimmed(formats[k as int])), 0);
    assert(none + u =~= u);
}

// ---------------------------------------------------------------- any units

/// A unit is applied once at each place, and the place moves on by the bytes it takes.
pub proof fn lemma_run_join(u: UnitView, data: Seq<u8>, start: u64, cur: int, a: int, b: int)
    requires
        0 <= a,
        0 <= b,
    ensures
        unit_run(u, data, start, cur, 1) == unit_text(u, data, start, cur),
        unit_run(u, data, start, cur, a + b) == unit_run(u, data, start, cur, a) + unit_run(
            u,
            data,
            start,
            cur + a * u.size,
            b,
        ),
    decreases b,
{
    let none = Seq::<u8>::empty();
    reveal_with_fuel(unit_run, 2);
    assert(0 * u.size == 0);
    assert(none + unit_text(u, data, start, cur) =~= unit_text(u, data, start, cur));
    let front = unit_run(u, data, start, cur, a);
    if b == 0 {
        assert(front + none =~= front);
    } else {
        lemma_run_join(u, data, start, cur, a, b - 1);
        assert(a * u.size + (b - 1) * u.size == (a + b - 1) * u.size) by (nonlinear_arith);
        lemma_concat_assoc(
            front,
            unit_run(u, data, start, cur + a * u.size, b - 1),
            unit_text(u, data, start, cur + (a + b - 1) * u.size),
        );
    }
}

/// Of two lists of units, the second goes on where the first has taken its bytes.
pub proof fn lemma_units_join(
    xs: Seq<UnitView>,
    ys: Seq<UnitView>,
    data: Seq<u8>,
    start: u64,
    cur: int,
    j: int,
)
    requires
        0 <= j <= ys.len(),
    ensures
        span(xs + ys, xs.len() + j) == span(xs, xs.len() as int) + span(ys, j),
        units_text(xs + ys, data, start, cur, xs.len() + j) == units_text(
            xs,
            data,
            start,
            cur,
            xs.len() as int,
        ) + units_text(ys, data, start, cur + span(xs, xs.len() as int), j),
    decreases j,
{
    let n = xs.len() as int;
    let all = xs + ys;
    let front = units_text(xs, data, start, cur, n);
    if j == 0 {
        lemma_first_units(xs, ys, data, start, cur, n);
        assert(front + Seq::<u8>::empty() =~= front);
    } else {
        lemma_units_join(xs, ys, data, start, cur, j - 1);
        assert(all[n + j - 1] == ys[j - 1]);
        lemma_concat_assoc(
            front,
            units_text(ys, data, start, cur + span(xs, n), j - 1),
            unit_run(
                ys[j - 1],
                data,
                start,
                cur + span(xs, n) + span(ys, j - 1),
                ys[j - 1].count,
            ),
        );
    }
}

proof fn lemma_first_units(
    xs: Seq<UnitView>,
    ys: Seq<UnitView>,
    data: Seq<u8>,
    start: u64,
    cur: int,
    j: int,
)
    requires
        0 <= j <= xs.len(),
    ensures
        span(xs + ys, j) == span(xs, j),
        units_text(xs + ys, data, start, cur, j) == units_text(xs, data, start, cur, j),
    decreases j,
{
    if j > 0 {
        lemma_first_units(xs, ys, data, start, cur, j - 1);
        assert((xs + ys)[j - 1] == xs[j - 1]);
    }
}

/// One unit takes its size as often as it is applied.
pub proof fn lemma_one_unit(u: UnitView, data: Seq<u8>, start: u64, cur: int)
    ensures
        span(seq![u], 1) == u.count * u.size,
        units_text(seq![u], data, start, cur, 1) == unit_run(u, data, start, cur, u.count),
{
    reveal_with_fuel(span, 2);
    reveal_with_fuel(units_text, 2);
    let none = Seq::<u8>::empty();
    let r = unit_run(u, data, start, cur, u.count);
    assert(none + r =~= r);
}

/// Each row of a dump by formats applies all units to the bytes behind the rows before it.
pub proof fn lemma_any_row(units: Seq<UnitView>, data: Seq<u8>, start: u64, k: nat)
    ensures
        ({
            let taken = span(units, units.len() as int);
            let n = if taken > 1 {
                taken
            } else {
                1
            };
            custom_rows(units, data, start, k as int + 1) == custom_rows(units, data, start, k as int)
                + units_text(units, data, start, k * n, units.len() as int)
        }),
{
}

// ---------------------------------------------------------------- text beyond ASCII

/// A byte beyond ASCII in a format is written as the character with its number.
pub proof fn lemma_latin_read(b: u8)
    ensures
        b < 0x80 ==> latin(b) == seq![b],
        b >= 0x80 ==> {
            let t = latin(b);
            &&& t.len() == 2
            &&& 0xc2 <= t[0] <= 0xc3
            &&& 0x80 <= t[1] <= 0xbf
            &&& (t[0] - 0xc0) * 64 + (t[1] - 0x80) == b
        },
{
}

// ---------------------------------------------------------------- limited output

/// How many line feeds a text holds.
pub open spec fn line_feeds(s: Seq<u8>) -> nat
    decreases s.len(),
{
    if s.len() == 0 {
        0
    } else {
        line_feeds(s.drop_last()) + if s.last() == 0x0a {
            1nat
        } else {
            0nat
        }
    }
}

proof fn lemma_lines_end(s: Seq<u8>, n: nat, pos: int)
    requires
        0 <= pos <= s.len(),
    ensures
        ({
            let end = lines_end(s, n, pos);
            &&& pos <= end <= s.len()
            &&& line_feeds(s.take(end)) <= line_feeds(s.take(pos)) + n
            &&& end < s.len() ==> line_feeds(s.take(end)) == line_feeds(s.take(pos)) + n
            &&& end < s.len() && n > 0 ==> end > pos && s[end - 1] == 0x0a
        }),
    decreases s.len() - pos,
{
    if n > 0 && pos < s.len() {
        assert(s.take(pos + 1).drop_last() =~= s.take(pos));
        if s[pos] == 0x0a {
            lemma_lines_end(s, (n - 1) as nat, pos + 1);
        } else {
            lemma_lines_end(s, n, pos + 1);
        }
    }
}

/// Limited output is the start of the text, and holds no more lines than asked for. It stops before
/// the end of the text only behind the last line asked for.
pub proof fn lemma_first_lines(max_lines: Option<u64>, s: Seq<u8>)
    ensures
        ({
            let t = first_lines(max_lines, s);
            &&& t.len() <= s.len()
            &&& t == s.take(t.len() as int)
            &&& max_lines is None ==> t == s
            &&& max_lines matches Some(m) ==> line_feeds(t) <= m && (t.len() < s.len()
                ==> line_feeds(t) == m && (m > 0 ==> t.last() == 0x0a) && (m == 0 ==> t.len()
                == 0))
        }),
{
    match max_lines {
        Some(m) => {
            lemma_lines_end(s, m as nat, 0);
            assert(s.take(0).len() == 0);
        },
        None => {
            assert(s.take(s.len() as int) =~= s);
        },
    }
}

// ---------------------------------------------------------------- offsets of any width

proof fn lemma_digits_back(s: Seq<u8>, from: int, i: int)
    requires
        0 <= from <= i <= s.len(),
        forall|j: int| from <= j < i ==> 0x30 <= #[trigger] s[j] <= 0x39,
        from > 0 ==> !(0x30 <= s[from - 1] <= 0x39),
    ensures
        digits_start(s, i) == from,
    decreases i,
{
    if i > from {
        assert(0x30 <= s[i - 1] <= 0x39);
        lemma_digits_back(s, from, i - 1);
    }
}

proof fn lemma_digits_within(s: Seq<u8>, i: int)
    requires
        0 <= i <= s.len(),
    ensures
        0 <= digits_start(s, i) <= i,
    decreases i,
{
    if i > 0 && 0x30 <= s[i - 1] <= 0x39 {
        lemma_digits_within(s, i - 1);
    }
}

/// The name of an offset, by its letter and its base: `_ax`, `_Ax` or `_Ad`.
pub open spec fn is_offset_name(name: Seq<u8>) -> bool {
    name == seq![0x5fu8, 0x61, 0x78] || name == seq![0x5fu8, 0x41, 0x78] || name == seq![
        0x5fu8,
        0x41,
        0x64,
    ]
}

proof fn lemma_name_found(s: Seq<u8>, name: Seq<u8>, q: int)
    requires
        is_offset_name(name),
        0 <= q,
        q + 3 <= s.len(),
        s.subrange(q, q + 3) == name,
        forall|j: int| 0 <= j < s.len() && #[trigger] s[j] == 0x5f ==> j == q,
    ensures
        field_of(s) == offset_field(
            if name[2] == 0x64 {
                Field::DecimalOffset
            } else {
                Field::HexOffset
            },
            s,
            q,
        ),
{
    let t = s.subrange(q, q + 3);
    lemma_one_place(s, field_name(Field::HexOffset), q, 0);
    lemma_one_place(s, upper_offset(), q, 0);
    lemma_one_place(s, field_name(Field::DecimalOffset), q, 0);
    assert(field_name(Field::HexOffset) =~= seq![0x5fu8, 0x61, 0x78]);
    assert(upper_offset() =~= seq![0x5fu8, 0x41, 0x78]);
    assert(field_name(Field::DecimalOffset) =~= seq![0x5fu8, 0x41, 0x64]);
    assert(seq![0x5fu8, 0x61, 0x78][1] == 0x61 && seq![0x5fu8, 0x41, 0x78][1] == 0x41 && seq![
        0x5fu8,
        0x41,
        0x64,
    ][1] == 0x41);
    assert(seq![0x5fu8, 0x61, 0x78][2] == 0x78 && seq![0x5fu8, 0x41, 0x78][2] == 0x78 && seq![
        0x5fu8,
        0x41,
        0x64,
    ][2] == 0x64);
}

/// An offset field is the name of the offset alone, or with a percent sign and any digits in front.
/// Whatever these are, it shows the offset and nothing of itself. Returns what it shows.
#[verifier::rlimit(50)]
pub proof fn lemma_any_offset_shows(
    a: Seq<u8>,
    percent: bool,
    d: Seq<u8>,
    name: Seq<u8>,
    b: Seq<u8>,
    count: int,
    size: int,
    data: Seq<u8>,
    start: u64,
    cur: int,
) -> (t: Seq<u8>)
    requires
        is_literal(a),
        is_literal(b),
        is_offset_name(name),
        forall|i: int| 0 <= i < d.len() ==> 0x30 <= #[trigger] d[i] <= 0x39,
        !percent ==> d.len() == 0,
        0 <= cur,
        0 <= size,
    ensures
        ({
            let front = if percent {
                seq![0x25u8] + d
            } else {
                seq![]
            };
            &&& unit_text(
                UnitView { count, size, fmt: a + front + name + b },
                data,
                start,
                cur,
            ) == a + t + b
            &&& field_reads(
                if name[2] == 0x64 {
                    Field::DecimalOffset
                } else {
                    Field::HexOffset
                },
                size,
                data,
                start,
                cur,
                t,
            )
        }),
{
    let front = if percent {
        seq![0x25u8] + d
    } else {
        Seq::<u8>::empty()
    };
    let s = a + front + name + b;
    let q = (a.len() + front.len()) as int;
    let f = if name[2] == 0x64 {
        Field::DecimalOffset
    } else {
        Field::HexOffset
    };
    assert(name.len() == 3);
    assert(s.subrange(q, q + 3) =~= name);
    assert forall|j: int| 0 <= j < s.len() && #[trigger] s[j] == 0x5f implies j == q by {
        if j < a.len() {
            assert(s[j] == a[j]);
        } else if j < q {
            assert(s[j] == front[j - a.len()]);
            if j > a.len() {
                assert(front[j - a.len()] == d[j - a.len() - 1]);
            }
        } else if j < q + 3 {
            assert(s[j] == name[j - q]);
        } else {
            assert(s[j] == b[j - q - 3]);
        }
    }
    lemma_name_found(s, name, q);
    if percent {
        let from = a.len() as int + 1;
        assert(s[from - 1] == 0x25);
        assert forall|j: int| from <= j < q implies 0x30 <= #[trigger] s[j] <= 0x39 by {
            assert(s[j] == d[j - from]);
        }
        lemma_digits_back(s, from, q);
    } else {
        lemma_digits_within(s, q);
        let k = digits_start(s, q);
        if k > 0 {
            assert(s[k - 1] == a[k - 1]);
        }
    }
    lemma_field_reads(f, size, data, start, cur);
    lemma_latin(a);
    lemma_latin(b);
    assert(s.take(a.len() as int) =~= a);
    assert(s.skip(q + 3) =~= b);
    field_text(f, size, data, start, cur)
}

/// Text is written one character after the other.
pub proof fn lemma_text_joined(s: Seq<u8>, b: u8)
    ensures
        latin_text(s.push(b)) == latin_text(s) + latin(b),
        latin_text(seq![]).len() == 0,
{
    assert(s.push(b).drop_last() =~= s);
}

// ---------------------------------------------------------------- other ways to write units

/// A count alone, without a size, is for single bytes; one that is too large counts as one.
#[verifier::rlimit(50)]
pub proof fn lemma_count_read(count: Seq<u8>, body: Seq<u8>, rest: Seq<u8>)
    requires
        reads(count, 10, value(count, 10)),
        is_quotable(body),
    ensures
        ({
            let s = count + seq![0x20u8, 0x22] + body + seq![0x22u8] + rest;
            let unit = UnitView {
                count: if value(count, 10) <= usize::MAX {
                    value(count, 10) as int
                } else {
                    1
                },
                size: 1,
                fmt: body,
            };
            units_from(s, 0) == seq![unit] + units_from(s, s.len() - rest.len())
        }),
{
    let head = count + seq![0x20u8, 0x22];
    let s = head + body + seq![0x22u8] + rest;
    assert forall|i: int| 0 <= i < count.len() implies 0x30 <= #[trigger] count[i] <= 0x39 by {
        assert(worth(count[i]) < 10);
    }
    let none = Seq::<u8>::empty();
    let after = seq![0x20u8, 0x22] + body + seq![0x22u8] + rest;
    assert(s =~= none + count + after);
    lemma_digits_stop(none, count, after, 0);
    let end = count.len() as int;
    assert(s[0] == count[0] && s[end] == 0x20 && s[end + 1] == 0x22);
    reveal_with_fuel(spaces_end, 3);
    assert(spaces_end(s, end) == end + 1);
    assert(s.subrange(0, end) =~= count);
    lemma_digits_count(count);
    lemma_quoted(head, body, rest, 0);
    assert(body.skip(0) =~= body);
    let p = prefix_at(s, 0);
    assert(p.size == 1 && p.next == end + 1);
    if rest.len() == 0 {
        assert(units_from(s, s.len() as int) =~= Seq::<UnitView>::empty());
    }
}

/// What is neither a space, nor a count, nor a quotation mark is passed over.
pub proof fn lemma_junk_read(s: Seq<u8>, pos: int)
    requires
        0 <= pos < s.len(),
        s[pos] != 0x20,
        s[pos] != 0x22,
        !(0x30 <= s[pos] <= 0x39),
    ensures
        units_from(s, pos) == units_from(s, pos + 1),
{
}

// ---------------------------------------------------------------- which field counts

/// Does `part` stand in `s` at the place `i`?
pub open spec fn stands_at(s: Seq<u8>, part: Seq<u8>, i: int) -> bool {
    0 <= i && i + part.len() <= s.len() && s.subrange(i, i + part.len()) == part
}

/// Does `part` stand anywhere in `s`?
pub open spec fn occurs(s: Seq<u8>, part: Seq<u8>) -> bool {
    exists|i: int| stands_at(s, part, i)
}

/// A part is found where it stands for the first time, and only where it stands.
proof fn lemma_found(s: Seq<u8>, part: Seq<u8>, i: int)
    requires
        part.len() > 0,
        0 <= i,
    ensures
        match find_part(s, part, i) {
            Some(k) => i <= k && stands_at(s, part, k) && forall|j: int|
                i <= j < k ==> !stands_at(s, part, j),
            None => forall|j: int| i <= j ==> !stands_at(s, part, j),
        },
    decreases s.len() - i,
{
    if i + part.len() <= s.len() && s.subrange(i, i + part.len()) != part {
        lemma_found(s, part, i + 1);
        assert(!stands_at(s, part, i));
    } else if i + part.len() <= s.len() {
        assert(stands_at(s, part, i));
    }
}

proof fn lemma_occurs(s: Seq<u8>, part: Seq<u8>)
    requires
        part.len() > 0,
    ensures
        find_part(s, part, 0) is Some <==> occurs(s, part),
{
    lemma_found(s, part, 0);
    match find_part(s, part, 0) {
        Some(k) => {
            assert(stands_at(s, part, k));
        },
        None => {
            if occurs(s, part) {
                let i = choose|i: int| stands_at(s, part, i);
                assert(0 <= i);
            }
        },
    }
}

/// Of several fields in a text one counts: an offset before a byte, a hexadecimal offset before a
/// decimal one, and a character before digits in the bases sixteen, eight and ten.
pub proof fn lemma_field_chosen(s: Seq<u8>)
    ensures
        ({
            let hex = occurs(s, seq![0x5fu8, 0x61, 0x78]) || occurs(s, seq![0x5fu8, 0x41, 0x78]);
            let decimal = occurs(s, seq![0x5fu8, 0x41, 0x64]);
            let f = field_of(s).field;
            &&& hex ==> f == Field::HexOffset
            &&& !hex && decimal ==> f == Field::DecimalOffset
            &&& !hex && !decimal ==> f == if occurs(s, char_mark()) {
                Field::Character
            } else if occurs(s, hex_mark()) {
                Field::Hex
            } else if occurs(s, octal_mark()) {
                Field::Octal
            } else if occurs(s, decimal_mark()) {
                Field::Decimal
            } else {
                Field::Text
            }
        }),
{
    assert(field_name(Field::HexOffset) =~= seq![0x5fu8, 0x61, 0x78]);
    assert(upper_offset() =~= seq![0x5fu8, 0x41, 0x78]);
    assert(field_name(Field::DecimalOffset) =~= seq![0x5fu8, 0x41, 0x64]);
    assert(field_name(Field::Character) =~= char_mark());
    assert(field_name(Field::Hex) =~= hex_mark());
    assert(field_name(Field::Octal) =~= octal_mark());
    assert(field_name(Field::Decimal) =~= decimal_mark());
    lemma_occurs(s, seq![0x5fu8, 0x61, 0x78]);
    lemma_occurs(s, seq![0x5fu8, 0x41, 0x78]);
    lemma_occurs(s, seq![0x5fu8, 0x41, 0x64]);
    lemma_occurs(s, char_mark());
    lemma_occurs(s, hex_mark());
    lemma_occurs(s, octal_mark());
    lemma_occurs(s, decimal_mark());
}

/// A field that shows bytes stands where its mark stands for the first time, and takes its whole
/// mark.
pub proof fn lemma_field_place(s: Seq<u8>)
    ensures
        ({
            let at = field_of(s);
            at.field == Field::Character || at.field == Field::Hex || at.field == Field::Octal
                || at.field == Field::Decimal ==> {
                let m = mark_of(at.field);
                &&& stands_at(s, m, at.from)
                &&& at.to == at.from + m.len()
                &&& forall|j: int| 0 <= j < at.from ==> !stands_at(s, m, j)
            }
        }),
{
    assert(field_name(Field::Character) =~= char_mark());
    assert(field_name(Field::Hex) =~= hex_mark());
    assert(field_name(Field::Octal) =~= octal_mark());
    assert(field_name(Field::Decimal) =~= decimal_mark());
    lemma_found(s, char_mark(), 0);
    lemma_found(s, hex_mark(), 0);
    lemma_found(s, octal_mark(), 0);
    lemma_found(s, decimal_mark(), 0);
}

} // verus!
