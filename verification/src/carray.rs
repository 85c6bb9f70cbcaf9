//! C arrays as a compiler reads them.

use crate::numeral::digit_count;
use crate::plain::{
    array_body, array_end, array_head, array_item, array_items, array_line, array_lines,
    array_stream_text, array_text, decimal, literal, literals, utf8,
};
use crate::read::{in_case, lemma_hex2_value, lemma_numeral_value, reads};
use vstd::prelude::*;
use vstd::utf8::*;

verus! {

/// Does the literal of the byte `b` stand at a place: `0x` and two digits that denote it?
pub open spec fn literal_at(s: Seq<u8>, at: int, b: u8, upper: bool) -> bool {
    &&& 0 <= at
    &&& at + 4 <= s.len()
    &&& s[at] == 0x30
    &&& s[at + 1] == 0x78
    &&& reads(s.subrange(at + 2, at + 4), 16, b as nat)
    &&& in_case(s.subrange(at + 2, at + 4), upper)
}

/// Where literal `i` stands among the lines: twelve stand on a line, behind two spaces.
pub open spec fn literal_place(i: int) -> int {
    75 * (i / 12) + 2 + 6 * (i % 12)
}

/// What follows literal `i` where another one comes: a comma and a space, and after twelve a new
/// line and two spaces.
pub open spec fn continued(s: Seq<u8>, at: int, i: int) -> bool {
    &&& at + 6 <= s.len()
    &&& s[at + 4] == 0x2c
    &&& s[at + 5] == 0x20
    &&& (i + 1) % 12 == 0 ==> {
        &&& at + 9 <= s.len()
        &&& s[at + 6] == 0x0a
        &&& s[at + 7] == 0x20
        &&& s[at + 8] == 0x20
    }
}

/// Does byte `i` stand in its place, among lines that start at `from`?
pub open spec fn listed(s: Seq<u8>, from: int, data: Seq<u8>, upper: bool, i: int) -> bool {
    &&& literal_at(s, from + literal_place(i), data[i], upper)
    &&& i < data.len() - 1 ==> continued(s, from + literal_place(i), i)
}

/// Do all bytes stand in their places, on lines that start at `from`?
pub open spec fn all_listed(s: Seq<u8>, from: int, data: Seq<u8>, upper: bool) -> bool {
    &&& data.len() > 0 ==> s.len() >= from + 2 && s[from] == 0x20 && s[from + 1] == 0x20
    &&& forall|i: int| 0 <= i < data.len() ==> #[trigger] listed(s, from, data, upper, i)
}

/// A text in ASCII takes one byte for each character.
pub proof fn lemma_ascii_text(s: Seq<char>)
    requires
        forall|i: int| 0 <= i < s.len() ==> 0 <= #[trigger] s[i] as int <= 127,
    ensures
        utf8(s) == Seq::new(s.len(), |i: int| s[i] as u8),
{
    assert(is_ascii_chars(s));
    is_ascii_chars_encode_utf8(s);
    assert(utf8(s) =~= Seq::new(s.len(), |i: int| s[i] as u8));
}

proof fn lemma_literal(b: u8, upper: bool)
    ensures
        literal_at(literal(b, upper), 0, b, upper),
        literal(b, upper).len() == 4,
{
    lemma_hex2_value(b, upper);
    assert(literal(b, upper).subrange(2, 4) =~= crate::numeral::hex2(b, upper));
}

/// A literal stays where it is in a longer text.
proof fn lemma_literal_moved(s: Seq<u8>, at: int, b: u8, upper: bool, before: Seq<u8>, after: Seq<u8>)
    requires
        literal_at(s, at, b, upper),
    ensures
        literal_at(before + s + after, before.len() + at, b, upper),
{
    let t = before + s + after;
    assert(t.subrange(before.len() + at + 2, before.len() + at + 4) =~= s.subrange(at + 2, at + 4));
}

/// A byte stays in its place in a longer text.
proof fn lemma_listed_moved(
    s: Seq<u8>,
    data: Seq<u8>,
    upper: bool,
    i: int,
    before: Seq<u8>,
    after: Seq<u8>,
)
    requires
        listed(s, 0, data, upper, i),
        0 <= i,
    ensures
        listed(before + s + after, before.len() as int, data, upper, i),
{
    lemma_literal_moved(s, literal_place(i), data[i], upper, before, after);
}

proof fn lemma_literals(src: Seq<u8>, upper: bool, i: int)
    requires
        0 <= i < src.len(),
    ensures
        literals(src, upper).len() == 6 * src.len(),
        literal_at(literals(src, upper), 6 * i, src[i], upper),
        literals(src, upper)[6 * i + 4] == 0x2c,
        literals(src, upper)[6 * i + 5] == 0x20,
    decreases src.len(),
{
    let last = src.last();
    lemma_literal(last, upper);
    if src.len() == 1 {
        assert(src.drop_last() =~= Seq::<u8>::empty());
        assert(literals(src.drop_last(), upper) =~= Seq::<u8>::empty());
        lemma_literal_moved(literal(last, upper), 0, last, upper, Seq::empty(), seq![0x2cu8, 0x20]);
    } else {
        let front = literals(src.drop_last(), upper);
        if i < src.len() - 1 {
            lemma_literals(src.drop_last(), upper, i);
            lemma_literal_moved(
                front,
                6 * i,
                src[i],
                upper,
                Seq::empty(),
                literal(last, upper) + seq![0x2cu8, 0x20],
            );
            assert(literals(src, upper) =~= Seq::<u8>::empty() + front + (literal(last, upper)
                + seq![0x2cu8, 0x20]));
        } else {
            lemma_literals(src.drop_last(), upper, 0);
            lemma_literal_moved(literal(last, upper), 0, last, upper, front, seq![0x2cu8, 0x20]);
        }
    }
}

/// A line of an array.
proof fn lemma_line(src: Seq<u8>, upper: bool, i: int)
    requires
        0 <= i < src.len(),
    ensures
        array_line(src, upper).len() == 2 + 6 * src.len(),
        array_line(src, upper)[0] == 0x20,
        array_line(src, upper)[1] == 0x20,
        literal_at(array_line(src, upper), 2 + 6 * i, src[i], upper),
        array_line(src, upper)[2 + 6 * i + 4] == 0x2c,
        array_line(src, upper)[2 + 6 * i + 5] == 0x20,
{
    let all = literals(src, upper);
    lemma_literals(src, upper, i);
    lemma_literal_moved(all, 6 * i, src[i], upper, seq![0x20u8, 0x20], Seq::empty());
    assert(array_line(src, upper) =~= seq![0x20u8, 0x20] + all + Seq::<u8>::empty());
}

/// The full lines of an array.
#[verifier::spinoff_prover]
#[verifier::rlimit(60)]
proof fn lemma_lines(data: Seq<u8>, upper: bool, k: nat, i: int)
    requires
        12 * k <= data.len(),
        0 <= i < 12 * k,
    ensures
        array_lines(data, upper, k).len() == 75 * k,
        array_lines(data, upper, k)[0] == 0x20,
        array_lines(data, upper, k)[1] == 0x20,
        literal_at(array_lines(data, upper, k), literal_place(i), data[i], upper),
        array_lines(data, upper, k)[literal_place(i) + 4] == 0x2c,
        array_lines(data, upper, k)[literal_place(i) + 5] == 0x20,
        (i + 1) % 12 == 0 ==> array_lines(data, upper, k)[literal_place(i) + 6] == 0x0a,
        (i + 1) % 12 == 0 && i + 1 < 12 * k ==> array_lines(
            data,
            upper,
            k,
        )[literal_place(i) + 7] == 0x20 && array_lines(data, upper, k)[literal_place(i) + 8] == 0x20,
    decreases k,
{
    let j = (k - 1) as nat;
    let src = data.subrange(12 * (k - 1), 12 * (k - 1) + 12);
    let front = array_lines(data, upper, j);
    let line = array_line(src, upper);
    let all = array_lines(data, upper, k);
    if j == 0 {
        assert(front =~= Seq::<u8>::empty());
    } else {
        lemma_lines(data, upper, j, 0);
    }
    lemma_line(src, upper, 0);
    assert(all =~= front + line + seq![0x0au8]);
    if i < 12 * j {
        lemma_lines(data, upper, j, i);
        lemma_literal_moved(
            front,
            literal_place(i),
            data[i],
            upper,
            Seq::empty(),
            line + seq![0x0au8],
        );
        assert(all =~= Seq::<u8>::empty() + front + (line + seq![0x0au8]));
        assert(literal_place(i) + 6 < 75 * j);
    } else {
        let m = i - 12 * j;
        assert(i / 12 == j && i % 12 == m);
        lemma_line(src, upper, m);
        lemma_literal_moved(line, 2 + 6 * m, src[m], upper, front, seq![0x0au8]);
        assert(src[m] == data[i]);
        let at = literal_place(i);
        assert(at == front.len() + 2 + 6 * m);
        assert(all[at + 4] == line[2 + 6 * m + 4]);
        assert(all[at + 5] == line[2 + 6 * m + 5]);
        if m == 11 {
            assert(all[at + 6] == 0x0a);
        }
    }
}

/// A short last line, cut before its last comma.
proof fn lemma_cut_line(tail: Seq<u8>, upper: bool, m: int)
    requires
        0 <= m < tail.len(),
    ensures
        ({
            let part = array_line(tail, upper).take(6 * tail.len() as int);
            &&& part.len() == 6 * tail.len()
            &&& part[0] == 0x20
            &&& part[1] == 0x20
            &&& literal_at(part, 2 + 6 * m, tail[m], upper)
            &&& m < tail.len() - 1 ==> part[2 + 6 * m + 4] == 0x2c && part[2 + 6 * m + 5] == 0x20
        }),
{
    let line = array_line(tail, upper);
    let part = line.take(6 * tail.len() as int);
    lemma_line(tail, upper, m);
    assert(part.subrange(2 + 6 * m + 2, 2 + 6 * m + 4) =~= line.subrange(
        2 + 6 * m + 2,
        2 + 6 * m + 4,
    ));
}

/// The lines of an array, the short last one as well.
proof fn lemma_body_at(data: Seq<u8>, upper: bool, i: int)
    requires
        0 <= i < data.len(),
    ensures
        listed(array_body(data, upper), 0, data, upper, i),
        array_body(data, upper).len() >= 2,
        array_body(data, upper)[0] == 0x20,
        array_body(data, upper)[1] == 0x20,
{
    let k = data.len() / 12;
    let tail = data.skip((12 * k) as int);
    let full = array_lines(data, upper, k);
    let none = Seq::<u8>::empty();
    let part = if tail.len() == 0 {
        none
    } else {
        array_line(tail, upper).take(6 * tail.len() as int)
    };
    let all = array_body(data, upper);
    assert(all == full + part);
    if k > 0 {
        lemma_lines(data, upper, k, 0);
    } else {
        assert(full =~= none);
    }
    if tail.len() > 0 {
        lemma_cut_line(tail, upper, 0);
    }
    if i < 12 * k {
        lemma_lines(data, upper, k, i);
        lemma_literal_moved(full, literal_place(i), data[i], upper, none, part);
        assert(all =~= none + full + part);
        if i + 1 == 12 * k {
            assert(literal_place(i) + 7 == 75 * k);
        } else {
            assert(literal_place(i) + 9 <= 75 * k);
        }
    } else {
        let m = i - 12 * k;
        assert(i / 12 == k && i % 12 == m);
        lemma_cut_line(tail, upper, m);
        assert(tail[m] == data[i]);
        lemma_literal_moved(part, 2 + 6 * m, data[i], upper, full, none);
        assert(all =~= full + part + none);
        assert((i + 1) % 12 != 0);
    }
}

/// What stands before byte `n` where bytes arrive one by one.
proof fn lemma_item(n: int, b: u8, upper: bool)
    requires
        0 <= n,
    ensures
        ({
            let item = array_item(n, b, upper);
            let size = if n == 0 {
                2int
            } else if n % 12 == 0 {
                5
            } else {
                2
            };
            &&& item.len() == size + 4
            &&& literal_at(item, size, b, upper)
            &&& n == 0 ==> item[0] == 0x20 && item[1] == 0x20
            &&& n > 0 ==> item[0] == 0x2c && item[1] == 0x20
            &&& n > 0 && n % 12 == 0 ==> item[2] == 0x0a && item[3] == 0x20 && item[4] == 0x20
            &&& n > 0 ==> literal_place(n) == literal_place(n - 1) + 4 + size
        }),
{
    let item = array_item(n, b, upper);
    let lit = literal(b, upper);
    lemma_literal(b, upper);
    let sep = item.take(item.len() - 4);
    assert(item =~= sep + lit + Seq::<u8>::empty());
    lemma_literal_moved(lit, 0, b, upper, sep, Seq::empty());
}

/// The bytes of an array that arrive one by one.
proof fn lemma_items_at(data: Seq<u8>, upper: bool, i: int)
    requires
        0 <= i < data.len(),
    ensures
        listed(array_items(0, data, upper), 0, data, upper, i),
        array_items(0, data, upper)[0] == 0x20,
        array_items(0, data, upper)[1] == 0x20,
        array_items(0, data, upper).len() == literal_place(data.len() as int - 1) + 4,
    decreases data.len(),
{
    let n = data.len() - 1;
    let short = data.drop_last();
    let front = array_items(0, short, upper);
    let item = array_item(n as int, data.last(), upper);
    let all = array_items(0, data, upper);
    let none = Seq::<u8>::empty();
    lemma_item(n as int, data.last(), upper);
    assert(all =~= front + item);
    if n == 0 {
        assert(front =~= none);
        assert(all =~= item);
    } else {
        lemma_items_at(short, upper, 0);
        let e = front.len() as int;
        if i == n {
            lemma_literal_moved(
                item,
                item.len() - 4,
                data.last(),
                upper,
                front,
                none,
            );
            assert(all =~= front + item + none);
        } else {
            lemma_items_at(short, upper, i);
            assert(short[i] == data[i]);
            lemma_literal_moved(front, literal_place(i), data[i], upper, none, item);
            assert(all =~= none + front + item);
            if i == n - 1 {
                assert(all[e] == item[0] && all[e + 1] == item[1]);
                assert(n % 12 == 0 ==> all[e + 2] == item[2] && all[e + 3] == item[3] && all[e + 4]
                    == item[4]);
            }
        }
    }
}

/// The bytes of a text in ASCII, where they are known.
pub open spec fn spelled(s: Seq<u8>, at: int, text: Seq<u8>) -> bool {
    0 <= at && at + text.len() <= s.len() && s.subrange(at, at + text.len()) == text
}

/// `unsigned char `
pub open spec fn head_words() -> Seq<u8> {
    seq![
        0x75u8, 0x6e, 0x73, 0x69, 0x67, 0x6e, 0x65, 0x64, 0x20, 0x63, 0x68, 0x61, 0x72, 0x20,
    ]
}

/// `[] = {` and a line feed.
pub open spec fn open_words() -> Seq<u8> {
    seq![0x5bu8, 0x5d, 0x20, 0x3d, 0x20, 0x7b, 0x0a]
}

/// A line feed, `};`, a line feed and `unsigned int `.
pub open spec fn close_words() -> Seq<u8> {
    seq![
        0x0au8, 0x7d, 0x3b, 0x0a, 0x75, 0x6e, 0x73, 0x69, 0x67, 0x6e, 0x65, 0x64, 0x20, 0x69, 0x6e,
        0x74, 0x20,
    ]
}

/// `_len = `
pub open spec fn len_words() -> Seq<u8> {
    seq![0x5fu8, 0x6c, 0x65, 0x6e, 0x20, 0x3d, 0x20]
}

proof fn lemma_words()
    ensures
        utf8("unsigned char "@) == head_words(),
        utf8("[] = {\n"@) == open_words(),
        utf8("\n};\nunsigned int "@) == close_words(),
        utf8("_len = "@) == len_words(),
        utf8(";\n"@) == seq![0x3bu8, 0x0a],
{
    reveal_strlit("unsigned char ");
    lemma_ascii_text("unsigned char "@);
    assert(utf8("unsigned char "@) =~= head_words());
    reveal_strlit("[] = {\n");
    lemma_ascii_text("[] = {\n"@);
    assert(utf8("[] = {\n"@) =~= open_words());
    reveal_strlit("\n};\nunsigned int ");
    lemma_ascii_text("\n};\nunsigned int "@);
    assert(utf8("\n};\nunsigned int "@) =~= close_words());
    reveal_strlit("_len = ");
    lemma_ascii_text("_len = "@);
    assert(utf8("_len = "@) =~= len_words());
    reveal_strlit(";\n");
    lemma_ascii_text(";\n"@);
    assert(utf8(";\n"@) =~= seq![0x3bu8, 0x0a]);
}

/// A number in decimal digits is read back, and has no leading zero.
pub proof fn lemma_decimal_read(v: nat)
    ensures
        reads(decimal(v), 10, v),
        decimal(v).len() > 1 ==> decimal(v)[0] != 0x30,
    decreases v,
{
    lemma_numeral_value(v, 10, digit_count(v, 10), false);
    if v >= 10 {
        lemma_decimal_read(v / 10);
        let t = decimal(v / 10);
        assert(decimal(v).len() >= 2);
        assert(decimal(v)[0] == t[0]);
        if t.len() == 1 {
            reveal_with_fuel(crate::read::value, 2);
            assert(t.drop_last() =~= Seq::<u8>::empty());
            assert(t.last() == t[0]);
        }
    }
}

/// Is the text a C array with this name and these bytes? The number in its last line is the number
/// of the bytes, and each byte has its literal.
pub open spec fn declares(
    s: Seq<u8>,
    name: Seq<u8>,
    data: Seq<u8>,
    upper: bool,
    digits: Seq<u8>,
) -> bool {
    let first = head_words().len() + name.len() + open_words().len();
    let last = s.len() - digits.len() - 2;
    &&& spelled(s, 0, head_words() + name + open_words())
    &&& all_listed(s, first as int, data, upper)
    &&& spelled(
        s,
        last - len_words().len() - name.len() - close_words().len(),
        close_words() + name + len_words(),
    )
    &&& spelled(s, last, digits + seq![0x3bu8, 0x0a])
    &&& reads(digits, 10, data.len())
    &&& digits.len() > 1 ==> digits[0] != 0x30
}

proof fn lemma_declared(name: Seq<char>, body: Seq<u8>, data: Seq<u8>, upper: bool)
    requires
        all_listed(body, 0, data, upper),
    ensures
        declares(
            array_head(name) + body + array_end(name, data.len()),
            utf8(name),
            data,
            upper,
            decimal(data.len()),
        ),
{
    lemma_words();
    lemma_decimal_read(data.len());
    let n = utf8(name);
    let digits = decimal(data.len());
    let head = head_words() + n + open_words();
    let tail = close_words() + n + len_words() + digits + seq![0x3bu8, 0x0a];
    let s = head + body + tail;
    assert(s =~= array_head(name) + body + array_end(name, data.len()));
    assert(s.subrange(0, head.len() as int) =~= head);
    let last = s.len() - digits.len() - 2;
    let at = last - len_words().len() - n.len() - close_words().len();
    assert(at == head.len() + body.len());
    assert(s.subrange(at, last) =~= close_words() + n + len_words());
    assert(s.subrange(last, s.len() as int) =~= digits + seq![0x3bu8, 0x0a]);
    let first = head.len() as int;
    assert forall|i: int| 0 <= i < data.len() implies #[trigger] listed(
        s,
        first,
        data,
        upper,
        i,
    ) by {
        assert(listed(body, 0, data, upper, i));
        lemma_listed_moved(body, data, upper, i, head, tail);
    }
}

/// A C array holds one literal for each byte, which denotes it, and ends with the number of bytes.
pub proof fn lemma_array_read(name: Seq<char>, data: Seq<u8>, upper: bool) -> (digits: Seq<u8>)
    ensures
        declares(array_text(name, data, upper), utf8(name), data, upper, digits),
{
    let body = array_body(data, upper);
    assert forall|i: int| 0 <= i < data.len() implies #[trigger] listed(
        body,
        0,
        data,
        upper,
        i,
    ) by {
        lemma_body_at(data, upper, i);
    }
    if data.len() > 0 {
        lemma_body_at(data, upper, 0);
    }
    lemma_declared(name, array_body(data, upper), data, upper);
    decimal(data.len())
}

/// The same of a C array whose bytes arrive one by one.
pub proof fn lemma_array_stream_read(name: Seq<char>, data: Seq<u8>, upper: bool) -> (digits: Seq<
    u8,
>)
    ensures
        declares(array_stream_text(name, data, upper), utf8(name), data, upper, digits),
{
    let items = array_items(0, data, upper);
    assert forall|i: int| 0 <= i < data.len() implies #[trigger] listed(
        items,
        0,
        data,
        upper,
        i,
    ) by {
        lemma_items_at(data, upper, i);
    }
    if data.len() > 0 {
        lemma_items_at(data, upper, 0);
    }
    lemma_declared(name, array_items(0, data, upper), data, upper);
    decimal(data.len())
}

} // verus!
