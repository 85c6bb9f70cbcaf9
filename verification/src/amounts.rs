//! Sizes as their users write them: what one more digit, a suffix, a sign and white space do to a
//! number.

use crate::read::raised;
use crate::size::{
    all_digits, digit_of, digits_end, folded, folded_text, multiplier, number, number_value,
    signed_size_value, size_value,
};
use crate::text::{is_white, trim_end, trim_start, trimmed};
use vstd::prelude::*;

verus! {

/// What a character is worth as a digit; far too much where it is none.
pub open spec fn char_worth(c: char) -> nat {
    if '0' <= c <= '9' {
        (c as u32 - 48) as nat
    } else if 'a' <= c <= 'f' {
        (c as u32 - 87) as nat
    } else if 'A' <= c <= 'F' {
        (c as u32 - 55) as nat
    } else {
        1000
    }
}

/// Is the text made of one or more decimal digits?
pub open spec fn is_decimal(s: Seq<char>) -> bool {
    s.len() > 0 && forall|i: int| 0 <= i < s.len() ==> '0' <= #[trigger] s[i] <= '9'
}

/// Is the text made of one or more digits of the base sixteen?
pub open spec fn is_hexadecimal(s: Seq<char>) -> bool {
    s.len() > 0 && forall|i: int| 0 <= i < s.len() ==> char_worth(#[trigger] s[i]) < 16
}

proof fn lemma_trimmed(s: Seq<char>)
    requires
        s.len() > 0,
        !is_white(s[0]),
        !is_white(s.last()),
    ensures
        trimmed(s) == s,
{
}

proof fn lemma_digits_end(s: Seq<char>, n: int, pos: int)
    requires
        0 <= pos <= n <= s.len(),
        forall|i: int| 0 <= i < n ==> '0' <= #[trigger] s[i] <= '9',
        n < s.len() ==> !('0' <= s[n] <= '9'),
    ensures
        digits_end(s, pos) == n,
    decreases n - pos,
{
    if pos < n {
        lemma_digits_end(s, n, pos + 1);
    }
}

/// A text of digits is read as a number without a suffix.
#[verifier::rlimit(50)]
proof fn lemma_decimal(s: Seq<char>)
    requires
        is_decimal(s),
    ensures
        all_digits(s, 10),
        size_value(s) == match number_value(s, 10) {
            None => Err("invalid number: "@ + s),
            Some(v) => Ok(v),
        },
{
    reveal(size_value);
    lemma_trimmed(s);
    lemma_digits_end(s, s.len() as int, 0);
    assert(s.take(s.len() as int) =~= s);
    let suffix = s.skip(s.len() as int);
    reveal_strlit("");
    assert(folded_text(suffix) =~= ""@);
    assert(multiplier(suffix) == Some(1nat));
    assert forall|i: int| 0 <= i < s.len() implies (digit_of(#[trigger] s[i]) matches Some(d) && d
        < 10) by {}
}

/// A digit alone is the number it stands for.
pub proof fn lemma_one_digit(c: char)
    requires
        '0' <= c <= '9',
    ensures
        size_value(seq![c]) == Ok::<u64, Seq<char>>((c as u32 - 48) as u64),
{
    let s = seq![c];
    lemma_decimal(s);
    reveal_with_fuel(number, 2);
    assert(s.drop_last() =~= Seq::<char>::empty());
}

/// One more decimal digit makes a number ten times as large and adds what the digit is worth. What
/// does not fit in 64 bits is no number.
pub proof fn lemma_next_digit(s: Seq<char>, c: char)
    requires
        is_decimal(s),
        '0' <= c <= '9',
    ensures
        ({
            let t = s.push(c);
            let d = c as u32 - 48;
            match size_value(s) {
                Ok(v) => size_value(t) == if 10 * v + d <= 0xffff_ffff_ffff_ffff {
                    Ok::<u64, Seq<char>>((10 * v + d) as u64)
                } else {
                    Err("invalid number: "@ + t)
                },
                Err(e) => size_value(t) == Err::<u64, Seq<char>>("invalid number: "@ + t),
            }
        }),
{
    let t = s.push(c);
    assert(is_decimal(t));
    lemma_decimal(s);
    lemma_decimal(t);
    assert(t.drop_last() =~= s);
}

/// The text behind `0x` is read in the base sixteen.
proof fn lemma_hexadecimal(s: Seq<char>, x: char)
    requires
        is_hexadecimal(s),
        x == 'x' || x == 'X',
    ensures
        all_digits(s, 16),
        size_value(seq!['0', x] + s) == match number_value(s, 16) {
            None => Err("invalid hex value: "@ + (seq!['0', x] + s)),
            Some(v) => Ok(v),
        },
{
    reveal(size_value);
    let t = seq!['0', x] + s;
    assert(t.last() == s.last());
    assert(char_worth(s[0]) < 16);
    assert(char_worth(s[s.len() - 1]) < 16);
    lemma_trimmed(t);
    assert(t.skip(2) =~= s);
    assert(s[0] != '+');
    assert forall|i: int| 0 <= i < s.len() implies (digit_of(#[trigger] s[i]) matches Some(d) && d
        < 16) by {
        assert(char_worth(s[i]) < 16);
    }
}

/// One hexadecimal digit behind `0x` is the number it stands for.
pub proof fn lemma_one_hex_digit(c: char, x: char)
    requires
        char_worth(c) < 16,
        x == 'x' || x == 'X',
    ensures
        size_value(seq!['0', x, c]) == Ok::<u64, Seq<char>>(char_worth(c) as u64),
{
    let s = seq![c];
    lemma_hexadecimal(s, x);
    reveal_with_fuel(number, 2);
    assert(s.drop_last() =~= Seq::<char>::empty());
    assert(seq!['0', x] + s =~= seq!['0', x, c]);
}

/// One more hexadecimal digit makes a number sixteen times as large and adds what the digit is
/// worth.
pub proof fn lemma_next_hex_digit(s: Seq<char>, c: char, x: char)
    requires
        is_hexadecimal(s),
        char_worth(c) < 16,
        x == 'x' || x == 'X',
    ensures
        ({
            let t = seq!['0', x] + s;
            let u = t.push(c);
            match size_value(t) {
                Ok(v) => size_value(u) == if 16 * v + char_worth(c) <= 0xffff_ffff_ffff_ffff {
                    Ok::<u64, Seq<char>>((16 * v + char_worth(c)) as u64)
                } else {
                    Err("invalid hex value: "@ + u)
                },
                Err(e) => size_value(u) == Err::<u64, Seq<char>>("invalid hex value: "@ + u),
            }
        }),
{
    let more = s.push(c);
    assert(is_hexadecimal(more)) by {
        assert forall|i: int| 0 <= i < more.len() implies char_worth(#[trigger] more[i]) < 16 by {
            if i < s.len() {
                assert(more[i] == s[i]);
            }
        }
    }
    lemma_hexadecimal(s, x);
    lemma_hexadecimal(more, x);
    assert(more.drop_last() =~= s);
    assert((seq!['0', x] + s).push(c) =~= seq!['0', x] + more);
}

/// A plus sign behind `0x` makes no difference to a hexadecimal number. There is none without
/// digits, nor with anything but digits.
pub proof fn lemma_hex_sign(s: Seq<char>, x: char)
    requires
        x == 'x' || x == 'X',
    ensures
        is_hexadecimal(s) ==> (size_value(seq!['0', x, '+'] + s) matches Ok(v) ==> size_value(
            seq!['0', x] + s,
        ) == Ok::<u64, Seq<char>>(v)),
        is_hexadecimal(s) ==> (size_value(seq!['0', x] + s) matches Ok(v) ==> size_value(
            seq!['0', x, '+'] + s,
        ) == Ok::<u64, Seq<char>>(v)),
        size_value(seq!['0', x]) == Err::<u64, Seq<char>>("invalid hex value: "@ + seq!['0', x]),
        s.len() > 0 && s[0] != '+' && !is_white(s.last()) && !is_hexadecimal(s) ==> size_value(
            seq!['0', x] + s,
        ) == Err::<u64, Seq<char>>("invalid hex value: "@ + (seq!['0', x] + s)),
{
    reveal(size_value);
    let bare = seq!['0', x];
    lemma_trimmed(bare);
    assert(bare.skip(2).len() == 0);
    let t = seq!['0', x] + s;
    let u = seq!['0', x, '+'] + s;
    if is_hexadecimal(s) {
        lemma_hexadecimal(s, x);
        assert(char_worth(s[s.len() - 1]) < 16);
        assert(u.last() == s.last());
        lemma_trimmed(u);
        assert(u.skip(2).skip(1) =~= s);
        assert(u.skip(2)[0] == '+');
    } else if s.len() > 0 && s[0] != '+' && !is_white(s.last()) {
        assert(t.last() == s.last());
        lemma_trimmed(t);
        assert(t.skip(2) =~= s);
        let i = choose|i: int| 0 <= i < s.len() && !(char_worth(#[trigger] s[i]) < 16);
        assert(digit_of(s[i]) is None);
        assert(!all_digits(s, 16));
    }
}

// ---------------------------------------------------------------- suffixes

/// The place of a prefix among kilo, mega, giga, tera, peta, exa, zetta and yotta; zero where it is
/// none of them. Capitals and small letters are the same, and so is the Kelvin sign.
pub open spec fn prefix_place(c: char) -> nat {
    if c == 'k' || c == 'K' || c as u32 == 0x212a {
        1
    } else if c == 'm' || c == 'M' {
        2
    } else if c == 'g' || c == 'G' {
        3
    } else if c == 't' || c == 'T' {
        4
    } else if c == 'p' || c == 'P' {
        5
    } else if c == 'e' || c == 'E' {
        6
    } else if c == 'z' || c == 'Z' {
        7
    } else if c == 'y' || c == 'Y' {
        8
    } else {
        0
    }
}

/// The unit of a suffix. A prefix alone, and one before `ib`, are powers of 1024, and one before
/// `b` is a power of 1000. The two largest are known only before `ib`.
pub open spec fn unit(t: Seq<char>) -> Option<nat> {
    let p = if t.len() > 0 {
        prefix_place(t[0])
    } else {
        0
    };
    if t.len() == 1 && 1 <= p <= 6 {
        Some(raised(1024, p))
    } else if t.len() == 2 && 1 <= p <= 6 && (t[1] == 'b' || t[1] == 'B') {
        Some(raised(1000, p))
    } else if t.len() == 3 && 1 <= p && (t[1] == 'i' || t[1] == 'I') && (t[2] == 'b' || t[2]
        == 'B') {
        Some(raised(1024, p))
    } else {
        None
    }
}

proof fn lemma_powers()
    ensures
        raised(1024, 1) == 0x400,
        raised(1024, 2) == 0x10_0000,
        raised(1024, 3) == 0x4000_0000,
        raised(1024, 4) == 0x100_0000_0000,
        raised(1024, 5) == 0x4_0000_0000_0000,
        raised(1024, 6) == 0x1000_0000_0000_0000,
        raised(1024, 7) == 0x40_0000_0000_0000_0000,
        raised(1024, 8) == 0x1_0000_0000_0000_0000_0000,
        raised(1000, 1) == 1_000,
        raised(1000, 2) == 1_000_000,
        raised(1000, 3) == 1_000_000_000,
        raised(1000, 4) == 1_000_000_000_000,
        raised(1000, 5) == 1_000_000_000_000_000,
        raised(1000, 6) == 1_000_000_000_000_000_000,
{
    assert(raised(1024, 0) == 1);
    assert(raised(1000, 0) == 1);
    assert(raised(1024, 1) == 1024 * raised(1024, 0));
    assert(raised(1024, 2) == 1024 * raised(1024, 1));
    assert(raised(1024, 3) == 1024 * raised(1024, 2));
    assert(raised(1024, 4) == 1024 * raised(1024, 3));
    assert(raised(1024, 5) == 1024 * raised(1024, 4));
    assert(raised(1024, 6) == 1024 * raised(1024, 5));
    assert(raised(1024, 7) == 1024 * raised(1024, 6));
    assert(raised(1024, 8) == 1024 * raised(1024, 7));
    assert(raised(1000, 1) == 1000 * raised(1000, 0));
    assert(raised(1000, 2) == 1000 * raised(1000, 1));
    assert(raised(1000, 3) == 1000 * raised(1000, 2));
    assert(raised(1000, 4) == 1000 * raised(1000, 3));
    assert(raised(1000, 5) == 1000 * raised(1000, 4));
    assert(raised(1000, 6) == 1000 * raised(1000, 5));
}

/// A text equals a word where its letters are those of the word.
proof fn lemma_letters(s: Seq<char>, word: Seq<char>)
    requires
        word.len() <= 3,
    ensures
        s == word <==> {
            &&& s.len() == word.len()
            &&& word.len() > 0 ==> s[0] == word[0]
            &&& word.len() > 1 ==> s[1] == word[1]
            &&& word.len() > 2 ==> s[2] == word[2]
        },
{
    if s.len() == word.len() && (word.len() > 0 ==> s[0] == word[0]) && (word.len() > 1 ==> s[1]
        == word[1]) && (word.len() > 2 ==> s[2] == word[2]) {
        assert(s =~= word);
    }
}

proof fn lemma_short_words(s: Seq<char>)
    ensures
        s == ""@ <==> s.len() == 0,
        s == "k"@ <==> s.len() == 1 && s[0] == 'k',
        s == "m"@ <==> s.len() == 1 && s[0] == 'm',
        s == "g"@ <==> s.len() == 1 && s[0] == 'g',
        s == "t"@ <==> s.len() == 1 && s[0] == 't',
        s == "p"@ <==> s.len() == 1 && s[0] == 'p',
        s == "e"@ <==> s.len() == 1 && s[0] == 'e',
{
    reveal_strlit("");
    reveal_strlit("k");
    reveal_strlit("m");
    reveal_strlit("g");
    reveal_strlit("t");
    reveal_strlit("p");
    reveal_strlit("e");
    lemma_letters(s, ""@);
    lemma_letters(s, "k"@);
    lemma_letters(s, "m"@);
    lemma_letters(s, "g"@);
    lemma_letters(s, "t"@);
    lemma_letters(s, "p"@);
    lemma_letters(s, "e"@);
}

proof fn lemma_byte_words(s: Seq<char>)
    ensures
        s == "kb"@ <==> s.len() == 2 && s[0] == 'k' && s[1] == 'b',
        s == "mb"@ <==> s.len() == 2 && s[0] == 'm' && s[1] == 'b',
        s == "gb"@ <==> s.len() == 2 && s[0] == 'g' && s[1] == 'b',
        s == "tb"@ <==> s.len() == 2 && s[0] == 't' && s[1] == 'b',
        s == "pb"@ <==> s.len() == 2 && s[0] == 'p' && s[1] == 'b',
        s == "eb"@ <==> s.len() == 2 && s[0] == 'e' && s[1] == 'b',
{
    reveal_strlit("kb");
    reveal_strlit("mb");
    reveal_strlit("gb");
    reveal_strlit("tb");
    reveal_strlit("pb");
    reveal_strlit("eb");
    lemma_letters(s, "kb"@);
    lemma_letters(s, "mb"@);
    lemma_letters(s, "gb"@);
    lemma_letters(s, "tb"@);
    lemma_letters(s, "pb"@);
    lemma_letters(s, "eb"@);
}

proof fn lemma_binary_words(s: Seq<char>)
    ensures
        s == "kib"@ <==> s.len() == 3 && s[0] == 'k' && s[1] == 'i' && s[2] == 'b',
        s == "mib"@ <==> s.len() == 3 && s[0] == 'm' && s[1] == 'i' && s[2] == 'b',
        s == "gib"@ <==> s.len() == 3 && s[0] == 'g' && s[1] == 'i' && s[2] == 'b',
        s == "tib"@ <==> s.len() == 3 && s[0] == 't' && s[1] == 'i' && s[2] == 'b',
        s == "pib"@ <==> s.len() == 3 && s[0] == 'p' && s[1] == 'i' && s[2] == 'b',
        s == "eib"@ <==> s.len() == 3 && s[0] == 'e' && s[1] == 'i' && s[2] == 'b',
        s == "zib"@ <==> s.len() == 3 && s[0] == 'z' && s[1] == 'i' && s[2] == 'b',
        s == "yib"@ <==> s.len() == 3 && s[0] == 'y' && s[1] == 'i' && s[2] == 'b',
{
    reveal_strlit("kib");
    reveal_strlit("mib");
    reveal_strlit("gib");
    reveal_strlit("tib");
    reveal_strlit("pib");
    reveal_strlit("eib");
    reveal_strlit("zib");
    reveal_strlit("yib");
    lemma_letters(s, "kib"@);
    lemma_letters(s, "mib"@);
    lemma_letters(s, "gib"@);
    lemma_letters(s, "tib"@);
    lemma_letters(s, "pib"@);
    lemma_letters(s, "eib"@);
    lemma_letters(s, "zib"@);
    lemma_letters(s, "yib"@);
}

proof fn lemma_folded(c: char)
    ensures
        folded(c) == 'k' <==> prefix_place(c) == 1,
        folded(c) == 'm' <==> prefix_place(c) == 2,
        folded(c) == 'g' <==> prefix_place(c) == 3,
        folded(c) == 't' <==> prefix_place(c) == 4,
        folded(c) == 'p' <==> prefix_place(c) == 5,
        folded(c) == 'e' <==> prefix_place(c) == 6,
        folded(c) == 'z' <==> prefix_place(c) == 7,
        folded(c) == 'y' <==> prefix_place(c) == 8,
        folded(c) == 'i' <==> c == 'i' || c == 'I',
        folded(c) == 'b' <==> c == 'b' || c == 'B',
{
}

#[verifier::rlimit(50)]
proof fn lemma_unit(t: Seq<char>)
    requires
        t.len() > 0,
    ensures
        multiplier(t) == unit(t),
{
    let s = folded_text(t);
    lemma_powers();
    lemma_short_words(s);
    lemma_byte_words(s);
    lemma_binary_words(s);
    lemma_folded(t[0]);
    if t.len() > 1 {
        lemma_folded(t[1]);
    }
    if t.len() > 2 {
        lemma_folded(t[2]);
    }
}

/// A suffix multiplies a number by its unit. One that is not known is named, and a product beyond
/// 64 bits is refused. A zero before an `x` is left out: that is how hexadecimal numbers start.
#[verifier::rlimit(50)]
pub proof fn lemma_suffix(s: Seq<char>, t: Seq<char>, v: u64)
    requires
        is_decimal(s),
        size_value(s) == Ok::<u64, Seq<char>>(v),
        t.len() > 0,
        !('0' <= t[0] <= '9'),
        !is_white(t.last()),
        s.len() == 1 && s[0] == '0' ==> t[0] != 'x' && t[0] != 'X',
    ensures
        size_value(s + t) == match unit(t) {
            None => Err("unknown suffix: "@ + t),
            Some(m) => if v * m > 0xffff_ffff_ffff_ffff {
                Err("value too large"@)
            } else {
                Ok((v * m) as u64)
            },
        },
{
    lemma_decimal(s);
    lemma_unit(t);
    reveal(size_value);
    let all = s + t;
    assert(all[0] == s[0]);
    assert(all.last() == t.last());
    lemma_trimmed(all);
    assert forall|i: int| 0 <= i < s.len() implies '0' <= #[trigger] all[i] <= '9' by {
        assert(all[i] == s[i]);
    }
    assert(all[s.len() as int] == t[0]);
    lemma_digits_end(all, s.len() as int, 0);
    assert(all.take(s.len() as int) =~= s);
    assert(all.skip(s.len() as int) =~= t);
    if s.len() > 1 {
        assert(all[1] == s[1]);
    }
}

// ---------------------------------------------------------------- what is no size

/// A text without a digit at its start is no number.
pub proof fn lemma_no_number(s: Seq<char>)
    requires
        s.len() > 0,
        !('0' <= s[0] <= '9'),
        !is_white(s[0]),
        !is_white(s.last()),
    ensures
        size_value(s) == Err::<u64, Seq<char>>("invalid number: "@ + s),
{
    reveal(size_value);
    lemma_trimmed(s);
    lemma_digits_end(s, 0, 0);
    assert(s.take(0).len() == 0);
}

/// Nothing is no size.
pub proof fn lemma_no_size()
    ensures
        size_value(seq![]) == Err::<u64, Seq<char>>("empty value"@),
        signed_size_value(seq![]) == Err::<i64, Seq<char>>("empty value"@),
{
    reveal(size_value);
    reveal(signed_size_value);
}

// ---------------------------------------------------------------- white space

/// Is `c` one of the white spaces on a keyboard?
pub open spec fn is_space(c: char) -> bool {
    c == ' ' || c == '\t' || c == '\n' || c == '\r'
}

/// Characters without white space at their ends, and with some.
proof fn lemma_trim_ends(s: Seq<char>, c: char)
    requires
        is_white(c),
        s.len() > 0,
        !is_white(s[0]),
        !is_white(s.last()),
    ensures
        trimmed(seq![c] + s) == trimmed(s),
        trimmed(s.push(c)) == trimmed(s),
{
    lemma_trimmed(s);
    let a = seq![c] + s;
    assert(a.skip(1) =~= s);
    reveal_with_fuel(trim_start, 2);
    let b = s.push(c);
    assert(b[0] == s[0]);
    assert(b.drop_last() =~= s);
    reveal_with_fuel(trim_end, 2);
}

/// White space around a size makes no difference.
pub proof fn lemma_around(s: Seq<char>, c: char)
    requires
        is_space(c),
        s.len() > 0,
        !is_white(s[0]),
        !is_white(s.last()),
    ensures
        size_value(seq![c] + s) == size_value(s),
        size_value(s.push(c)) == size_value(s),
        signed_size_value(seq![c] + s) == signed_size_value(s),
        signed_size_value(s.push(c)) == signed_size_value(s),
{
    reveal(size_value);
    reveal(signed_size_value);
    lemma_trim_ends(s, c);
}

// ---------------------------------------------------------------- signs

/// A size with a minus sign is the negative of that without one; without a sign it is the size
/// itself. What is beyond the largest of 63 bits is refused.
pub proof fn lemma_signed(s: Seq<char>)
    requires
        s.len() > 0,
        s[0] != '-',
        !is_white(s[0]),
        !is_white(s.last()),
    ensures
        match size_value(s) {
            Err(e) => signed_size_value(s) == Err::<i64, Seq<char>>(e) && signed_size_value(
                seq!['-'] + s,
            ) == Err::<i64, Seq<char>>(e),
            Ok(v) => if v <= 0x7fff_ffff_ffff_ffff {
                signed_size_value(s) matches Ok(a) && a == v && (signed_size_value(seq!['-'] + s)
                    matches Ok(b) && b == -v)
            } else {
                signed_size_value(s) == Err::<i64, Seq<char>>("value too large"@)
                    && signed_size_value(seq!['-'] + s) == Err::<i64, Seq<char>>("value too large"@)
            },
        },
{
    reveal(signed_size_value);
    lemma_trimmed(s);
    let m = seq!['-'] + s;
    assert(m.last() == s.last());
    lemma_trimmed(m);
    assert(m.skip(1) =~= s);
}

} // verus!
