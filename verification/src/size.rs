//! Numbers with size suffixes.

use crate::text::{chars_of, spells, text_of, trim, trimmed};
use vstd::prelude::*;

verus! {

/// Is the result that which the model gives, texts taken by their characters?
pub open spec fn agrees<T>(r: Result<T, String>, model: Result<T, Seq<char>>) -> bool {
    match (r, model) {
        (Ok(a), Ok(b)) => a == b,
        (Err(a), Err(b)) => a@ == b,
        _ => false,
    }
}

/// A text made of a fixed part and some characters.
pub fn message(prefix: &str, rest: &[char]) -> (r: String)
    ensures
        r@ == prefix@ + rest@,
{
    let mut r: String = String::new();
    r.append(prefix);
    let tail: String = text_of(rest);
    r.append(tail.as_str());
    assert(r@ =~= prefix@ + rest@);
    r
}

/// A fixed text.
pub fn fixed(s: &str) -> (r: String)
    ensures
        r@ == s@,
{
    let mut r: String = String::new();
    r.append(s);
    assert(r@ =~= s@);
    r
}

/// Is `c` a decimal digit?
pub open spec fn is_digit(c: char) -> bool {
    '0' <= c && c <= '9'
}

/// The value of a digit in bases up to sixteen.
pub open spec fn digit_of(c: char) -> Option<nat> {
    if '0' <= c && c <= '9' {
        Some((c as u32 - 0x30) as nat)
    } else if 'a' <= c && c <= 'f' {
        Some((c as u32 - 0x61 + 10) as nat)
    } else if 'A' <= c && c <= 'F' {
        Some((c as u32 - 0x41 + 10) as nat)
    } else {
        None
    }
}

/// Are all characters digits of the base?
pub open spec fn all_digits(s: Seq<char>, base: nat) -> bool {
    forall|i: int|
        0 <= i < s.len() ==> (digit_of(#[trigger] s[i]) matches Some(d) && d < base)
}

/// The number that some digits denote.
pub open spec fn number(s: Seq<char>, base: nat) -> nat
    decreases s.len(),
{
    if s.len() == 0 {
        0
    } else {
        number(s.drop_last(), base) * base + digit_of(s.last()).unwrap()
    }
}

/// The number that a text denotes: one digit or more, and no more than 64 bits.
pub open spec fn number_value(s: Seq<char>, base: nat) -> Option<u64> {
    if s.len() > 0 && all_digits(s, base) && number(s, base) <= u64::MAX {
        Some(number(s, base) as u64)
    } else {
        None
    }
}

/// More digits do not make a number smaller.
proof fn lemma_number_grows(s: Seq<char>, base: nat, k: int)
    requires
        0 <= k <= s.len(),
        all_digits(s, base),
        base >= 1,
    ensures
        number(s.take(k), base) <= number(s, base),
    decreases s.len(),
{
    if k < s.len() {
        let front = s.drop_last();
        assert(all_digits(front, base)) by {
            assert forall|i: int| 0 <= i < front.len() implies (digit_of(#[trigger] front[i])
                matches Some(d) && d < base) by {
                assert(front[i] == s[i]);
            }
        }
        lemma_number_grows(front, base, k);
        assert(front.take(k) =~= s.take(k));
        let x = number(front, base);
        assert(x * base >= x) by (nonlinear_arith)
            requires
                base >= 1,
        ;
    } else {
        assert(s.take(k) =~= s);
    }
}

/// The value of a digit, or a number that is no digit.
fn digit_value(c: char) -> (d: u64)
    ensures
        match digit_of(c) {
            Some(v) => d == v,
            None => d == 16,
        },
        d <= 16,
{
    if '0' <= c && c <= '9' {
        (c as u32 - 0x30) as u64
    } else if 'a' <= c && c <= 'f' {
        (c as u32 - 0x61 + 10) as u64
    } else if 'A' <= c && c <= 'F' {
        (c as u32 - 0x41 + 10) as u64
    } else {
        16
    }
}

/// The number that a text denotes in a base.
pub fn parse_number(s: &[char], base: u64) -> (r: Option<u64>)
    requires
        2 <= base <= 16,
    ensures
        r == number_value(s@, base as nat),
{
    if s.len() == 0 {
        return None;
    }
    let mut v: u64 = 0;
    let mut over: bool = false;
    for i in 0..s.len()
        invariant
            2 <= base <= 16,
            all_digits(s@.take(i as int), base as nat),
            !over ==> v == number(s@.take(i as int), base as nat),
            over ==> number(s@.take(i as int), base as nat) > u64::MAX,
    {
        let d: u64 = digit_value(s[i]);
        if d >= base {
            assert(!all_digits(s@, base as nat)) by {
                assert(!(digit_of(s@[i as int]) matches Some(x) && x < base as nat));
            }
            return None;
        }
        let ghost part = s@.take(i as int);
        proof {
            assert(s@.take(i + 1).drop_last() =~= part);
            assert forall|j: int| 0 <= j < i + 1 implies (digit_of(#[trigger] s@.take(i + 1)[j])
                matches Some(x) && x < base as nat) by {
                if j < i {
                    assert(part[j] == s@.take(i + 1)[j]);
                }
            }
            lemma_number_grows(s@.take(i + 1), base as nat, i as int);
            assert(s@.take(i + 1).take(i as int) =~= part);
        }
        if !over {
            if v > (u64::MAX - d) / base {
                proof {
                    assert(v * base + d > u64::MAX) by (nonlinear_arith)
                        requires
                            v > (u64::MAX - d) / base as int,
                            base >= 2,
                            d < base,
                            u64::MAX >= d,
                    ;
                }
                over = true;
            } else {
                proof {
                    assert(0 <= v * base && v * base + d <= u64::MAX) by (nonlinear_arith)
                        requires
                            v <= (u64::MAX - d) / base as int,
                            base >= 2,
                            d < base,
                            u64::MAX >= d,
                            v >= 0,
                    ;
                }
                v = v * base + d;
            }
        }
    }
    assert(s@.take(s@.len() as int) =~= s@);
    if over {
        None
    } else {
        Some(v)
    }
}

/// A hexadecimal number, with a plus sign or without.
pub open spec fn hex_size(s: Seq<char>) -> Option<u64> {
    if s.len() > 0 && s[0] == '+' {
        number_value(s.skip(1), 16)
    } else {
        number_value(s, 16)
    }
}

/// A letter in lower case, as far as suffixes are concerned. The Kelvin sign is a capital K.
pub open spec fn folded(c: char) -> char {
    if 'A' <= c && c <= 'Z' {
        ((c as u32 + 32) as u32) as char
    } else if c as u32 == 0x212a {
        'k'
    } else {
        c
    }
}

/// A text in lower case, as far as suffixes are concerned.
pub open spec fn folded_text(s: Seq<char>) -> Seq<char> {
    Seq::new(s.len(), |i: int| folded(s[i]))
}

/// What a suffix stands for.
pub open spec fn multiplier(suffix: Seq<char>) -> Option<nat> {
    let s = folded_text(suffix);
    if s == ""@ {
        Some(1)
    } else if s == "k"@ || s == "kib"@ {
        Some(0x400)
    } else if s == "m"@ || s == "mib"@ {
        Some(0x10_0000)
    } else if s == "g"@ || s == "gib"@ {
        Some(0x4000_0000)
    } else if s == "t"@ || s == "tib"@ {
        Some(0x100_0000_0000)
    } else if s == "p"@ || s == "pib"@ {
        Some(0x4_0000_0000_0000)
    } else if s == "e"@ || s == "eib"@ {
        Some(0x1000_0000_0000_0000)
    } else if s == "zib"@ {
        Some(0x40_0000_0000_0000_0000)
    } else if s == "yib"@ {
        Some(0x1_0000_0000_0000_0000_0000)
    } else if s == "kb"@ {
        Some(1_000)
    } else if s == "mb"@ {
        Some(1_000_000)
    } else if s == "gb"@ {
        Some(1_000_000_000)
    } else if s == "tb"@ {
        Some(1_000_000_000_000)
    } else if s == "pb"@ {
        Some(1_000_000_000_000_000)
    } else if s == "eb"@ {
        Some(1_000_000_000_000_000_000)
    } else {
        None
    }
}

/// The place of the first character that is no decimal digit, or the end.
pub open spec fn digits_end(s: Seq<char>, pos: int) -> int
    decreases s.len() - pos,
{
    if 0 <= pos < s.len() && is_digit(s[pos]) {
        digits_end(s, pos + 1)
    } else {
        pos
    }
}

/// Does the text start with `0x` or `0X`?
pub open spec fn is_hex_size(s: Seq<char>) -> bool {
    s.len() >= 2 && s[0] == '0' && (s[1] == 'x' || s[1] == 'X')
}

/// A size: a hexadecimal number, or a decimal one with a suffix.
#[verifier::opaque]
pub open spec fn size_value(text: Seq<char>) -> Result<u64, Seq<char>> {
    let s = trimmed(text);
    let end = digits_end(s, 0);
    let num = number_value(s.take(end), 10);
    let suffix = s.skip(end);
    if s.len() == 0 {
        Err("empty value"@)
    } else if is_hex_size(s) {
        match hex_size(s.skip(2)) {
            Some(v) => Ok(v),
            None => Err("invalid hex value: "@ + s),
        }
    } else if num is None {
        Err("invalid number: "@ + s)
    } else {
        match multiplier(suffix) {
            None => Err("unknown suffix: "@ + suffix),
            Some(m) => if num.unwrap() * m > u64::MAX {
                Err("value too large"@)
            } else {
                Ok((num.unwrap() * m) as u64)
            },
        }
    }
}

/// A size with a sign.
#[verifier::opaque]
pub open spec fn signed_size_value(text: Seq<char>) -> Result<i64, Seq<char>> {
    let s = trimmed(text);
    let negative = s.len() > 0 && s[0] == '-';
    let rest = if negative {
        s.skip(1)
    } else {
        s
    };
    if s.len() == 0 {
        Err("empty value"@)
    } else {
        match size_value(rest) {
            Err(e) => Err(e),
            Ok(v) => if v > i64::MAX {
                Err("value too large"@)
            } else if negative {
                Ok((0 - v) as i64)
            } else {
                Ok(v as i64)
            },
        }
    }
}

/// A letter in lower case, as far as suffixes are concerned.
fn fold(c: char) -> (r: char)
    ensures
        r == folded(c),
{
    match c {
        'A' => 'a',
        'B' => 'b',
        'C' => 'c',
        'D' => 'd',
        'E' => 'e',
        'F' => 'f',
        'G' => 'g',
        'H' => 'h',
        'I' => 'i',
        'J' => 'j',
        'K' => 'k',
        'L' => 'l',
        'M' => 'm',
        'N' => 'n',
        'O' => 'o',
        'P' => 'p',
        'Q' => 'q',
        'R' => 'r',
        'S' => 's',
        'T' => 't',
        'U' => 'u',
        'V' => 'v',
        'W' => 'w',
        'X' => 'x',
        'Y' => 'y',
        'Z' => 'z',
        '\u{212a}' => 'k',
        _ => c,
    }
}

/// What a suffix stands for, where it fits in 64 bits; the suffixes beyond stand for zero here.
fn suffix_value(suffix: &[char]) -> (r: Option<u64>)
    ensures
        match multiplier(suffix@) {
            None => r is None,
            Some(m) => r == Some(
                if m > u64::MAX {
                    0u64
                } else {
                    m as u64
                },
            ),
        },
{
    let mut low: Vec<char> = Vec::new();
    for i in 0..suffix.len()
        invariant
            low@ == folded_text(suffix@).take(i as int),
    {
        low.push(fold(suffix[i]));
        assert(low@ =~= folded_text(suffix@).take(i + 1));
    }
    assert(low@ =~= folded_text(suffix@));
    if spells(&low, "") {
        Some(1)
    } else if spells(&low, "k") || spells(&low, "kib") {
        Some(0x400)
    } else if spells(&low, "m") || spells(&low, "mib") {
        Some(0x10_0000)
    } else if spells(&low, "g") || spells(&low, "gib") {
        Some(0x4000_0000)
    } else if spells(&low, "t") || spells(&low, "tib") {
        Some(0x100_0000_0000)
    } else if spells(&low, "p") || spells(&low, "pib") {
        Some(0x4_0000_0000_0000)
    } else if spells(&low, "e") || spells(&low, "eib") {
        Some(0x1000_0000_0000_0000)
    } else if spells(&low, "zib") || spells(&low, "yib") {
        Some(0)
    } else if spells(&low, "kb") {
        Some(1_000)
    } else if spells(&low, "mb") {
        Some(1_000_000)
    } else if spells(&low, "gb") {
        Some(1_000_000_000)
    } else if spells(&low, "tb") {
        Some(1_000_000_000_000)
    } else if spells(&low, "pb") {
        Some(1_000_000_000_000_000)
    } else if spells(&low, "eb") {
        Some(1_000_000_000_000_000_000)
    } else {
        None
    }
}

/// The place of the first character that is no decimal digit, or the end.
fn find_digits_end(s: &[char]) -> (r: usize)
    ensures
        r == digits_end(s@, 0),
        r <= s@.len(),
{
    let mut i: usize = 0;
    while i < s.len() && '0' <= s[i] && s[i] <= '9'
        invariant
            i <= s@.len(),
            digits_end(s@, 0) == digits_end(s@, i as int),
        decreases s@.len() - i,
    {
        i = i + 1;
    }
    i
}

/// Reads a size.
pub fn parse_size_unsigned(text: &str) -> (r: Result<u64, String>)
    ensures
        agrees(r, size_value(text@)),
{
    let chars: Vec<char> = chars_of(text);
    parse_size_chars(&chars)
}

/// Reads a size.
fn parse_size_chars(chars: &[char]) -> (r: Result<u64, String>)
    ensures
        agrees(r, size_value(chars@)),
{
    proof {
        reveal(size_value);
    }
    let s: &[char] = trim(chars);
    let n: usize = s.len();
    if n == 0 {
        return Err(fixed("empty value"));
    }
    if n >= 2 && s[0] == '0' && (s[1] == 'x' || s[1] == 'X') {
        let digits: &[char] = vstd::slice::slice_subrange(s, 2, n);
        assert(digits@ =~= s@.skip(2));
        let v: Option<u64> = if digits.len() > 0 && digits[0] == '+' {
            let rest: &[char] = vstd::slice::slice_subrange(digits, 1, digits.len());
            assert(rest@ =~= digits@.skip(1));
            parse_number(rest, 16)
        } else {
            parse_number(digits, 16)
        };
        return match v {
            Some(v) => Ok(v),
            None => Err(message("invalid hex value: ", s)),
        };
    }
    let end: usize = find_digits_end(s);
    let digits: &[char] = vstd::slice::slice_subrange(s, 0, end);
    let suffix: &[char] = vstd::slice::slice_subrange(s, end, n);
    assert(digits@ =~= s@.take(end as int));
    assert(suffix@ =~= s@.skip(end as int));
    match parse_number(digits, 10) {
        None => Err(message("invalid number: ", s)),
        Some(num) => match suffix_value(suffix) {
            None => Err(message("unknown suffix: ", suffix)),
            Some(m) => {
                if num == 0 {
                    return Ok(0);
                }
                if m == 0 {
                    proof {
                        let big = multiplier(suffix@).unwrap();
                        assert(num * big > u64::MAX) by (nonlinear_arith)
                            requires
                                num >= 1,
                                big > u64::MAX,
                        ;
                    }
                    return Err(fixed("value too large"));
                }
                match num.checked_mul(m) {
                    Some(v) => Ok(v),
                    None => Err(fixed("value too large")),
                }
            },
        },
    }
}

/// Reads a size with a sign.
pub fn parse_size_signed(text: &str) -> (r: Result<i64, String>)
    ensures
        agrees(r, signed_size_value(text@)),
{
    proof {
        reveal(signed_size_value);
    }
    let chars: Vec<char> = chars_of(text);
    let s: &[char] = trim(&chars);
    let n: usize = s.len();
    if n == 0 {
        return Err(fixed("empty value"));
    }
    let negative: bool = s[0] == '-';
    let rest: &[char] = if negative {
        vstd::slice::slice_subrange(s, 1, n)
    } else {
        s
    };
    assert(negative ==> rest@ =~= s@.skip(1));
    match parse_size_chars(rest) {
        Err(e) => Err(e),
        Ok(v) => {
            if v > 0x7fff_ffff_ffff_ffff {
                Err(fixed("value too large"))
            } else if negative {
                Ok(-(v as i64))
            } else {
                Ok(v as i64)
            }
        },
    }
}

} // verus!
