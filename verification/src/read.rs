//! Texts as a reader takes them: digits as numbers, bytes as characters. The laws about what is
//! written are stated with these, so that they do not rest on how it is written.

use crate::numeral::{digit, digit_count, hex2, lemma_numeral_len, numeral};
use crate::row::offset_text;
use vstd::prelude::*;

verus! {

/// What a digit is worth; far too much where it is none.
pub open spec fn worth(c: u8) -> nat {
    if 48 <= c <= 57 {
        (c - 48) as nat
    } else if 97 <= c <= 102 {
        (c - 87) as nat
    } else if 65 <= c <= 70 {
        (c - 55) as nat
    } else {
        1000
    }
}

/// The number that digits denote.
pub open spec fn value(s: Seq<u8>, base: nat) -> nat
    decreases s.len(),
{
    if s.len() == 0 {
        0
    } else {
        value(s.drop_last(), base) * base + worth(s.last())
    }
}

/// Is the text made of digits of a base, and do they denote `v`?
pub open spec fn reads(s: Seq<u8>, base: nat, v: nat) -> bool {
    &&& s.len() > 0
    &&& forall|i: int| 0 <= i < s.len() ==> worth(#[trigger] s[i]) < base
    &&& value(s, base) == v
}

/// Are the letters among the digits capitals, or small letters?
pub open spec fn in_case(s: Seq<u8>, upper: bool) -> bool {
    forall|i: int|
        0 <= i < s.len() ==> if upper {
            !(97 <= #[trigger] s[i] <= 122)
        } else {
            !(65 <= s[i] <= 90)
        }
}

/// Digits that suffice for a number denote it.
pub proof fn lemma_numeral_value(v: nat, base: nat, len: nat, upper: bool)
    requires
        2 <= base <= 16,
        v == 0 || digit_count(v, base) <= len,
    ensures
        numeral(v, base, len, upper).len() == len,
        value(numeral(v, base, len, upper), base) == v,
        forall|i: int| 0 <= i < len ==> worth(#[trigger] numeral(v, base, len, upper)[i]) < base,
        in_case(numeral(v, base, len, upper), upper),
    decreases len,
{
    let s = numeral(v, base, len, upper);
    lemma_numeral_len(v, base, len, upper);
    if len > 0 {
        let q = v / base;
        let d = v % base;
        assert(q * base + d == v && d < base && (v < base ==> q == 0)) by (nonlinear_arith)
            requires
                q == v / base,
                d == v % base,
                base >= 2,
        ;
        lemma_numeral_value(q, base, (len - 1) as nat, upper);
        let t = numeral(q, base, (len - 1) as nat, upper);
        assert(s == t.push(digit(d, upper)));
        assert(s.drop_last() =~= t);
        assert(worth(digit(d, upper)) == d);
        assert forall|i: int| 0 <= i < len implies worth(#[trigger] s[i]) < base by {
            if i < len - 1 {
                assert(s[i] == t[i]);
            }
        }
        assert forall|i: int| 0 <= i < s.len() implies if upper {
            !(97 <= #[trigger] s[i] <= 122)
        } else {
            !(65 <= s[i] <= 90)
        } by {
            if i < len - 1 {
                assert(s[i] == t[i]);
            }
        }
    }
}

/// `base` to the power of `len`.
pub open spec fn raised(base: nat, len: nat) -> nat
    decreases len,
{
    if len == 0 {
        1
    } else {
        base * raised(base, (len - 1) as nat)
    }
}

/// The powers that hold a byte, or a number of two bytes.
pub proof fn lemma_powers()
    ensures
        raised(2, 8) == 256,
        raised(8, 3) == 512,
        raised(10, 3) == 1000,
        raised(10, 5) == 100000,
        raised(16, 2) == 256,
{
    assert(raised(2, 0) == 1);
    assert(raised(2, 1) == 2 * raised(2, 0));
    assert(raised(2, 2) == 2 * raised(2, 1));
    assert(raised(2, 3) == 2 * raised(2, 2));
    assert(raised(2, 4) == 2 * raised(2, 3));
    assert(raised(2, 5) == 2 * raised(2, 4));
    assert(raised(2, 6) == 2 * raised(2, 5));
    assert(raised(2, 7) == 2 * raised(2, 6));
    assert(raised(2, 8) == 2 * raised(2, 7));
    assert(raised(8, 0) == 1);
    assert(raised(8, 1) == 8 * raised(8, 0));
    assert(raised(8, 2) == 8 * raised(8, 1));
    assert(raised(8, 3) == 8 * raised(8, 2));
    assert(raised(10, 0) == 1);
    assert(raised(10, 1) == 10 * raised(10, 0));
    assert(raised(10, 2) == 10 * raised(10, 1));
    assert(raised(10, 3) == 10 * raised(10, 2));
    assert(raised(10, 4) == 10 * raised(10, 3));
    assert(raised(10, 5) == 10 * raised(10, 4));
    assert(raised(16, 0) == 1);
    assert(raised(16, 1) == 16 * raised(16, 0));
    assert(raised(16, 2) == 16 * raised(16, 1));
}

/// A number below a power needs no more digits than its exponent.
pub proof fn lemma_count_below(v: nat, base: nat, len: nat)
    requires
        base >= 2,
        len > 0,
        v < raised(base, len),
    ensures
        digit_count(v, base) <= len,
    decreases len,
{
    if v >= base {
        let q = v / base;
        let h = raised(base, (len - 1) as nat);
        if len == 1 {
            assert(raised(base, 1) == base * raised(base, 0));
            assert(base * 1 == base);
        }
        assert(q < h) by (nonlinear_arith)
            requires
                q == v / base,
                v < base * h,
                base >= 2,
        ;
        lemma_count_below(q, base, (len - 1) as nat);
    }
}

/// The digits of an offset denote it: at least eight, and no zero in front where there are more.
pub proof fn lemma_offset_value(off: u64, dec: bool, upper: bool)
    ensures
        ({
            let t = offset_text(off, dec, upper);
            &&& t.len() >= 8
            &&& reads(
                t,
                if dec {
                    10
                } else {
                    16
                },
                off as nat,
            )
            &&& in_case(t, upper)
            &&& t.len() > 8 ==> t[0] != 0x30
        }),
{
    let base: nat = if dec {
        10
    } else {
        16
    };
    let n = digit_count(off as nat, base);
    let len = if n > 8 {
        n
    } else {
        8
    };
    lemma_numeral_value(off as nat, base, len, upper);
    if n > 8 {
        lemma_first_digit(off as nat, base, upper);
    }
}

/// A number that has as many digits as it needs does not start with a zero.
pub proof fn lemma_first_digit(v: nat, base: nat, upper: bool)
    requires
        2 <= base <= 16,
        v > 0,
    ensures
        numeral(v, base, digit_count(v, base), upper).len() > 0,
        numeral(v, base, digit_count(v, base), upper)[0] != 0x30,
    decreases v,
{
    let n = digit_count(v, base);
    lemma_numeral_len(v, base, n, upper);
    lemma_numeral_len(v / base, base, (n - 1) as nat, upper);
    if v >= base {
        assert(0 < v / base < v) by (nonlinear_arith)
            requires
                v >= base,
                base >= 2,
        ;
        lemma_first_digit(v / base, base, upper);
    } else {
        assert(v % base == v) by (nonlinear_arith)
            requires
                v < base,
        ;
        assert(numeral(v / base, base, 0, upper) =~= Seq::<u8>::empty());
    }
}

/// Two digits of a byte denote it.
pub proof fn lemma_hex2_value(b: u8, upper: bool)
    ensures
        reads(hex2(b, upper), 16, b as nat),
        hex2(b, upper).len() == 2,
        16 * worth(hex2(b, upper)[0]) + worth(hex2(b, upper)[1]) == b,
        in_case(hex2(b, upper), upper),
{
    let s = hex2(b, upper);
    reveal_with_fuel(value, 3);
    assert(s.drop_last().drop_last() =~= Seq::<u8>::empty());
    assert(s.drop_last().last() == s[0]);
    assert(s.last() == s[1]);
}

/// A number has no more digits than it takes: the power of the base with one digit fewer is not
/// larger.
pub proof fn lemma_count_least(v: nat, base: nat)
    requires
        2 <= base,
        v > 0,
    ensures
        digit_count(v, base) >= 1,
        raised(base, (digit_count(v, base) - 1) as nat) <= v < raised(base, digit_count(v, base)),
    decreases v,
{
    assert(raised(base, 0) == 1);
    assert(raised(base, 1) == base * raised(base, 0));
    assert(base * 1 == base);
    if v >= base {
        let q = v / base;
        assert(0 < q < v && q * base <= v < q * base + base) by (nonlinear_arith)
            requires
                q == v / base,
                base >= 2,
                v >= base,
        ;
        lemma_count_least(q, base);
        let n = digit_count(q, base);
        let a = raised(base, (n - 1) as nat);
        let b = raised(base, n);
        assert(raised(base, n + 1) == base * b);
        assert(base * a <= q * base && q * base + base <= base * b) by (nonlinear_arith)
            requires
                a <= q,
                q + 1 <= b,
        ;
    }
}

} // verus!
