//! Numbers in positional notation: the digits of offsets and bytes.

use vstd::prelude::*;

verus! {

/// The ASCII digit for `d`, with letters from ten on.
pub open spec fn digit(d: nat, upper: bool) -> u8 {
    if d < 10 {
        (0x30 + d) as u8
    } else if upper {
        (0x41 + (d - 10)) as u8
    } else {
        (0x61 + (d - 10)) as u8
    }
}

/// The `len` least significant digits of `v` in the given base, most significant first.
pub open spec fn numeral(v: nat, base: nat, len: nat, upper: bool) -> Seq<u8>
    decreases len,
{
    if len == 0 {
        seq![]
    } else {
        numeral(v / base, base, (len - 1) as nat, upper).push(digit(v % base, upper))
    }
}

/// How many digits `v` needs in the given base; zero needs one.
pub open spec fn digit_count(v: nat, base: nat) -> nat
    decreases v,
{
    if base <= 1 || v < base {
        1
    } else {
        proof {
            assert(v / base < v) by (nonlinear_arith)
                requires
                    v >= base,
                    base > 1,
            ;
        }
        1 + digit_count(v / base, base)
    }
}

/// The digits of `v`, with leading zeros up to `min` of them.
pub open spec fn padded(v: nat, base: nat, min: nat, upper: bool) -> Seq<u8> {
    let count = digit_count(v, base);
    numeral(
        v,
        base,
        if count > min {
            count
        } else {
            min
        },
        upper,
    )
}

/// The two hexadecimal digits of a byte.
pub open spec fn hex2(b: u8, upper: bool) -> Seq<u8> {
    seq![digit((b / 16) as nat, upper), digit((b % 16) as nat, upper)]
}

/// A numeral has as many digits as were asked for.
pub proof fn lemma_numeral_len(v: nat, base: nat, len: nat, upper: bool)
    requires
        base > 0,
    ensures
        numeral(v, base, len, upper).len() == len,
    decreases len,
{
    if len > 0 {
        lemma_numeral_len(v / base, base, (len - 1) as nat, upper);
    }
}

/// The ASCII digit for `d`.
pub fn digit_byte(d: u8, upper: bool) -> (r: u8)
    requires
        d < 16,
    ensures
        r == digit(d as nat, upper),
{
    if d < 10 {
        0x30 + d
    } else if upper {
        0x41 + (d - 10)
    } else {
        0x61 + (d - 10)
    }
}

/// Appends the two hexadecimal digits of `b`.
pub fn push_hex2(dst: &mut Vec<u8>, b: u8, upper: bool)
    ensures
        final(dst)@ == old(dst)@ + hex2(b, upper),
{
    dst.push(digit_byte(b / 16, upper));
    dst.push(digit_byte(b % 16, upper));
    assert(dst@ =~= old(dst)@ + hex2(b, upper));
}

/// Appends the `len` least significant digits of `v`.
pub fn push_numeral(dst: &mut Vec<u8>, v: u64, base: u64, len: usize, upper: bool)
    requires
        2 <= base <= 16,
    ensures
        final(dst)@ == old(dst)@ + numeral(v as nat, base as nat, len as nat, upper),
    decreases len,
{
    if len > 0 {
        push_numeral(dst, v / base, base, len - 1, upper);
        let d: u8 = (v % base) as u8;
        dst.push(digit_byte(d, upper));
    }
    assert(dst@ =~= old(dst)@ + numeral(v as nat, base as nat, len as nat, upper));
}

/// How many digits `v` needs in the given base.
pub fn count_digits(v: u64, base: u64) -> (n: usize)
    requires
        2 <= base,
    ensures
        n == digit_count(v as nat, base as nat),
        1 <= n <= 64,
{
    let mut n: usize = 1;
    let mut x: u64 = v;
    let ghost mut left: nat = 64;
    assert(x < 0x1_0000_0000_0000_0000);
    let ghost mut bound: nat = 0x1_0000_0000_0000_0000;
    proof {
        lemma_pow2_64();
    }
    while x >= base
        invariant
            2 <= base,
            digit_count(v as nat, base as nat) == n - 1 + digit_count(x as nat, base as nat),
            1 <= n,
            n + left == 65,
            left >= 1,
            x < two_to(left),
        decreases x,
    {
        assert(x / base < x) by (nonlinear_arith)
            requires
                x >= base,
                base >= 2,
        ;
        assert(x / base <= x / 2) by (nonlinear_arith)
            requires
                base >= 2,
        ;
        proof {
            if left == 1 {
                assert(two_to(1) == 2) by {
                    reveal_with_fuel(two_to, 2);
                }
            }
            left = (left - 1) as nat;
        }
        x = x / base;
        n = n + 1;
    }
    n
}

spec fn two_to(k: nat) -> nat
    decreases k,
{
    if k == 0 {
        1
    } else {
        2 * two_to((k - 1) as nat)
    }
}

proof fn lemma_pow2_64()
    ensures
        two_to(64) == 0x1_0000_0000_0000_0000,
{
    reveal_with_fuel(two_to, 65);
}

} // verus!
