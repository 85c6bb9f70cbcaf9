//! Byte constants and small operations on byte vectors.

use vstd::prelude::*;

verus! {

pub const SPACE: u8 = 0x20;
pub const NEWLINE: u8 = 0x0a;
pub const COLON: u8 = 0x3a;
pub const BAR: u8 = 0x7c;
pub const DOT: u8 = 0x2e;
pub const STAR: u8 = 0x2a;
pub const COMMA: u8 = 0x2c;
pub const DASH: u8 = 0x2d;
pub const PLUS: u8 = 0x2b;

/// `n` copies of the byte `b`.
pub open spec fn fill(n: nat, b: u8) -> Seq<u8> {
    Seq::new(n, |i: int| b)
}

/// `n` spaces.
pub open spec fn spaces(n: nat) -> Seq<u8> {
    fill(n, SPACE)
}

/// `a - b`, or zero where `b` is the larger.
pub open spec fn monus(a: nat, b: nat) -> nat {
    if a >= b {
        (a - b) as nat
    } else {
        0
    }
}

/// Is `b` a printable ASCII character, the space included?
pub open spec fn is_printable(b: u8) -> bool {
    0x20 <= b <= 0x7e
}

/// Appends `s` to `dst`.
pub fn push_bytes(dst: &mut Vec<u8>, s: &[u8])
    ensures
        final(dst)@ == old(dst)@ + s@,
{
    dst.extend_from_slice(s);
    assert(dst@ =~= old(dst)@ + s@);
}

/// Appends the byte `b` to `dst`.
pub fn push_byte(dst: &mut Vec<u8>, b: u8)
    ensures
        final(dst)@ == old(dst)@ + seq![b],
{
    dst.push(b);
    assert(dst@ =~= old(dst)@ + seq![b]);
}

/// Concatenation is associative.
pub proof fn lemma_concat_assoc(a: Seq<u8>, b: Seq<u8>, c: Seq<u8>)
    ensures
        a + (b + c) == a + b + c,
{
    assert(a + (b + c) =~= a + b + c);
}

/// Appending 3 pieces one by one appends their concatenation.
pub proof fn lemma_concat3(s: Seq<u8>, a: Seq<u8>, b: Seq<u8>, c: Seq<u8>)
    ensures
        s + (a + b + c) == s + a + b + c,
{
    lemma_concat_assoc(s, a, b);
    lemma_concat_assoc(s, a + b, c);
}

/// Appending 4 pieces one by one appends their concatenation.
pub proof fn lemma_concat4(s: Seq<u8>, a: Seq<u8>, b: Seq<u8>, c: Seq<u8>, d: Seq<u8>)
    ensures
        s + (a + b + c + d) == s + a + b + c + d,
{
    lemma_concat3(s, a, b, c);
    lemma_concat_assoc(s, a + b + c, d);
}

/// Appending 5 pieces one by one appends their concatenation.
pub proof fn lemma_concat5(s: Seq<u8>, a: Seq<u8>, b: Seq<u8>, c: Seq<u8>, d: Seq<u8>, e: Seq<u8>)
    ensures
        s + (a + b + c + d + e) == s + a + b + c + d + e,
{
    lemma_concat4(s, a, b, c, d);
    lemma_concat_assoc(s, a + b + c + d, e);
}

/// Appending 6 pieces one by one appends their concatenation.
pub proof fn lemma_concat6(
    s: Seq<u8>,
    a: Seq<u8>,
    b: Seq<u8>,
    c: Seq<u8>,
    d: Seq<u8>,
    e: Seq<u8>,
    f: Seq<u8>,
)
    ensures
        s + (a + b + c + d + e + f) == s + a + b + c + d + e + f,
{
    lemma_concat5(s, a, b, c, d, e);
    lemma_concat_assoc(s, a + b + c + d + e, f);
}

/// Appending 7 pieces one by one appends their concatenation.
pub proof fn lemma_concat7(
    s: Seq<u8>,
    a: Seq<u8>,
    b: Seq<u8>,
    c: Seq<u8>,
    d: Seq<u8>,
    e: Seq<u8>,
    f: Seq<u8>,
    g: Seq<u8>,
)
    ensures
        s + (a + b + c + d + e + f + g) == s + a + b + c + d + e + f + g,
{
    lemma_concat6(s, a, b, c, d, e, f);
    lemma_concat_assoc(s, a + b + c + d + e + f, g);
}

/// Appending 8 pieces one by one appends their concatenation.
pub proof fn lemma_concat8(
    s: Seq<u8>,
    a: Seq<u8>,
    b: Seq<u8>,
    c: Seq<u8>,
    d: Seq<u8>,
    e: Seq<u8>,
    f: Seq<u8>,
    g: Seq<u8>,
    h: Seq<u8>,
)
    ensures
        s + (a + b + c + d + e + f + g + h) == s + a + b + c + d + e + f + g + h,
{
    lemma_concat7(s, a, b, c, d, e, f, g);
    lemma_concat_assoc(s, a + b + c + d + e + f + g, h);
}

/// Nothing is added by the empty sequence.
pub proof fn lemma_concat_empty(a: Seq<u8>)
    ensures
        a + Seq::<u8>::empty() == a,
        Seq::<u8>::empty() + a == a,
{
    assert(a + Seq::<u8>::empty() =~= a);
    assert(Seq::<u8>::empty() + a =~= a);
}

/// Appends `n` copies of `b` to `dst`.
pub fn push_fill(dst: &mut Vec<u8>, n: usize, b: u8)
    ensures
        final(dst)@ == old(dst)@ + fill(n as nat, b),
{
    let ghost before = dst@;
    for i in 0..n
        invariant
            dst@ == before + fill(i as nat, b),
    {
        dst.push(b);
        assert(dst@ =~= before + fill((i + 1) as nat, b));
    }
    assert(dst@ =~= before + fill(n as nat, b));
}

/// Do the two slices hold the same bytes?
pub fn same_bytes(a: &[u8], b: &[u8]) -> (r: bool)
    ensures
        r == (a@ == b@),
{
    if a.len() != b.len() {
        return false;
    }
    for i in 0..a.len()
        invariant
            a@.len() == b@.len(),
            forall|j: int| 0 <= j < i ==> a@[j] == b@[j],
    {
        if a[i] != b[i] {
            return false;
        }
    }
    assert(a@ =~= b@);
    true
}

/// The bytes of `s`, in a vector of their own.
pub fn to_vec(s: &[u8]) -> (r: Vec<u8>)
    ensures
        r@ == s@,
{
    let mut r: Vec<u8> = Vec::with_capacity(s.len());
    push_bytes(&mut r, s);
    assert(r@ =~= s@);
    r
}

} // verus!
