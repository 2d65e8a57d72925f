//! Unsigned big integers held as big-endian bytes, with the arithmetic done
//! by `num_bigint::BigUint`.
use vstd::prelude::*;

use num_bigint::BigUint;

verus! {

/// The number that big-endian bytes stand for.
pub open spec fn be_value(s: Seq<u8>) -> nat
    decreases s.len(),
{
    if s.len() == 0 {
        0
    } else {
        be_value(s.drop_last()) * 256 + s.last() as nat
    }
}

/// The form that `BigUint::to_bytes_be` gives: at least one byte, and no
/// leading zero byte unless the number is zero.
pub open spec fn is_minimal_be(s: Seq<u8>) -> bool {
    s.len() >= 1 && (s.len() > 1 ==> s[0] != 0)
}

/// Relies on num-bigint's `Mul<u32> for BigUint`, reading and writing the
/// number with `from_bytes_be` and `to_bytes_be`.
#[verifier::external_body]
pub(crate) fn big_mul_u32(a: &Vec<u8>, m: u32) -> (r: Vec<u8>)
    ensures
        be_value(r@) == be_value(a@) * m,
        is_minimal_be(r@),
{
    (BigUint::from_bytes_be(a) * m).to_bytes_be()
}

/// Relies on num-bigint's `Add<u32> for BigUint`, reading and writing the
/// number with `from_bytes_be` and `to_bytes_be`.
#[verifier::external_body]
pub(crate) fn big_add_u32(a: &Vec<u8>, d: u32) -> (r: Vec<u8>)
    ensures
        be_value(r@) == be_value(a@) + d,
        is_minimal_be(r@),
{
    (BigUint::from_bytes_be(a) + d).to_bytes_be()
}

/// Relies on num-bigint's `Div<u32> for BigUint` (which panics on a zero
/// divisor), reading and writing the number with `from_bytes_be` and
/// `to_bytes_be`.
#[verifier::external_body]
pub(crate) fn big_div_u32(a: &Vec<u8>, d: u32) -> (r: Vec<u8>)
    requires
        d > 0,
    ensures
        be_value(r@) == be_value(a@) / (d as nat),
        is_minimal_be(r@),
{
    (BigUint::from_bytes_be(a) / d).to_bytes_be()
}

/// Relies on num-bigint's `Rem<u32> for &BigUint` (which panics on a zero
/// divisor), reading the number with `from_bytes_be`; the remainder comes
/// back from `to_u32_digits`, which gives no digit for zero and one digit
/// for a number below 2^32.
#[verifier::external_body]
pub(crate) fn big_rem_u32(a: &Vec<u8>, d: u32) -> (r: Vec<u32>)
    requires
        d > 0,
    ensures
        be_value(a@) % (d as nat) == 0 ==> r@.len() == 0,
        be_value(a@) % (d as nat) != 0 ==> r@ == seq![(be_value(a@) % (d as nat)) as u32],
{
    (&BigUint::from_bytes_be(a) % d).to_u32_digits()
}

/// Whether big-endian bytes stand for zero.
pub fn is_zero_be(a: &Vec<u8>) -> (r: bool)
    ensures
        r == (be_value(a@) == 0),
{
    let mut i: usize = 0;
    while i < a.len()
        invariant
            i <= a.len(),
            forall|k: int| 0 <= k < i ==> #[trigger] a@[k] == 0,
        decreases a.len() - i,
    {
        if a[i] != 0 {
            proof {
                lemma_be_nonzero_byte(a@, i as int);
            }
            return false;
        }
        i = i + 1;
    }
    proof {
        lemma_be_zero_bytes(a@);
    }
    true
}

proof fn lemma_be_zero_bytes(s: Seq<u8>)
    requires
        forall|k: int| 0 <= k < s.len() ==> #[trigger] s[k] == 0,
    ensures
        be_value(s) == 0,
    decreases s.len(),
{
    if s.len() > 0 {
        lemma_be_zero_bytes(s.drop_last());
    }
}

proof fn lemma_be_nonzero_byte(s: Seq<u8>, i: int)
    requires
        0 <= i < s.len(),
        s[i] != 0,
    ensures
        be_value(s) > 0,
    decreases s.len(),
{
    if i < s.len() - 1 {
        lemma_be_nonzero_byte(s.drop_last(), i);
        assert(be_value(s.drop_last()) * 256 > 0) by (nonlinear_arith)
            requires
                be_value(s.drop_last()) > 0,
        ;
    }
}

/// A number whose first byte is not zero is at least `256^(len - 1)`.
pub proof fn lemma_be_lower(s: Seq<u8>)
    requires
        s.len() >= 1,
        s[0] != 0,
    ensures
        be_value(s) >= vstd::arithmetic::power::pow(256, (s.len() - 1) as nat),
    decreases s.len(),
{
    let n = (s.len() - 1) as nat;
    if s.len() == 1 {
        vstd::arithmetic::power::lemma_pow0(256);
        assert(s.drop_last().len() == 0);
    } else {
        let p = s.drop_last();
        assert(p[0] == s[0]);
        lemma_be_lower(p);
        vstd::arithmetic::power::lemma_pow_adds(256, (n - 1) as nat, 1);
        vstd::arithmetic::power::lemma_pow1(256);
        let a = be_value(p) as int;
        let b = vstd::arithmetic::power::pow(256, (n - 1) as nat) as int;
        assert(a * 256 >= b * 256) by (nonlinear_arith)
            requires
                a >= b,
        ;
    }
}

/// `bytes` with zeros put in front up to `width` bytes.
pub fn pad_be(bytes: &Vec<u8>, width: usize) -> (r: Vec<u8>)
    requires
        bytes.len() <= width,
    ensures
        r.len() == width,
        be_value(r@) == be_value(bytes@),
        r@.subrange(width - bytes.len(), width as int) == bytes@,
        forall|k: int| 0 <= k < width - bytes.len() ==> #[trigger] r@[k] == 0,
{
    let mut r: Vec<u8> = Vec::new();
    let zeros = width - bytes.len();
    let mut i: usize = 0;
    while i < zeros
        invariant
            i <= zeros,
            r@.len() == i,
            forall|k: int| 0 <= k < i ==> #[trigger] r@[k] == 0,
        decreases zeros - i,
    {
        r.push(0);
        i = i + 1;
    }
    proof {
        lemma_be_zero_bytes(r@);
    }
    let ghost front = r@;
    let mut j: usize = 0;
    while j < bytes.len()
        invariant
            j <= bytes.len(),
            r@ == front + bytes@.take(j as int),
            be_value(r@) == be_value(bytes@.take(j as int)),
            front.len() == zeros,
        decreases bytes.len() - j,
    {
        let ghost before = r@;
        r.push(bytes[j]);
        assert(bytes@.take(j + 1).drop_last() =~= bytes@.take(j as int));
        assert(r@ =~= front + bytes@.take(j + 1));
        assert(r@.drop_last() =~= before);
        j = j + 1;
    }
    assert(bytes@.take(bytes.len() as int) =~= bytes@);
    assert(r@.subrange(width - bytes.len(), width as int) =~= bytes@);
    r
}

} // verus!
