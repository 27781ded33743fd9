//! Decimal digit strings of natural numbers.

use vstd::prelude::*;

verus! {

/// `10` to the power `k`.
pub open spec fn pow10(k: nat) -> nat
    decreases k,
{
    if k == 0 {
        1
    } else {
        10 * pow10((k - 1) as nat)
    }
}

/// The decimal digits of `n`, most significant first, without leading zeros
/// (`0` is written as the single digit 0).
pub open spec fn decimal_digits(n: nat) -> Seq<u8>
    decreases n,
{
    if n < 10 {
        seq![n as u8]
    } else {
        decimal_digits(n / 10).push((n % 10) as u8)
    }
}

/// The number a string of decimal digits (most significant first) denotes.
pub open spec fn digits_value(s: Seq<u8>) -> nat
    decreases s.len(),
{
    if s.len() == 0 {
        0
    } else {
        digits_value(s.drop_last()) * 10 + s.last() as nat
    }
}

pub proof fn lemma_pow10_positive(k: nat)
    ensures
        pow10(k) >= 1,
    decreases k,
{
    if k > 0 {
        lemma_pow10_positive((k - 1) as nat);
    }
}

/// The value of two digit strings written one after the other.
pub proof fn lemma_digits_value_concat(a: Seq<u8>, b: Seq<u8>)
    ensures
        digits_value(a + b) == digits_value(a) * pow10(b.len()) + digits_value(b),
    decreases b.len(),
{
    if b.len() == 0 {
        assert(a + b =~= a);
        assert(pow10(0) == 1);
        assert(digits_value(a) * 1 == digits_value(a));
    } else {
        let bl = b.drop_last();
        assert((a + b).drop_last() =~= a + bl);
        assert((a + b).last() == b.last());
        lemma_digits_value_concat(a, bl);
        let va = digits_value(a);
        let p = pow10(bl.len());
        let vb = digits_value(bl);
        assert(digits_value(a + b) == digits_value(a + bl) * 10 + b.last() as nat);
        assert(digits_value(b) == vb * 10 + b.last() as nat);
        assert(pow10(b.len()) == 10 * p);
        assert((va * p + vb) * 10 + b.last() == va * (10 * p) + (vb * 10 + b.last())) by (nonlinear_arith);
    }
}

/// The digits of `n` denote `n`, and there is at least one.
pub proof fn lemma_decimal_digits_value(n: nat)
    ensures
        digits_value(decimal_digits(n)) == n,
        decimal_digits(n).len() >= 1,
    decreases n,
{
    if n >= 10 {
        lemma_decimal_digits_value(n / 10);
        let d = decimal_digits(n);
        assert(d.drop_last() =~= decimal_digits(n / 10));
        assert(d.last() == (n % 10) as u8);
        assert(digits_value(d) == digits_value(d.drop_last()) * 10 + d.last() as nat);
    } else {
        let d = decimal_digits(n);
        assert(d.drop_last() =~= Seq::<u8>::empty());
        assert(digits_value(d) == digits_value(d.drop_last()) * 10 + d.last() as nat);
    }
}

/// `10` to the power of the number of decimal digits of `num`.
pub fn decimal_scale(num: u32) -> (p: u64)
    ensures
        p == pow10(decimal_digits(num as nat).len()),
{
    let mut m = num;
    let mut p: u64 = 10;
    let ghost mut j: nat = 0;
    proof {
        reveal_with_fuel(pow10, 2);
        assert(m * 1 == m);
    }
    while m >= 10
        invariant
            decimal_digits(num as nat).len() == decimal_digits(m as nat).len() + j,
            p == pow10(j + 1),
            m * pow10(j) <= num,
        decreases m,
    {
        proof {
            lemma_pow10_positive(j);
            assert(pow10(j + 1) == 10 * pow10(j));
            assert(10 * pow10(j) <= m * pow10(j)) by (nonlinear_arith)
                requires
                    m >= 10,
                    pow10(j) >= 1,
            ;
            assert((m / 10) * (10 * pow10(j)) <= m * pow10(j)) by (nonlinear_arith)
                requires
                    m >= 10,
                    pow10(j) >= 1,
            ;
            assert(pow10(j + 2) == 10 * pow10(j + 1));
        }
        m = m / 10;
        p = p * 10;
        proof {
            j = j + 1;
        }
    }
    p
}

} // verus!
