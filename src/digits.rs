//! Digit sequences, least significant digit first, and the numbers they
//! stand for.

use vstd::prelude::*;

verus! {

/// Every element is a decimal digit.
pub open spec fn is_digit_seq(s: Seq<u8>) -> bool {
    forall|i: int| 0 <= i < s.len() ==> s[i] <= 9
}

/// The number that a digit sequence stands for.
pub open spec fn value(s: Seq<u8>) -> nat
    decreases s.len(),
{
    if s.len() == 0 {
        0
    } else {
        s[0] as nat + 10 * value(s.drop_first())
    }
}

/// The product of all digits of a sequence (1 for the empty one).
pub open spec fn product(s: Seq<u8>) -> nat
    decreases s.len(),
{
    if s.len() == 0 {
        1
    } else {
        s[0] as nat * product(s.drop_first())
    }
}

/// The decimal digits of `n`, least significant first, with no zero at the
/// top; `0` has the single digit `0`.
pub open spec fn digits_of(n: nat) -> Seq<u8>
    decreases n,
{
    if n < 10 {
        seq![n as u8]
    } else {
        seq![(n % 10) as u8] + digits_of(n / 10)
    }
}

/// The digits of `n` are decimal digits and stand for `n`.
pub proof fn lemma_digits_of(n: nat)
    ensures
        is_digit_seq(digits_of(n)),
        digits_of(n).len() >= 1,
        value(digits_of(n)) == n,
    decreases n,
{
    let s = digits_of(n);
    if n >= 10 {
        lemma_digits_of(n / 10);
        assert(s.drop_first() =~= digits_of(n / 10));
        assert(n == n % 10 + 10 * (n / 10)) by (nonlinear_arith);
    } else {
        assert(s.drop_first() =~= Seq::<u8>::empty());
        assert(value(s.drop_first()) == 0);
    }
}

/// A product of digits is at most the number they stand for, and below it
/// when there are two digits or more and none of them is zero.
pub proof fn lemma_product_le_value(s: Seq<u8>)
    requires
        is_digit_seq(s),
        s.len() >= 1,
    ensures
        product(s) <= value(s),
        s.len() >= 2 && product(s) > 0 ==> product(s) < value(s),
    decreases s.len(),
{
    let rest = s.drop_first();
    assert(product(s) == s[0] as nat * product(rest));
    assert(value(s) == s[0] as nat + 10 * value(rest));
    if s.len() == 1 {
        assert(value(rest) == 0);
        assert(product(rest) == 1);
        let d = s[0] as nat;
        assert(d * product(rest) == d) by (nonlinear_arith)
            requires
                product(rest) == 1,
        ;
    } else {
        lemma_product_le_value(rest);
        let d = s[0] as nat;
        let p = product(rest);
        let v = value(rest);
        assert(d <= 9);
        assert(d * p <= 9 * v) by (nonlinear_arith)
            requires
                d <= 9,
                p <= v,
        ;
        if product(s) > 0 {
            assert(p > 0) by (nonlinear_arith)
                requires
                    d * p > 0,
            ;
            assert(9 * v < 10 * v);
        }
        assert(product(s) == d * p);
        assert(d * p <= d + 10 * v);
    }
}

/// How many times the digit `d` occurs in `s`.
pub open spec fn occurrences(s: Seq<u8>, d: u8) -> nat
    decreases s.len(),
{
    if s.len() == 0 {
        0
    } else {
        occurrences(s.drop_last(), d) + if s.last() == d {
            1nat
        } else {
            0nat
        }
    }
}

/// `r` holds the digits of `s`, each as many times, in ascending order.
pub open spec fn is_sorted_copy(r: Seq<u8>, s: Seq<u8>) -> bool {
    &&& forall|d: u8| occurrences(r, d) == occurrences(s, d)
    &&& forall|a: int, b: int| 0 <= a < b < r.len() ==> r[a] <= r[b]
}

proof fn lemma_no_large_digit(s: Seq<u8>, d: u8)
    requires
        is_digit_seq(s),
        d > 9,
    ensures
        occurrences(s, d) == 0,
    decreases s.len(),
{
    if s.len() > 0 {
        lemma_no_large_digit(s.drop_last(), d);
    }
}

/// The digits of `digits` in ascending order: the same digits, each as
/// many times.
pub fn sorted_digits(digits: &Vec<u8>) -> (r: Vec<u8>)
    requires
        is_digit_seq(digits@),
    ensures
        is_sorted_copy(r@, digits@),
{
    let mut r: Vec<u8> = Vec::new();
    let mut d: u8 = 0;
    while d < 10
        invariant
            d <= 10,
            forall|e: u8| e < d ==> occurrences(r@, e) == occurrences(digits@, e),
            forall|e: u8| e >= d ==> occurrences(r@, e) == 0,
            forall|a: int, b: int| 0 <= a < b < r@.len() ==> r@[a] <= r@[b],
            forall|k: int| 0 <= k < r@.len() ==> r@[k] < d,
        decreases 10 - d,
    {
        let mut i: usize = 0;
        while i < digits.len()
            invariant
                d < 10,
                i <= digits.len(),
                forall|e: u8| e < d ==> occurrences(r@, e) == occurrences(digits@, e),
                occurrences(r@, d) == occurrences(digits@.subrange(0, i as int), d),
                forall|e: u8| e > d ==> occurrences(r@, e) == 0,
                forall|a: int, b: int| 0 <= a < b < r@.len() ==> r@[a] <= r@[b],
                forall|k: int| 0 <= k < r@.len() ==> r@[k] <= d,
            decreases digits.len() - i,
        {
            let ghost before = r@;
            if digits[i] == d {
                r.push(d);
                proof {
                    assert(r@.drop_last() =~= before);
                    assert forall|e: u8|
                        occurrences(r@, e) == occurrences(before, e) + if e == d {
                            1nat
                        } else {
                            0nat
                        } by {
                        assert(r@.last() == d);
                    }
                }
            }
            assert(digits@.subrange(0, i + 1).drop_last() =~= digits@.subrange(0, i as int));
            i = i + 1;
        }
        assert(digits@.subrange(0, digits.len() as int) =~= digits@);
        d = d + 1;
    }
    proof {
        assert forall|e: u8| occurrences(r@, e) == occurrences(digits@, e) by {
            if e > 9 {
                lemma_no_large_digit(digits@, e);
            }
        }
    }
    r
}

} // verus!
