//! Multiplicative persistence: how many times the digits of a number must
//! be multiplied together before a single digit is left.
//!
//! A candidate has thousands of digits, so their product is held in an
//! arbitrary-precision integer.

use vstd::prelude::*;
use crate::big::{big_div_assign, big_from, big_is_positive, big_mod_u, big_mul_assign, big_value};
use crate::digits::{digits_of, is_digit_seq, lemma_digits_of, lemma_product_le_value, product, value};

verus! {

/// The number of collapses (multiply the digits, take the digits of the
/// product) that bring `s` down to at most one digit.
pub open spec fn persistence(s: Seq<u8>) -> nat
    decreases value(s), s.len(),
    when is_digit_seq(s)
{
    if s.len() <= 1 {
        0
    } else {
        proof {
            lemma_product_le_value(s);
            lemma_digits_of(product(s));
        }
        1 + persistence(digits_of(product(s)))
    }
}

/// The sequence that repeated collapsing of `s` ends on.
pub open spec fn collapsed(s: Seq<u8>) -> Seq<u8>
    decreases value(s), s.len(),
    when is_digit_seq(s)
{
    if s.len() <= 1 {
        s
    } else {
        proof {
            lemma_product_le_value(s);
            lemma_digits_of(product(s));
        }
        collapsed(digits_of(product(s)))
    }
}

/// One collapse of a sequence of two digits or more gives a sequence that
/// stands for a smaller number, or a single digit: so collapsing always
/// ends, and each collapse adds exactly one to the count.
pub proof fn lemma_collapse_progress(s: Seq<u8>)
    requires
        is_digit_seq(s),
        s.len() >= 2,
    ensures
        is_digit_seq(digits_of(product(s))),
        value(digits_of(product(s))) < value(s) || (value(digits_of(product(s))) == value(s)
            && digits_of(product(s)).len() < s.len()),
        persistence(s) == 1 + persistence(digits_of(product(s))),
        collapsed(s) == collapsed(digits_of(product(s))),
{
    lemma_product_le_value(s);
    lemma_digits_of(product(s));
    if product(s) == 0 {
        assert(digits_of(0).len() == 1);
    }
}

/// A single digit needs no collapse.
pub proof fn lemma_single_digit(s: Seq<u8>)
    requires
        is_digit_seq(s),
        s.len() == 1,
    ensures
        persistence(s) == 0,
{
}

/// Replaces `digits` by the decimal digits of `num`, least significant
/// first (a single 0 for zero), and leaves `num` at zero.
fn to_digits(num: &mut rug::Integer, digits: &mut Vec<u8>)
    requires
        big_value(*old(num)) >= 0,
    ensures
        final(digits)@ == digits_of(big_value(*old(num)) as nat),
        big_value(*final(num)) == 0,
{
    let ghost n = big_value(*num) as nat;
    let mut out: Vec<u8> = Vec::new();
    if !big_is_positive(num) {
        out.push(0);
    } else {
        while big_is_positive(num)
            invariant
                big_value(*num) >= 0,
                big_value(*num) > 0 ==> digits_of(n) == out@ + digits_of(big_value(*num) as nat),
                big_value(*num) == 0 ==> digits_of(n) == out@,
            decreases big_value(*num),
        {
            let d = big_mod_u(num, 10);
            let ghost m = big_value(*num) as nat;
            out.push(d as u8);
            big_div_assign(num, 10);
            proof {
                if m >= 10 {
                    assert(digits_of(n) =~= out@ + digits_of(m / 10));
                } else {
                    assert(digits_of(n) =~= out@);
                }
            }
        }
    }
    *digits = out;
}

/// The product of all digits, as an arbitrary-precision integer.
fn digit_product(digits: &Vec<u8>) -> (r: rug::Integer)
    ensures
        big_value(r) == product(digits@),
{
    let mut acc = big_from(1);
    let mut i: usize = digits.len();
    while i > 0
        invariant
            i <= digits.len(),
            big_value(acc) == product(digits@.subrange(i as int, digits.len() as int)),
        decreases i,
    {
        i = i - 1;
        let ghost before = big_value(acc);
        big_mul_assign(&mut acc, digits[i]);
        let ghost sub = digits@.subrange(i as int, digits.len() as int);
        assert(product(sub) == sub[0] as nat * product(sub.drop_first()));
        assert(before * digits[i as int] as int == digits[i as int] as int * before) by (nonlinear_arith);
        assert(digits@.subrange(i as int, digits.len() as int).drop_first() =~= digits@.subrange(
            i + 1,
            digits.len() as int,
        ));
    }
    assert(digits@.subrange(0, digits.len() as int) =~= digits@);
    acc
}

/// One collapse: `digits` becomes the digits of the product of its digits.
fn collapse_once(digits: &mut Vec<u8>)
    ensures
        final(digits)@ == digits_of(product(old(digits)@)),
{
    let mut p = digit_product(digits);
    to_digits(&mut p, digits);
}

/// Collapses `digits` until at most one digit is left and adds the number of
/// collapses to the running count `steps`; returns the new count. A single
/// digit is left as it is, with the count unchanged.
pub fn persistence_steps(digits: &mut Vec<u8>, steps: &mut u64) -> (r: u64)
    requires
        is_digit_seq(old(digits)@),
        *old(steps) + persistence(old(digits)@) <= u64::MAX,
    ensures
        r == *old(steps) + persistence(old(digits)@),
        *final(steps) == r,
        final(digits)@ == collapsed(old(digits)@),
        final(digits)@.len() <= 1,
{
    let ghost s0 = digits@;
    let ghost k0 = *steps;
    while digits.len() > 1
        invariant
            is_digit_seq(digits@),
            is_digit_seq(s0),
            k0 + persistence(s0) <= u64::MAX,
            *steps + persistence(digits@) == k0 + persistence(s0),
            collapsed(digits@) == collapsed(s0),
        decreases value(digits@), digits@.len(),
    {
        proof {
            lemma_collapse_progress(digits@);
        }
        collapse_once(digits);
        *steps = *steps + 1;
    }
    *steps
}

/// The persistence of `s`, or `budget` when it is larger.
pub open spec fn capped(s: Seq<u8>, budget: u64) -> nat {
    if persistence(s) < budget {
        persistence(s)
    } else {
        budget as nat
    }
}

/// The number of collapses that bring `digits` down to one digit, counted
/// up to `budget` and no further; `digits` itself is left as it is.
pub fn steps_within(digits: &Vec<u8>, budget: u64) -> (r: u64)
    requires
        is_digit_seq(digits@),
    ensures
        r as nat == capped(digits@, budget),
{
    let mut cur = digits.clone();
    let mut k: u64 = 0;
    while cur.len() > 1 && k < budget
        invariant
            is_digit_seq(cur@),
            k <= budget,
            k + persistence(cur@) == persistence(digits@),
        decreases value(cur@), cur@.len(),
    {
        proof {
            lemma_collapse_progress(cur@);
        }
        collapse_once(&mut cur);
        k = k + 1;
    }
    k
}

} // verus!
