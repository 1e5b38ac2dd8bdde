//! The order in which candidates are visited: a counter over digit
//! sequences, least significant position first, whose digits skip the
//! values 0, 1 and 5.

use vstd::prelude::*;

verus! {

/// The digits that never stand in a candidate.
pub open spec fn is_ignored(d: u8) -> bool {
    d == 0 || d == 1 || d == 5
}

/// The digits a candidate is made of: 2, 3, 4, 6, 7, 8 and 9.
pub open spec fn is_allowed(d: u8) -> bool {
    2 <= d <= 9 && !is_ignored(d)
}

pub open spec fn all_allowed(s: Seq<u8>) -> bool {
    forall|k: int| 0 <= k < s.len() ==> is_allowed(#[trigger] s[k])
}

/// The first allowed digit at or above `d`.
pub open spec fn skip_ignored(d: u8) -> u8 {
    if d <= 2 {
        2
    } else if d == 5 {
        6
    } else {
        d
    }
}

/// The first position at or after `i` whose digit is below 9, or the
/// length when there is none.
pub open spec fn first_below_nine(s: Seq<u8>, i: int) -> int
    decreases s.len() - i,
{
    if i >= s.len() || i < 0 {
        s.len() as int
    } else if s[i] < 9 {
        i
    } else {
        first_below_nine(s, i + 1)
    }
}

pub proof fn lemma_first_below_nine(s: Seq<u8>, i: int)
    requires
        0 <= i <= s.len(),
    ensures
        i <= first_below_nine(s, i) <= s.len(),
        forall|k: int| i <= k < first_below_nine(s, i) ==> s[k] >= 9,
        first_below_nine(s, i) < s.len() ==> s[first_below_nine(s, i)] < 9,
    decreases s.len() - i,
{
    if i < s.len() && s[i] >= 9 {
        lemma_first_below_nine(s, i + 1);
    }
}

/// Two sequences of one length that agree from `j` on have the same first
/// digit below 9 from `j` on.
proof fn lemma_first_below_nine_tail(s: Seq<u8>, t: Seq<u8>, j: int)
    requires
        0 <= j,
        s.len() == t.len(),
        forall|k: int| j <= k < s.len() ==> s[k] == t[k],
    ensures
        first_below_nine(s, j) == first_below_nine(t, j),
    decreases s.len() - j,
{
    if j < s.len() && s[j] >= 9 {
        lemma_first_below_nine_tail(s, t, j + 1);
    }
}

/// What one step of the enumeration does from position `i`: the nines from
/// `i` on turn to 2 and carry; the first digit below 9 goes up to the next
/// allowed digit; when every digit from `i` on is 9, a 2 is appended.
pub open spec fn advanced(s: Seq<u8>, i: int, t: Seq<u8>) -> bool {
    let j = first_below_nine(s, i);
    &&& forall|k: int| 0 <= k < i ==> t[k] == s[k]
    &&& forall|k: int| i <= k < j ==> t[k] == 2
    &&& if j < s.len() {
        &&& t.len() == s.len()
        &&& t[j] == skip_ignored((s[j] + 1) as u8)
        &&& forall|k: int| j < k < s.len() ==> t[k] == s[k]
    } else {
        &&& t.len() == s.len() + 1
        &&& t[s.len() as int] == 2
    }
}

/// The place of an allowed digit among 2, 3, 4, 6, 7, 8, 9, counted from 1.
pub open spec fn weight(d: u8) -> nat {
    if d <= 4 {
        (d - 1) as nat
    } else {
        (d - 2) as nat
    }
}

/// The place of a candidate in the enumeration: its digits read, least
/// significant first, as a numeral in bijective base 7.
pub open spec fn rank(s: Seq<u8>) -> nat
    decreases s.len(),
{
    if s.len() == 0 {
        0
    } else {
        weight(s[0]) + 7 * rank(s.drop_first())
    }
}

proof fn lemma_first_below_nine_shift(s: Seq<u8>, k: int)
    requires
        s.len() >= 1,
        0 <= k,
    ensures
        first_below_nine(s, k + 1) == first_below_nine(s.drop_first(), k) + 1,
    decreases s.len() - k,
{
    if k + 1 < s.len() && s[k + 1] >= 9 {
        lemma_first_below_nine_shift(s, k + 1);
    }
}

/// A step of the enumeration from the first position moves a candidate of
/// allowed digits exactly one place on: repeated steps visit every
/// candidate in turn and never the same one twice.
pub proof fn lemma_advance_rank(s: Seq<u8>, t: Seq<u8>)
    requires
        all_allowed(s),
        advanced(s, 0, t),
    ensures
        rank(t) == rank(s) + 1,
        t != s,
        all_allowed(t),
    decreases s.len(),
{
    lemma_first_below_nine(s, 0);
    let j = first_below_nine(s, 0);
    assert forall|k: int| 0 <= k < t.len() implies is_allowed(#[trigger] t[k]) by {
        if j < k && k < s.len() {
            assert(is_allowed(s[k]));
        }
        if k == j && j < s.len() {
            assert(is_allowed(s[j]));
        }
    }
    let t1 = t.drop_first();
    if s.len() == 0 {
        assert(t1.len() == 0);
        assert(rank(t1) == 0);
    } else {
        let s1 = s.drop_first();
        assert(is_allowed(s[0]));
        if s[0] < 9 {
            assert(j == 0);
            assert(t1 =~= s1);
        } else {
            lemma_first_below_nine_shift(s, 0);
            assert(first_below_nine(s, 0) == first_below_nine(s, 1));
            let j1 = first_below_nine(s1, 0);
            assert(j1 == j - 1);
            assert(t[0] == 2);
            assert forall|k: int| 0 <= k < j1 implies t1[k] == 2 by {
                assert(t1[k] == t[k + 1]);
            }
            if j < s.len() {
                assert forall|k: int| j1 < k < s1.len() implies t1[k] == s1[k] by {
                    assert(t1[k] == t[k + 1]);
                }
            }
            assert forall|k: int| 0 <= k < s1.len() implies is_allowed(#[trigger] s1[k]) by {
                assert(is_allowed(s[k + 1]));
            }
            assert(advanced(s1, 0, t1));
            lemma_advance_rank(s1, t1);
        }
    }
    if t == s {
        assert(rank(t) == rank(s));
    }
}

/// `skip_ignored` lands on an allowed digit, and on the least allowed digit
/// at or above the one it is given.
pub proof fn lemma_skip_ignored(d: u8)
    requires
        d <= 9,
    ensures
        is_allowed(skip_ignored(d)),
        d <= skip_ignored(d) || d <= 1,
        forall|e: u8| is_allowed(e) && d <= e ==> skip_ignored(d) <= e,
{
}

/// A step from position `i` of a candidate whose digits from `i` on are all
/// 9 makes it one digit longer: those digits and the new one are 2, the
/// digits before `i` stay.
pub proof fn lemma_all_nines_grow(s: Seq<u8>, i: int, t: Seq<u8>)
    requires
        0 <= i <= s.len(),
        forall|k: int| i <= k < s.len() ==> s[k] == 9,
        advanced(s, i, t),
    ensures
        t.len() == s.len() + 1,
        forall|k: int| 0 <= k < i ==> t[k] == s[k],
        forall|k: int| i <= k < t.len() ==> t[k] == 2,
{
    lemma_first_below_nine(s, i);
}

/// A run of enumeration steps from the first position, started on a
/// candidate of allowed digits, moves one place per step and so never
/// visits a candidate twice.
pub proof fn lemma_run_never_repeats(run: Seq<Seq<u8>>)
    requires
        run.len() >= 1,
        all_allowed(run[0]),
        forall|k: int| 0 <= k < run.len() - 1 ==> advanced(#[trigger] run[k], 0, run[k + 1]),
    ensures
        forall|k: int| 0 <= k < run.len() ==> rank(#[trigger] run[k]) == rank(run[0]) + k,
        forall|a: int, b: int| 0 <= a < b < run.len() ==> run[a] != run[b],
    decreases run.len(),
{
    if run.len() > 1 {
        let init = run.drop_last();
        assert forall|k: int| 0 <= k < init.len() - 1 implies advanced(#[trigger] init[k], 0, init[k + 1]) by {
            assert(advanced(run[k], 0, run[k + 1]));
        }
        lemma_run_never_repeats(init);
        let n = run.len() - 1;
        assert(init[n - 1] == run[n - 1]);
        assert(advanced(run[n - 1], 0, run[n]));
        assert(all_allowed(run[n - 1])) by {
            lemma_run_allowed(init, n - 1);
        }
        lemma_advance_rank(run[n - 1], run[n]);
        assert forall|k: int| 0 <= k < run.len() implies rank(#[trigger] run[k]) == rank(run[0]) + k by {
            if k < n {
                assert(init[k] == run[k]);
            }
        }
        assert forall|a: int, b: int| 0 <= a < b < run.len() implies run[a] != run[b] by {
            assert(rank(run[a]) == rank(run[0]) + a);
            assert(rank(run[b]) == rank(run[0]) + b);
        }
    }
}

proof fn lemma_run_allowed(run: Seq<Seq<u8>>, k: int)
    requires
        0 <= k < run.len(),
        all_allowed(run[0]),
        forall|m: int| 0 <= m < run.len() - 1 ==> advanced(#[trigger] run[m], 0, run[m + 1]),
    ensures
        all_allowed(run[k]),
    decreases k,
{
    if k > 0 {
        lemma_run_allowed(run, k - 1);
        assert(advanced(run[k - 1], 0, run[k]));
        lemma_advance_rank(run[k - 1], run[k]);
    }
}

/// Moves `num` to the next candidate, starting the increment at position
/// `i`: the digit there goes up by one; past 9 it wraps to 2 and carries
/// into the next position, or into a new position 2 at the end; a digit
/// that lands on 1 or 5 moves on to 2 or 6.
pub fn best_next(num: &mut Vec<u8>, i: usize)
    requires
        i < old(num).len(),
        forall|k: int| 0 <= k < old(num).len() ==> old(num)[k] <= 9,
    ensures
        advanced(old(num)@, i as int, final(num)@),
        forall|k: int| 0 <= k < final(num).len() ==> final(num)[k] <= 9,
        all_allowed(old(num)@) ==> all_allowed(final(num)@),
    decreases old(num).len() - i,
{
    let ghost s0 = num@;
    proof {
        lemma_first_below_nine(s0, i as int);
    }
    let mut d: u8 = num[i] + 1;
    if d > 9 {
        d = 2;
        num.set(i, 2);
        if i + 1 >= num.len() {
            num.push(2);
        } else {
            let ghost s1 = num@;
            proof {
                lemma_first_below_nine_tail(s0, s1, i + 1);
            }
            best_next(num, i + 1);
        }
    }
    while d == 0 || d == 1 || d == 5
        invariant
            i < s0.len(),
            s0[i as int] <= 9,
            1 <= d <= 9,
            skip_ignored(d) == skip_ignored(
                if s0[i as int] == 9 {
                    2
                } else {
                    (s0[i as int] + 1) as u8
                },
            ),
        decreases 9 - d,
    {
        d = d + 1;
    }
    num.set(i, d);
}

} // verus!
