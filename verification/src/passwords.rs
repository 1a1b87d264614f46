//! Candidate passwords: numbers whose digits never fall from left to right and
//! among which some digit occurs exactly twice.

use crate::text::{decimal, numerals};
use vstd::prelude::*;

verus! {

/// How often `d` occurs in `text`.
pub open spec fn occurrences(text: Seq<u8>, d: u8) -> nat
    decreases text.len(),
{
    if text.len() == 0 {
        0
    } else {
        occurrences(text.drop_last(), d) + if text.last() == d {
            1nat
        } else {
            0nat
        }
    }
}

/// Whether some digit occurs exactly twice.
pub open spec fn has_pair(text: Seq<u8>) -> bool {
    exists|d: u8| #[trigger] occurrences(text, d) == 2
}

/// Whether no digit is smaller than the one before it.
pub open spec fn never_falls(text: Seq<u8>) -> bool {
    forall|i: int| 0 < i < text.len() ==> text[i - 1] <= #[trigger] text[i]
}

/// Whether `n`, written in decimal, meets both criteria.
pub open spec fn meets(n: nat) -> bool {
    has_pair(numerals(n)) && never_falls(numerals(n))
}

/// How many of the numbers from `lo` up to, but not including, `hi` meet the
/// criteria.
pub open spec fn count_meeting(lo: nat, hi: nat) -> nat
    decreases hi,
{
    if hi <= lo {
        0
    } else {
        count_meeting(lo, (hi - 1) as nat) + if meets((hi - 1) as nat) {
            1nat
        } else {
            0nat
        }
    }
}

/// Decimal text holds digits only.
pub proof fn lemma_numerals_are_digits(n: nat)
    ensures
        forall|i: int| 0 <= i < numerals(n).len() ==> 48 <= #[trigger] numerals(n)[i] <= 57,
    decreases n,
{
    if n >= 10 {
        lemma_numerals_are_digits(n / 10);
        assert forall|i: int| 0 <= i < numerals(n).len() implies 48 <= #[trigger] numerals(n)[i]
            <= 57 by {
            if i < numerals(n).len() - 1 {
                assert(numerals(n)[i] == numerals(n / 10)[i]);
            }
        }
    }
}

/// What does not occur in a text occurs in it zero times.
pub proof fn lemma_absent(text: Seq<u8>, d: u8)
    requires
        forall|i: int| 0 <= i < text.len() ==> #[trigger] text[i] != d,
    ensures
        occurrences(text, d) == 0,
    decreases text.len(),
{
    if text.len() > 0 {
        lemma_absent(text.drop_last(), d);
    }
}

/// Counts how often `d` occurs in `text`.
pub fn count_of(text: &[u8], d: u8) -> (n: usize)
    ensures
        n == occurrences(text@, d),
{
    let mut n: usize = 0;
    let mut i: usize = 0;
    assert(text@.take(0) =~= Seq::<u8>::empty());
    while i < text.len()
        invariant
            i <= text.len(),
            n <= i,
            n == occurrences(text@.take(i as int), d),
        decreases text.len() - i,
    {
        assert(text@.take(i + 1).drop_last() =~= text@.take(i as int));
        if text[i] == d {
            n += 1;
        }
        i += 1;
    }
    assert(text@.take(text.len() as int) =~= text@);
    n
}

/// Tells whether `n` meets the criteria: written in decimal, its digits never
/// fall from left to right, and one of them occurs exactly twice.
pub fn meets_criteria(n: u64) -> (r: bool)
    ensures
        r == meets(n as nat),
{
    let text = decimal(n);
    proof {
        lemma_numerals_are_digits(n as nat);
    }
    let mut i: usize = 1;
    while i < text.len()
        invariant
            1 <= i,
            text@ == numerals(n as nat),
            forall|j: int| 0 < j < i && j < text.len() ==> text@[j - 1] <= #[trigger] text@[j],
        decreases text.len() - i,
    {
        if text[i] < text[i - 1] {
            return false;
        }
        i += 1;
    }
    let mut d: u8 = 48;
    while d <= 57
        invariant
            48 <= d <= 58,
            text@ == numerals(n as nat),
            never_falls(text@),
            forall|c: u8| 48 <= c < d ==> #[trigger] occurrences(text@, c) != 2,
        decreases 58 - d,
    {
        if count_of(text.as_slice(), d) == 2 {
            return true;
        }
        d += 1;
    }
    proof {
        assert forall|c: u8| #[trigger] occurrences(text@, c) != 2 by {
            if c < 48 || c > 57 {
                lemma_absent(text@, c);
            }
        }
    }
    false
}

/// Counts the numbers from `lo` up to, but not including, `hi` that meet the
/// criteria.
pub fn count_passwords(lo: u64, hi: u64) -> (count: u64)
    ensures
        count == count_meeting(lo as nat, hi as nat),
{
    let mut count: u64 = 0;
    let mut n: u64 = lo;
    while n < hi
        invariant
            lo <= n <= hi || (hi < lo && n == lo),
            count <= n - lo,
            count == count_meeting(lo as nat, n as nat),
        decreases hi - n,
    {
        if meets_criteria(n) {
            count += 1;
        }
        n += 1;
    }
    count
}

} // verus!
