//! Binomial coefficients, computed exactly in integer arithmetic through
//! Pascal's triangle, so that no precision is lost before a caller converts
//! them to another number format.

use vstd::prelude::*;
use vstd::arithmetic::power2::{pow2, lemma_pow2_adds, lemma2_to64, lemma2_to64_rest};

verus! {

/// The binomial coefficient `C(n, k)`: the number of `k`-element subsets of
/// an `n`-element set, by Pascal's recurrence.
pub open spec fn binom(n: nat, k: nat) -> nat
    decreases n,
{
    if k == 0 {
        1
    } else if k > n {
        0
    } else {
        binom((n - 1) as nat, (k - 1) as nat) + binom((n - 1) as nat, k)
    }
}

/// Choosing all `n` elements can be done in exactly one way.
pub proof fn lemma_binom_all(n: nat)
    ensures
        binom(n, n) == 1,
    decreases n,
{
    if n > 0 {
        lemma_binom_all((n - 1) as nat);
        assert(binom((n - 1) as nat, n) == 0);
        assert(binom(n, n) == binom((n - 1) as nat, (n - 1) as nat) + binom((n - 1) as nat, n));
    }
}

/// Every entry of row `n` of Pascal's triangle is at most `2^n`.
pub proof fn lemma_binom_le_pow2(n: nat, k: nat)
    ensures
        binom(n, k) <= pow2(n),
    decreases n,
{
    vstd::arithmetic::power2::lemma_pow2_pos(n);
    if k == 0 || k > n {
    } else {
        lemma_binom_le_pow2((n - 1) as nat, (k - 1) as nat);
        lemma_binom_le_pow2((n - 1) as nat, k);
        lemma_pow2_adds(1, (n - 1) as nat);
        lemma2_to64();
    }
}

/// Row `n` of Pascal's triangle: the coefficients `C(n, 0) ..= C(n, n)`.
///
/// The row is built by repeated addition, so every coefficient is exact;
/// `n <= 63` keeps every entry within `u64` (each is at most `2^63`).
pub fn binomial_row(n: usize) -> (r: Vec<u64>)
    requires
        n <= 63,
    ensures
        r@.len() == n + 1,
        forall|i: int| 0 <= i <= n ==> r@[i] == binom(n as nat, i as nat),
{
    let mut row: Vec<u64> = Vec::new();
    row.push(1);
    let mut r: usize = 1;
    while r <= n
        invariant
            1 <= r <= n + 1,
            n <= 63,
            row@.len() == r,
            forall|i: int| 0 <= i < r ==> row@[i] == binom((r - 1) as nat, i as nat),
        decreases n + 1 - r,
    {
        let ghost prev = row@;
        let mut next: Vec<u64> = Vec::new();
        next.push(1);
        let mut j: usize = 1;
        while j < r
            invariant
                1 <= j <= r,
                r <= n <= 63,
                row@ == prev,
                row@.len() == r,
                forall|i: int| 0 <= i < r ==> row@[i] == binom((r - 1) as nat, i as nat),
                next@.len() == j,
                forall|i: int| 0 <= i < j ==> next@[i] == binom(r as nat, i as nat),
            decreases r - j,
        {
            proof {
                lemma_binom_le_pow2((r - 1) as nat, (j - 1) as nat);
                lemma_binom_le_pow2((r - 1) as nat, j as nat);
                lemma_pow2_adds(1, (r - 1) as nat);
                lemma2_to64();
                lemma2_to64_rest();
                assert(pow2(r as nat) <= pow2(63)) by {
                    if (r as nat) < 63 {
                        vstd::arithmetic::power2::lemma_pow2_strictly_increases(r as nat, 63);
                    }
                }
            }
            let v = row[j - 1] + row[j];
            next.push(v);
            j = j + 1;
        }
        next.push(1);
        proof {
            lemma_binom_all(r as nat);
        }
        row = next;
        r = r + 1;
    }
    row
}

/// The single binomial coefficient `C(n, k)`, exactly.
pub fn binomial(n: usize, k: usize) -> (r: u64)
    requires
        k <= n <= 63,
    ensures
        r == binom(n as nat, k as nat),
{
    let row = binomial_row(n);
    row[k]
}

} // verus!
