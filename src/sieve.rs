//! Decisions of the sieve-accelerated safe-prime search.
use vstd::prelude::*;
use crate::small_primes::{is_prime, is_small_prime_table};
use vstd::arithmetic::power2::{pow2, lemma_pow2_unfold, lemma_pow2_pos};

verus! {

/// The number of table primes the sieve uses: `amount`, capped at the table size.
pub open spec fn clamped(amount: nat, table_len: nat) -> nat {
    if amount < table_len {
        amount
    } else {
        table_len
    }
}

/// No residue hits the value that would make `2 q + 1` a multiple of its prime.
pub open spec fn sieve_passes(residues: Seq<u32>, primes: Seq<u32>) -> bool {
    forall|i: int| 0 <= i < residues.len() ==> #[trigger] residues[i] != (primes[i] - 1) / 2
}

/// Caps the requested sieve size at the size of the table; never an error.
pub fn sieve_amount(amount: usize, primes: &Vec<u32>) -> (r: usize)
    ensures
        r == clamped(amount as nat, primes.len() as nat),
{
    if amount < primes.len() {
        amount
    } else {
        primes.len()
    }
}

/// Whether a candidate `q` survives the sieve, given `residues[i] == q mod primes[i]`
/// for the first `residues.len()` table primes.
pub fn passes_sieve(residues: &Vec<u32>, primes: &Vec<u32>) -> (r: bool)
    requires
        residues.len() <= primes.len(),
        forall|i: int| 0 <= i < primes.len() ==> #[trigger] primes[i] % 2 == 1,
    ensures
        r == sieve_passes(residues@, primes@),
{
    let mut i: usize = 0;
    while i < residues.len()
        invariant
            i <= residues.len() <= primes.len(),
            forall|j: int| 0 <= j < primes.len() ==> #[trigger] primes[j] % 2 == 1,
            forall|j: int| 0 <= j < i ==> #[trigger] residues[j] != (primes[j] - 1) / 2,
        decreases residues.len() - i,
    {
        assert(primes[i as int] % 2 == 1);
        if residues[i] == (primes[i] - 1) / 2 {
            return false;
        }
        i = i + 1;
    }
    true
}

/// What the search does after the primality test of `q`: go on to test
/// `p = 2 q + 1` when `q` passed, draw again otherwise.
pub fn test_doubled(q_passed: bool) -> (r: bool)
    ensures
        r == q_passed,
{
    q_passed
}

/// Whether the search ends with `p = 2 q + 1`: both tests must have passed.
pub fn accept_safe_prime(q_passed: bool, p_passed: bool) -> (r: bool)
    ensures
        r == (q_passed && p_passed),
{
    test_doubled(q_passed) && p_passed
}

/// `x` with bit `i` set to one.
pub open spec fn with_bit(x: nat, i: nat) -> nat {
    if (x / pow2(i)) % 2 == 1 {
        x
    } else {
        x + pow2(i)
    }
}

/// The candidate `q` built from `bits - 1` random bits: bit `bits - 2` and bit 0
/// forced to one.
pub open spec fn candidate(raw: nat, bits: nat) -> nat {
    with_bit(with_bit(raw, (bits - 2) as nat), 0)
}

proof fn lemma_with_top_bit(x: nat, i: nat)
    requires
        x < pow2(i + 1),
    ensures
        pow2(i) <= with_bit(x, i) < pow2(i + 1),
{
    lemma_pow2_unfold(i + 1);
    lemma_pow2_pos(i);
    let b = pow2(i);
    let v = x / b;
    assert(x == b * v + x % b && 0 <= x % b < b) by (nonlinear_arith)
        requires
            b > 0,
            v == x / b,
    ;
    assert(v < 2) by (nonlinear_arith)
        requires
            x == b * v + x % b,
            x < 2 * b,
            x % b >= 0,
            b > 0,
    ;
    assert(pow2(i + 1) == 2 * b);
    if v % 2 == 1 {
        assert(v == 1);
        assert(x >= b) by (nonlinear_arith)
            requires
                x == b * v + x % b,
                v == 1,
                x % b >= 0,
        ;
        assert(with_bit(x, i) == x);
    } else {
        assert(v == 0);
        assert(b * v == 0) by (nonlinear_arith)
            requires
                v == 0,
        ;
        assert(x < b) by (nonlinear_arith)
            requires
                x == b * v + x % b,
                v == 0,
                x % b < b,
                b > 0,
        ;
        assert(with_bit(x, i) == x + b);
    }
}


/// The candidate has exactly `bits - 1` bits and is odd, so `2 q + 1` has
/// exactly `bits` bits.
pub proof fn lemma_candidate_width(raw: nat, bits: nat)
    requires
        bits >= 2,
        raw < pow2((bits - 1) as nat),
    ensures
        pow2((bits - 2) as nat) <= candidate(raw, bits) < pow2((bits - 1) as nat),
        candidate(raw, bits) % 2 == 1,
        pow2((bits - 1) as nat) <= 2 * candidate(raw, bits) + 1 < pow2(bits),
{
    let i = (bits - 2) as nat;
    lemma_with_top_bit(raw, i);
    let y = with_bit(raw, i);
    lemma_pow2_unfold(i + 1);
    lemma_pow2_unfold(bits);
    assert(pow2(0) == 1) by {
        vstd::arithmetic::power2::lemma2_to64();
    }
    if i == 0 {
        assert(y == 1);
    } else {
        lemma_pow2_unfold(i);
        assert(pow2(i + 1) % 2 == 0);
        if y % 2 == 0 {
            assert(y + 1 < pow2(i + 1));
        }
    }
    assert(y / 1 == y);
}

/// A sieve amount above the table size acts as the whole table.
pub proof fn lemma_amount_clamped(amount: nat, table_len: nat)
    requires
        amount >= table_len,
    ensures
        clamped(amount, table_len) == clamped(table_len, table_len),
        clamped(amount, table_len) == table_len,
{
}

/// The sieve rejects only composites: when `q mod s == (s - 1) / 2` for an odd
/// `s > 1`, then `s` divides `2 q + 1`.
pub proof fn lemma_sieve_rejection_sound(q: nat, s: nat)
    requires
        s > 1,
        s % 2 == 1,
        q % s == (s - 1) / 2,
    ensures
        (2 * q + 1) % s == 0,
        2 * q + 1 > s ==> !is_prime(2 * q + 1),
{
    let k = q / s;
    assert(q == s * k + (s - 1) / 2) by (nonlinear_arith)
        requires
            q % s == (s - 1) / 2,
            s > 0,
            k == q / s,
    ;
    assert(2 * q + 1 == s * (2 * k + 1)) by (nonlinear_arith)
        requires
            q == s * k + (s - 1) / 2,
            s % 2 == 1,
    ;
    assert((2 * q + 1) % s == 0) by (nonlinear_arith)
        requires
            2 * q + 1 == s * (2 * k + 1),
            s > 0,
            k >= 0,
    ;
    if 2 * q + 1 > s {
        assert((2 * q + 1) % s == 0 && 2 <= s < 2 * q + 1);
    }
}

/// Every table entry is an odd number above 1, as the sieve needs of its primes.
pub proof fn lemma_table_entries_odd(t: Seq<u32>)
    requires
        is_small_prime_table(t),
    ensures
        forall|i: int| 0 <= i < t.len() ==> #[trigger] t[i] % 2 == 1 && t[i] > 1,
{
    assert forall|i: int| 0 <= i < t.len() implies #[trigger] t[i] % 2 == 1 && t[i] > 1 by {
        assert(is_prime(t[i] as nat));
    }
}

} // verus!
