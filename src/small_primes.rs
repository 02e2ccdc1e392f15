//! The table of small odd primes that the safe-prime sieve divides by.
use vstd::prelude::*;

verus! {

/// The table holds every odd prime below this bound.
pub const SMALL_PRIME_BOUND: u32 = 16384;

/// `n` is a prime number.
pub open spec fn is_prime(n: nat) -> bool {
    n >= 2 && forall|d: nat| 2 <= d < n ==> #[trigger] (n % d) != 0
}

/// `s` is the table: strictly increasing odd primes below `SMALL_PRIME_BOUND`,
/// and every odd prime below that bound is in it.
pub open spec fn is_small_prime_table(s: Seq<u32>) -> bool {
    &&& forall|i: int| 0 <= i < s.len() ==> #[trigger] s[i] < SMALL_PRIME_BOUND
    &&& forall|i: int| 0 <= i < s.len() ==> is_prime(#[trigger] s[i] as nat) && s[i] % 2 == 1
    &&& forall|i: int, j: int| 0 <= i < j < s.len() ==> s[i] < s[j]
    &&& forall|k: nat|
        #![trigger is_prime(k)]
        3 <= k < SMALL_PRIME_BOUND && is_prime(k) ==> exists|i: int| 0 <= i < s.len() && s[i] == k
}

proof fn lemma_small_divisor(c: nat, d: nat)
    requires
        2 <= d < c,
        c % d == 0,
    ensures
        exists|e: nat| 2 <= e && e * e <= c && #[trigger] (c % e) == 0,
{
    if d * d <= c {
        assert(2 <= d && d * d <= c && c % d == 0);
    } else {
        let e = c / d;
        assert(c == d * e) by (nonlinear_arith)
            requires
                c % d == 0,
                d > 0,
                e == c / d,
        ;
        assert(e >= 2) by (nonlinear_arith)
            requires
                c == d * e,
                d < c,
        ;
        assert(e * e <= c) by (nonlinear_arith)
            requires
                c == d * e,
                d * d > c,
                e >= 0,
        ;
        assert(c % e == 0) by (nonlinear_arith)
            requires
                c == d * e,
                e >= 2,
        ;
    }
}

/// Whether an odd `c >= 3` is prime, by trial division up to its square root.
fn odd_is_prime(c: u32) -> (r: bool)
    requires
        c >= 3,
        c % 2 == 1,
    ensures
        r == is_prime(c as nat),
{
    let mut d: u64 = 3;
    while d <= c as u64 / d
        invariant
            3 <= d <= 65539,
            d % 2 == 1,
            c >= 3,
            c % 2 == 1,
            forall|e: nat| 2 <= e < d ==> #[trigger] ((c as nat) % e) != 0,
        decreases 65539 - d,
    {
        assert(d * d <= c) by (nonlinear_arith)
            requires
                d <= c as u64 / d,
                d > 0,
        ;
        if c as u64 % d == 0 {
            assert(d < c) by (nonlinear_arith)
                requires
                    d * d <= c,
                    d >= 3,
            ;
            return false;
        }
        assert((c as nat) % (d as nat + 1) != 0) by {
            assert((d + 1) % 2 == 0);
            if (c as nat) % (d as nat + 1) == 0 {
                let k = (c as nat) / (d as nat + 1);
                let m = (d as nat + 1) / 2;
                assert(c as nat == (d as nat + 1) * k) by (nonlinear_arith)
                    requires
                        (c as nat) % (d as nat + 1) == 0,
                        d as nat + 1 > 0,
                        k == (c as nat) / (d as nat + 1),
                ;
                assert(c as nat == 2 * (m * k)) by (nonlinear_arith)
                    requires
                        c as nat == (d as nat + 1) * k,
                        d as nat + 1 == 2 * m,
                ;
            }
        }
        assert(d * d <= 4294967295);
        assert(d <= 65535) by (nonlinear_arith)
            requires
                d * d <= 4294967295,
        ;
        d = d + 2;
    }
    assert(d * d > c) by (nonlinear_arith)
        requires
            d > c as u64 / d,
            d > 0,
    ;
    assert forall|e: nat| 2 <= e < c implies #[trigger] ((c as nat) % e) != 0 by {
        if e >= d && (c as nat) % e == 0 {
            lemma_small_divisor(c as nat, e);
            let f = choose|f: nat| 2 <= f && f * f <= c && #[trigger] ((c as nat) % f) == 0;
            assert(f < d) by (nonlinear_arith)
                requires
                    f * f <= c,
                    d * d > c,
                    d >= 0,
                    f >= 0,
            ;
        }
    }
    true
}

/// The odd primes below `SMALL_PRIME_BOUND`, in increasing order.
pub fn small_primes() -> (r: Vec<u32>)
    ensures
        is_small_prime_table(r@),
{
    let mut r: Vec<u32> = Vec::new();
    let mut c: u32 = 3;
    while c < SMALL_PRIME_BOUND
        invariant
            3 <= c <= SMALL_PRIME_BOUND + 1,
            c % 2 == 1,
            r.len() <= c,
            forall|i: int| 0 <= i < r.len() ==> is_prime(#[trigger] r[i] as nat) && r[i] % 2 == 1,
            forall|i: int, j: int| 0 <= i < j < r.len() ==> r[i] < r[j],
            forall|i: int| 0 <= i < r.len() ==> #[trigger] r[i] < c,
            forall|k: nat|
                #![trigger is_prime(k)]
                3 <= k < c && is_prime(k) ==> exists|i: int| 0 <= i < r.len() && r[i] == k,
        decreases SMALL_PRIME_BOUND + 1 - c,
    {
        let ghost old_r = r@;
        if odd_is_prime(c) {
            r.push(c);
        }
        assert forall|k: nat| #![trigger is_prime(k)] 3 <= k < c + 2 && is_prime(k) implies exists|
            i: int,
        | 0 <= i < r.len() && r[i] == k by {
            if k == c {
                assert(r[r.len() - 1] == k);
            } else if k == c + 1 {
                assert(k % 2 == 0);
                assert(k % 2 != 0);
            } else {
                let i = choose|i: int| 0 <= i < old_r.len() && old_r[i] == k;
                assert(r[i] == k);
            }
        }
        c = c + 2;
    }
    r
}

} // verus!
