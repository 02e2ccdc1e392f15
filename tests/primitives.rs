use paillier_utils::exp::{crt_build_accepts, naive_build_accepts};
use paillier_utils::group::{in_mult_group, in_mult_group_abs, sample_accepts};
use paillier_utils::sieve::{accept_safe_prime, passes_sieve, sieve_amount, test_doubled};
use paillier_utils::small_primes::{small_primes, SMALL_PRIME_BOUND};

#[test]
fn table_starts_with_small_odd_primes() {
    let t = small_primes();
    assert_eq!(&t[0..8], &[3, 5, 7, 11, 13, 17, 19, 23]);
}

#[test]
fn table_holds_every_odd_prime_below_bound() {
    let t = small_primes();
    assert_eq!(t.len(), 1899);
    assert_eq!(*t.last().unwrap(), 16381);
    assert!(t.iter().all(|&p| p < SMALL_PRIME_BOUND));
    assert!(t.windows(2).all(|w| w[0] < w[1]));
}

#[test]
fn default_sieve_amount_is_kept() {
    let t = small_primes();
    assert_eq!(sieve_amount(135, &t), 135);
    assert_eq!(t[134], 769);
}

#[test]
fn oversized_sieve_amount_is_clamped() {
    let t = small_primes();
    assert_eq!(sieve_amount(100_000, &t), t.len());
    assert_eq!(sieve_amount(usize::MAX, &t), sieve_amount(t.len(), &t));
}

#[test]
fn sieve_rejects_multiple_of_three() {
    // q = 7: 2 q + 1 = 15 is a multiple of 3, and 7 mod 3 == (3 - 1) / 2
    let t = small_primes();
    let q: u32 = 7;
    let residues: Vec<u32> = t[0..3].iter().map(|&s| q % s).collect();
    assert!(!passes_sieve(&residues, &t));
}

#[test]
fn sieve_keeps_safe_prime_candidate() {
    // q = 11: 2 q + 1 = 23 is prime
    let t = small_primes();
    let q: u32 = 11;
    let residues: Vec<u32> = t[0..3].iter().map(|&s| q % s).collect();
    assert_eq!(residues, vec![2, 1, 4]);
    assert!(passes_sieve(&residues, &t));
}

#[test]
fn sieve_with_no_primes_passes_everything() {
    let t = small_primes();
    assert!(passes_sieve(&Vec::new(), &t));
}

#[test]
fn search_steps() {
    assert!(test_doubled(true));
    assert!(!test_doubled(false));
    assert!(accept_safe_prime(true, true));
    assert!(!accept_safe_prime(true, false));
    assert!(!accept_safe_prime(false, true));
}

#[test]
fn membership_needs_sign_and_gcd() {
    assert!(in_mult_group(true, true));
    assert!(!in_mult_group(false, true));
    assert!(!in_mult_group(true, false));
    assert!(in_mult_group_abs(true));
    assert!(!in_mult_group_abs(false));
}

#[test]
fn sampler_keeps_only_group_members() {
    assert!(sample_accepts(true, true));
    assert!(!sample_accepts(true, false));
    assert!(!sample_accepts(false, true));
}

#[test]
fn build_refuses_negative_exponent_or_factors() {
    assert!(naive_build_accepts(false, true, true));
    assert!(!naive_build_accepts(true, true, true));
    assert!(!naive_build_accepts(false, false, true));
    assert!(!naive_build_accepts(false, true, false));
    assert!(crt_build_accepts(false, true, true, true));
    assert!(!crt_build_accepts(false, true, true, false));
    assert!(!crt_build_accepts(true, true, true, true));
    assert!(!crt_build_accepts(false, false, true, true));
    assert!(!crt_build_accepts(false, true, false, true));
}
