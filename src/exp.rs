//! Exponentiation `x^e mod (p q)^2` with a fixed exponent: the conditions under
//! which a context may be built, and the Chinese-remainder recombination that
//! the accelerated variant relies on.
use vstd::prelude::*;
use vstd::arithmetic::power::pow;
use vstd::arithmetic::div_mod::{lemma_mod_mod, lemma_small_mod};

verus! {

/// The direct result: `x^e mod (p q)^2`.
pub open spec fn naive_exp(e: nat, p: int, q: int, x: int) -> int {
    pow(x, e) % ((p * q) * (p * q))
}

/// Recombination of `r1 mod pp` and `r2 mod qq` into one value mod `pp * qq`,
/// where `beta` is the inverse of `pp` modulo `qq`.
pub open spec fn crt_combine(pp: int, qq: int, beta: int, r1: int, r2: int) -> int {
    (((r2 - r1) * beta) % qq) * pp + r1
}

/// The accelerated result: both halves raised to the exponent reduced modulo
/// `phi(p^2) = p^2 - p` and `phi(q^2) = q^2 - q`, then recombined.
pub open spec fn crt_exp(e: nat, p: int, q: int, beta: int, x: int) -> int {
    let pp = p * p;
    let qq = q * q;
    crt_combine(
        pp,
        qq,
        beta,
        pow(x, (e as int % (pp - p)) as nat) % pp,
        pow(x, (e as int % (qq - q)) as nat) % qq,
    )
}

/// Whether the direct context may be built: `e >= 0`, `p > 0` and `q > 0`.
pub fn naive_build_accepts(e_negative: bool, p_positive: bool, q_positive: bool) -> (r: bool)
    ensures
        r == (!e_negative && p_positive && q_positive),
{
    !e_negative && p_positive && q_positive
}

/// Whether the accelerated context may be built: as for the direct one, and
/// `p^2` must be invertible modulo `q^2`.
pub fn crt_build_accepts(
    e_negative: bool,
    p_positive: bool,
    q_positive: bool,
    inverse_exists: bool,
) -> (r: bool)
    ensures
        r == (!e_negative && p_positive && q_positive && inverse_exists),
{
    naive_build_accepts(e_negative, p_positive, q_positive) && inverse_exists
}

/// The recombined value is the one in `[0, pp * qq)` that is `r1` modulo `pp`
/// and `r2` modulo `qq`.
pub proof fn lemma_crt_combine(pp: int, qq: int, beta: int, r1: int, r2: int)
    requires
        pp > 0,
        qq > 1,
        0 <= r1 < pp,
        0 <= r2 < qq,
        (pp * beta) % qq == 1,
    ensures
        0 <= crt_combine(pp, qq, beta, r1, r2) < pp * qq,
        crt_combine(pp, qq, beta, r1, r2) % pp == r1,
        crt_combine(pp, qq, beta, r1, r2) % qq == r2,
{
    let h = ((r2 - r1) * beta) % qq;
    let c = h * pp + r1;
    assert(0 <= h < qq);
    assert(0 <= c < pp * qq) by (nonlinear_arith)
        requires
            0 <= h < qq,
            0 <= r1 < pp,
            c == h * pp + r1,
    ;
    assert(c % pp == r1) by (nonlinear_arith)
        requires
            c == h * pp + r1,
            0 <= r1 < pp,
            h >= 0,
    ;
    let t = (pp * beta) / qq;
    let u = ((r2 - r1) * beta) / qq;
    assert(pp * beta == qq * t + 1) by (nonlinear_arith)
        requires
            (pp * beta) % qq == 1,
            qq > 0,
            t == (pp * beta) / qq,
    ;
    assert((r2 - r1) * beta == qq * u + h) by (nonlinear_arith)
        requires
            h == ((r2 - r1) * beta) % qq,
            qq > 0,
            u == ((r2 - r1) * beta) / qq,
    ;
    assert(c == r2 + qq * ((r2 - r1) * t - u * pp)) by (nonlinear_arith)
        requires
            c == h * pp + r1,
            pp * beta == qq * t + 1,
            (r2 - r1) * beta == qq * u + h,
    ;
    assert(c % qq == r2) by (nonlinear_arith)
        requires
            c == r2 + qq * ((r2 - r1) * t - u * pp),
            0 <= r2 < qq,
    ;
}

/// Two values of `[0, pp * qq)` that agree modulo `pp` and modulo `qq` are equal,
/// when `pp` has an inverse `beta` modulo `qq`.
proof fn lemma_crt_unique(pp: int, qq: int, beta: int, a: int, b: int)
    requires
        pp > 0,
        qq > 1,
        0 <= a < pp * qq,
        0 <= b < pp * qq,
        a % pp == b % pp,
        a % qq == b % qq,
        (pp * beta) % qq == 1,
    ensures
        a == b,
{
    let d = a - b;
    let k = a / pp - b / pp;
    assert(d == pp * k) by (nonlinear_arith)
        requires
            a % pp == b % pp,
            pp > 0,
            d == a - b,
            k == a / pp - b / pp,
    ;
    let m = a / qq - b / qq;
    assert(d == qq * m) by (nonlinear_arith)
        requires
            a % qq == b % qq,
            qq > 0,
            d == a - b,
            m == a / qq - b / qq,
    ;
    let t = (pp * beta) / qq;
    assert(pp * beta == qq * t + 1) by (nonlinear_arith)
        requires
            (pp * beta) % qq == 1,
            qq > 0,
            t == (pp * beta) / qq,
    ;
    assert(k == qq * (m * beta - t * k)) by (nonlinear_arith)
        requires
            pp * k == qq * m,
            pp * beta == qq * t + 1,
    ;
    let j = m * beta - t * k;
    assert(d == (pp * qq) * j) by (nonlinear_arith)
        requires
            d == pp * k,
            k == qq * j,
    ;
    assert(j == 0) by (nonlinear_arith)
        requires
            d == (pp * qq) * j,
            -(pp * qq) < d < pp * qq,
            pp * qq > 0,
    ;
}

/// The accelerated and the direct exponentiation agree, and both give
/// `x^e mod (p q)^2`, for `p, q > 1`, `p^2` invertible modulo `q^2` (by `beta`),
/// and an exponent below both `p^2 - p` and `q^2 - q`.
pub proof fn lemma_crt_matches_naive(e: nat, p: int, q: int, beta: int, x: int)
    requires
        p > 1,
        q > 1,
        ((p * p) * beta) % (q * q) == 1,
        e < p * p - p,
        e < q * q - q,
    ensures
        crt_exp(e, p, q, beta, x) == naive_exp(e, p, q, x),
{
    let pp = p * p;
    let qq = q * q;
    assert(pp > p && qq > q && p * q > 0) by (nonlinear_arith)
        requires
            p > 1,
            q > 1,
            pp == p * p,
            qq == q * q,
    ;
    assert((p * q) * (p * q) == pp * qq) by (nonlinear_arith)
        requires
            pp == p * p,
            qq == q * q,
    ;
    lemma_small_mod(e, (pp - p) as nat);
    lemma_small_mod(e, (qq - q) as nat);
    let y = pow(x, e);
    let r1 = y % pp;
    let r2 = y % qq;
    let c = crt_combine(pp, qq, beta, r1, r2);
    assert(crt_exp(e, p, q, beta, x) == c);
    lemma_crt_combine(pp, qq, beta, r1, r2);
    let z = y % (pp * qq);
    assert(pp * qq > 0) by (nonlinear_arith)
        requires
            pp > 0,
            qq > 0,
    ;
    lemma_mod_mod(y, pp, qq);
    lemma_mod_mod(y, qq, pp);
    assert(qq * pp == pp * qq) by (nonlinear_arith);
    lemma_small_mod(r1 as nat, pp as nat);
    lemma_small_mod(r2 as nat, qq as nat);
    lemma_crt_unique(pp, qq, beta, c, z);
}

} // verus!
