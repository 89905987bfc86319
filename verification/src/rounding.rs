//! Exact integer model of the `f64` arithmetic that turns a 53-bit random
//! numerator into an index: `((k as f64 / 2^53) * (n as f64)) as usize`.
//!
//! An `f64` holds an integer exactly when it needs at most 53 significant
//! bits; otherwise IEEE-754 rounds it to the nearest such value, ties to the
//! even significand. Dividing by 2^53 only moves the exponent, so the whole
//! expression is determined by two roundings of integers, both modelled here.

use vstd::prelude::*;
use vstd::arithmetic::power2::*;
use vstd::arithmetic::div_mod::*;
use vstd::arithmetic::mul::*;

verus! {

/// 2^53: the first integer whose successor an `f64` cannot hold.
pub open spec fn significand_limit() -> nat {
    0x20_0000_0000_0000
}

/// The number of low bits an `f64` has no room for when it holds `v`:
/// zero below 2^53, and one more for each halving that leaves `v` at or
/// above 2^53.
pub open spec fn dropped_bits(v: nat) -> nat
    decreases v,
{
    if v < significand_limit() {
        0
    } else {
        1 + dropped_bits(v / 2)
    }
}

/// The integer `v` rounded to the nearest value with 53 significant bits,
/// ties to the even significand: the value of `v as f64`.
pub open spec fn round_to_f64(v: nat) -> nat {
    let p = pow2(dropped_bits(v));
    let q = v / p;
    let r = v % p;
    if r * 2 > p || (r * 2 == p && q % 2 == 1) {
        (q + 1) * p
    } else {
        q * p
    }
}

/// The value of `((k as f64 / 2^53) * (n as f64)) as usize` for `k < 2^53`:
/// the product of `k` and the rounded `n`, rounded once more and floored
/// after the division by 2^53.
pub open spec fn scaled_index(k: nat, n: nat) -> nat {
    round_to_f64(k * round_to_f64(n)) / significand_limit()
}

/// `v` lies below 2^(53 + d) and, when bits are dropped, at or above
/// 2^(52 + d), where d is [`dropped_bits`] of `v`.
pub proof fn lemma_dropped_bits_bounds(v: nat)
    ensures
        v < pow2(53 + dropped_bits(v)),
        dropped_bits(v) > 0 ==> pow2((52 + dropped_bits(v)) as nat) <= v,
    decreases v,
{
    lemma2_to64();
    lemma2_to64_rest();
    let dv = dropped_bits(v);
    if v >= significand_limit() {
        let h = v / 2;
        lemma_dropped_bits_bounds(h);
        let d = dropped_bits(h);
        assert(dv == d + 1);
        let hi: nat = 53 + d;
        lemma_pow2_unfold(hi + 1);
        assert(h < pow2(hi));
        assert(v < pow2(hi + 1));
        assert(hi + 1 == 53 + dv);
        if d > 0 {
            let lo: nat = (52 + d) as nat;
            lemma_pow2_unfold(lo + 1);
            assert(pow2(lo) <= h);
            assert(lo + 1 == 52 + dv);
        } else {
            assert(52 + dv == 53);
        }
        assert(v < pow2(53 + dropped_bits(v)));
    } else {
        assert(dv == 0);
        assert(v < pow2(53 + dropped_bits(v)));
    }
}

/// More significant bits are never dropped from a smaller integer.
pub proof fn lemma_dropped_bits_monotone(v: nat, w: nat)
    requires
        v <= w,
    ensures
        dropped_bits(v) <= dropped_bits(w),
    decreases w,
{
    if v >= significand_limit() {
        lemma_dropped_bits_monotone(v / 2, w / 2);
    }
}

/// `dropped_bits` is `k` exactly on [2^(52 + k), 2^(53 + k)) for `k >= 1`.
pub proof fn lemma_dropped_bits_exact(v: nat, k: nat)
    requires
        k >= 1,
        pow2((52 + k) as nat) <= v,
        v < pow2(53 + k),
    ensures
        dropped_bits(v) == k,
{
    lemma_dropped_bits_bounds(v);
    let d = dropped_bits(v);
    lemma2_to64();
    lemma2_to64_rest();
    if k > 1 {
        lemma_pow2_strictly_increases(53, (52 + k) as nat);
    }
    if d == 0 {
        lemma_pow2_strictly_increases(53, (52 + k) as nat);
        assert(false);
    }
    if d < k {
        if 53 + d < 52 + k {
            lemma_pow2_strictly_increases(53 + d, (52 + k) as nat);
        }
        assert(false);
    }
    if d > k {
        if 53 + k < 52 + d {
            lemma_pow2_strictly_increases(53 + k, (52 + d) as nat);
        }
        assert(false);
    }
}

/// The pieces of [`round_to_f64`]: with p = 2^d the dropped place value,
/// `v = q * p + r`, the significand `q` has at most 53 bits (and exactly 53
/// when bits are dropped), and rounding moves `v` by at most p / 2 to one of
/// the two neighbouring multiples of p.
pub proof fn lemma_round_parts(v: nat)
    ensures
        ({
            let p = pow2(dropped_bits(v));
            let q = v / p;
            let r = v % p;
            &&& p > 0
            &&& v == q * p + r
            &&& r < p
            &&& q < significand_limit()
            &&& dropped_bits(v) > 0 ==> q >= significand_limit() / 2
            &&& (q + 1) * p == q * p + p
            &&& round_to_f64(v) == q * p || round_to_f64(v) == (q + 1) * p
            &&& q * p <= round_to_f64(v)
            &&& round_to_f64(v) <= significand_limit() * p
            &&& 2 * round_to_f64(v) <= 2 * v + p
            &&& pow2(53 + dropped_bits(v)) == significand_limit() * p
        }),
{
    let d = dropped_bits(v);
    let p = pow2(d);
    let q = v / p;
    let r = v % p;
    lemma2_to64();
    lemma2_to64_rest();
    lemma_pow2_pos(d);
    lemma_fundamental_div_mod(v as int, p as int);
    lemma_mod_bound(v as int, p as int);
    lemma_dropped_bits_bounds(v);
    lemma_pow2_adds(53, d);
    assert(q * p == p * q) by (nonlinear_arith);
    assert(q < significand_limit()) by (nonlinear_arith)
        requires
            v == p * q + r,
            r >= 0,
            v < significand_limit() * p,
            p > 0,
    ;
    if d > 0 {
        lemma_pow2_adds(52, d);
        assert(q >= significand_limit() / 2) by (nonlinear_arith)
            requires
                v == p * q + r,
                r < p,
                (significand_limit() / 2) * p <= v,
                p > 0,
        ;
    }
    assert((q + 1) * p == q * p + p) by (nonlinear_arith);
    assert((q + 1) * p <= significand_limit() * p) by (nonlinear_arith)
        requires
            q + 1 <= significand_limit(),
            p > 0,
    ;
}

/// `w` is an integer an `f64` holds exactly: `c * 2^e` with `c < 2^53`.
pub open spec fn fits_f64(w: nat) -> bool {
    exists|c: nat, e: nat| c < significand_limit() && w == #[trigger] (c * pow2(e))
}

/// The distance between two integers.
pub open spec fn distance(a: nat, b: nat) -> nat {
    if a >= b {
        (a - b) as nat
    } else {
        (b - a) as nat
    }
}

/// An `f64`-exact integer at or above 2^(52 + d) is a multiple of 2^d.
proof fn lemma_large_fit_is_multiple(w: nat, d: nat)
    requires
        fits_f64(w),
        w >= pow2(52 + d),
    ensures
        w % pow2(d) == 0,
{
    let (c, e) = choose|c: nat, e: nat| c < significand_limit() && w == #[trigger] (c * pow2(e));
    lemma2_to64();
    lemma2_to64_rest();
    lemma_pow2_pos(d);
    lemma_pow2_pos(e);
    if e >= d {
        lemma_pow2_adds((e - d) as nat, d);
        assert(w == (c * pow2((e - d) as nat)) * pow2(d)) by (nonlinear_arith)
            requires
                w == c * pow2(e),
                pow2(e) == pow2((e - d) as nat) * pow2(d),
        ;
        lemma_mod_multiples_basic((c * pow2((e - d) as nat)) as int, pow2(d) as int);
    } else {
        lemma_pow2_adds(53, e);
        if 53 + e < 52 + d {
            lemma_pow2_strictly_increases(53 + e, (52 + d) as nat);
        }
        assert(w < significand_limit() * pow2(e)) by (nonlinear_arith)
            requires
                w == c * pow2(e),
                c < significand_limit(),
                pow2(e) > 0,
        ;
        assert(false);
    }
}

/// The rounded value is itself held exactly by an `f64`.
pub proof fn lemma_round_fits_f64(v: nat)
    ensures
        fits_f64(round_to_f64(v)),
{
    lemma_round_parts(v);
    let d = dropped_bits(v);
    let p = pow2(d);
    let q = v / p;
    let r = round_to_f64(v);
    lemma2_to64();
    if r == q * p {
        assert(q < significand_limit() && r == q * pow2(d));
    } else if q + 1 < significand_limit() {
        assert((q + 1) < significand_limit() && r == (q + 1) * pow2(d));
    } else {
        lemma_pow2_unfold(d + 1);
        let h = significand_limit() / 2;
        assert(r == h * pow2(d + 1)) by (nonlinear_arith)
            requires
                r == (q + 1) * p,
                q + 1 == significand_limit(),
                significand_limit() == 2 * h,
                pow2(d + 1) == 2 * p,
        ;
        assert(h < significand_limit() && r == h * pow2(d + 1));
    }
}

/// Rounding picks the nearer of the two neighbouring multiples of the
/// dropped place value.
proof fn lemma_round_is_nearer_neighbour(v: nat)
    ensures
        ({
            let p = pow2(dropped_bits(v));
            let q = v / p;
            &&& distance(round_to_f64(v), v) <= v - q * p
            &&& distance(round_to_f64(v), v) <= (q + 1) * p - v
            &&& 2 * distance(round_to_f64(v), v) <= p
        }),
{
    lemma_round_parts(v);
}

/// Rounding to an `f64` gives a nearest integer an `f64` holds exactly: no
/// `f64`-exact integer lies closer to `v`.
pub proof fn lemma_round_is_nearest(v: nat, w: nat)
    requires
        fits_f64(w),
    ensures
        distance(round_to_f64(v), v) <= distance(w, v),
{
    lemma_round_parts(v);
    lemma_round_is_nearer_neighbour(v);
    let d = dropped_bits(v);
    let p = pow2(d);
    let q = v / p;
    if w < q * p {
    } else {
        lemma2_to64();
        lemma2_to64_rest();
        if d > 0 {
            lemma_dropped_bits_bounds(v);
            lemma_pow2_adds(52, d);
            assert(q * p >= (significand_limit() / 2) * p) by (nonlinear_arith)
                requires
                    q >= significand_limit() / 2,
                    p > 0,
            ;
            lemma_large_fit_is_multiple(w, d);
        } else {
            assert(p == 1);
            lemma_mod_bound(w as int, 1);
        }
        lemma_fundamental_div_mod(w as int, p as int);
        let m = w / p;
        assert(w == m * p) by (nonlinear_arith)
            requires
                w == p * m + w % p,
                w % p == 0,
        ;
        if m < q {
            assert(w < q * p) by (nonlinear_arith)
                requires
                    w == m * p,
                    m < q,
                    p > 0,
            ;
        } else if m >= q + 2 {
            assert(w >= (q + 1) * p + p) by (nonlinear_arith)
                requires
                    w == m * p,
                    m >= q + 2,
                    p > 0,
            ;
        } else if m == q {
        } else {
            assert(m == q + 1);
        }
    }
}

/// An integer an `f64` holds exactly is left unchanged by rounding.
pub proof fn lemma_round_keeps_exact_values(v: nat)
    requires
        fits_f64(v),
    ensures
        round_to_f64(v) == v,
{
    lemma_round_is_nearest(v, v);
}

/// Ties go to even: when another `f64`-exact integer lies exactly as far
/// from `v` as the result, the result is a multiple of twice the gap
/// between the two (its significand at that spacing is even).
pub proof fn lemma_round_ties_to_even(v: nat, w: nat)
    requires
        fits_f64(w),
        w != round_to_f64(v),
        distance(w, v) == distance(round_to_f64(v), v),
    ensures
        round_to_f64(v) % (2 * distance(round_to_f64(v), w)) == 0,
{
    lemma_round_parts(v);
    lemma_round_is_nearer_neighbour(v);
    let d = dropped_bits(v);
    let p = pow2(d);
    let q = v / p;
    let rem = v % p;
    let r = round_to_f64(v);
    lemma2_to64();
    lemma2_to64_rest();
    if w < q * p {
        // w is strictly farther than q * p, which is no nearer than r.
        assert(false);
    }
    if d > 0 {
        lemma_dropped_bits_bounds(v);
        lemma_pow2_adds(52, d);
        assert(q * p >= (significand_limit() / 2) * p) by (nonlinear_arith)
            requires
                q >= significand_limit() / 2,
                p > 0,
        ;
        lemma_large_fit_is_multiple(w, d);
    } else {
        assert(p == 1);
        assert(r == v);
        assert(false);
    }
    lemma_fundamental_div_mod(w as int, p as int);
    let m = w / p;
    assert(w == m * p) by (nonlinear_arith)
        requires
            w == p * m + w % p,
            w % p == 0,
    ;
    if m >= q + 2 {
        assert(w >= (q + 1) * p + p) by (nonlinear_arith)
            requires
                w == m * p,
                m >= q + 2,
                p > 0,
        ;
        assert(false);
    }
    if m < q {
        assert(w < q * p) by (nonlinear_arith)
            requires
                w == m * p,
                m < q,
                p > 0,
        ;
        assert(false);
    }
    // w and r are the two neighbours q * p and (q + 1) * p, at equal distance.
    assert(distance(r, w) == p);
    assert(rem * 2 == p);
    lemma_fundamental_div_mod_converse(q as int, 2, (q / 2) as int, (q % 2) as int);
    if r == q * p {
        assert(q % 2 == 0);
        assert(r == (q / 2) * (2 * p)) by (nonlinear_arith)
            requires
                r == q * p,
                q == 2 * (q / 2),
        ;
        lemma_mod_multiples_basic((q / 2) as int, (2 * p) as int);
    } else {
        assert(q % 2 == 1);
        assert(r == (q / 2 + 1) * (2 * p)) by (nonlinear_arith)
            requires
                r == (q + 1) * p,
                q == 2 * (q / 2) + 1,
        ;
        lemma_mod_multiples_basic((q / 2 + 1) as int, (2 * p) as int);
    }
}

/// Rounding to an `f64` never reverses the order of two integers.
pub proof fn lemma_round_monotone(v: nat, w: nat)
    requires
        v <= w,
    ensures
        round_to_f64(v) <= round_to_f64(w),
{
    lemma_round_parts(v);
    lemma_round_parts(w);
    lemma_dropped_bits_monotone(v, w);
    let dv = dropped_bits(v);
    let dw = dropped_bits(w);
    let pv = pow2(dv);
    let pw = pow2(dw);
    if dv == dw {
        lemma_div_is_ordered(v as int, w as int, pv as int);
        let qv = v / pv;
        let qw = w / pw;
        if qv < qw {
            assert((qv + 1) * pv <= qw * pv) by (nonlinear_arith)
                requires
                    qv + 1 <= qw,
                    pv > 0,
            ;
            assert(round_to_f64(v) <= qw * pw);
        } else {
            let rv = v % pv;
            let rw = w % pw;
            assert(qv == qw);
            assert(rv <= rw);
            if round_to_f64(v) == (qv + 1) * pv {
                assert(rv * 2 > pv || (rv * 2 == pv && qv % 2 == 1));
                assert(rw * 2 > pw || (rw * 2 == pw && qw % 2 == 1));
                assert(round_to_f64(w) == (qw + 1) * pw);
            } else {
                assert(round_to_f64(v) == qv * pv);
            }
        }
        assert(round_to_f64(v) <= round_to_f64(w));
    } else {
        lemma2_to64();
        lemma2_to64_rest();
        lemma_pow2_adds(52, dw);
        if 53 + dv < 52 + dw {
            lemma_pow2_strictly_increases(53 + dv, (52 + dw) as nat);
        }
        let qw = w / pw;
        assert(qw * pw >= (significand_limit() / 2) * pw) by (nonlinear_arith)
            requires
                qw >= significand_limit() / 2,
                pw > 0,
        ;
        assert(round_to_f64(v) <= pow2(53 + dv));
        assert(pow2(53 + dv) <= pow2((52 + dw) as nat));
        assert(pow2((52 + dw) as nat) == (significand_limit() / 2) * pw);
    }
}

/// An integer that rounds up as an `f64` had bits dropped, a significand
/// of exactly 53 bits and a non-zero remainder, and rounds to the next
/// multiple of the dropped place value.
proof fn lemma_round_up_shape(n: nat)
    requires
        round_to_f64(n) > n,
    ensures
        ({
            let p = pow2(dropped_bits(n));
            let q = n / p;
            &&& dropped_bits(n) > 0
            &&& p >= 2
            &&& q >= significand_limit() / 2
            &&& n % p >= 1
            &&& round_to_f64(n) == (q + 1) * p
        }),
{
    lemma_round_parts(n);
    let d = dropped_bits(n);
    let p = pow2(d);
    let q = n / p;
    if d == 0 {
        lemma2_to64();
        assert(p == 1);
        assert(n % p == 0);
        assert(round_to_f64(n) == q * p);
        assert(false);
    }
    lemma2_to64();
    lemma_pow2_strictly_increases(0, d);
    assert(round_to_f64(n) != q * p);
}

/// The core bound: for a 53-bit numerator `k` and `n >= 1`, the rounded
/// product of `k` with the rounded `n` stays below `n * 2^53`.
pub proof fn lemma_scaled_product_below(k: nat, n: nat)
    requires
        k < significand_limit(),
        n >= 1,
    ensures
        round_to_f64(k * round_to_f64(n)) < n * significand_limit(),
{
    let big_n = round_to_f64(n);
    let m = (significand_limit() - 1) as nat;
    let x = m * big_n;
    lemma2_to64();
    lemma2_to64_rest();
    lemma_round_parts(n);
    let dn = dropped_bits(n);
    let pn = pow2(dn);
    let qn = n / pn;
    assert(big_n >= 1) by {
        if dn == 0 {
            assert(pn == 1);
            assert(big_n >= qn * pn);
        } else {
            assert(qn * pn >= qn) by (nonlinear_arith)
                requires
                    pn >= 1,
            ;
        }
    }
    assert(k * big_n <= x) by (nonlinear_arith)
        requires
            k <= m,
            x == m * big_n,
    ;
    lemma_round_monotone(k * big_n, x);
    lemma_round_parts(x);
    let dx = dropped_bits(x);
    let px = pow2(dx);
    if big_n <= n {
        assert(px < 2 * big_n) by {
            if dx > 0 {
                lemma_dropped_bits_bounds(x);
                lemma_pow2_adds(52, dx);
                let h = significand_limit() / 2;
                assert(x < significand_limit() * big_n) by (nonlinear_arith)
                    requires
                        x == m * big_n,
                        m < significand_limit(),
                        big_n >= 1,
                ;
                if px >= 2 * big_n {
                    lemma_mul_inequality((2 * big_n) as int, px as int, h as int);
                    assert(significand_limit() * big_n == (2 * big_n) * h) by (nonlinear_arith)
                        requires
                            significand_limit() == 2 * h,
                    ;
                    assert(false);
                }
            } else {
                assert(px == 1);
            }
        }
        assert(x + big_n == significand_limit() * big_n) by (nonlinear_arith)
            requires
                x == m * big_n,
                m + 1 == significand_limit(),
        ;
        assert(significand_limit() * big_n <= n * significand_limit()) by (nonlinear_arith)
            requires
                big_n <= n,
        ;
    } else {
        lemma_round_up_shape(n);
        let big_p = significand_limit() * pn;
        lemma_pow2_adds(53, dn);
        assert(pow2(53 + dn) == big_p);
        assert(big_n == (qn + 1) * pn);
        assert(x == qn * big_p + (big_p - big_n)) by (nonlinear_arith)
            requires
                x == m * big_n,
                big_n == (qn + 1) * pn,
                big_p == significand_limit() * pn,
                m + 1 == significand_limit(),
        ;
        assert(big_n <= big_p) by (nonlinear_arith)
            requires
                big_n == (qn + 1) * pn,
                big_p == significand_limit() * pn,
                qn < significand_limit(),
        ;
        // x has exactly 53 + dn dropped bits.
        lemma_pow2_adds(52, 53 + dn);
        lemma_pow2_adds(53, 53 + dn);
        let lo = (significand_limit() / 2) * big_p;
        let hi = significand_limit() * big_p;
        assert(pow2((52 + (53 + dn)) as nat) == lo);
        assert(pow2(53 + (53 + dn)) == hi);
        assert(lo <= x && x < hi) by (nonlinear_arith)
            requires
                x == qn * big_p + (big_p - big_n),
                big_n <= big_p,
                qn >= significand_limit() / 2,
                qn < significand_limit(),
                big_p > 0,
                big_n >= 1,
                lo == (significand_limit() / 2) * big_p,
                hi == significand_limit() * big_p,
        ;
        lemma_dropped_bits_exact(x, 53 + dn);
        assert(px == big_p);
        lemma_fundamental_div_mod_converse(x as int, big_p as int, qn as int, (big_p - big_n) as int);
        assert(2 * (big_p - big_n) < big_p) by (nonlinear_arith)
            requires
                big_n == (qn + 1) * pn,
                big_p == significand_limit() * pn,
                qn >= significand_limit() / 2,
                pn > 0,
                significand_limit() == 0x20_0000_0000_0000,
        ;
        assert(round_to_f64(x) == qn * big_p);
        assert(qn * big_p < n * significand_limit()) by (nonlinear_arith)
            requires
                n == qn * pn + n % pn,
                n % pn >= 1,
                big_p == significand_limit() * pn,
        ;
    }
}

/// The index [`scaled_index`] of a 53-bit numerator lies in [0, n) for
/// every `n >= 1`, and is 0 for `n == 0`.
pub proof fn lemma_scaled_index_in_range(k: nat, n: nat)
    requires
        k < significand_limit(),
    ensures
        n >= 1 ==> scaled_index(k, n) < n,
        n == 0 ==> scaled_index(k, n) == 0,
{
    lemma2_to64();
    if n == 0 {
        lemma_round_parts(0);
        assert(round_to_f64(0) == 0);
        assert(k * 0 == 0);
    } else {
        lemma_scaled_product_below(k, n);
        let a = round_to_f64(k * round_to_f64(n));
        let l = significand_limit();
        lemma_fundamental_div_mod(a as int, l as int);
        if a / l >= n {
            lemma_mul_inequality(n as int, (a / l) as int, l as int);
            assert(n * l == l * n) by (nonlinear_arith);
            assert(false);
        }
    }
}

/// Computes [`round_to_f64`] of `v` exactly.
pub fn round_to_f64_exact(v: u128) -> (r: u128)
    requires
        v <= u128::MAX / 2,
    ensures
        r == round_to_f64(v as nat),
        r <= 2 * v + 1,
{
    let mut t: u128 = v;
    let mut p: u128 = 1;
    let ghost mut s: nat = 0;
    proof {
        lemma2_to64();
    }
    while t >= 0x20_0000_0000_0000
        invariant
            v <= u128::MAX / 2,
            p >= 1,
            p as nat == pow2(s),
            t == v / p,
            p <= v + 1,
            dropped_bits(v as nat) == s + dropped_bits(t as nat),
        decreases t,
    {
        proof {
            lemma_fundamental_div_mod(v as int, p as int);
            assert(p * 2 <= v) by (nonlinear_arith)
                requires
                    t >= 2,
                    v == p * t + v % p,
                    v % p >= 0,
                    p >= 1,
            ;
            lemma_div_denominator(v as int, p as int, 2);
            lemma_pow2_unfold(s + 1);
        }
        t = t / 2;
        p = p * 2;
        proof {
            s = s + 1;
        }
    }
    proof {
        lemma_fundamental_div_mod(v as int, p as int);
        lemma_mod_bound(v as int, p as int);
    }
    let rem = v - p * t;
    assert(rem == v % p);
    if rem * 2 > p || (rem * 2 == p && t % 2 == 1) {
        assert((t + 1) * p == p * t + p) by (nonlinear_arith);
        (t + 1) * p
    } else {
        assert(t * p == p * t) by (nonlinear_arith);
        t * p
    }
}

} // verus!
