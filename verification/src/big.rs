//! Arbitrary-precision helpers: factorial, high-precision square roots,
//! continued-fraction convergents and the integer-partition numbers.

use vstd::prelude::*;
use num::bigint::{BigInt, BigUint};
use crate::bignum::{big_nat, big_from, big_add, big_sub, big_mul, big_div, big_lt, big_clone};
use crate::bignum::{big_val, int_from, int_add, int_mul, int_neg, int_clone};

verus! {

/// The terms of a continued fraction, as mathematical naturals.
pub open spec fn to_nats(s: Seq<usize>) -> Seq<nat> {
    s.map_values(|x: usize| x as nat)
}

/// Numerator of the continued fraction `ys[0] + 1/(ys[1] + 1/(...))`,
/// together with its denominator: `cf_num` and `cf_den`.
pub open spec fn cf_num(ys: Seq<nat>) -> nat
    decreases ys.len(),
{
    if ys.len() <= 1 {
        if ys.len() == 1 {
            ys[0]
        } else {
            0
        }
    } else {
        ys[0] * cf_num(ys.drop_first()) + cf_den(ys.drop_first())
    }
}

/// Denominator of the continued fraction described at `cf_num`.
pub open spec fn cf_den(ys: Seq<nat>) -> nat
    decreases ys.len(),
{
    if ys.len() <= 1 {
        1
    } else {
        cf_num(ys.drop_first())
    }
}

/// `n!` as a mathematical natural number.
pub open spec fn fact_spec(n: nat) -> nat
    decreases n,
{
    if n == 0 {
        1
    } else {
        n * fact_spec((n - 1) as nat)
    }
}

/// Returns `n!` as a `BigUint`.
pub fn factorial(n: usize) -> (r: BigUint)
    ensures
        big_nat(r) == fact_spec(n as nat),
{
    let mut fact: BigUint = big_from(1);
    let mut i: usize = 1;
    assert(fact_spec(0) == 1 && fact_spec(1) == 1);
    while i < n
        invariant
            1 <= i,
            i <= n || i == 1,
            big_nat(fact) == fact_spec(i as nat),
        decreases n - i,
    {
        let ghost prev = big_nat(fact);
        i = i + 1;
        let f2 = big_from(i);
        assert(big_nat(f2) == i as nat);
        fact = big_mul(&fact, &f2);
        assert(big_nat(fact) == prev * (i as nat));
        assert(prev == fact_spec((i - 1) as nat));
        assert(fact_spec(i as nat) == (i as nat) * fact_spec((i - 1) as nat));
    }
    fact
}

/// Returns `(numerator, denominator)` of the continued fraction
/// `a0 + 1/(xs[0] + 1/(xs[1] + ...))`, evaluated exactly.
pub fn continued_fraction(a0: usize, xs: Vec<usize>) -> (r: (BigUint, BigUint))
    ensures
        big_nat(r.0) == cf_num(to_nats(xs@.insert(0, a0))),
        big_nat(r.1) == cf_den(to_nats(xs@.insert(0, a0))),
{
    let mut ys = xs;
    ys.insert(0, a0);
    let ghost full = ys@;
    let mut j: usize = ys.len() - 1;
    let mut n: BigUint = big_from(ys[j]);
    let mut d: BigUint = big_from(1);
    assert(to_nats(full.subrange(j as int, full.len() as int)) =~= seq![full[j as int] as nat]);
    while j > 0
        invariant
            full == ys@,
            j < ys@.len(),
            big_nat(n) == cf_num(to_nats(full.subrange(j as int, full.len() as int))),
            big_nat(d) == cf_den(to_nats(full.subrange(j as int, full.len() as int))),
        decreases j,
    {
        j = j - 1;
        let a = big_from(ys[j]);
        let prod = big_mul(&a, &n);
        let new_n = big_add(&prod, &d);
        proof {
            let suf = to_nats(full.subrange(j + 1, full.len() as int));
            let cur = to_nats(full.subrange(j as int, full.len() as int));
            assert(cur.drop_first() =~= suf);
            assert(cur[0] == full[j as int] as nat);
            assert(cf_num(cur) == cur[0] * cf_num(suf) + cf_den(suf));
            assert(cf_den(cur) == cf_num(suf));
        }
        d = n;
        n = new_n;
    }
    assert(full.subrange(0, full.len() as int) =~= full);
    (n, d)
}

/// `b` to the power `e`, over the naturals.
pub open spec fn pow_nat(b: nat, e: nat) -> nat
    decreases e,
{
    if e == 0 {
        1
    } else {
        b * pow_nat(b, (e - 1) as nat)
    }
}

proof fn lemma_pow_nat_pos(b: nat, e: nat)
    requires
        b >= 1,
    ensures
        pow_nat(b, e) >= 1,
    decreases e,
{
    if e > 0 {
        lemma_pow_nat_pos(b, (e - 1) as nat);
        assert(b * pow_nat(b, (e - 1) as nat) >= 1) by (nonlinear_arith)
            requires
                b >= 1,
                pow_nat(b, (e - 1) as nat) >= 1,
        ;
    }
}

proof fn lemma_pow_nat_square(e: nat)
    ensures
        pow_nat(10, e) * pow_nat(10, e) == pow_nat(100, e),
    decreases e,
{
    if e > 0 {
        lemma_pow_nat_square((e - 1) as nat);
        let p = pow_nat(10, (e - 1) as nat);
        assert(pow_nat(10, e) == 10 * p);
        assert(pow_nat(100, e) == 100 * pow_nat(100, (e - 1) as nat));
        assert((10 * p) * (10 * p) == 100 * (p * p)) by (nonlinear_arith);
    } else {
        assert(pow_nat(10, e) == 1);
        assert(pow_nat(100, e) == 1);
    }
}

/// `r` is the integer square root of `n * 100^j`: the digit string of `r`
/// is a prefix of the decimal expansion of the square root of `n`.
pub open spec fn sqrt_prefix(n: nat, r: nat, j: nat) -> bool {
    r * r <= n * pow_nat(100, j)
        && n * pow_nat(100, j) < (r + 1) * (r + 1)
}

/// Returns the first `digits` decimal digits of the square root of `n`,
/// with no decimal point: `precision_sqrt(2, 40)` is `14142135...` to forty
/// digits.  When `n` already has at least `2 * digits` digits the
/// digit-by-digit loop stops before refining, and the result degenerates to
/// a power of ten.
pub fn precision_sqrt(n: usize, digits: usize) -> (r: BigUint)
    requires
        n >= 1,
    ensures
        n < pow_nat(100, digits as nat) ==> {
            &&& (exists|j: nat| #[trigger] sqrt_prefix(n as nat, big_nat(r), j))
            &&& digits >= 1
            &&& pow_nat(10, (digits - 1) as nat) <= big_nat(r)
            &&& big_nat(r) < pow_nat(10, digits as nat)
        },
        n >= pow_nat(100, digits as nat) ==> big_nat(r) == (if digits == 0 {
            0int
        } else {
            pow_nat(10, (digits - 1) as nat) as int
        }),
{
    let ten = big_from(10);
    let hundred = big_from(100);
    let five = big_from(5);
    let ghost p10d = pow_nat(10, digits as nat);
    let mut limit = big_from(10);
    proof {
        assert(pow_nat(10, 0nat) == 1);
        assert(pow_nat(10, 1nat) == 10);
    }
    let mut e: usize = 0;
    while e < digits
        invariant
            e <= digits,
            big_nat(ten) == 10,
            big_nat(limit) == pow_nat(10, (e + 1) as nat),
        decreases digits - e,
    {
        limit = big_mul(&limit, &ten);
        e = e + 1;
        assert(pow_nat(10, e as nat) == 10 * pow_nat(
            10,
            (e - 1) as nat,
        ));
    }
    proof {
        assert(pow_nat(10, (digits + 1) as nat) == 10 * p10d);
        lemma_pow_nat_pos(10, digits as nat);
        lemma_pow_nat_square(digits as nat);
    }
    let nbig = big_from(n);
    let mut a = big_mul(&five, &nbig);
    let mut b = big_clone(&five);
    let ghost mut c: nat = 0;
    // Digit-by-digit square root by repeated subtraction:
    // `b` carries the partial root `c` as `b = 10 c + 5`, and
    // `a = 5 (n * 100^k - c^2)` for `k` shift steps.
    while big_lt(&b, &limit) && !big_lt(&a, &b)
        invariant
            big_nat(ten) == 10,
            big_nat(five) == 5,
            big_nat(hundred) == 100,
            big_nat(limit) == 10 * p10d,
            p10d == pow_nat(10, digits as nat),
            p10d >= 1,
            p10d * p10d == pow_nat(100, digits as nat),
            n >= 1,
            big_nat(b) == 10 * c + 5,
            big_nat(a) == 5 * (n - c * c),
            c * c <= n,
            c == 0 ==> big_nat(a) == 5 * n,
            big_nat(b) < 10 * p10d + 10,
        decreases big_nat(a),
    {
        proof {
            assert(5 * (n - (c + 1) * (c + 1)) == 5 * (n - c * c) - (10 * c + 5))
                by (nonlinear_arith);
        }
        let a2 = big_sub(&a, &b);
        a = a2;
        let b2 = big_add(&b, &ten);
        b = b2;
        proof {
            c = c + 1;
        }
    }
    if !big_lt(&b, &limit) {
        // The subtraction loop ran past the digit budget: `n` has at least
        // `2 * digits` digits, and the loop stopped at exactly `c = 10^digits`.
        proof {
            assert(10 * c + 5 >= 10 * p10d && 10 * c + 5 < 10 * p10d + 10);
            assert(c == p10d);
            assert(n >= p10d * p10d) by (nonlinear_arith)
                requires
                    c * c <= n,
                    c == p10d,
            ;
        }
        let r = big_div(&b, &hundred);
        proof {
            if digits == 0 {
                assert(p10d == 1);
                assert(big_nat(b) == 15);
                assert(big_nat(r) == 0);
            } else {
                let q = pow_nat(10, (digits - 1) as nat);
                assert(p10d == 10 * q);
                assert(big_nat(b) == 100 * q + 5);
                vstd::arithmetic::div_mod::lemma_fundamental_div_mod_converse(
                    (100 * q + 5) as int,
                    100,
                    q as int,
                    5,
                );
            }
        }
        return r;
    }
    // Now `a < b`, so `c` is the integer square root of `n`, and `n` has
    // fewer than `2 * digits` digits.
    proof {
        assert(c >= 1);
        assert(n < (c + 1) * (c + 1)) by (nonlinear_arith)
            requires
                5 * (n - c * c) < 10 * c + 5,
                c * c <= n,
        ;
        assert(c < p10d);
        assert(n < p10d * p10d) by (nonlinear_arith)
            requires
                n < (c + 1) * (c + 1),
                c + 1 <= p10d,
        ;
    }
    let ghost mut k: nat = 0;
    proof {
        if digits == 0 {
            assert(p10d == 1);
            assert(false);
        }
        assert(pow_nat(100, 0nat) == 1);
        assert((10 * (c / 10) + 10) >= c + 1) by {
            vstd::arithmetic::div_mod::lemma_fundamental_div_mod(c as int, 10);
        }
        assert(n * 1 < (10 * (c / 10) + 10) * (10 * (c / 10) + 10)) by (nonlinear_arith)
            requires
                n < (c + 1) * (c + 1),
                10 * (c / 10) + 10 >= c + 1,
        ;
    }
    while big_lt(&b, &limit)
        invariant
            big_nat(ten) == 10,
            big_nat(five) == 5,
            big_nat(hundred) == 100,
            big_nat(limit) == 10 * p10d,
            p10d == pow_nat(10, digits as nat),
            p10d >= 1,
            digits >= 1,
            n >= 1,
            n < p10d * p10d,
            big_nat(b) == 10 * c + 5,
            big_nat(a) == 5 * (n * pow_nat(100, k) - c * c),
            c * c <= n * pow_nat(100, k),
            n * pow_nat(100, k) < (10 * (c / 10) + 10) * (10 * (c / 10) + 10),
            c >= 1,
            c % 10 != 0 ==> c < p10d,
            c < 10 * p10d,
            k == 0 ==> n < (c + 1) * (c + 1),
        decreases 100 * p10d + 100 - big_nat(b),
    {
        let ghost pk = pow_nat(100, k);
        proof {
            lemma_pow_nat_pos(100, k);
        }
        if !big_lt(&a, &b) {
            // Subtract step: the next digit of the root grows by one.
            proof {
                assert(5 * (n * pk - (c + 1) * (c + 1)) == 5 * (n * pk - c * c) - (10 * c + 5))
                    by (nonlinear_arith);
                assert((c + 1) * (c + 1) <= n * pk);
                assert(c % 10 != 9) by {
                    if c % 10 == 9 {
                        assert(10 * (c / 10) + 10 == c + 1) by {
                            vstd::arithmetic::div_mod::lemma_fundamental_div_mod(c as int, 10);
                        }
                        assert(false);
                    }
                }
                if k == 0 {
                    assert(n < ((c + 1) + 1) * ((c + 1) + 1)) by (nonlinear_arith)
                        requires
                            n < (c + 1) * (c + 1),
                    ;
                }
                assert((c + 1) / 10 == c / 10) by {
                    vstd::arithmetic::div_mod::lemma_fundamental_div_mod(c as int, 10);
                    vstd::arithmetic::div_mod::lemma_fundamental_div_mod_converse(
                        (c + 1) as int,
                        10,
                        (c / 10) as int,
                        (c % 10 + 1) as int,
                    );
                }
                assert(p10d % 10 == 0) by {
                    assert(p10d == 10 * pow_nat(10, (digits - 1) as nat));
                    vstd::arithmetic::div_mod::lemma_fundamental_div_mod_converse(
                        p10d as int,
                        10,
                        pow_nat(10, (digits - 1) as nat) as int,
                        0,
                    );
                }
                assert((c + 1) % 10 != 0) by {
                    vstd::arithmetic::div_mod::lemma_fundamental_div_mod(c as int, 10);
                    vstd::arithmetic::div_mod::lemma_fundamental_div_mod_converse(
                        (c + 1) as int,
                        10,
                        (c / 10) as int,
                        (c % 10 + 1) as int,
                    );
                }
                assert(c + 1 < p10d) by {
                    if c % 10 == 0 {
                        assert(c < p10d);
                    }
                    assert(c + 1 <= p10d);
                    if c + 1 == p10d {
                        assert((c + 1) % 10 == 0);
                        assert(false);
                    }
                }
            }
            let a2 = big_sub(&a, &b);
            a = a2;
            let b2 = big_add(&b, &ten);
            b = b2;
            proof {
                c = c + 1;
            }
        } else {
            // Shift step: append two more zeroes under the radicand and
            // open the next digit position of the root.
            proof {
                assert(n * pk < (c + 1) * (c + 1)) by (nonlinear_arith)
                    requires
                        5 * (n * pk - c * c) < 10 * c + 5,
                        c * c <= n * pk,
                ;
            }
            let a2 = big_mul(&a, &hundred);
            a = a2;
            let bdiv = big_div(&b, &ten);
            let bmul = big_mul(&bdiv, &hundred);
            let b2 = big_add(&bmul, &five);
            proof {
                vstd::arithmetic::div_mod::lemma_fundamental_div_mod_converse(
                    (10 * c + 5) as int,
                    10,
                    c as int,
                    5,
                );
                assert(big_nat(bdiv) == c);
            }
            b = b2;
            proof {
                let c2 = 10 * c;
                let k2 = (k + 1) as nat;
                assert(pow_nat(100, k2) == 100 * pk);
                assert(100 * (5 * (n * pk - c * c)) == 5 * (n * (100 * pk) - c2 * c2))
                    by (nonlinear_arith)
                    requires
                        c2 == 10 * c,
                ;
                assert(c2 * c2 <= n * (100 * pk)) by (nonlinear_arith)
                    requires
                        c * c <= n * pk,
                        c2 == 10 * c,
                ;
                assert(c2 / 10 == c) by {
                    vstd::arithmetic::div_mod::lemma_fundamental_div_mod_converse(
                        c2 as int,
                        10,
                        c as int,
                        0,
                    );
                }
                assert(n * (100 * pk) < (10 * c + 10) * (10 * c + 10)) by (nonlinear_arith)
                    requires
                        n * pk < (c + 1) * (c + 1),
                ;
                assert(c2 < 10 * p10d);
                c = c2;
                k = k2;
            }
        }
    }
    // The loop left `b = 10 c + 5` with `c = 10 * r` and `r * r <= n * 100^(k-1) < (r+1)^2`.
    proof {
        assert(10 * c + 5 >= 10 * p10d);
        assert(c >= p10d);
        assert(c % 10 == 0);
        assert(k >= 1) by {
            if k == 0 {
                assert(n >= p10d * p10d) by (nonlinear_arith)
                    requires
                        c * c <= n * pow_nat(100, 0nat),
                        c >= p10d,
                        pow_nat(100, 0nat) == 1,
                ;
                assert(false);
            }
        }
    }
    let r = big_div(&b, &hundred);
    proof {
        let rv = c / 10;
        vstd::arithmetic::div_mod::lemma_fundamental_div_mod(c as int, 10);
        assert(c == 10 * rv);
        vstd::arithmetic::div_mod::lemma_fundamental_div_mod_converse(
            (10 * c + 5) as int,
            100,
            rv as int,
            5,
        );
        assert(big_nat(r) == rv);
        let pk1 = pow_nat(100, (k - 1) as nat);
        assert(pow_nat(100, k) == 100 * pk1);
        assert(rv * rv <= n * pk1 && n * pk1 < (rv + 1) * (rv + 1)) by (nonlinear_arith)
            requires
                c == 10 * rv,
                c * c <= n * (100 * pk1),
                n * (100 * pk1) < (10 * (c / 10) + 10) * (10 * (c / 10) + 10),
                c / 10 == rv,
        ;
        assert(sqrt_prefix(n as nat, big_nat(r), (k - 1) as nat));
        assert(p10d == 10 * pow_nat(10, (digits - 1) as nat));
        assert(rv >= pow_nat(10, (digits - 1) as nat));
        assert(rv < p10d);
        assert(n < p10d * p10d);
    }
    r
}

/// The `j`-th generalized pentagonal number (`j >= 1`):
/// `1, 2, 5, 7, 12, 15, 22, 26, ...`.
pub open spec fn gpent(j: nat) -> nat {
    if j % 2 == 1 {
        let m = (j + 1) / 2;
        (m * (3 * m - 1) / 2) as nat
    } else {
        let m = j / 2;
        (m * (3 * m - 1) / 2 + m) as nat
    }
}

/// Sign of the `j`-th term of the pentagonal recurrence: `+ + - - + + ...`.
pub open spec fn psign(j: nat) -> int {
    if ((j - 1) / 2) % 2 == 0 {
        1
    } else {
        -1
    }
}

/// The number of integer partitions of `i`, by Euler's pentagonal-number
/// recurrence: `p(0) = 1` and
/// `p(i) = sum_j psign(j) * p(i - gpent(j))` over all `j` with `gpent(j) <= i`.
pub open spec fn partition_count(i: nat) -> int
    decreases i, i + 2nat,
{
    if i == 0 {
        1
    } else {
        pent_sum(i, 1)
    }
}

/// Partial sum of the pentagonal recurrence for `p(i)`, over terms `j` and up.
pub open spec fn pent_sum(i: nat, j: nat) -> int
    decreases i, i + 1nat - j,
{
    if j > i || gpent(j) > i || gpent(j) == 0 {
        0
    } else {
        psign(j) * partition_count((i - gpent(j)) as nat) + pent_sum(i, j + 1)
    }
}

proof fn lemma_gpent_ge(j: nat)
    requires
        j >= 1,
    ensures
        gpent(j) >= j,
        gpent(j) >= 1,
{
    if j % 2 == 1 {
        let m = (j + 1) / 2;
        assert(j == 2 * m - 1);
        assert(m >= 1);
        assert(m * (3 * m - 1) / 2 >= 2 * m - 1) by (nonlinear_arith)
            requires
                m >= 1,
        ;
    } else {
        let m = j / 2;
        assert(j == 2 * m);
        assert(m >= 1);
        assert(m * (3 * m - 1) / 2 + m >= 2 * m) by (nonlinear_arith)
            requires
                m >= 1,
        ;
    }
}

proof fn lemma_small_partitions()
    ensures
        partition_count(0) == 1,
        partition_count(1) == 1,
        partition_count(2) == 2,
{
    assert(gpent(1) == 1);
    assert(gpent(2) == 2);
    assert(gpent(3) == 5) by {
        assert(3nat % 2 == 1);
        assert((3nat + 1) / 2 == 2);
        assert(2nat * (3 * 2 - 1) / 2 == 5);
    }
    assert(pent_sum(1, 2) == 0);
    assert(pent_sum(1, 1) == psign(1) * partition_count(0) + pent_sum(1, 2));
    assert(partition_count(1) == 1);
    assert(pent_sum(2, 3) == 0);
    assert(pent_sum(2, 2) == psign(2) * partition_count(0) + pent_sum(2, 3));
    assert(pent_sum(2, 1) == psign(1) * partition_count(1) + pent_sum(2, 2));
    assert(partition_count(2) == 2);
}

/// Returns the vector `[p(0), p(1), ..., p(n)]` of integer-partition numbers.
pub fn integer_partitions(n: usize) -> (r: Vec<BigInt>)
    requires
        n <= 2 || (n - 1) * (3 * (n - 1) - 1) + 2 * (n - 1) <= usize::MAX,
    ensures
        r@.len() == n + 1,
        forall|t: int| 0 <= t <= n ==> big_val(#[trigger] r@[t]) == partition_count(t as nat),
{
    if n <= 2 {
        proof {
            lemma_small_partitions();
        }
        let mut p: Vec<BigInt> = Vec::new();
        let v0 = int_from(1);
        p.push(v0);
        if n >= 1 {
            let v1 = int_from(1);
            p.push(v1);
        }
        if n == 2 {
            let v2 = int_from(2);
            p.push(v2);
        }
        return p;
    }
    let mut k: Vec<usize> = Vec::new();
    let mut i: usize = 1;
    while i < n
        invariant
            1 <= i,
            i <= n,
            3 <= n && (n - 1) * (3 * (n - 1) - 1) + 2 * (n - 1) <= usize::MAX,
            k@.len() == 2 * (i - 1),
            forall|t: int| 0 <= t < k@.len() ==> #[trigger] k@[t] == gpent((t + 1) as nat),
        decreases n - i,
    {
        assert(3 * i <= usize::MAX && i * (3 * i - 1) + 2 * i <= (n - 1) * (3 * (n - 1) - 1) + 2
            * (n - 1)) by (nonlinear_arith)
            requires
                1 <= i <= n - 1,
                (n - 1) * (3 * (n - 1) - 1) + 2 * (n - 1) <= usize::MAX,
        ;
        let ghost a = i * (3 * i - 1);
        let v1 = i * (3 * i - 1) / 2;
        assert(v1 + i <= usize::MAX) by {
            assert(a == 2 * (a / 2) + a % 2 && 0 <= a % 2 < 2) by {
                vstd::arithmetic::div_mod::lemma_fundamental_div_mod(a as int, 2);
            }
        }
        let v2 = v1 + i;
        k.push(v1);
        k.push(v2);
        proof {
            let j1 = (2 * i - 1) as nat;
            let j2 = (2 * i) as nat;
            assert(j1 % 2 == 1 && (j1 + 1) / 2 == i as nat);
            assert(j2 % 2 == 0 && j2 / 2 == i as nat);
            assert(gpent(j1) == v1);
            assert(gpent(j2) == v2);
        }
        i = i + 1;
    }
    let one = int_from(1);
    let mut p: Vec<BigInt> = Vec::new();
    let first = int_clone(&one);
    p.push(first);
    let mut sign: Vec<BigInt> = Vec::new();
    let s0 = int_clone(&one);
    sign.push(s0);
    let s1 = int_clone(&one);
    sign.push(s1);
    let s2 = int_neg(&one);
    sign.push(s2);
    let s3 = int_neg(&one);
    sign.push(s3);
    proof {
        if n >= 3 {
            assert(n < usize::MAX) by (nonlinear_arith)
                requires
                    n >= 3,
                    (n - 1) * (3 * (n - 1) - 1) + 2 * (n - 1) <= usize::MAX,
            ;
        }
    }
    let mut i: usize = 1;
    while i <= n
        invariant
            1 <= i <= n + 1,
            n < usize::MAX,
            sign@.len() == 4,
            forall|t: int| 0 <= t < 4 ==> big_val(#[trigger] sign@[t]) == (if t < 2 { 1int } else { -1int }),
            k@.len() == 2 * (n - 1),
            forall|t: int| 0 <= t < k@.len() ==> #[trigger] k@[t] == gpent((t + 1) as nat),
            n >= 3,
            p@.len() == i,
            forall|t: int| 0 <= t < i ==> big_val(#[trigger] p@[t]) == partition_count(t as nat),
        decreases n + 1 - i,
    {
        proof {
            lemma_gpent_ge((2 * (n - 1)) as nat);
            assert((n - 1) * (3 * (n - 1) - 1) / 2 + (n - 1) > n) by (nonlinear_arith)
                requires
                    n >= 3,
            ;
            assert(k@[2 * (n - 1) - 1] == gpent((2 * (n - 1)) as nat));
            assert(gpent((2 * (n - 1)) as nat) > n);
        }
        let mut temp: BigInt = int_from(0);
        let mut j: usize = 0;
        while j < k.len() && k[j] <= i
            invariant
                1 <= i <= n,
                sign@.len() == 4,
                forall|t: int| 0 <= t < 4 ==> big_val(#[trigger] sign@[t]) == (if t < 2 { 1int } else { -1int }),
                k@.len() == 2 * (n - 1),
                n >= 3,
                forall|t: int| 0 <= t < k@.len() ==> #[trigger] k@[t] == gpent((t + 1) as nat),
                k@[k@.len() - 1] > i,
                j < k@.len(),
                p@.len() == i,
                forall|t: int| 0 <= t < i ==> big_val(#[trigger] p@[t]) == partition_count(t as nat),
                big_val(temp) + pent_sum(i as nat, (j + 1) as nat) == pent_sum(i as nat, 1),
            decreases k@.len() - j,
        {
            proof {
                lemma_gpent_ge((j + 1) as nat);
            }
            let idx = i - k[j];
            let pv = int_clone(&p[idx]);
            let sv = &sign[j % 4];
            let prod = int_mul(&pv, sv);
            proof {
                let jj = (j + 1) as nat;
                assert(gpent(jj) == k@[j as int]);
                assert(jj <= gpent(jj) <= i);
                assert(pent_sum(i as nat, jj) == psign(jj) * partition_count((i as nat - gpent(jj)) as nat) + pent_sum(i as nat, jj + 1));
                lemma_psign_index(j as nat);
                assert(big_val(pv) == partition_count(idx as nat));
                assert(big_val(sign@[(j % 4) as int]) == psign(jj));
                assert(big_val(prod) == partition_count(idx as nat) * psign(jj));
                assert(big_val(prod) == psign(jj) * partition_count(idx as nat));
            }
            temp = int_add(&temp, &prod);
            j = j + 1;
            assert(j < k@.len());
        }
        proof {
            let jj = (j + 1) as nat;
            assert(k@[j as int] > i);
            assert(gpent(jj) > i);
            assert(pent_sum(i as nat, jj) == 0);
            assert(big_val(temp) == partition_count(i as nat));
        }
        p.push(temp);
        i = i + 1;
    }
    p
}

/// The sign table `[1, 1, -1, -1]`, indexed by `j % 4`, matches `psign(j+1)`.
proof fn lemma_psign_index(j: nat)
    ensures
        psign(j + 1) == (if j % 4 < 2 { 1int } else { -1int }),
{
    let r = j % 4;
    assert(j == 4 * (j / 4) + r) by {
        vstd::arithmetic::div_mod::lemma_fundamental_div_mod(j as int, 4);
    }
    assert(((j + 1 - 1) / 2) % 2 == (r / 2) % 2) by (nonlinear_arith)
        requires
            j == 4 * (j / 4) + r,
            0 <= r < 4,
    ;
}


/// The factorial recurrence: for positive `n`, `n!` is `n` times
/// `(n - 1)!`; both factorial functions of this crate return `fact_spec`,
/// so the law carries to them.
pub proof fn lemma_factorial_step(n: nat)
    requires
        n >= 1,
    ensures
        fact_spec(n) == n * fact_spec((n - 1) as nat),
{
}

} // verus!
