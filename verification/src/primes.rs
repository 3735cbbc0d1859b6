//! Prime factorization helpers: factor lists, distinct factors, the sum of
//! distinct prime factors, and a sieve counting distinct prime factors.

use vstd::prelude::*;

verus! {

/// `p` has no divisor strictly between 1 and itself.
pub open spec fn is_prime(p: nat) -> bool {
    p >= 2 && forall|d: nat| 2 <= d < p ==> #[trigger] (p % d) != 0
}

/// The least divisor of `n` that is at least `d` (and `n` itself if none
/// smaller is found below `n`).
pub open spec fn least_divisor(n: nat, d: nat) -> nat
    decreases n - d,
{
    if d >= n {
        n
    } else if n % d == 0 {
        d
    } else {
        least_divisor(n, d + 1)
    }
}

/// The nondecreasing prime factorization of `n`, obtained by repeatedly
/// splitting off the smallest divisor; empty for `n <= 1`.
pub open spec fn factor_seq(n: nat) -> Seq<nat>
    decreases n,
{
    if n <= 1 {
        Seq::empty()
    } else {
        let p = least_divisor(n, 2);
        if 2 <= p <= n && n / p < n {
            seq![p] + factor_seq(n / p)
        } else {
            Seq::empty()
        }
    }
}

/// Product of a sequence of naturals.
pub open spec fn prod_seq(s: Seq<nat>) -> nat
    decreases s.len(),
{
    if s.len() == 0 {
        1
    } else {
        prod_seq(s.drop_last()) * s.last()
    }
}

/// Sum of a sequence of naturals.
pub open spec fn sum_seq(s: Seq<nat>) -> nat
    decreases s.len(),
{
    if s.len() == 0 {
        0
    } else {
        sum_seq(s.drop_last()) + s.last()
    }
}

/// The sequence with runs of adjacent equal values collapsed to one.
pub open spec fn dedup_seq(s: Seq<nat>) -> Seq<nat>
    decreases s.len(),
{
    if s.len() <= 1 {
        s
    } else if s.last() == s[s.len() - 2] {
        dedup_seq(s.drop_last())
    } else {
        dedup_seq(s.drop_last()).push(s.last())
    }
}

/// Divisibility is transitive through `i`: if `d` divides `i` and `i`
/// divides `m`, then `d` divides `m`.
pub(crate) proof fn lemma_mod_trans(m: nat, i: nat, d: nat)
    requires
        1 <= d,
        1 <= i,
        m % i == 0,
        i % d == 0,
    ensures
        m % d == 0,
{
    vstd::arithmetic::div_mod::lemma_fundamental_div_mod(m as int, i as int);
    vstd::arithmetic::div_mod::lemma_fundamental_div_mod(i as int, d as int);
    assert(m == ((m as int / i as int) * (i as int / d as int)) * d) by (nonlinear_arith)
        requires
            m == i * (m as int / i as int),
            i == d * (i as int / d as int),
    ;
    vstd::arithmetic::div_mod::lemma_mod_multiples_basic(
        (m as int / i as int) * (i as int / d as int),
        d as int,
    );
}

/// While no divisor of `m` lies in `[d, i)`, the least-divisor scan from `d`
/// agrees with the scan from `i`.
pub(crate) proof fn lemma_least_divisor_skip(m: nat, d: nat, i: nat)
    requires
        2 <= d <= i,
        i <= m,
        forall|e: nat| d <= e < i ==> #[trigger] (m % e) != 0,
    ensures
        least_divisor(m, d) == least_divisor(m, i),
    decreases i - d,
{
    if d < i {
        assert(m % d != 0);
        lemma_least_divisor_skip(m, d + 1, i);
    }
}

/// Dividing a number at least `1` by a divisor at least `2` strictly
/// shrinks it.
pub(crate) proof fn lemma_div_shrinks(m: nat, i: nat)
    requires
        m >= 1,
        i >= 2,
    ensures
        m / i < m,
        m % i == 0 ==> (m / i) * i == m,
{
    vstd::arithmetic::div_mod::lemma_fundamental_div_mod(m as int, i as int);
    assert(m / i < m) by (nonlinear_arith)
        requires
            m >= 1,
            i >= 2,
            m == i * ((m as int) / (i as int)) + ((m as int) % (i as int)),
            0 <= (m as int) % (i as int) < (i as int),
    ;
    if m % i == 0 {
        assert((m / i) * i == m) by (nonlinear_arith)
            requires
                m == i * ((m as int) / (i as int)) + ((m as int) % (i as int)),
                (m as int) % (i as int) == 0,
        ;
    }
}

/// Returns the prime factors of `n` in nondecreasing order, with
/// multiplicity: the canonical factorization `factor_seq(n)`.
pub fn prime_factors(n: usize) -> (r: Vec<usize>)
    ensures
        r@.map_values(|x: usize| x as nat) == factor_seq(n as nat),
        forall|t: int| 0 <= t < r@.len() ==> is_prime(#[trigger] r@[t] as nat),
        n >= 1 ==> prod_seq(r@.map_values(|x: usize| x as nat)) == n,
        n == 0 ==> r@.len() == 0,
{
    let mut xs: Vec<usize> = Vec::new();
    let mut m = n;
    let mut i: usize = 2;
    proof {
        assert(xs@.map_values(|x: usize| x as nat) =~= Seq::<nat>::empty());
        assert(Seq::<nat>::empty() + factor_seq(n as nat) =~= factor_seq(n as nat));
        assert(prod_seq(Seq::<nat>::empty()) == 1);
    }
    while m > 1
        invariant
            n == 0 ==> (m == 0 && xs@.len() == 0),
            n >= 1 ==> m >= 1,
            i >= 2,
            n >= 1 ==> prod_seq(xs@.map_values(|x: usize| x as nat)) * m == n,
            forall|d: nat| 2 <= d < i ==> #[trigger] (m as nat % d) != 0,
            forall|t: int| 0 <= t < xs@.len() ==> is_prime(#[trigger] xs@[t] as nat),
            factor_seq(n as nat) == xs@.map_values(|x: usize| x as nat) + factor_seq(m as nat),
        decreases m, (if i <= m { m - i } else { 0int }),
    {
        proof {
            if i > m {
                assert(2 <= m < i);
                assert(m as nat % m as nat == 0) by (nonlinear_arith)
                    requires
                        m >= 2,
                ;
                assert(false);
            }
        }
        if m % i == 0 {
            proof {
                // `i` is prime: a smaller divisor of `i` would divide `m`.
                assert forall|d: nat| 2 <= d < i implies #[trigger] (i as nat % d) != 0 by {
                    if i as nat % d == 0 {
                        lemma_mod_trans(m as nat, i as nat, d);
                    }
                }
                assert(is_prime(i as nat));
                lemma_least_divisor_skip(m as nat, 2, i as nat);
                assert(least_divisor(m as nat, i as nat) == i as nat);
                lemma_div_shrinks(m as nat, i as nat);
                assert(factor_seq(m as nat) == seq![i as nat] + factor_seq((m / i) as nat));
            }
            let ghost old_xs = xs@.map_values(|x: usize| x as nat);
            let ghost old_m = m as nat;
            xs.push(i);
            m = m / i;
            proof {
                let new_xs = xs@.map_values(|x: usize| x as nat);
                assert(new_xs =~= old_xs.push(i as nat));
                assert(new_xs.drop_last() =~= old_xs);
                assert(prod_seq(new_xs) == prod_seq(old_xs) * i);
                assert(old_m == (m as nat) * i);
                assert(m >= 1) by (nonlinear_arith)
                    requires
                        old_m == (m as nat) * i,
                        old_m >= 2,
                        i >= 2,
                        i <= old_m,
                ;
                if n >= 1 {
                    assert(prod_seq(old_xs) * i * (m as nat) == n) by (nonlinear_arith)
                        requires
                            prod_seq(old_xs) * old_m == n,
                            old_m == (m as nat) * i,
                    ;
                }
                assert(new_xs + factor_seq(m as nat) =~= old_xs + (seq![i as nat] + factor_seq(
                    m as nat,
                )));
                // A factor below `i` cannot divide the quotient either.
                assert forall|d: nat| 2 <= d < i implies #[trigger] ((m as nat) % d) != 0 by {
                    if (m as nat) % d == 0 {
                        vstd::arithmetic::div_mod::lemma_mod_multiples_basic(
                            i as int,
                            m as int,
                        );
                        assert(old_m % (m as nat) == 0);
                        lemma_mod_trans(old_m, m as nat, d);
                        assert(false);
                    }
                }
            }
        } else {
            i = i + 1;
        }
    }
    proof {
        if n >= 1 {
            assert(m == 1);
            assert(factor_seq(1nat) =~= Seq::<nat>::empty());
            assert(factor_seq(n as nat) =~= xs@.map_values(|x: usize| x as nat));
            assert(prod_seq(xs@.map_values(|x: usize| x as nat)) * 1 == prod_seq(
                xs@.map_values(|x: usize| x as nat),
            ));
        } else {
            assert(factor_seq(0nat) =~= Seq::<nat>::empty());
            assert(factor_seq(n as nat) =~= xs@.map_values(|x: usize| x as nat));
        }
    }
    xs
}

/// Returns the distinct prime factors of `n` in increasing order:
/// `dedup_seq(factor_seq(n))`.
pub fn prime_factors_unique(n: usize) -> (r: Vec<usize>)
    ensures
        r@.map_values(|x: usize| x as nat) == dedup_seq(factor_seq(n as nat)),
        forall|t: int| 0 <= t < r@.len() ==> is_prime(#[trigger] r@[t] as nat),
{
    let xs = prime_factors(n);
    let mut r: Vec<usize> = Vec::new();
    let mut t: usize = 0;
    while t < xs.len()
        invariant
            t <= xs@.len(),
            forall|u: int| 0 <= u < xs@.len() ==> is_prime(#[trigger] xs@[u] as nat),
            forall|u: int| 0 <= u < r@.len() ==> is_prime(#[trigger] r@[u] as nat),
            r@.map_values(|x: usize| x as nat) == dedup_seq(
                xs@.subrange(0, t as int).map_values(|x: usize| x as nat),
            ),
        decreases xs@.len() - t,
    {
        let ghost pre = xs@.subrange(0, t as int).map_values(|x: usize| x as nat);
        let ghost post = xs@.subrange(0, t + 1).map_values(|x: usize| x as nat);
        proof {
            assert(post.drop_last() =~= pre);
            assert(post.last() == xs@[t as int] as nat);
        }
        if r.len() > 0 && r[r.len() - 1] == xs[t] {
            proof {
                assert(pre.len() >= 1) by {
                    if pre.len() == 0 {
                        assert(dedup_seq(pre).len() == 0);
                    }
                }
                assert(post[post.len() - 2] == pre.last());
                assert(pre.last() == dedup_seq(pre).last()) by {
                    lemma_dedup_last(pre);
                }
                assert(dedup_seq(post) == dedup_seq(pre));
            }
        } else {
            r.push(xs[t]);
            proof {
                if pre.len() == 0 {
                    assert(dedup_seq(post) =~= post);
                    assert(post =~= pre.push(xs@[t as int] as nat));
                    assert(r@.map_values(|x: usize| x as nat) =~= dedup_seq(pre).push(
                        xs@[t as int] as nat,
                    ));
                } else {
                    lemma_dedup_last(pre);
                    assert(post[post.len() - 2] == pre.last());
                    assert(pre.last() != xs@[t as int] as nat);
                    assert(dedup_seq(post) == dedup_seq(pre).push(xs@[t as int] as nat));
                    assert(r@.map_values(|x: usize| x as nat) =~= dedup_seq(pre).push(
                        xs@[t as int] as nat,
                    ));
                }
            }
        }
        t = t + 1;
    }
    proof {
        assert(xs@.subrange(0, xs@.len() as int) =~= xs@);
    }
    r
}

/// Prepending a value multiplies the product by it.
proof fn lemma_prod_cons(p: nat, s: Seq<nat>)
    ensures
        prod_seq(seq![p] + s) == p * prod_seq(s),
    decreases s.len(),
{
    if s.len() == 0 {
        assert(seq![p] + s =~= seq![p]);
        assert((seq![p]).drop_last() =~= Seq::<nat>::empty());
        assert(prod_seq(Seq::<nat>::empty()) == 1);
        assert((seq![p]).last() == p);
        assert(prod_seq(seq![p]) == 1 * p);
        assert(prod_seq(s) == 1);
    } else {
        assert(prod_seq(s) == prod_seq(s.drop_last()) * s.last());
        lemma_prod_cons(p, s.drop_last());
        assert((seq![p] + s).drop_last() =~= seq![p] + s.drop_last());
        assert((seq![p] + s).last() == s.last());
        assert(prod_seq(seq![p] + s) == prod_seq(seq![p] + s.drop_last()) * s.last());
        assert(prod_seq(seq![p] + s) == (p * prod_seq(s.drop_last())) * s.last());
        assert((p * prod_seq(s.drop_last())) * s.last() == p * (prod_seq(s.drop_last())
            * s.last())) by (nonlinear_arith);
    }
}

/// Every entry of the canonical factorization is at least two, and the
/// factorization of a positive number multiplies back to it.
proof fn lemma_factor_seq_props(n: nat)
    ensures
        forall|t: int| 0 <= t < factor_seq(n).len() ==> #[trigger] factor_seq(n)[t] >= 2,
        n >= 1 ==> prod_seq(factor_seq(n)) == n,
    decreases n,
{
    if n <= 1 {
        assert(factor_seq(n) =~= Seq::<nat>::empty());
    } else {
        lemma_ld_props(n, 2);
        let p = least_divisor(n, 2);
        lemma_div_shrinks(n, p);
        lemma_factor_seq_props(n / p);
        lemma_prod_cons(p, factor_seq(n / p));
        assert(n / p >= 1) by (nonlinear_arith)
            requires
                n == (n / p) * p,
                n >= 2,
                2 <= p <= n,
        ;
        assert(p * (n / p) == n);
        assert(forall|t: int| 0 <= t < factor_seq(n).len() ==> #[trigger] factor_seq(n)[t]
            >= 2) by {
            assert(factor_seq(n) == seq![p] + factor_seq(n / p));
            assert forall|t: int| 0 <= t < factor_seq(n).len() implies #[trigger] factor_seq(
                n,
            )[t] >= 2 by {
                if t == 0 {
                } else {
                    assert(factor_seq(n)[t] == factor_seq(n / p)[t - 1]);
                }
            }
        }
    }
}

/// The least-divisor scan from `d0` finds a divisor that is prime and
/// minimal among candidates at or above `d0`.
pub(crate) proof fn lemma_ld_props(n: nat, d0: nat)
    requires
        2 <= d0 <= n,
    ensures
        d0 <= least_divisor(n, d0) <= n,
        n % least_divisor(n, d0) == 0,
        forall|e: nat| d0 <= e < least_divisor(n, d0) ==> #[trigger] (n % e) != 0,
        d0 == 2 ==> is_prime(least_divisor(n, d0)),
    decreases n - d0,
{
    assert(n % n == 0) by (nonlinear_arith)
        requires
            n >= 2,
    ;
    if d0 == n {
    } else if n % d0 == 0 {
        assert(least_divisor(n, d0) == d0);
    } else {
        lemma_ld_props(n, d0 + 1);
    }
    let r = least_divisor(n, d0);
    if d0 == 2 {
        assert forall|e: nat| 2 <= e < r implies #[trigger] (r % e) != 0 by {
            if r % e == 0 {
                lemma_mod_trans(n, r, e);
                assert(n % e != 0);
                assert(false);
            }
        }
        assert(is_prime(r));
    }
}

/// The sum of a deduplicated list of values, each at least two, never
/// exceeds their product.
proof fn lemma_sum_dedup_le_prod(s: Seq<nat>)
    requires
        forall|t: int| 0 <= t < s.len() ==> #[trigger] s[t] >= 2,
    ensures
        prod_seq(s) >= 1,
        s.len() >= 1 ==> prod_seq(s) >= 2,
        sum_seq(dedup_seq(s)) <= prod_seq(s),
    decreases s.len(),
{
    if s.len() == 0 {
    } else {
        let u = s.drop_last();
        let x = s.last();
        lemma_sum_dedup_le_prod(u);
        assert(prod_seq(s) == prod_seq(u) * x);
        assert(prod_seq(u) * x >= prod_seq(u) && prod_seq(u) * x >= x) by (nonlinear_arith)
            requires
                prod_seq(u) >= 1,
                x >= 2,
        ;
        if s.len() >= 2 && x == s[s.len() - 2] {
            assert(dedup_seq(s) == dedup_seq(u));
        } else {
            assert(dedup_seq(s) == dedup_seq(u).push(x));
            assert(dedup_seq(u).push(x).drop_last() =~= dedup_seq(u));
            assert(sum_seq(dedup_seq(s)) == sum_seq(dedup_seq(u)) + x);
            if u.len() == 0 {
                assert(dedup_seq(u).len() == 0);
            } else {
                assert(sum_seq(dedup_seq(u)) + x <= prod_seq(u) + x);
                assert(prod_seq(u) + x <= prod_seq(u) * x) by (nonlinear_arith)
                    requires
                        prod_seq(u) >= 2,
                        x >= 2,
                ;
            }
        }
    }
}

pub(crate) proof fn lemma_sum_take_le(s: Seq<nat>, t: int)
    requires
        0 <= t <= s.len(),
    ensures
        sum_seq(s.take(t)) <= sum_seq(s),
        t < s.len() ==> sum_seq(s.take(t + 1)) == sum_seq(s.take(t)) + s[t],
    decreases s.len() - t,
{
    if t < s.len() {
        assert(s.take(t + 1).drop_last() =~= s.take(t));
        assert(s.take(t + 1).last() == s[t]);
        lemma_sum_take_le(s, t + 1);
    } else {
        assert(s.take(t) =~= s);
    }
}

/// Returns the sum of the distinct prime factors of `n`.
pub fn sopf(n: usize) -> (r: usize)
    ensures
        r == sum_seq(dedup_seq(factor_seq(n as nat))),
{
    let u = prime_factors_unique(n);
    let ghost us = u@.map_values(|x: usize| x as nat);
    proof {
        lemma_factor_seq_props(n as nat);
        lemma_sum_dedup_le_prod(factor_seq(n as nat));
        if n >= 1 {
            assert(sum_seq(us) <= n);
        } else {
            assert(factor_seq(0nat) =~= Seq::<nat>::empty());
            assert(us.len() == 0);
        }
        assert(us.take(0) =~= Seq::<nat>::empty());
    }
    let mut acc: usize = 0;
    let mut t: usize = 0;
    while t < u.len()
        invariant
            t <= u@.len(),
            us == u@.map_values(|x: usize| x as nat),
            sum_seq(us) <= usize::MAX,
            acc == sum_seq(us.take(t as int)),
        decreases u@.len() - t,
    {
        proof {
            lemma_sum_take_le(us, t as int);
            lemma_sum_take_le(us, t + 1);
        }
        acc = acc + u[t];
        t = t + 1;
    }
    proof {
        assert(us.take(us.len() as int) =~= us);
    }
    acc
}

/// Number of primes `p` with `2 <= p < b` that divide `j`.
pub open spec fn distinct_prime_count(j: nat, b: nat) -> nat
    decreases b,
{
    if b <= 2 {
        0
    } else {
        distinct_prime_count(j, (b - 1) as nat) + (if is_prime((b - 1) as nat) && j % ((b - 1)
            as nat) == 0 {
            1nat
        } else {
            0nat
        })
    }
}

proof fn lemma_dpc_le(j: nat, b: nat)
    ensures
        distinct_prime_count(j, b) <= b,
    decreases b,
{
    if b > 2 {
        lemma_dpc_le(j, (b - 1) as nat);
    }
}

/// A prime divisor below the bound makes the count positive.
proof fn lemma_dpc_positive(j: nat, p: nat, b: nat)
    requires
        is_prime(p),
        j % p == 0,
        p < b,
    ensures
        distinct_prime_count(j, b) >= 1,
    decreases b,
{
    if p < b - 1 {
        lemma_dpc_positive(j, p, (b - 1) as nat);
    }
}

/// A positive count yields a prime divisor below the bound.
proof fn lemma_dpc_witness(j: nat, b: nat)
    requires
        distinct_prime_count(j, b) >= 1,
    ensures
        exists|p: nat| 2 <= p < b && is_prime(p) && #[trigger] (j % p) == 0,
    decreases b,
{
    if b > 2 {
        if is_prime((b - 1) as nat) && j % ((b - 1) as nat) == 0 {
            let w = (b - 1) as nat;
            assert(2 <= w && w < b && is_prime(w) && j % w == 0);
        } else {
            lemma_dpc_witness(j, (b - 1) as nat);
        }
    }
}

/// Returns, for each `j` below `n`, the number of distinct primes dividing
/// `j` (with the degenerate entries for `0` and `1` left at zero).
pub fn prime_factor_cnt(n: usize) -> (r: Vec<usize>)
    requires
        n <= usize::MAX / 2,
    ensures
        r@.len() == n,
        forall|j: int| 0 <= j < n && j < 2 ==> #[trigger] r@[j] == 0,
        forall|j: int| 2 <= j < n ==> #[trigger] r@[j] == distinct_prime_count(j as nat, n as nat),
{
    let mut s: Vec<usize> = Vec::new();
    while s.len() < n
        invariant
            s@.len() <= n,
            forall|j: int| 0 <= j < s@.len() ==> #[trigger] s@[j] == 0,
        decreases n - s@.len(),
    {
        s.push(0);
    }
    let mut i: usize = 2;
    while i < n
        invariant
            2 <= i,
            n > 2 ==> i <= n,
            s@.len() == n,
            forall|j: int| 0 <= j < n && j < 2 ==> #[trigger] s@[j] == 0,
            forall|j: int| 2 <= j < n ==> #[trigger] s@[j] == distinct_prime_count(
                j as nat,
                i as nat,
            ),
            n <= usize::MAX / 2,
        decreases n - i,
    {
        if s[i] == 0 {
            // An untouched slot means no smaller prime divides `i`: prime.
            proof {
                assert(distinct_prime_count(i as nat, i as nat) == 0);
                if !is_prime(i as nat) {
                    lemma_ld_props(i as nat, 2);
                    let p = least_divisor(i as nat, 2);
                    assert(p < i) by {
                        if p == i {
                            assert(is_prime(i as nat));
                        }
                    }
                    lemma_dpc_positive(i as nat, p, i as nat);
                    assert(false);
                }
            }
            proof {
                assert forall|m: int| 2 <= m < i implies #[trigger] (m % (i as int)) != 0 by {
                    vstd::arithmetic::div_mod::lemma_small_mod(m as nat, i as nat);
                }
            }
            let mut j: usize = i;
            while j < n
                invariant
                    2 <= i < n,
                    is_prime(i as nat),
                    s@.len() == n,
                    n <= usize::MAX / 2,
                    j >= i,
                    j % i == 0,
                    j <= n + i,
                    forall|m: int| 0 <= m < n && m < 2 ==> #[trigger] s@[m] == 0,
                    forall|m: int| 2 <= m < n ==> #[trigger] s@[m] == distinct_prime_count(
                        m as nat,
                        i as nat,
                    ) + (if m % (i as int) == 0 && m < j { 1int } else { 0int }),
                decreases (if j < n { n - j } else { 0int }),
            {
                proof {
                    lemma_dpc_le(j as nat, i as nat);
                }
                let v = s[j];
                s.set(j, v + 1);
                let ghost old_j = j as int;
                j = j + i;
                proof {
                    assert((j as int) % (i as int) == 0) by (nonlinear_arith)
                        requires
                            old_j % (i as int) == 0,
                            j == old_j + i,
                            i >= 2,
                    ;
                    assert forall|m: int|
                        2 <= m < n && #[trigger] (m % (i as int)) == 0 && m != old_j implies (
                    m < old_j) == (m < j) by {
                        if old_j < m < j {
                            vstd::arithmetic::div_mod::lemma_fundamental_div_mod(
                                m,
                                i as int,
                            );
                            vstd::arithmetic::div_mod::lemma_fundamental_div_mod(
                                old_j,
                                i as int,
                            );
                            assert(false) by (nonlinear_arith)
                                requires
                                    m == (i as int) * (m / (i as int)),
                                    old_j == (i as int) * (old_j / (i as int)),
                                    old_j < m < old_j + i,
                                    i >= 2,
                            ;
                        }
                    }
                }
            }
            proof {
                assert forall|m: int| 2 <= m < n implies #[trigger] s@[m]
                    == distinct_prime_count(m as nat, (i + 1) as nat) by {
                    if m % (i as int) == 0 {
                        assert(m < j);
                        assert((m as nat) % (i as nat) == 0) by (nonlinear_arith)
                            requires
                                m % (i as int) == 0,
                                m >= 2,
                                i >= 2,
                        ;
                    } else {
                        assert((m as nat) % (i as nat) != 0) by (nonlinear_arith)
                            requires
                                m % (i as int) != 0,
                                m >= 2,
                                i >= 2,
                        ;
                    }
                }
            }
        } else {
            proof {
                assert(distinct_prime_count(i as nat, i as nat) >= 1);
                lemma_dpc_witness(i as nat, i as nat);
                let p = choose|p: nat| 2 <= p < i && is_prime(p) && #[trigger] (i as nat % p)
                    == 0;
                assert(!is_prime(i as nat));
                assert forall|m: int| 2 <= m < n implies #[trigger] s@[m]
                    == distinct_prime_count(m as nat, (i + 1) as nat) by {}
            }
        }
        i = i + 1;
    }
    s
}

/// A nonempty sequence keeps its last element through deduplication.
proof fn lemma_dedup_last(s: Seq<nat>)
    requires
        s.len() >= 1,
    ensures
        dedup_seq(s).len() >= 1,
        dedup_seq(s).last() == s.last(),
    decreases s.len(),
{
    if s.len() > 1 && s.last() == s[s.len() - 2] {
        lemma_dedup_last(s.drop_last());
        assert(s.drop_last().last() == s[s.len() - 2]);
    }
}

} // verus!
