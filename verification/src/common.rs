//! Grab-bag of combinatorics and number-theory helpers: digit juggling,
//! palindromes, permutations, cartesian products, divisor sums, totients and
//! periodic continued fractions.

use vstd::prelude::*;
use crate::primes::sum_seq;
use vstd::string::StringSliceAdditionalSpecFns;

verus! {

/// The decimal digits of `n`, most significant first; empty for zero.
pub open spec fn digits_of(n: nat) -> Seq<nat>
    decreases n,
{
    if n == 0 {
        Seq::empty()
    } else {
        digits_of(n / 10).push(n % 10)
    }
}

/// The number written by a digit sequence, most significant first (digits
/// larger than nine behave as in positional evaluation `acc * 10 + d`).
pub open spec fn value_of(s: Seq<nat>) -> nat
    decreases s.len(),
{
    if s.len() == 0 {
        0
    } else {
        value_of(s.drop_last()) * 10 + s.last()
    }
}

/// The ASCII decimal representation of `n`, as `to_string` prints it:
/// `0` is the single byte `48`.
pub open spec fn dec_bytes(n: nat) -> Seq<u8> {
    if n == 0 {
        seq![48u8]
    } else {
        digits_of(n).map_values(|d: nat| (48 + d) as u8)
    }
}

/// Returns `n` as a vector of its decimal digits, most significant first;
/// empty for zero.
pub fn to_digits(n: usize) -> (r: Vec<usize>)
    ensures
        r@.map_values(|x: usize| x as nat) == digits_of(n as nat),
{
    let mut low: Vec<usize> = Vec::new();
    let mut m = n;
    proof {
        assert(low@.map_values(|x: usize| x as nat) =~= Seq::<nat>::empty());
        assert(digits_of(n as nat) + Seq::<nat>::empty() =~= digits_of(n as nat));
    }
    while m != 0
        invariant
            digits_of(n as nat) =~= digits_of(m as nat) + low@.map_values(
                |x: usize| x as nat,
            ).reverse(),
        decreases m,
    {
        let ghost old_low = low@.map_values(|x: usize| x as nat);
        let d = m % 10;
        low.push(d);
        proof {
            assert(low@.map_values(|x: usize| x as nat) =~= old_low.push(d as nat));
            assert(old_low.push(d as nat).reverse() =~= seq![d as nat] + old_low.reverse());
            assert(digits_of(m as nat) == digits_of((m / 10) as nat).push((m % 10) as nat));
            assert(digits_of((m / 10) as nat).push(d as nat) + old_low.reverse()
                =~= digits_of((m / 10) as nat) + (seq![d as nat] + old_low.reverse()));
        }
        m = m / 10;
        proof {
            vstd::arithmetic::div_mod::lemma_fundamental_div_mod(
                (10 * m + d) as int,
                10,
            );
        }
    }
    let mut res: Vec<usize> = Vec::new();
    let mut t: usize = low.len();
    proof {
        assert(digits_of(0nat) =~= Seq::<nat>::empty());
        assert(digits_of(n as nat) =~= low@.map_values(|x: usize| x as nat).reverse());
    }
    while t > 0
        invariant
            t <= low@.len(),
            res@.map_values(|x: usize| x as nat) =~= low@.map_values(
                |x: usize| x as nat,
            ).reverse().take(low@.len() - t),
        decreases t,
    {
        t = t - 1;
        let ghost old_res = res@.map_values(|x: usize| x as nat);
        res.push(low[t]);
        proof {
            let lowm = low@.map_values(|x: usize| x as nat);
            assert(res@.map_values(|x: usize| x as nat) =~= old_res.push(lowm[t as int]));
            assert(lowm.reverse().take(lowm.len() - t) =~= lowm.reverse().take(
                lowm.len() - t - 1,
            ).push(lowm.reverse()[lowm.len() - t - 1]));
            assert(lowm.reverse()[lowm.len() - t - 1] == lowm[t as int]);
        }
    }
    proof {
        let lowm = low@.map_values(|x: usize| x as nat);
        assert(lowm.reverse().take(lowm.len() as int) =~= lowm.reverse());
    }
    res
}

proof fn lemma_value_take(s: Seq<nat>, t: int)
    requires
        0 <= t <= s.len(),
    ensures
        value_of(s.take(t)) <= value_of(s),
        t < s.len() ==> value_of(s.take(t + 1)) == value_of(s.take(t)) * 10 + s[t],
    decreases s.len() - t,
{
    if t < s.len() {
        assert(s.take(t + 1).drop_last() =~= s.take(t));
        assert(s.take(t + 1).last() == s[t]);
        lemma_value_take(s, t + 1);
        assert(value_of(s.take(t)) <= value_of(s.take(t)) * 10 + s[t]) by (nonlinear_arith);
    } else {
        assert(s.take(t) =~= s);
    }
}

/// Returns the number written by a slice of decimal digits (positionally,
/// `acc * 10 + d`, so oversized "digits" carry as the original did).
pub fn from_digits(xs: &[usize]) -> (r: usize)
    requires
        value_of(xs@.map_values(|x: usize| x as nat)) <= usize::MAX,
    ensures
        r == value_of(xs@.map_values(|x: usize| x as nat)),
{
    let ghost s = xs@.map_values(|x: usize| x as nat);
    let mut res: usize = 0;
    let mut t: usize = 0;
    proof {
        assert(s.take(0) =~= Seq::<nat>::empty());
    }
    while t < xs.len()
        invariant
            t <= s.len(),
            s == xs@.map_values(|x: usize| x as nat),
            value_of(s) <= usize::MAX,
            res == value_of(s.take(t as int)),
        decreases s.len() - t,
    {
        proof {
            lemma_value_take(s, t as int);
            lemma_value_take(s, t + 1);
        }
        res = res * 10 + xs[t];
        t = t + 1;
    }
    proof {
        assert(s.take(s.len() as int) =~= s);
    }
    res
}

/// Returns the decimal ASCII bytes of `n`, as `n.to_string().into_bytes()`
/// would.
pub fn to_bytes(n: usize) -> (r: Vec<u8>)
    ensures
        r@ == dec_bytes(n as nat),
{
    if n == 0 {
        let mut r: Vec<u8> = Vec::new();
        r.push(48);
        proof {
            assert(r@ =~= seq![48u8]);
        }
        return r;
    }
    let ds = to_digits(n);
    proof {
        lemma_digits_bound(n as nat);
    }
    let mut r: Vec<u8> = Vec::new();
    let mut t: usize = 0;
    while t < ds.len()
        invariant
            t <= ds@.len(),
            forall|u: int| 0 <= u < ds@.len() ==> #[trigger] ds@[u] == digits_of(n as nat)[u],
            ds@.len() == digits_of(n as nat).len(),
            forall|u: int| 0 <= u < digits_of(n as nat).len() ==> #[trigger] digits_of(
                n as nat,
            )[u] < 10,
            r@.len() == t,
            forall|u: int| 0 <= u < t ==> #[trigger] r@[u] == (48 + digits_of(n as nat)[u]) as u8,
        decreases ds@.len() - t,
    {
        proof {
            lemma_digits_bound(n as nat);
        }
        r.push(48 + ds[t] as u8);
        t = t + 1;
    }
    proof {
        lemma_digits_bound(n as nat);
        assert(r@ =~= digits_of(n as nat).map_values(|d: nat| (48 + d) as u8));
    }
    r
}

/// Why a byte vector fails to parse as a number.
#[derive(Clone, Copy, PartialEq, Eq, Debug, Structural)]
pub enum ParseError {
    /// The bytes are not a well-formed decimal number.
    Invalid,
    /// The number is well formed but does not fit in a machine word.
    Overflow,
}

/// The digits after an optional leading `+` sign.
pub open spec fn digit_body(v: Seq<u8>) -> Seq<u8> {
    if v.len() >= 1 && v[0] == 43 {
        v.drop_first()
    } else {
        v
    }
}

/// Length of the longest all-digit prefix.
pub open spec fn digit_prefix_len(v: Seq<u8>) -> int
    decreases v.len(),
{
    if v.len() == 0 || !(48 <= v[0] <= 57) {
        0
    } else {
        1 + digit_prefix_len(v.drop_first())
    }
}

/// The number written by a sequence of ASCII digit bytes.
pub open spec fn byte_value(v: Seq<u8>) -> nat {
    value_of(v.map_values(|b: u8| (b - 48) as nat))
}

proof fn lemma_digit_prefix(v: Seq<u8>)
    ensures
        0 <= digit_prefix_len(v) <= v.len(),
        forall|i: int| 0 <= i < digit_prefix_len(v) ==> 48 <= #[trigger] v[i] <= 57,
        digit_prefix_len(v) < v.len() ==> !(48 <= v[digit_prefix_len(v)] <= 57),
    decreases v.len(),
{
    if v.len() > 0 && 48 <= v[0] <= 57 {
        lemma_digit_prefix(v.drop_first());
        assert forall|i: int| 0 <= i < digit_prefix_len(v) implies 48 <= #[trigger] v[i]
            <= 57 by {
            if i > 0 {
                assert(v[i] == v.drop_first()[i - 1]);
            }
        }
    }
}

/// The all-digit prefix is at least as long as any all-digit run from the
/// start.
proof fn lemma_digit_prefix_at_least(v: Seq<u8>, t: int)
    requires
        0 <= t <= v.len(),
        forall|i: int| 0 <= i < t ==> 48 <= #[trigger] v[i] <= 57,
    ensures
        digit_prefix_len(v) >= t,
    decreases t,
{
    if t > 0 {
        assert(48 <= v[0] <= 57);
        assert forall|i: int| 0 <= i < t - 1 implies 48 <= #[trigger] v.drop_first()[i]
            <= 57 by {
            assert(v.drop_first()[i] == v[i + 1]);
        }
        lemma_digit_prefix_at_least(v.drop_first(), t - 1);
        assert(digit_prefix_len(v) == 1 + digit_prefix_len(v.drop_first()));
    } else {
        lemma_digit_prefix(v);
    }
}

/// Attempts to parse a decimal number (optionally signed with `+`) from
/// ASCII bytes, as `str::parse::<usize>` would: digits are consumed left to
/// right, a malformed byte gives `Invalid` unless the value has already
/// outgrown the machine word, which gives `Overflow`.
#[verifier::rlimit(60)]
pub fn from_bytes(vec: &[u8]) -> (r: Result<usize, ParseError>)
    ensures
        ({
            let body = digit_body(vec@);
            let k = digit_prefix_len(body);
            match r {
                Ok(x) => k == body.len() && body.len() >= 1 && byte_value(body) <= usize::MAX
                    && x == byte_value(body),
                Err(ParseError::Overflow) => byte_value(body.take(k)) > usize::MAX,
                Err(ParseError::Invalid) => byte_value(body.take(k)) <= usize::MAX && (body.len()
                    == 0 || k < body.len()),
            }
        }),
{
    let ghost body = digit_body(vec@);
    let mut start: usize = 0;
    if vec.len() > 0 && vec[0] == 43 {
        start = 1;
    }
    proof {
        assert(body =~= vec@.subrange(start as int, vec@.len() as int));
        lemma_digit_prefix(body);
    }
    if vec.len() == start {
        proof {
            assert(body.len() == 0);
            assert(body.take(0) =~= Seq::<u8>::empty());
            assert(byte_value(Seq::<u8>::empty()) == 0) by {
                assert(Seq::<u8>::empty().map_values(|b: u8| (b - 48) as nat)
                    =~= Seq::<nat>::empty());
            }
        }
        return Err(ParseError::Invalid);
    }
    let mut res: usize = 0;
    let mut t: usize = start;
    proof {
        assert(body.take(0) =~= Seq::<u8>::empty());
        assert(body.take(0).map_values(|b: u8| (b - 48) as nat) =~= Seq::<nat>::empty());
    }
    while t < vec.len()
        invariant
            start <= t <= vec@.len(),
            start <= 1,
            body == digit_body(vec@),
            body == vec@.subrange(start as int, vec@.len() as int),
            body.len() == vec@.len() - start,
            forall|i: int| 0 <= i < t - start ==> 48 <= #[trigger] body[i] <= 57,
            res == byte_value(body.take(t - start)),
        decreases vec@.len() - t,
    {
        let b = vec[t];
        proof {
            assert(body[t - start] == vec@[t as int]);
        }
        if b < 48 || b > 57 {
            proof {
                lemma_digit_prefix_at_least(body, t - start);
                lemma_digit_prefix(body);
                assert(digit_prefix_len(body) == t - start);
            }
            return Err(ParseError::Invalid);
        }
        let d = (b - 48) as usize;
        let ghost pre = body.take(t - start).map_values(|b2: u8| (b2 - 48) as nat);
        let ghost post = body.take(t - start + 1).map_values(|b2: u8| (b2 - 48) as nat);
        proof {
            assert(post.drop_last() =~= pre);
            assert(post.last() == d as nat);
            assert(byte_value(body.take(t - start + 1)) == res * 10 + d);
        }
        if res > (usize::MAX - d) / 10 {
            proof {
                vstd::arithmetic::div_mod::lemma_fundamental_div_mod(
                    (usize::MAX - d) as int,
                    10,
                );
                assert(res * 10 + d > usize::MAX) by (nonlinear_arith)
                    requires
                        res >= ((usize::MAX - d) as int) / 10 + 1,
                        (usize::MAX - d) as int == 10 * (((usize::MAX - d) as int) / 10) + ((
                        usize::MAX - d) as int) % 10,
                        0 <= ((usize::MAX - d) as int) % 10 < 10,
                ;
                lemma_digit_prefix(body);
                lemma_digit_prefix_at_least(body, t - start + 1);
                let k = digit_prefix_len(body);
                lemma_value_take(body.take(k).map_values(|b2: u8| (b2 - 48) as nat), t - start
                    + 1);
                assert(body.take(k).take(t - start + 1) =~= body.take(t - start + 1));
                assert(body.take(k).map_values(|b2: u8| (b2 - 48) as nat).take(t - start + 1)
                    =~= post);
                assert(byte_value(body.take(k)) >= res * 10 + d);
            }
            return Err(ParseError::Overflow);
        }
        proof {
            vstd::arithmetic::div_mod::lemma_fundamental_div_mod((usize::MAX - d) as int, 10);
            assert(res * 10 + d <= usize::MAX) by (nonlinear_arith)
                requires
                    res <= ((usize::MAX - d) as int) / 10,
                    (usize::MAX - d) as int == 10 * (((usize::MAX - d) as int) / 10) + ((
                    usize::MAX - d) as int) % 10,
                    0 <= ((usize::MAX - d) as int) % 10 < 10,
            ;
        }
        res = res * 10 + d;
        t = t + 1;
    }
    proof {
        lemma_digit_prefix_at_least(body, body.len() as int);
        assert(digit_prefix_len(body) == body.len());
        assert(body.take(body.len() as int) =~= body);
    }
    Ok(res)
}

/// Returns true when the decimal representation of `n` reads the same
/// backward as forward.
pub fn is_palindrome(n: usize) -> (r: bool)
    ensures
        r == (dec_bytes(n as nat) == dec_bytes(n as nat).reverse()),
{
    let cs = to_bytes(n);
    let ghost s = dec_bytes(n as nat);
    let len = cs.len();
    let mut i: usize = 0;
    proof {
        assert(s.len() >= 1) by {
            if n > 0 {
                assert(digits_of(n as nat).len() >= 1);
            }
        }
    }
    while i < len / 2
        invariant
            s == dec_bytes(n as nat),
            cs@ == s,
            len == s.len(),
            forall|u: int| 0 <= u < i ==> #[trigger] s[u] == s[s.len() - 1 - u],
        decreases len - i,
    {
        if cs[i] != cs[len - 1 - i] {
            proof {
                assert(s.reverse()[i as int] == s[s.len() - 1 - i]);
                assert(s != s.reverse());
            }
            return false;
        }
        i = i + 1;
    }
    proof {
        assert forall|u: int| 0 <= u < s.len() implies #[trigger] s[u] == s.reverse()[u] by {
            assert(s.reverse()[u] == s[s.len() - 1 - u]);
            if u < s.len() / 2 {
            } else if s.len() - 1 - u < s.len() / 2 {
                assert(s[s.len() - 1 - u] == s[s.len() - 1 - (s.len() - 1 - u)]);
            }
        }
        assert(s =~= s.reverse());
    }
    true
}

/// Returns the bytes in nondecreasing order, with the same multiset of
/// values.
fn sort_bytes(v: &Vec<u8>) -> (r: Vec<u8>)
    ensures
        r@.to_multiset() == v@.to_multiset(),
        forall|i: int, j: int| 0 <= i < j < r@.len() ==> #[trigger] r@[i] <= #[trigger] r@[j],
{
    broadcast use vstd::seq_lib::group_seq_properties;

    let mut r: Vec<u8> = Vec::new();
    let mut t: usize = 0;
    proof {
        assert(v@.take(0) =~= Seq::<u8>::empty());
        assert(r@.to_multiset() =~= v@.take(0).to_multiset());
    }
    while t < v.len()
        invariant
            t <= v@.len(),
            r@.len() == t,
            r@.to_multiset() == v@.take(t as int).to_multiset(),
            forall|i: int, j: int| 0 <= i < j < r@.len() ==> #[trigger] r@[i] <= #[trigger] r@[j],
        decreases v@.len() - t,
    {
        let x = v[t];
        let mut p: usize = 0;
        while p < r.len() && r[p] <= x
            invariant
                p <= r@.len(),
                forall|i: int| 0 <= i < p ==> #[trigger] r@[i] <= x,
            decreases r@.len() - p,
        {
            p = p + 1;
        }
        let ghost old_r = r@;
        r.insert(p, x);
        proof {
            broadcast use vstd::seq_lib::to_multiset_insert;
            broadcast use vstd::seq_lib::to_multiset_build;

            assert(r@ == old_r.insert(p as int, x));
            assert(v@.take(t + 1).drop_last() =~= v@.take(t as int));
            assert(v@.take(t + 1) =~= v@.take(t as int).push(x));
            assert(r@.to_multiset() =~= v@.take(t + 1).to_multiset());
            assert forall|i: int, j: int| 0 <= i < j < r@.len() implies #[trigger] r@[i]
                <= #[trigger] r@[j] by {
                assert(forall|u: int| 0 <= u < p ==> old_r[u] == #[trigger] r@[u]);
                assert(forall|u: int| p < u < r@.len() ==> old_r[u - 1] == #[trigger] r@[u]);
                assert(r@[p as int] == x);
            }
        }
        t = t + 1;
    }
    proof {
        assert(v@.take(v@.len() as int) =~= v@);
    }
    r
}

/// Returns true when `a` and `b` are digit-permutations of each other:
/// their decimal representations hold the same multiset of digits.
pub fn is_perm(a: usize, b: usize) -> (r: bool)
    ensures
        r == (dec_bytes(a as nat).to_multiset() == dec_bytes(b as nat).to_multiset()),
{
    let ab = to_bytes(a);
    let bb = to_bytes(b);
    let sa = sort_bytes(&ab);
    let sb = sort_bytes(&bb);
    if sa.len() != sb.len() {
        proof {
            broadcast use vstd::seq_lib::group_to_multiset_ensures;

            vstd::seq_lib::to_multiset_len(sa@);
            vstd::seq_lib::to_multiset_len(sb@);
            vstd::seq_lib::to_multiset_len(ab@);
            vstd::seq_lib::to_multiset_len(bb@);
        }
        return false;
    }
    let mut i: usize = 0;
    while i < sa.len()
        invariant
            sa@.len() == sb@.len(),
            sa@.to_multiset() == dec_bytes(a as nat).to_multiset(),
            sb@.to_multiset() == dec_bytes(b as nat).to_multiset(),
            forall|u: int, w: int| 0 <= u < w < sa@.len() ==> #[trigger] sa@[u] <= #[trigger] sa@[w],
            forall|u: int, w: int| 0 <= u < w < sb@.len() ==> #[trigger] sb@[u] <= #[trigger] sb@[w],
            forall|u: int| 0 <= u < i ==> #[trigger] sa@[u] == sb@[u],
        decreases sa@.len() - i,
    {
        if sa[i] != sb[i] {
            proof {
                if dec_bytes(a as nat).to_multiset() == dec_bytes(b as nat).to_multiset() {
                    lemma_sorted_multiset_unique(sa@, sb@);
                    assert(false);
                }
            }
            return false;
        }
        i = i + 1;
    }
    proof {
        assert(sa@ =~= sb@);
    }
    true
}

/// Two sorted byte sequences with the same multiset are equal.
proof fn lemma_sorted_multiset_unique(x: Seq<u8>, y: Seq<u8>)
    requires
        forall|u: int, w: int| 0 <= u < w < x.len() ==> #[trigger] x[u] <= #[trigger] x[w],
        forall|u: int, w: int| 0 <= u < w < y.len() ==> #[trigger] y[u] <= #[trigger] y[w],
        x.to_multiset() == y.to_multiset(),
    ensures
        x == y,
{
    let leq = |p: u8, q: u8| p <= q;
    assert(vstd::relations::sorted_by(x, leq));
    assert(vstd::relations::sorted_by(y, leq));
    assert(vstd::relations::total_ordering(leq));
    vstd::seq_lib::lemma_sorted_unique(x, y, leq);
    assert(x =~= y);
}

/// Sum of the decimal values of a sequence of digit characters.
pub open spec fn digit_sum(cs: Seq<char>) -> int
    decreases cs.len(),
{
    if cs.len() == 0 {
        0
    } else {
        digit_sum(cs.drop_last()) + (cs.last() as u32 - 48)
    }
}

proof fn lemma_digit_sum_take(cs: Seq<char>, t: int)
    requires
        0 <= t <= cs.len(),
        forall|i: int| 0 <= i < cs.len() ==> '0' <= #[trigger] cs[i] <= '9',
    ensures
        0 <= digit_sum(cs.take(t)) <= 9 * t,
        t < cs.len() ==> digit_sum(cs.take(t + 1)) == digit_sum(cs.take(t)) + (cs[t] as u32
            - 48),
    decreases t,
{
    if t > 0 {
        assert(cs.take(t).drop_last() =~= cs.take(t - 1));
        assert(cs.take(t).last() == cs[t - 1]);
        lemma_digit_sum_take(cs, t - 1);
    }
    if t < cs.len() {
        assert(cs.take(t + 1).drop_last() =~= cs.take(t));
        assert(cs.take(t + 1).last() == cs[t]);
    }
}

/// Returns the sum of the decimal digits of a string of digit characters.
pub fn sum_of_digits(s: String) -> (r: usize)
    requires
        forall|i: int| 0 <= i < s@.len() ==> '0' <= #[trigger] s@[i] <= '9',
        s@.len() <= usize::MAX / 9,
    ensures
        r == digit_sum(s@),
{
    let st = s.as_str();
    let len = st.unicode_len();
    let mut acc: usize = 0;
    let mut i: usize = 0;
    proof {
        assert(s@.take(0) =~= Seq::<char>::empty());
    }
    while i < len
        invariant
            i <= len,
            len == s@.len(),
            st@ == s@,
            forall|u: int| 0 <= u < s@.len() ==> '0' <= #[trigger] s@[u] <= '9',
            s@.len() <= usize::MAX / 9,
            acc == digit_sum(s@.take(i as int)),
        decreases len - i,
    {
        proof {
            lemma_digit_sum_take(s@, i as int);
            lemma_digit_sum_take(s@, i + 1);
            vstd::arithmetic::div_mod::lemma_fundamental_div_mod(usize::MAX as int, 9);
            assert(9 * (i + 1) <= 9 * (usize::MAX as int / 9)) by (nonlinear_arith)
                requires
                    i + 1 <= usize::MAX as int / 9,
            ;
        }
        let c = st.get_char(i);
        let d = (c as u32 - 48) as usize;
        acc = acc + d;
        i = i + 1;
    }
    proof {
        assert(s@.take(s@.len() as int) =~= s@);
    }
    acc
}

/// The byte `t` occurs somewhere in `bs`.
pub open spec fn has_byte(bs: Seq<u8>, t: u8) -> bool {
    exists|j: int| 0 <= j < bs.len() && bs[j] == t
}

/// The byte string is pandigital over digits `start` to `start + len - 1`:
/// each of those digit characters occurs somewhere in it (and, the length
/// forcing it, exactly once).
pub open spec fn pandigital(bs: Seq<u8>, start: nat) -> bool {
    forall|v: int| 48 + start <= v < 48 + start + bs.len() ==> #[trigger] has_byte(
        bs,
        (v % 256) as u8,
    )
}

/// Returns true when the string uses every digit from `start` up to
/// `start + length - 1` at least once (hence, by counting, exactly once).
pub fn is_pandigital(string: String, start: usize) -> (r: bool)
    requires
        48 + start + vstd::utf8::encode_utf8(string@).len() <= usize::MAX,
    ensures
        r == pandigital(vstd::utf8::encode_utf8(string@), start as nat),
{
    let bs = string.as_str().as_bytes_vec();
    let ghost sb = vstd::utf8::encode_utf8(string@);
    let cv = 48 + start;
    let hi = cv + bs.len();
    let mut v: usize = cv;
    while v < hi
        invariant
            sb == vstd::utf8::encode_utf8(string@),
            bs@ == sb,
            cv == 48 + start,
            hi == cv + bs@.len(),
            cv <= v <= hi,
            forall|w: int| cv <= w < v ==> #[trigger] has_byte(sb, (w % 256) as u8),
        decreases hi - v,
    {
        let target = (v % 256) as u8;
        let mut j: usize = 0;
        let mut found = false;
        while j < bs.len()
            invariant
                bs@ == sb,
                j <= sb.len(),
                target == (v as int % 256) as u8,
                found == exists|u: int| 0 <= u < j && #[trigger] sb[u] == target,
            decreases sb.len() - j,
        {
            if bs[j] == target {
                found = true;
            }
            j = j + 1;
        }
        if !found {
            proof {
                assert(!has_byte(sb, target));
                assert(48 + start <= (v as int) < 48 + start + sb.len());
                assert(!pandigital(sb, start as nat));
            }
            return false;
        }
        proof {
            assert(has_byte(sb, target));
        }
        v = v + 1;
    }
    proof {
        assert forall|w: int| 48 + start <= w < 48 + start + sb.len() implies #[trigger] has_byte(
            sb,
            (w % 256) as u8,
        ) by {
            assert(cv <= w < v);
        }
        assert(pandigital(sb, start as nat));
    }
    true
}

/// Returns `n!` for small `n` (twenty at most on a 64-bit machine; larger
/// values overflow a machine word, and the arbitrary-precision factorial
/// handles those).
pub fn factorial(n: usize) -> (r: usize)
    requires
        crate::big::fact_spec(n as nat) <= usize::MAX,
    ensures
        r == crate::big::fact_spec(n as nat),
{
    let mut acc: usize = 1;
    let mut i: usize = 0;
    while i < n
        invariant
            i <= n,
            crate::big::fact_spec(n as nat) <= usize::MAX,
            acc == crate::big::fact_spec(i as nat),
        decreases n - i,
    {
        proof {
            lemma_fact_le((i + 1) as nat, n as nat);
            assert(crate::big::fact_spec((i + 1) as nat) == (i + 1) * crate::big::fact_spec(
                i as nat,
            ));
        }
        i = i + 1;
        acc = acc * i;
    }
    acc
}

/// Factorial is monotone.
proof fn lemma_fact_le(a: nat, b: nat)
    requires
        a <= b,
    ensures
        crate::big::fact_spec(a) <= crate::big::fact_spec(b),
        crate::big::fact_spec(a) >= 1,
    decreases b,
{
    if a == b {
        if a > 0 {
            lemma_fact_le((a - 1) as nat, (a - 1) as nat);
            assert(crate::big::fact_spec(a) == a * crate::big::fact_spec((a - 1) as nat));
            assert(a * crate::big::fact_spec((a - 1) as nat) >= 1) by (nonlinear_arith)
                requires
                    a >= 1,
                    crate::big::fact_spec((a - 1) as nat) >= 1,
            ;
        }
    } else {
        lemma_fact_le(a, (b - 1) as nat);
        lemma_fact_le((b - 1) as nat, (b - 1) as nat);
        assert(crate::big::fact_spec(b) == b * crate::big::fact_spec((b - 1) as nat));
        assert(b * crate::big::fact_spec((b - 1) as nat) >= crate::big::fact_spec((b - 1)
            as nat)) by (nonlinear_arith)
            requires
                b >= 1,
                crate::big::fact_spec((b - 1) as nat) >= 1,
        ;
    }
}

/// Returns the running totals of the slice.
pub fn accumulate(xs: &[usize]) -> (r: Vec<usize>)
    requires
        sum_seq(xs@.map_values(|x: usize| x as nat)) <= usize::MAX,
    ensures
        r@.len() == xs@.len(),
        forall|t: int| 0 <= t < xs@.len() ==> #[trigger] r@[t] == sum_seq(
            xs@.map_values(|x: usize| x as nat).take(t + 1),
        ),
{
    let ghost s = xs@.map_values(|x: usize| x as nat);
    let mut r: Vec<usize> = Vec::new();
    let mut acc: usize = 0;
    let mut t: usize = 0;
    proof {
        assert(s.take(0) =~= Seq::<nat>::empty());
    }
    while t < xs.len()
        invariant
            t <= s.len(),
            s == xs@.map_values(|x: usize| x as nat),
            sum_seq(s) <= usize::MAX,
            r@.len() == t,
            acc == sum_seq(s.take(t as int)),
            forall|u: int| 0 <= u < t ==> #[trigger] r@[u] == sum_seq(s.take(u + 1)),
        decreases s.len() - t,
    {
        proof {
            crate::primes::lemma_sum_take_le(s, t as int);
            crate::primes::lemma_sum_take_le(s, t + 1);
        }
        acc = acc + xs[t];
        r.push(acc);
        t = t + 1;
    }
    r
}

/// Every decimal digit is below ten.
proof fn lemma_digits_bound(n: nat)
    ensures
        forall|u: int| 0 <= u < digits_of(n).len() ==> #[trigger] digits_of(n)[u] < 10,
    decreases n,
{
    if n > 0 {
        lemma_digits_bound(n / 10);
        assert forall|u: int| 0 <= u < digits_of(n).len() implies #[trigger] digits_of(n)[u]
            < 10 by {
            if u < digits_of(n).len() - 1 {
                assert(digits_of(n)[u] == digits_of(n / 10)[u]);
            }
        }
    }
}


/// Sum of the divisors of `j` that are proper (less than `j`) and below `b`.
pub open spec fn divisor_sum_below(j: nat, b: nat) -> nat
    decreases b,
{
    if b <= 1 {
        0
    } else {
        divisor_sum_below(j, (b - 1) as nat) + (if j % ((b - 1) as nat) == 0 && b - 1 < j {
            (b - 1) as nat
        } else {
            0nat
        })
    }
}

/// The sum of the proper divisors of `n` (not including `n` itself).
pub open spec fn divisor_sum_spec(n: nat) -> nat {
    divisor_sum_below(n, n)
}

proof fn lemma_dsb_le(j: nat, b: nat)
    ensures
        divisor_sum_below(j, b) <= b * j,
    decreases b,
{
    if b <= 1 {
    } else {
        lemma_dsb_le(j, (b - 1) as nat);
        assert((b - 1) * j + j == b * j) by (nonlinear_arith);
        if j % ((b - 1) as nat) == 0 && b - 1 < j {
            assert(divisor_sum_below(j, b) <= (b - 1) * j + j);
        }
    }
}

/// A proper divisor is at most half its number.
proof fn lemma_divisor_half(j: nat, d: nat)
    requires
        1 <= d < j,
        j % d == 0,
    ensures
        2 * d <= j,
{
    vstd::arithmetic::div_mod::lemma_fundamental_div_mod(j as int, d as int);
    assert(2 * d <= j) by (nonlinear_arith)
        requires
            j == d * ((j as int) / (d as int)),
            d < j,
            d >= 1,
    ;
}

/// Above half of `j` there are no proper divisors left to add.
proof fn lemma_dsb_flat(j: nat, b: nat)
    requires
        b >= j / 2 + 1,
    ensures
        divisor_sum_below(j, b) == divisor_sum_below(j, (j / 2 + 1) as nat),
    decreases b,
{
    if b > j / 2 + 1 {
        let d = (b - 1) as nat;
        if j % d == 0 && d < j {
            lemma_divisor_half(j, d);
        }
        lemma_dsb_flat(j, (b - 1) as nat);
    }
}

/// Returns the sum of the proper divisors of `n` (zero for `0` and `1`).
pub fn divisor_sum(n: usize) -> (r: usize)
    requires
        (n as int) * (n as int) <= usize::MAX,
    ensures
        r == divisor_sum_spec(n as nat),
{
    if n <= 1 {
        return 0;
    }
    let mut acc: usize = 0;
    let mut d: usize = 1;
    while d < n
        invariant
            1 <= d <= n,
            (n as int) * (n as int) <= usize::MAX,
            acc == divisor_sum_below(n as nat, d as nat),
        decreases n - d,
    {
        proof {
            lemma_dsb_le(n as nat, (d + 1) as nat);
            assert((d + 1) * n <= n * n) by (nonlinear_arith)
                requires
                    d + 1 <= n,
                    n >= 1,
            ;
        }
        if n % d == 0 {
            acc = acc + d;
        }
        d = d + 1;
    }
    acc
}

/// Returns the vector of proper-divisor sums for every number up to
/// `limit`: entry `n` is `divisor_sum(n)`.
pub fn divisor_sum_list(limit: usize) -> (r: Vec<usize>)
    requires
        (limit as int + 1) * (limit as int + 1) <= usize::MAX,
    ensures
        r@.len() == limit + 1,
        forall|j: int| 0 <= j <= limit ==> #[trigger] r@[j] == divisor_sum_spec(j as nat),
{
    proof {
        assert(limit as int + 2 * (limit as int) + 1 <= (limit as int + 1) * (limit as int
            + 1)) by (nonlinear_arith);
    }
    let mut xs: Vec<usize> = Vec::new();
    while xs.len() < limit + 1
        invariant
            xs@.len() <= limit + 1,
            limit < usize::MAX,
            forall|j: int| 0 <= j < xs@.len() ==> #[trigger] xs@[j] == 0,
        decreases limit + 1 - xs@.len(),
    {
        xs.push(0);
    }
    let mut i: usize = 1;
    while i < limit / 2 + 1
        invariant
            1 <= i <= limit / 2 + 1,
            xs@.len() == limit + 1,
            (limit as int + 1) * (limit as int + 1) <= usize::MAX,
            forall|m: int| 0 <= m <= limit ==> #[trigger] xs@[m] == divisor_sum_below(
                m as nat,
                i as nat,
            ),
        decreases limit / 2 + 1 - i,
    {
        proof {
            vstd::arithmetic::div_mod::lemma_fundamental_div_mod(limit as int, 2);
            assert((2 * (i as int)) % (i as int) == 0) by (nonlinear_arith)
                requires
                    i >= 1,
            ;
            assert(2 * (limit as int) + 1 <= (limit as int + 1) * (limit as int + 1))
                by (nonlinear_arith);
        }
        let mut j: usize = 2 * i;
        while j <= limit
            invariant
                1 <= i <= limit / 2,
                xs@.len() == limit + 1,
                (limit as int + 1) * (limit as int + 1) <= usize::MAX,
                j % i == 0,
                j >= 2 * i,
                j <= limit + i + 1,
                forall|m: int| 0 <= m <= limit ==> #[trigger] xs@[m] == divisor_sum_below(
                    m as nat,
                    i as nat,
                ) + (if m % (i as int) == 0 && m >= 2 * i && m < j { i as int } else { 0int }),
                2 * (limit as int) + 1 <= (limit as int + 1) * (limit as int + 1),
            decreases (if j <= limit { limit + 1 - (j as int) } else { 0int }),
        {
            proof {
                lemma_dsb_le(j as nat, i as nat);
                assert(i * j <= limit * (limit + 1)) by (nonlinear_arith)
                    requires
                        i <= limit,
                        j <= limit,
                        i >= 0,
                        j >= 0,
                ;
                assert(limit * (limit + 1) + limit < (limit + 1) * (limit + 1))
                    by (nonlinear_arith);
            }
            let v = xs[j];
            xs.set(j, v + i);
            let ghost old_j = j as int;
            j = j + i;
            proof {
                assert((j as int) % (i as int) == 0) by (nonlinear_arith)
                    requires
                        old_j % (i as int) == 0,
                        j == old_j + i,
                        i >= 1,
                ;
                assert forall|m: int|
                    0 <= m <= limit && #[trigger] (m % (i as int)) == 0 && m != old_j implies (
                m < old_j) == (m < j) by {
                    if old_j < m < j {
                        vstd::arithmetic::div_mod::lemma_fundamental_div_mod(m, i as int);
                        vstd::arithmetic::div_mod::lemma_fundamental_div_mod(old_j, i as int);
                        assert(false) by (nonlinear_arith)
                            requires
                                m == (i as int) * (m / (i as int)),
                                old_j == (i as int) * (old_j / (i as int)),
                                old_j < m < old_j + i,
                                i >= 1,
                        ;
                    }
                }
            }
        }
        proof {
            assert forall|m: int| 0 <= m <= limit implies #[trigger] xs@[m] == divisor_sum_below(
                m as nat,
                (i + 1) as nat,
            ) by {
                if m % (i as int) == 0 && m >= 2 * i {
                    assert((m as nat) % (i as nat) == 0) by (nonlinear_arith)
                        requires
                            m % (i as int) == 0,
                            m >= 0,
                            i >= 1,
                    ;
                    assert(i < m);
                } else {
                    if m % (i as int) == 0 && 0 < m && (i as int) < m {
                        vstd::arithmetic::div_mod::lemma_fundamental_div_mod(m, i as int);
                        assert(m >= 2 * i) by (nonlinear_arith)
                            requires
                                m == (i as int) * (m / (i as int)),
                                (i as int) < m,
                                i >= 1,
                        ;
                        assert(false);
                    }
                    assert((m as nat) % (i as nat) != 0 || m <= i || m == 0) by (nonlinear_arith)
                        requires
                            m % (i as int) != 0 || m <= i || m == 0,
                            m >= 0,
                            i >= 1,
                    ;
                }
            }
        }
        i = i + 1;
    }
    proof {
        assert forall|m: int| 0 <= m <= limit implies #[trigger] xs@[m] == divisor_sum_spec(
            m as nat,
        ) by {
            vstd::arithmetic::div_mod::lemma_div_is_ordered(m, limit as int, 2);
            lemma_dsb_flat(m as nat, i as nat);
            if m >= 1 {
                lemma_dsb_flat(m as nat, m as nat);
            } else {
                assert(divisor_sum_below(0nat, 1nat) == 0);
            }
        }
    }
    xs
}


/// Euler's totient of `n`: computed multiplicatively over the prime
/// factorization, peeling the smallest prime factor `p` of `n` with
/// `phi(n) = phi(n/p) * p` when `p` still divides `n/p` and
/// `phi(n) = phi(n/p) * (p - 1)` otherwise.
pub open spec fn phi_spec(n: nat) -> nat
    decreases n,
{
    if n <= 1 {
        n
    } else {
        let p = crate::primes::least_divisor(n, 2);
        if 2 <= p <= n && n / p < n {
            if (n / p) % p == 0 {
                phi_spec(n / p) * p
            } else {
                (phi_spec(n / p) * (p - 1)) as nat
            }
        } else {
            0
        }
    }
}

proof fn lemma_phi_bounds(n: nat)
    ensures
        n >= 1 ==> 1 <= phi_spec(n) <= n,
    decreases n,
{
    if n > 1 {
        crate::primes::lemma_ld_props(n, 2);
        let p = crate::primes::least_divisor(n, 2);
        crate::primes::lemma_div_shrinks(n, p);
        lemma_phi_bounds(n / p);
        assert(n / p >= 1) by (nonlinear_arith)
            requires
                n == (n / p) * p,
                n >= 2,
                2 <= p <= n,
        ;
        if (n / p) % p == 0 {
            assert(1 <= phi_spec(n / p) * p <= (n / p) * p) by (nonlinear_arith)
                requires
                    1 <= phi_spec(n / p) <= n / p,
                    p >= 2,
            ;
        } else {
            assert(1 <= phi_spec(n / p) * (p - 1) <= (n / p) * p) by (nonlinear_arith)
                requires
                    1 <= phi_spec(n / p) <= n / p,
                    p >= 2,
            ;
        }
    }
}

/// Returns Euler's totient of a single number.
fn phi_of(n: usize) -> (r: usize)
    ensures
        r == phi_spec(n as nat),
{
    if n <= 1 {
        return n;
    }
    let mut result: usize = 1;
    let mut m = n;
    let mut i: usize = 2;
    proof {
        lemma_phi_bounds(n as nat);
    }
    while m > 1
        invariant
            1 <= m <= n,
            2 <= i,
            n >= 2,
            result * phi_spec(m as nat) == phi_spec(n as nat),
            phi_spec(n as nat) <= n,
            phi_spec(m as nat) >= 1,
            forall|d: nat| 2 <= d < i ==> #[trigger] ((m as nat) % d) != 0,
        decreases m, (if i <= m { m - i } else { 0int }),
    {
        proof {
            if i > m {
                assert((m as nat) % (m as nat) == 0) by (nonlinear_arith)
                    requires
                        m >= 2,
                ;
                assert(false);
            }
        }
        if m % i == 0 {
            proof {
                crate::primes::lemma_least_divisor_skip(m as nat, 2, i as nat);
                assert(crate::primes::least_divisor(m as nat, i as nat) == i as nat);
                crate::primes::lemma_div_shrinks(m as nat, i as nat);
                lemma_phi_bounds((m / i) as nat);
                assert((m / i) as nat >= 1) by (nonlinear_arith)
                    requires
                        m as nat == ((m / i) as nat) * (i as nat),
                        m >= 2,
                        2 <= i <= m,
                ;
                if (m / i) % i == 0 {
                    assert(phi_spec(m as nat) == phi_spec((m / i) as nat) * (i as nat));
                } else {
                    assert(phi_spec(m as nat) == phi_spec((m / i) as nat) * ((i - 1) as nat));
                }
            }
            let ghost old_m = m as nat;
            let ghost old_result = result as nat;
            m = m / i;
            let factor = if m % i == 0 {
                i
            } else {
                i - 1
            };
            proof {
                assert(old_result * (phi_spec(m as nat) * (factor as nat)) == phi_spec(
                    n as nat,
                ));
                assert((old_result * (factor as nat)) * phi_spec(m as nat) == old_result * (
                phi_spec(m as nat) * (factor as nat))) by (nonlinear_arith);
                assert(old_result * (factor as nat) <= phi_spec(n as nat)) by (nonlinear_arith)
                    requires
                        (old_result * (factor as nat)) * phi_spec(m as nat) == phi_spec(
                            n as nat,
                        ),
                        phi_spec(m as nat) >= 1,
                ;
            }
            result = result * factor;
            proof {
                // Primes below `i` no longer divide the quotient.
                assert forall|d: nat| 2 <= d < i implies #[trigger] ((m as nat) % d) != 0 by {
                    if (m as nat) % d == 0 {
                        vstd::arithmetic::div_mod::lemma_mod_multiples_basic(
                            i as int,
                            m as int,
                        );
                        crate::primes::lemma_mod_trans(old_m, m as nat, d);
                        assert(false);
                    }
                }
            }
        } else {
            i = i + 1;
        }
    }
    proof {
        assert(result * 1 == result);
    }
    result
}

/// Returns the totients `[phi(0), phi(1), ..., phi(d)]`.
pub fn phis(d: usize) -> (r: Vec<usize>)
    requires
        d < usize::MAX,
    ensures
        r@.len() == d + 1,
        forall|t: int| 0 <= t <= d ==> #[trigger] r@[t] == phi_spec(t as nat),
{
    let mut r: Vec<usize> = Vec::new();
    let mut t: usize = 0;
    while t < d + 1
        invariant
            t <= d + 1,
            d < usize::MAX,
            r@.len() == t,
            forall|u: int| 0 <= u < t ==> #[trigger] r@[u] == phi_spec(u as nat),
        decreases d + 1 - t,
    {
        let v = phi_of(t);
        r.push(v);
        t = t + 1;
    }
    r
}

/// Returns `(numerator, denominator)` of the continued fraction
/// `a0 + 1/(xs[0] + 1/(xs[1] + ...))` over machine words; the caller
/// guarantees that every convergent fits.
pub fn continued_fraction(a0: usize, xs: Vec<usize>) -> (r: (usize, usize))
    requires
        forall|j: int| 0 <= j < xs@.len() + 1 ==> #[trigger] crate::big::cf_num(
            crate::big::to_nats(xs@.insert(0, a0).subrange(j, xs@.len() as int + 1)),
        ) <= usize::MAX,
    ensures
        r.0 == crate::big::cf_num(crate::big::to_nats(xs@.insert(0, a0))),
        r.1 == crate::big::cf_den(crate::big::to_nats(xs@.insert(0, a0))),
{
    let ghost orig = xs@;
    let mut ys = xs;
    ys.insert(0, a0);
    let ghost full = ys@;
    proof {
        assert(full == orig.insert(0, a0));
    }
    let mut j: usize = ys.len() - 1;
    let mut n: usize = ys[j];
    let mut d: usize = 1;
    assert(crate::big::to_nats(full.subrange(j as int, full.len() as int)) =~= seq![full[j as int] as nat]);
    while j > 0
        invariant
            full == ys@,
            j < ys@.len(),
            full == orig.insert(0, a0),
            forall|u: int| 0 <= u < full.len() ==> #[trigger] crate::big::cf_num(
                crate::big::to_nats(orig.insert(0, a0).subrange(u, orig.len() as int + 1)),
            ) <= usize::MAX,
            n == crate::big::cf_num(crate::big::to_nats(full.subrange(j as int, full.len() as int))),
            d == crate::big::cf_den(crate::big::to_nats(full.subrange(j as int, full.len() as int))),
        decreases j,
    {
        j = j - 1;
        proof {
            let suf = crate::big::to_nats(full.subrange(j + 1, full.len() as int));
            let cur = crate::big::to_nats(full.subrange(j as int, full.len() as int));
            assert(cur.drop_first() =~= suf);
            assert(cur[0] == full[j as int] as nat);
            assert(crate::big::cf_num(cur) == cur[0] * crate::big::cf_num(suf)
                + crate::big::cf_den(suf));
            assert(crate::big::cf_den(cur) == crate::big::cf_num(suf));
            assert(full.subrange(j as int, full.len() as int) =~= orig.insert(0, a0).subrange(
                j as int,
                orig.len() as int + 1,
            ));
            assert(crate::big::cf_num(cur) <= usize::MAX);
        }
        let a = ys[j];
        let new_n = a * n + d;
        d = n;
        n = new_n;
    }
    proof {
        assert(full.subrange(0, full.len() as int) =~= full);
    }
    (n, d)
}


/// Lexicographic order on tuples, as the standard slice ordering: a proper
/// prefix comes first, otherwise the first differing entry decides.
pub open spec fn lex_le(a: Seq<usize>, b: Seq<usize>) -> bool
    decreases a.len(),
{
    if a.len() == 0 {
        true
    } else if b.len() == 0 {
        false
    } else if a[0] < b[0] {
        true
    } else if a[0] > b[0] {
        false
    } else {
        lex_le(a.drop_first(), b.drop_first())
    }
}

/// The lexicographic order as a first-class relation, for sorting.
pub open spec fn lex_leq() -> spec_fn(Seq<usize>, Seq<usize>) -> bool {
    |a: Seq<usize>, b: Seq<usize>| lex_le(a, b)
}

proof fn lemma_lex_refl(a: Seq<usize>)
    ensures
        lex_le(a, a),
    decreases a.len(),
{
    if a.len() > 0 {
        lemma_lex_refl(a.drop_first());
    }
}

proof fn lemma_lex_conn(a: Seq<usize>, b: Seq<usize>)
    ensures
        lex_le(a, b) || lex_le(b, a),
    decreases a.len(),
{
    if a.len() > 0 && b.len() > 0 && a[0] == b[0] {
        lemma_lex_conn(a.drop_first(), b.drop_first());
    }
}

proof fn lemma_lex_antisym(a: Seq<usize>, b: Seq<usize>)
    requires
        lex_le(a, b),
        lex_le(b, a),
    ensures
        a == b,
    decreases a.len(),
{
    if a.len() == 0 {
        assert(b.len() == 0);
        assert(a =~= b);
    } else {
        assert(b.len() > 0);
        assert(a[0] == b[0]);
        lemma_lex_antisym(a.drop_first(), b.drop_first());
        assert(a.drop_first() == b.drop_first());
        assert(a.drop_first().len() == b.drop_first().len());
        assert(a.len() == b.len());
        assert forall|i: int| 0 <= i < a.len() implies a[i] == b[i] by {
            if i > 0 {
                assert(a[i] == a.drop_first()[i - 1]);
                assert(b[i] == b.drop_first()[i - 1]);
            }
        }
        assert(a =~= b);
    }
}

proof fn lemma_lex_trans(a: Seq<usize>, b: Seq<usize>, c: Seq<usize>)
    requires
        lex_le(a, b),
        lex_le(b, c),
    ensures
        lex_le(a, c),
    decreases a.len(),
{
    if a.len() > 0 {
        assert(b.len() > 0);
        assert(c.len() > 0);
        if a[0] == b[0] && b[0] == c[0] {
            lemma_lex_trans(a.drop_first(), b.drop_first(), c.drop_first());
        }
    }
}

/// The lexicographic order is a total order on tuples.
pub proof fn lemma_lex_total_ordering()
    ensures
        vstd::relations::total_ordering(lex_leq()),
{
    let leq = lex_leq();
    assert forall|a: Seq<usize>| #[trigger] leq(a, a) by {
        lemma_lex_refl(a);
    }
    assert forall|a: Seq<usize>, b: Seq<usize>| #[trigger] leq(a, b) && #[trigger] leq(b, a)
        implies a == b by {
        lemma_lex_antisym(a, b);
    }
    assert forall|a: Seq<usize>, b: Seq<usize>, c: Seq<usize>|
        #[trigger] leq(a, b) && #[trigger] leq(b, c) implies leq(a, c) by {
        lemma_lex_trans(a, b, c);
    }
    assert forall|a: Seq<usize>, b: Seq<usize>| true implies #[trigger] leq(a, b) || #[trigger] leq(
        b,
        a,
    ) by {
        lemma_lex_conn(a, b);
    }
}

/// The views of a list of tuples.
pub open spec fn tuple_views(s: Seq<Vec<usize>>) -> Seq<Seq<usize>> {
    s.map_values(|v: Vec<usize>| v@)
}

fn clone_tuple(v: &Vec<usize>) -> (r: Vec<usize>)
    ensures
        r@ == v@,
{
    let mut r: Vec<usize> = Vec::new();
    let mut i: usize = 0;
    while i < v.len()
        invariant
            i <= v@.len(),
            r@ == v@.take(i as int),
        decreases v@.len() - i,
    {
        r.push(v[i]);
        proof {
            assert(v@.take(i + 1) =~= v@.take(i as int).push(v@[i as int]));
        }
        i = i + 1;
    }
    proof {
        assert(v@.take(v@.len() as int) =~= v@);
    }
    r
}

fn lex_le_exec(a: &Vec<usize>, b: &Vec<usize>) -> (r: bool)
    ensures
        r == lex_le(a@, b@),
{
    let mut i: usize = 0;
    proof {
        assert(a@.skip(0) =~= a@);
        assert(b@.skip(0) =~= b@);
    }
    while i < a.len() && i < b.len()
        invariant
            i <= a@.len(),
            i <= b@.len(),
            lex_le(a@, b@) == lex_le(a@.skip(i as int), b@.skip(i as int)),
            forall|u: int| 0 <= u < i ==> a@[u] == b@[u],
        decreases a@.len() - i,
    {
        proof {
            let sa = a@.skip(i as int);
            let sb = b@.skip(i as int);
            assert(sa[0] == a@[i as int] && sb[0] == b@[i as int]);
            assert(sa.drop_first() =~= a@.skip(i + 1));
            assert(sb.drop_first() =~= b@.skip(i + 1));
        }
        if a[i] < b[i] {
            return true;
        }
        if a[i] > b[i] {
            return false;
        }
        i = i + 1;
    }
    proof {
        let sa = a@.skip(i as int);
        let sb = b@.skip(i as int);
        if i >= a.len() {
            assert(sa.len() == 0);
        } else {
            assert(sb.len() == 0 && sa.len() > 0);
        }
    }
    a.len() <= b.len()
}

/// Sorts a list of tuples lexicographically: the result is the (unique)
/// `sort_by(lex_leq())` of the input views.
fn sort_tuples(v: Vec<Vec<usize>>) -> (r: Vec<Vec<usize>>)
    ensures
        tuple_views(r@) == tuple_views(v@).sort_by(lex_leq()),
{
    let mut r: Vec<Vec<usize>> = Vec::new();
    let mut t: usize = 0;
    proof {
        assert(tuple_views(v@.take(0)) =~= Seq::<Seq<usize>>::empty());
        assert(tuple_views(r@) =~= Seq::<Seq<usize>>::empty());
    }
    while t < v.len()
        invariant
            t <= v@.len(),
            tuple_views(r@).to_multiset() == tuple_views(v@.take(t as int)).to_multiset(),
            vstd::relations::sorted_by(tuple_views(r@), lex_leq()),
        decreases v@.len() - t,
    {
        let x = clone_tuple(&v[t]);
        let ghost xv = x@;
        let mut p: usize = 0;
        while p < r.len() && lex_le_exec(&r[p], &x)
            invariant
                p <= r@.len(),
                xv == x@,
                forall|u: int| 0 <= u < p ==> lex_le(#[trigger] r@[u]@, xv),
            decreases r@.len() - p,
        {
            p = p + 1;
        }
        let ghost old_r = r@;
        r.insert(p, x);
        proof {
            broadcast use vstd::seq_lib::to_multiset_insert;
            broadcast use vstd::seq_lib::to_multiset_build;

            assert(tuple_views(r@) =~= tuple_views(old_r).insert(p as int, xv));
            assert(tuple_views(v@.take(t + 1)) =~= tuple_views(v@.take(t as int)).push(
                v@[t as int]@,
            ));
            assert(v@[t as int]@ == xv);
            assert(tuple_views(r@).to_multiset() =~= tuple_views(v@.take(t + 1)).to_multiset());
            let leq = lex_leq();
            assert forall|i: int, j: int| 0 <= i < j < tuple_views(r@).len() implies #[trigger] leq(
                tuple_views(r@)[i],
                tuple_views(r@)[j],
            ) by {
                let rv = tuple_views(r@);
                let ov = tuple_views(old_r);
                if p < old_r.len() {
                    assert(!lex_le(ov[p as int], xv));
                    lemma_lex_conn(ov[p as int], xv);
                    assert(lex_le(xv, ov[p as int]));
                }
                assert(forall|u: int| 0 <= u < p ==> rv[u] == ov[u]);
                assert(forall|u: int| p < u < rv.len() ==> rv[u] == ov[u - 1]);
                assert(rv[p as int] == xv);
                if j < p {
                    assert(leq(ov[i], ov[j]));
                } else if i > p {
                    assert(leq(ov[i - 1], ov[j - 1]));
                } else if i == p {
                    assert(rv[j] == ov[j - 1]);
                    assert(p < ov.len());
                    assert(lex_le(xv, ov[p as int]));
                    if j - 1 > p {
                        assert(leq(ov[p as int], ov[j - 1]));
                        lemma_lex_trans(xv, ov[p as int], ov[j - 1]);
                    }
                } else if j == p {
                    assert(lex_le(ov[i], xv));
                } else {
                    assert(lex_le(ov[i], xv));
                    if j - 1 == p {
                        assert(p < ov.len());
                        assert(lex_le(xv, ov[p as int]));
                        lemma_lex_trans(ov[i], xv, ov[j - 1]);
                    } else {
                        assert(p < ov.len());
                        assert(lex_le(xv, ov[p as int]));
                        assert(leq(ov[p as int], ov[j - 1]));
                        lemma_lex_trans(xv, ov[p as int], ov[j - 1]);
                        lemma_lex_trans(ov[i], xv, ov[j - 1]);
                    }
                }
            }
        }
        t = t + 1;
    }
    proof {
        assert(v@.take(v@.len() as int) =~= v@);
        lemma_lex_total_ordering();
        tuple_views(v@).lemma_sort_by_ensures(lex_leq());
        vstd::seq_lib::lemma_sorted_unique(
            tuple_views(r@),
            tuple_views(v@).sort_by(lex_leq()),
            lex_leq(),
        );
    }
    r
}


/// All tuples of `ts`, each extended by one entry of `l`, in order.
pub open spec fn extend_all(ts: Seq<Seq<usize>>, l: Seq<usize>) -> Seq<Seq<usize>> {
    ts.map_values(|t: Seq<usize>| l.map_values(|y: usize| t.push(y))).flatten()
}

/// The cartesian product of the lists, tuples ordered with the first list
/// outermost; the empty family gives the single empty tuple.
pub open spec fn tuples_spec(lists: Seq<Seq<usize>>) -> Seq<Seq<usize>>
    decreases lists.len(),
{
    if lists.len() == 0 {
        seq![Seq::<usize>::empty()]
    } else {
        extend_all(tuples_spec(lists.drop_last()), lists.last())
    }
}

/// One extension step of the product construction.
fn extend_step(acc: &Vec<Vec<usize>>, l: &Vec<usize>) -> (r: Vec<Vec<usize>>)
    ensures
        tuple_views(r@) == extend_all(tuple_views(acc@), l@),
{
    let mut out: Vec<Vec<usize>> = Vec::new();
    let ghost av = tuple_views(acc@);
    let ghost blocks = av.map_values(|t: Seq<usize>| l@.map_values(|y: usize| t.push(y)));
    let mut ti: usize = 0;
    proof {
        assert(blocks.take(0) =~= Seq::<Seq<Seq<usize>>>::empty());
        assert(blocks.take(0).flatten() =~= Seq::<Seq<usize>>::empty());
        assert(tuple_views(out@) =~= Seq::<Seq<usize>>::empty());
    }
    while ti < acc.len()
        invariant
            ti <= acc@.len(),
            av == tuple_views(acc@),
            blocks == av.map_values(|t: Seq<usize>| l@.map_values(|y: usize| t.push(y))),
            tuple_views(out@) == blocks.take(ti as int).flatten(),
        decreases acc@.len() - ti,
    {
        let t = &acc[ti];
        let mut yi: usize = 0;
        while yi < l.len()
            invariant
                ti < acc@.len(),
                yi <= l@.len(),
                av == tuple_views(acc@),
                blocks == av.map_values(|t2: Seq<usize>| l@.map_values(|y: usize| t2.push(y))),
                t@ == av[ti as int],
                tuple_views(out@) == blocks.take(ti as int).flatten() + blocks[ti as int].take(
                    yi as int,
                ),
            decreases l@.len() - yi,
        {
            let mut tmp = clone_tuple(t);
            tmp.push(l[yi]);
            out.push(tmp);
            proof {
                assert(blocks[ti as int][yi as int] == av[ti as int].push(l@[yi as int]));
                assert(blocks[ti as int].take(yi + 1) =~= blocks[ti as int].take(
                    yi as int,
                ).push(av[ti as int].push(l@[yi as int])));
                assert(tuple_views(out@) =~= (blocks.take(ti as int).flatten() + blocks[
                    ti as int].take(yi as int)).push(av[ti as int].push(l@[yi as int])));
                assert(tuple_views(out@) =~= blocks.take(ti as int).flatten() + blocks[
                    ti as int].take(yi + 1));
            }
            yi = yi + 1;
        }
        proof {
            assert(blocks[ti as int].take(l@.len() as int) =~= blocks[ti as int]);
            assert(blocks.take(ti + 1) =~= blocks.take(ti as int).push(blocks[ti as int]));
            blocks.take(ti as int).lemma_flatten_push(blocks[ti as int]);
            assert(tuple_views(out@) == blocks.take(ti + 1).flatten());
        }
        ti = ti + 1;
    }
    proof {
        assert(blocks.take(blocks.len() as int) =~= blocks);
    }
    out
}

/// Returns the cartesian product of the given lists: every way of picking
/// one entry from each, ordered with the first list outermost.  An empty
/// family gives an empty product, as a degenerate case.
pub fn cartesian_product(lists: &[Vec<usize>]) -> (r: Vec<Vec<usize>>)
    ensures
        lists@.len() == 0 ==> r@.len() == 0,
        lists@.len() > 0 ==> tuple_views(r@) == tuples_spec(tuple_views(lists@)),
{
    if lists.len() == 0 {
        let r: Vec<Vec<usize>> = Vec::new();
        return r;
    }
    let ghost lv = tuple_views(lists@);
    let mut acc: Vec<Vec<usize>> = Vec::new();
    let mut empty: Vec<usize> = Vec::new();
    acc.push(empty);
    proof {
        assert(tuple_views(acc@) =~= seq![Seq::<usize>::empty()]);
        assert(lv.take(0) =~= Seq::<Seq<usize>>::empty());
        assert(tuples_spec(lv.take(0)) =~= seq![Seq::<usize>::empty()]);
    }
    let mut k: usize = 0;
    while k < lists.len()
        invariant
            k <= lists@.len(),
            lv == tuple_views(lists@),
            tuple_views(acc@) == tuples_spec(lv.take(k as int)),
        decreases lists@.len() - k,
    {
        let next = extend_step(&acc, &lists[k]);
        acc = next;
        proof {
            assert(lv.take(k + 1).drop_last() =~= lv.take(k as int));
            assert(lv.take(k + 1).last() == lv[k as int]);
            assert(lv[k as int] == lists@[k as int]@);
        }
        k = k + 1;
    }
    proof {
        assert(lv.take(lv.len() as int) =~= lv);
    }
    acc
}

/// Returns `n` copies of the given value.
pub fn replicate(n: usize, elt: usize) -> (r: Vec<usize>)
    ensures
        r@ == Seq::new(n as nat, |i: int| elt),
{
    let mut r: Vec<usize> = Vec::new();
    while r.len() < n
        invariant
            r@.len() <= n,
            forall|u: int| 0 <= u < r@.len() ==> #[trigger] r@[u] == elt,
        decreases n - r@.len(),
    {
        r.push(elt);
    }
    proof {
        assert(r@ =~= Seq::new(n as nat, |i: int| elt));
    }
    r
}

/// Returns all length-`k` tuples over `xs`, ordered, repetition allowed:
/// the cartesian product of `k` copies of `xs`.
pub fn perms_with_reps(k: usize, xs: &[usize]) -> (r: Vec<Vec<usize>>)
    ensures
        k == 0 ==> r@.len() == 0,
        k > 0 ==> tuple_views(r@) == tuples_spec(Seq::new(k as nat, |i: int| xs@)),
{
    let mut copies: Vec<Vec<usize>> = Vec::new();
    while copies.len() < k
        invariant
            copies@.len() <= k,
            forall|u: int| 0 <= u < copies@.len() ==> #[trigger] copies@[u]@ == xs@,
        decreases k - copies@.len(),
    {
        let mut c: Vec<usize> = Vec::new();
        let mut i: usize = 0;
        while i < xs.len()
            invariant
                i <= xs@.len(),
                c@ == xs@.take(i as int),
            decreases xs@.len() - i,
        {
            c.push(xs[i]);
            proof {
                assert(xs@.take(i + 1) =~= xs@.take(i as int).push(xs@[i as int]));
            }
            i = i + 1;
        }
        proof {
            assert(xs@.take(xs@.len() as int) =~= xs@);
        }
        copies.push(c);
    }
    let r = cartesian_product(copies.as_slice());
    proof {
        assert(tuple_views(copies@) =~= Seq::new(k as nat, |i: int| xs@));
    }
    r
}


/// Each tuple of `ts` extended by the single value `x`.
pub open spec fn push_all(ts: Seq<Seq<usize>>, x: usize) -> Seq<Seq<usize>> {
    ts.map_values(|t: Seq<usize>| t.push(x))
}

/// The tuples of `ts` that do not contain `x`.
pub open spec fn keep_without(ts: Seq<Seq<usize>>, x: usize) -> Seq<Seq<usize>> {
    ts.filter(|t: Seq<usize>| !t.contains(x))
}

/// One singleton tuple per entry of `xs`.
pub open spec fn singletons(xs: Seq<usize>) -> Seq<Seq<usize>> {
    xs.map_values(|x: usize| seq![x])
}

/// For each `x` of `xs`, the block of tuples of `ts` extended by `x`.
pub open spec fn blocks_of(ts: Seq<Seq<usize>>, xs: Seq<usize>) -> Seq<Seq<Seq<usize>>> {
    xs.map_values(|x: usize| push_all(ts, x))
}

/// For each `x` of `xs`, the block of tuples of `ts` not containing `x`,
/// extended by `x`.
pub open spec fn distinct_blocks_of(ts: Seq<Seq<usize>>, xs: Seq<usize>) -> Seq<Seq<Seq<usize>>> {
    xs.map_values(|x: usize| push_all(keep_without(ts, x), x))
}

/// The list of tuples as `k_nested_recur` produces it: a lone empty tuple
/// for zero picks, one singleton per entry in input order for one pick,
/// and otherwise the build from the shorter tuples, sorted.
pub open spec fn k_nested_spec(k: nat, xs: Seq<usize>) -> Seq<Seq<usize>>
    decreases k, 1nat,
{
    if k == 0 {
        seq![Seq::<usize>::empty()]
    } else if k == 1 {
        singletons(xs)
    } else {
        k_nested_build(k, xs).sort_by(lex_leq())
    }
}

/// The build order before sorting: for each `x` of `xs`, every shorter
/// tuple extended by `x`.
pub open spec fn k_nested_build(k: nat, xs: Seq<usize>) -> Seq<Seq<usize>>
    decreases k, 0nat,
{
    if k == 0 {
        seq![Seq::<usize>::empty()]
    } else if k == 1 {
        singletons(xs)
    } else {
        blocks_of(k_nested_spec((k - 1) as nat, xs), xs).flatten()
    }
}

fn build_singletons(xs: &[usize]) -> (list: Vec<Vec<usize>>)
    ensures
        tuple_views(list@) == singletons(xs@),
{
    let mut list: Vec<Vec<usize>> = Vec::new();
    let mut i: usize = 0;
    proof {
        assert(tuple_views(list@) =~~= singletons(xs@.take(0)));
    }
    while i < xs.len()
        invariant
            i <= xs@.len(),
            tuple_views(list@) == singletons(xs@.take(i as int)),
        decreases xs@.len() - i,
    {
        let mut c: Vec<usize> = Vec::new();
        c.push(xs[i]);
        let ghost cv = c@;
        let ghost oldv = tuple_views(list@);
        list.push(c);
        proof {
            assert(tuple_views(list@) =~~= oldv.push(cv));
            assert(xs@.take(i + 1) =~= xs@.take(i as int).push(xs@[i as int]));
            assert(cv =~= seq![xs@[i as int]]);
            assert(oldv.push(cv) =~~= singletons(xs@.take(i + 1)));
        }
        i = i + 1;
    }
    proof {
        assert(xs@.take(xs@.len() as int) =~= xs@);
    }
    list
}

/// Returns all `k`-fold nested-loop picks from `xs`: sorted
/// lexicographically for two or more picks, one singleton per entry in
/// input order for a single pick.
pub fn k_nested_recur(k: usize, xs: &[usize]) -> (r: Vec<Vec<usize>>)
    ensures
        tuple_views(r@) == k_nested_spec(k as nat, xs@),
    decreases k,
{
    if k == 0 {
        let mut r: Vec<Vec<usize>> = Vec::new();
        let empty: Vec<usize> = Vec::new();
        r.push(empty);
        proof {
            assert(tuple_views(r@) =~= seq![Seq::<usize>::empty()]);
        }
        return r;
    }
    if k == 1 {
        let r = build_singletons(xs);
        return r;
    }
    let list: Vec<Vec<usize>>;
    {
        let ts = k_nested_recur(k - 1, xs);
        let ghost tv = tuple_views(ts@);
        let ghost blocks = blocks_of(tv, xs@);
        let mut out: Vec<Vec<usize>> = Vec::new();
        let mut i: usize = 0;
        proof {
            assert(blocks.take(0).flatten() =~= Seq::<Seq<usize>>::empty());
            assert(tuple_views(out@) =~= Seq::<Seq<usize>>::empty());
        }
        while i < xs.len()
            invariant
                i <= xs@.len(),
                tv == tuple_views(ts@),
                tv == k_nested_spec((k - 1) as nat, xs@),
                blocks == blocks_of(tv, xs@),
                tuple_views(out@) == blocks.take(i as int).flatten(),
            decreases xs@.len() - i,
        {
            let x = xs[i];
            let mut u: usize = 0;
            proof {
                assert(blocks[i as int] == push_all(tv, x));
                assert(push_all(tv.take(0), x) =~= Seq::<Seq<usize>>::empty());
            }
            while u < ts.len()
                invariant
                    i < xs@.len(),
                    u <= ts@.len(),
                    x == xs@[i as int],
                    tv == tuple_views(ts@),
                    blocks == blocks_of(tv, xs@),
                    blocks[i as int] == push_all(tv, x),
                    tuple_views(out@) == blocks.take(i as int).flatten() + push_all(
                        tv.take(u as int),
                        x,
                    ),
                decreases ts@.len() - u,
            {
                let mut tmp = clone_tuple(&ts[u]);
                tmp.push(x);
                let ghost tmpv = tmp@;
                let ghost oldv = tuple_views(out@);
                out.push(tmp);
                proof {
                    assert(tuple_views(out@) =~~= oldv.push(tmpv));
                    assert(tv.take(u + 1) =~= tv.take(u as int).push(tv[u as int]));
                    assert(push_all(tv.take(u + 1), x) =~~= push_all(tv.take(u as int), x).push(
                        tv[u as int].push(x),
                    ));
                    assert(tmpv == tv[u as int].push(x));
                    assert(oldv.push(tmpv) =~~= blocks.take(i as int).flatten() + push_all(
                        tv.take(u + 1),
                        x,
                    ));
                    assert(tuple_views(out@) =~~= blocks.take(i as int).flatten() + push_all(
                        tv.take(u + 1),
                        x,
                    ));
                }
                u = u + 1;
            }
            proof {
                assert(tv.take(tv.len() as int) =~= tv);
                assert(blocks.take(i + 1) =~= blocks.take(i as int).push(blocks[i as int]));
                blocks.take(i as int).lemma_flatten_push(blocks[i as int]);
            }
            i = i + 1;
        }
        proof {
            assert(blocks.take(blocks.len() as int) =~= blocks);
        }
        list = out;
    }
    proof {
        assert(tuple_views(list@) == k_nested_build(k as nat, xs@));
    }
    let r = sort_tuples(list);
    proof {
        assert(k >= 2);
    }
    r
}

/// The list of tuples as `perms_without_reps_recur` produces it: a lone
/// empty tuple for zero picks, one singleton per entry in input order for
/// one pick, and otherwise each shorter permutation extended by a value it
/// does not yet hold, sorted.
pub open spec fn perms_spec(k: nat, xs: Seq<usize>) -> Seq<Seq<usize>>
    decreases k, 1nat,
{
    if k == 0 {
        seq![Seq::<usize>::empty()]
    } else if k == 1 {
        singletons(xs)
    } else {
        perms_build(k, xs).sort_by(lex_leq())
    }
}

/// The build order before sorting: for each `x` of `xs`, every shorter
/// permutation not already holding `x`, extended by `x`.
pub open spec fn perms_build(k: nat, xs: Seq<usize>) -> Seq<Seq<usize>>
    decreases k, 0nat,
{
    if k == 0 {
        seq![Seq::<usize>::empty()]
    } else if k == 1 {
        singletons(xs)
    } else {
        distinct_blocks_of(perms_spec((k - 1) as nat, xs), xs).flatten()
    }
}

fn contains_val(v: &Vec<usize>, x: usize) -> (r: bool)
    ensures
        r == v@.contains(x),
{
    let mut i: usize = 0;
    while i < v.len()
        invariant
            i <= v@.len(),
            forall|u: int| 0 <= u < i ==> v@[u] != x,
        decreases v@.len() - i,
    {
        if v[i] == x {
            return true;
        }
        i = i + 1;
    }
    false
}

/// Returns all length-`k` tuples of distinct entries of `xs`: sorted
/// lexicographically for two or more picks, one singleton per entry in
/// input order for a single pick.
pub fn perms_without_reps_recur(k: usize, xs: &[usize]) -> (r: Vec<Vec<usize>>)
    ensures
        tuple_views(r@) == perms_spec(k as nat, xs@),
    decreases k,
{
    if k == 0 {
        let mut r: Vec<Vec<usize>> = Vec::new();
        let empty: Vec<usize> = Vec::new();
        r.push(empty);
        proof {
            assert(tuple_views(r@) =~= seq![Seq::<usize>::empty()]);
        }
        return r;
    }
    if k == 1 {
        let r = build_singletons(xs);
        return r;
    }
    let list: Vec<Vec<usize>>;
    {
        let ts = perms_without_reps_recur(k - 1, xs);
        let ghost tv = tuple_views(ts@);
        let ghost blocks = distinct_blocks_of(tv, xs@);
        let mut out: Vec<Vec<usize>> = Vec::new();
        let mut i: usize = 0;
        proof {
            assert(blocks.take(0).flatten() =~= Seq::<Seq<usize>>::empty());
            assert(tuple_views(out@) =~= Seq::<Seq<usize>>::empty());
        }
        while i < xs.len()
            invariant
                i <= xs@.len(),
                tv == tuple_views(ts@),
                tv == perms_spec((k - 1) as nat, xs@),
                blocks == distinct_blocks_of(tv, xs@),
                tuple_views(out@) == blocks.take(i as int).flatten(),
            decreases xs@.len() - i,
        {
            let x = xs[i];
            let mut u: usize = 0;
            proof {
                reveal(Seq::filter);
                assert(blocks[i as int] == push_all(keep_without(tv, x), x));
                assert(keep_without(tv.take(0), x) =~= Seq::<Seq<usize>>::empty());
                assert(push_all(keep_without(tv.take(0), x), x)
                    =~= Seq::<Seq<usize>>::empty());
            }
            while u < ts.len()
                invariant
                    i < xs@.len(),
                    u <= ts@.len(),
                    x == xs@[i as int],
                    tv == tuple_views(ts@),
                    blocks == distinct_blocks_of(tv, xs@),
                    blocks[i as int] == push_all(keep_without(tv, x), x),
                    tuple_views(out@) == blocks.take(i as int).flatten() + push_all(
                        keep_without(tv.take(u as int), x),
                        x,
                    ),
                decreases ts@.len() - u,
            {
                proof {
                    assert(tv.take(u + 1) =~= tv.take(u as int).push(tv[u as int]));
                    assert(tv.take(u + 1).drop_last() =~= tv.take(u as int));
                }
                if !contains_val(&ts[u], x) {
                    let mut tmp = clone_tuple(&ts[u]);
                    tmp.push(x);
                    let ghost tmpv = tmp@;
                    let ghost oldv = tuple_views(out@);
                    out.push(tmp);
                    proof {
                        reveal(Seq::filter);
                        assert(tuple_views(out@) =~~= oldv.push(tmpv));
                        assert(keep_without(tv.take(u + 1), x) =~~= keep_without(
                            tv.take(u as int),
                            x,
                        ).push(tv[u as int]));
                        assert(push_all(keep_without(tv.take(u + 1), x), x) =~~= push_all(
                            keep_without(tv.take(u as int), x),
                            x,
                        ).push(tv[u as int].push(x)));
                        assert(tmpv == tv[u as int].push(x));
                        assert(tuple_views(out@) =~~= blocks.take(i as int).flatten()
                            + push_all(keep_without(tv.take(u + 1), x), x));
                    }
                } else {
                    proof {
                        reveal(Seq::filter);
                        assert(keep_without(tv.take(u + 1), x) =~~= keep_without(
                            tv.take(u as int),
                            x,
                        ));
                    }
                }
                u = u + 1;
            }
            proof {
                assert(tv.take(tv.len() as int) =~= tv);
                assert(blocks.take(i + 1) =~= blocks.take(i as int).push(blocks[i as int]));
                blocks.take(i as int).lemma_flatten_push(blocks[i as int]);
            }
            i = i + 1;
        }
        proof {
            assert(blocks.take(blocks.len() as int) =~= blocks);
        }
        list = out;
    }
    proof {
        assert(tuple_views(list@) == perms_build(k as nat, xs@));
    }
    let r = sort_tuples(list);
    proof {
        assert(k >= 2);
    }
    r
}



/// The `m` of step `k` of the continued-fraction expansion of the square
/// root of `n` (with `a0` its integer square root): `m(0) = 0` and
/// `m(k+1) = d(k) a(k) - m(k)`.
pub open spec fn cf_m(n: nat, a0: nat, k: nat) -> int
    decreases k, 1nat,
{
    if k == 0 {
        0
    } else {
        cf_d(n, a0, (k - 1) as nat) * cf_a(n, a0, (k - 1) as nat) - cf_m(n, a0, (k - 1) as nat)
    }
}

/// The `d` of step `k`: `d(0) = 1` and `d(k+1) = (n - m(k+1)^2) / d(k)`.
pub open spec fn cf_d(n: nat, a0: nat, k: nat) -> int
    decreases k, 2nat,
{
    if k == 0 {
        1
    } else {
        let m1 = cf_m(n, a0, k);
        let dprev = cf_d(n, a0, (k - 1) as nat);
        if dprev != 0 {
            (n - m1 * m1) / dprev
        } else {
            0
        }
    }
}

/// The term `a(k) = (a0 + m(k)) / d(k)` of the expansion.
pub open spec fn cf_a(n: nat, a0: nat, k: nat) -> int
    decreases k, 3nat,
{
    if cf_d(n, a0, k) != 0 {
        (a0 + cf_m(n, a0, k)) / cf_d(n, a0, k)
    } else {
        0
    }
}

/// The integer square root of `n`, as a mathematical function.
pub open spec fn sqrt_floor(n: nat) -> nat {
    choose|a: nat| #[trigger] (a * a) <= n && (a + 1) * (a + 1) > n
}

proof fn lemma_sqrt_floor_eq(n: nat, a0: nat)
    requires
        a0 * a0 <= n,
        (a0 + 1) * (a0 + 1) > n,
    ensures
        sqrt_floor(n) == a0,
{
    assert(exists|a: nat| #[trigger] (a * a) <= n && (a + 1) * (a + 1) > n) by {
        assert(a0 * a0 <= n && (a0 + 1) * (a0 + 1) > n);
    }
    let c = sqrt_floor(n);
    assert(c * c <= n && (c + 1) * (c + 1) > n);
    if c < a0 {
        assert((c + 1) * (c + 1) <= a0 * a0) by (nonlinear_arith)
            requires
                c + 1 <= a0,
        ;
        assert(false);
    }
    if c > a0 {
        assert((a0 + 1) * (a0 + 1) <= c * c) by (nonlinear_arith)
            requires
                a0 + 1 <= c,
        ;
        assert(false);
    }
}

/// Step `j` (one or more) of the expansion is well defined within machine
/// words: the products fit, the new `m` is nonnegative with square below
/// `n`, and the new `d` is nonzero.
pub open spec fn cf_step_ok(n: nat, a0: nat, j: nat) -> bool {
    let m = cf_m(n, a0, (j - 1) as nat);
    let d = cf_d(n, a0, (j - 1) as nat);
    let a = cf_a(n, a0, (j - 1) as nat);
    let m2 = d * a - m;
    &&& d * a <= usize::MAX
    &&& m2 >= 0
    &&& m2 * m2 < n
    &&& cf_d(n, a0, j) != 0
    &&& a0 + m2 <= usize::MAX
}

/// The expansion of the square root of `n` closes at step `k`: the term
/// `2 a0` appears there for the first time, every step up to it staying
/// within machine words.
pub open spec fn cf_closes_at(n: nat, a0: nat, k: nat) -> bool {
    &&& 1 <= k <= usize::MAX
    &&& cf_a(n, a0, k) == 2 * a0
    &&& (forall|j: nat| 1 <= j < k ==> #[trigger] cf_a(n, a0, j) != 2 * a0)
    &&& (forall|j: nat| 1 <= j <= k ==> #[trigger] cf_step_ok(n, a0, j))
}

/// If the expansion closes somewhere but no closing term has appeared in
/// the first `len` steps, the next step is still well defined.
proof fn lemma_closing_step_ok(n: nat, a0: nat, len: nat)
    requires
        forall|j: nat| 1 <= j <= len ==> #[trigger] cf_a(n, a0, j) != 2 * a0,
        exists|k: nat| #[trigger] cf_closes_at(n, a0, k),
    ensures
        cf_step_ok(n, a0, (len + 1) as nat),
{
    let k = choose|k: nat| cf_closes_at(n, a0, k);
    assert(cf_closes_at(n, a0, k));
    if k <= len {
        assert(cf_a(n, a0, k) != 2 * a0);
        assert(false);
    }
    assert(1 <= len + 1 <= k);
    assert(cf_step_ok(n, a0, (len + 1) as nat));
}

/// Returns the integer square root of `n`.
pub fn int_sqrt(n: usize) -> (r: usize)
    ensures
        r * r <= n,
        (r + 1) * (r + 1) > n,
{
    let mut lo: usize = 0;
    let mut hi: usize = n;
    proof {
        assert((n as int + 1) * (n as int + 1) > n) by (nonlinear_arith);
    }
    while lo < hi
        invariant
            lo <= hi <= n,
            lo * lo <= n,
            (hi + 1) * (hi + 1) > n,
        decreases hi - lo,
    {
        let mid = lo + 1 + (hi - lo - 1) / 2;
        proof {
            vstd::arithmetic::div_mod::lemma_fundamental_div_mod((hi - lo - 1) as int, 2);
            assert(lo < mid <= hi);
        }
        match mid.checked_mul(mid) {
            Some(sq) => {
                if sq <= n {
                    lo = mid;
                } else {
                    hi = mid - 1;
                }
            },
            None => {
                proof {
                    assert((mid as int) * (mid as int) > usize::MAX >= n);
                }
                hi = mid - 1;
            },
        }
    }
    lo
}

/// Returns the periodic continued fraction of the square root of `n` as
/// `(a0, [t1, t2, ..., tk])` with `tk = 2 a0`, or `None` when `n` is a
/// perfect square.  The terms follow the classical `m, d, a` recurrence
/// exactly, and `Some` is returned precisely when that expansion closes
/// within machine words (`cf_closes_at`), as it does for every square-free
/// radicand in practice.
pub fn sqrt_terms(n: usize) -> (r: Option<(usize, Vec<usize>)>)
    ensures
        forall|a0: nat| #[trigger] (a0 * a0) == n ==> r is None,
        r is Some <==> (sqrt_floor(n as nat) * sqrt_floor(n as nat) != n && exists|k: nat|
            #[trigger] cf_closes_at(n as nat, sqrt_floor(n as nat), k)),
        r matches Some(p) ==> {
            &&& p.0 == sqrt_floor(n as nat)
            &&& (p.0 * p.0 < n < (p.0 + 1) * (p.0 + 1))
            &&& p.1@.len() >= 1
            &&& (forall|k: int| 0 <= k < p.1@.len() ==> #[trigger] p.1@[k] == cf_a(
                n as nat,
                p.0 as nat,
                (k + 1) as nat,
            ))
            &&& p.1@[p.1@.len() - 1] == 2 * p.0
            &&& (forall|k: int| 0 <= k < p.1@.len() - 1 ==> #[trigger] p.1@[k] != 2 * p.0)
        },
{
    let a0 = int_sqrt(n);
    proof {
        lemma_sqrt_floor_eq(n as nat, a0 as nat);
    }
    if a0 * a0 == n {
        return None;
    }
    proof {
        assert forall|b: nat| #[trigger] (b * b) == n implies false by {
            assert(b * b != a0 * a0);
            if b <= a0 {
                assert(b * b <= a0 * a0) by (nonlinear_arith)
                    requires
                        b <= a0,
                ;
            } else {
                assert(b * b >= (a0 + 1) * (a0 + 1)) by (nonlinear_arith)
                    requires
                        b >= a0 + 1,
                ;
            }
        }
    }
    let mut xs: Vec<usize> = Vec::new();
    let mut d: usize = 1;
    let mut m: usize = 0;
    let mut a = a0;
    proof {
        assert(2 * (a0 as int) <= usize::MAX) by (nonlinear_arith)
            requires
                (a0 as int) * (a0 as int) <= n,
                n <= usize::MAX,
        ;
    }
    let two_a0 = 2 * a0;
    let ghost nn = n as nat;
    let ghost av = a0 as nat;
    let mut fuel: usize = usize::MAX;
    while a != two_a0 && fuel > 0
        invariant
            two_a0 == 2 * a0,
            a0 * a0 < n,
            (a0 + 1) * (a0 + 1) > n,
            nn == n as nat,
            av == a0 as nat,
            av == sqrt_floor(nn),
            m == cf_m(nn, av, xs@.len() as nat),
            d == cf_d(nn, av, xs@.len() as nat),
            a == cf_a(nn, av, xs@.len() as nat),
            d != 0,
            fuel == usize::MAX - xs@.len(),
            forall|k: int| 0 <= k < xs@.len() ==> #[trigger] xs@[k] == cf_a(
                nn,
                av,
                (k + 1) as nat,
            ),
            forall|k: int| 0 <= k < xs@.len() - 1 ==> #[trigger] xs@[k] != 2 * a0,
            xs@.len() >= 1 ==> xs@[xs@.len() - 1] == a,
            forall|j: nat| 1 <= j <= xs@.len() ==> #[trigger] cf_step_ok(nn, av, j),
        decreases fuel,
    {
        fuel = fuel - 1;
        let ghost kk = xs@.len() as nat;
        proof {
            // No closing term so far: the recorded terms plus the current
            // one all differ from `2 a0`.
            assert forall|j: nat| 1 <= j <= kk implies #[trigger] cf_a(nn, av, j) != 2
                * av by {
                if j < kk {
                    assert(xs@[j - 1] == cf_a(nn, av, j));
                } else {
                    assert(cf_a(nn, av, kk) == a);
                }
            }
        }
        let dm = match d.checked_mul(a) {
            Some(x) => x,
            None => {
                proof {
                    if exists|k: nat| #[trigger] cf_closes_at(nn, av, k) {
                        lemma_closing_step_ok(nn, av, kk);
                        assert(false);
                    }
                }
                return None;
            },
        };
        let m2 = match dm.checked_sub(m) {
            Some(x) => x,
            None => {
                proof {
                    if exists|k: nat| #[trigger] cf_closes_at(nn, av, k) {
                        lemma_closing_step_ok(nn, av, kk);
                        assert(false);
                    }
                }
                return None;
            },
        };
        let mm = match m2.checked_mul(m2) {
            Some(x) => x,
            None => {
                proof {
                    if exists|k: nat| #[trigger] cf_closes_at(nn, av, k) {
                        lemma_closing_step_ok(nn, av, kk);
                        assert(false);
                    }
                }
                return None;
            },
        };
        if mm >= n {
            proof {
                if exists|k: nat| #[trigger] cf_closes_at(nn, av, k) {
                    lemma_closing_step_ok(nn, av, kk);
                    assert(false);
                }
            }
            return None;
        }
        let d2 = (n - mm) / d;
        proof {
            assert(cf_m(nn, av, kk + 1) == d * a - m);
            assert(m2 == cf_m(nn, av, kk + 1));
            assert(cf_d(nn, av, kk + 1) == (nn - m2 * m2) / (d as int));
            assert(d2 == cf_d(nn, av, kk + 1));
        }
        if d2 == 0 {
            proof {
                if exists|k: nat| #[trigger] cf_closes_at(nn, av, k) {
                    lemma_closing_step_ok(nn, av, kk);
                    assert(false);
                }
            }
            return None;
        }
        let s2 = match a0.checked_add(m2) {
            Some(x) => x,
            None => {
                proof {
                    if exists|k: nat| #[trigger] cf_closes_at(nn, av, k) {
                        lemma_closing_step_ok(nn, av, kk);
                        assert(false);
                    }
                }
                return None;
            },
        };
        let a2 = s2 / d2;
        proof {
            assert(a2 == cf_a(nn, av, kk + 1));
            assert(cf_step_ok(nn, av, kk + 1));
        }
        m = m2;
        d = d2;
        a = a2;
        xs.push(a);
    }
    if a != two_a0 {
        // Out of fuel without closing: the expansion cannot close within
        // machine-word step counts either.
        proof {
            assert(xs@.len() == usize::MAX);
            if exists|k: nat| #[trigger] cf_closes_at(nn, av, k) {
                let k = choose|k: nat| cf_closes_at(nn, av, k);
                assert(cf_closes_at(nn, av, k));
                assert(k <= usize::MAX);
                if k < xs@.len() {
                    assert(xs@[k - 1] == cf_a(nn, av, k));
                    assert(xs@[k - 1] != 2 * a0);
                } else {
                    assert(cf_a(nn, av, xs@.len() as nat) == a);
                }
                assert(false);
            }
        }
        return None;
    }
    proof {
        assert(xs@.len() >= 1) by {
            if xs@.len() == 0 {
                assert(cf_m(nn, av, 0) == 0 && cf_d(nn, av, 0) == 1);
                assert(cf_a(nn, av, 0) == (av + 0) / 1);
                assert((av + 0) / 1 == av) by (nonlinear_arith);
                assert(a == a0);
                assert(a0 == 2 * a0);
                assert(a0 == 0);
                assert((a0 + 1) * (a0 + 1) == 1) by (nonlinear_arith)
                    requires
                        a0 == 0,
                ;
                assert(n == 0);
                assert(a0 * a0 == n);
                assert(false);
            }
        }
        let kk = xs@.len() as nat;
        assert(cf_a(nn, av, kk) == 2 * av);
        assert forall|j: nat| 1 <= j < kk implies #[trigger] cf_a(nn, av, j) != 2 * av by {
            assert(xs@[j - 1] == cf_a(nn, av, j));
            assert(xs@[j - 1] != 2 * a0);
        }
        assert(cf_closes_at(nn, av, kk));
    }
    Some((a0, xs))
}

} // verus!
