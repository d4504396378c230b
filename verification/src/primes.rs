//! The mathematics of prime factorisation: the canonical factorisation of a number,
//! and the facts that it consists of primes, in ascending order, whose product is the
//! number.
use vstd::prelude::*;
use vstd::arithmetic::div_mod::{
    lemma_div_pos_is_pos, lemma_div_is_strictly_smaller, lemma_fundamental_div_mod,
    lemma_mod_multiples_basic, lemma_mod_self_0, lemma_div_multiples_vanish,
};
use vstd::multiset::Multiset;
use vstd::seq_lib::lemma_multiset_commutative;

verus! {

/// `p` is a prime number.
pub open spec fn is_prime(p: int) -> bool {
    &&& p >= 2
    &&& forall|d: int| 2 <= d < p ==> #[trigger] (p % d) != 0
}

/// The elements of `s` never decrease.
pub open spec fn is_ascending(s: Seq<int>) -> bool {
    forall|i: int, j: int| 0 <= i <= j < s.len() ==> s[i] <= s[j]
}

/// The product of the elements of `s`.
pub open spec fn seq_product(s: Seq<int>) -> int
    decreases s.len(),
{
    if s.len() == 0 {
        1
    } else {
        s[0] * seq_product(s.drop_first())
    }
}

/// The least divisor of `n` that is at least `d`; `n` itself when there is none below `n`.
pub open spec fn least_divisor_from(n: int, d: int) -> int
    decreases n - d,
{
    if n <= d {
        n
    } else if n % d == 0 {
        d
    } else {
        least_divisor_from(n, d + 1)
    }
}

/// The prime factors of `n`, each as often as it divides `n`, in ascending order;
/// empty when `n` is below 2.
pub open spec fn prime_factors(n: int) -> Seq<int>
    decreases n,
{
    if n < 2 {
        seq![]
    } else {
        let p = least_divisor_from(n, 2);
        proof {
            lemma_least_divisor(n, 2);
            lemma_div_is_strictly_smaller(n, p);
        }
        seq![p] + prime_factors(n / p)
    }
}

/// If `b` divides `a` and `c` divides `b`, then `c` divides `a`.
pub proof fn lemma_divides_trans(a: int, b: int, c: int)
    requires
        b > 0,
        c > 0,
        a % b == 0,
        b % c == 0,
    ensures
        a % c == 0,
{
    lemma_fundamental_div_mod(a, b);
    lemma_fundamental_div_mod(b, c);
    let q = a / b;
    let r = b / c;
    assert(a == (r * q) * c) by (nonlinear_arith)
        requires
            a == b * q,
            b == c * r,
    ;
    lemma_mod_multiples_basic(r * q, c);
}

/// A positive multiple of `b` is at least `b`.
pub proof fn lemma_divisor_le(a: int, b: int)
    requires
        a > 0,
        b > 0,
        a % b == 0,
    ensures
        b <= a,
{
    lemma_fundamental_div_mod(a, b);
    lemma_div_pos_is_pos(a, b);
    let q = a / b;
    assert(b <= a) by (nonlinear_arith)
        requires
            a == b * q,
            q >= 0,
            a > 0,
            b > 0,
    ;
}

/// When `p` divides `n`, the quotient `n / p` is positive and divides `n`.
pub proof fn lemma_quotient_divides(n: int, p: int)
    requires
        n > 0,
        p > 0,
        n % p == 0,
    ensures
        n / p > 0,
        n % (n / p) == 0,
        n / p <= n,
{
    lemma_fundamental_div_mod(n, p);
    lemma_div_pos_is_pos(n, p);
    let q = n / p;
    assert(q > 0 && q <= n) by (nonlinear_arith)
        requires
            n == p * q,
            q >= 0,
            n > 0,
            p > 0,
    ;
    assert(n == p * q);
    lemma_mod_multiples_basic(p, q);
}

/// `least_divisor_from(n, d)` lies between `d` and `n`, divides `n`, and no number from
/// `d` up to it divides `n`.
pub proof fn lemma_least_divisor(n: int, d: int)
    requires
        2 <= d <= n,
    ensures
        d <= least_divisor_from(n, d) <= n,
        n % least_divisor_from(n, d) == 0,
        forall|k: int| d <= k < least_divisor_from(n, d) ==> #[trigger] (n % k) != 0,
    decreases n - d,
{
    if n <= d {
        lemma_mod_self_0(n);
    } else if n % d == 0 {
    } else {
        lemma_least_divisor(n, d + 1);
    }
}

/// When no number from `d` below `i` divides `n`, the search for the least divisor
/// may as well start at `i`.
pub proof fn lemma_least_divisor_skip(n: int, d: int, i: int)
    requires
        2 <= d <= i <= n,
        forall|k: int| d <= k < i ==> #[trigger] (n % k) != 0,
    ensures
        least_divisor_from(n, d) == least_divisor_from(n, i),
    decreases i - d,
{
    if d < i {
        assert(n % d != 0);
        lemma_least_divisor_skip(n, d + 1, i);
    }
}

/// The least divisor of `n` from 2 is a prime.
pub proof fn lemma_least_divisor_is_prime(n: int)
    requires
        n >= 2,
    ensures
        is_prime(least_divisor_from(n, 2)),
{
    let p = least_divisor_from(n, 2);
    lemma_least_divisor(n, 2);
    assert forall|d: int| 2 <= d < p implies #[trigger] (p % d) != 0 by {
        if p % d == 0 {
            lemma_divides_trans(n, p, d);
        }
    }
}

/// Every element of `prime_factors(n)` is at least 2 and divides `n`.
pub proof fn lemma_prime_factors_divide(n: int)
    ensures
        forall|i: int|
            0 <= i < prime_factors(n).len() ==> #[trigger] prime_factors(n)[i] >= 2 && n
                % prime_factors(n)[i] == 0,
    decreases n,
{
    if n >= 2 {
        let p = least_divisor_from(n, 2);
        lemma_least_divisor(n, 2);
        lemma_div_is_strictly_smaller(n, p);
        lemma_quotient_divides(n, p);
        lemma_prime_factors_divide(n / p);
        let rest = prime_factors(n / p);
        assert(prime_factors(n) == seq![p] + rest);
        assert forall|i: int| 0 <= i < prime_factors(n).len() implies #[trigger] prime_factors(
            n,
        )[i] >= 2 && n % prime_factors(n)[i] == 0 by {
            if i > 0 {
                assert(prime_factors(n)[i] == rest[i - 1]);
                lemma_divides_trans(n, n / p, rest[i - 1]);
            }
        }
    }
}

/// The factorisation of `n` consists of primes, in ascending order, and each of them is
/// at least the least divisor of `n`.
pub proof fn lemma_prime_factors_prime_ascending(n: int)
    ensures
        forall|i: int| 0 <= i < prime_factors(n).len() ==> is_prime(#[trigger] prime_factors(n)[i]),
        is_ascending(prime_factors(n)),
        n >= 2 ==> forall|i: int|
            0 <= i < prime_factors(n).len() ==> least_divisor_from(n, 2) <= #[trigger] prime_factors(
                n,
            )[i],
    decreases n,
{
    if n >= 2 {
        let p = least_divisor_from(n, 2);
        let m = n / p;
        lemma_least_divisor(n, 2);
        lemma_least_divisor_is_prime(n);
        lemma_div_is_strictly_smaller(n, p);
        lemma_quotient_divides(n, p);
        lemma_prime_factors_prime_ascending(m);
        lemma_prime_factors_divide(m);
        let rest = prime_factors(m);
        assert(prime_factors(n) == seq![p] + rest);
        // every factor of the quotient divides `n`, so none of them lies below `p`
        assert forall|i: int| 0 <= i < rest.len() implies p <= #[trigger] rest[i] by {
            lemma_divides_trans(n, m, rest[i]);
        }
        assert forall|i: int, j: int|
            0 <= i <= j < prime_factors(n).len() implies prime_factors(n)[i] <= prime_factors(
            n,
        )[j] by {
            if i > 0 {
                assert(prime_factors(n)[i] == rest[i - 1]);
                assert(prime_factors(n)[j] == rest[j - 1]);
            } else {
                if j > 0 {
                    assert(prime_factors(n)[j] == rest[j - 1]);
                }
            }
        }
        assert forall|i: int| 0 <= i < prime_factors(n).len() implies is_prime(
            #[trigger] prime_factors(n)[i],
        ) && p <= prime_factors(n)[i] by {
            if i > 0 {
                assert(prime_factors(n)[i] == rest[i - 1]);
            }
        }
    }
}

/// The product of the factorisation of a positive `n` is `n`.
pub proof fn lemma_prime_factors_product(n: int)
    requires
        n >= 1,
    ensures
        seq_product(prime_factors(n)) == n,
    decreases n,
{
    if n >= 2 {
        let p = least_divisor_from(n, 2);
        lemma_least_divisor(n, 2);
        lemma_div_is_strictly_smaller(n, p);
        lemma_quotient_divides(n, p);
        lemma_prime_factors_product(n / p);
        let f = prime_factors(n);
        assert(f.drop_first() == prime_factors(n / p));
        lemma_fundamental_div_mod(n, p);
    }
}

/// The factorisation of a number at least 2 starts with its least divisor from 2, and
/// continues with the factorisation of the quotient.
pub proof fn lemma_prime_factors_step(n: int, i: int)
    requires
        2 <= i <= n,
        n % i == 0,
        forall|k: int| 2 <= k < i ==> #[trigger] (n % k) != 0,
    ensures
        prime_factors(n) == seq![i] + prime_factors(n / i),
{
    lemma_least_divisor_skip(n, 2, i);
}

/// The product of the last `k` elements of `s`.
pub open spec fn product_of_last(s: Seq<int>, k: int) -> int {
    seq_product(s.subrange(s.len() - k, s.len() as int))
}

/// Peeling the first element off a suffix of `s` multiplies its product out.
pub proof fn lemma_suffix_product_step(s: Seq<int>, j: int)
    requires
        0 <= j < s.len(),
    ensures
        seq_product(s.subrange(j, s.len() as int)) == s[j] * seq_product(
            s.subrange(j + 1, s.len() as int),
        ),
{
    assert(s.subrange(j, s.len() as int).drop_first() =~= s.subrange(j + 1, s.len() as int));
}

/// A suffix of a sequence of positive numbers has a positive product.
pub proof fn lemma_suffix_product_pos(s: Seq<int>, j: int)
    requires
        0 <= j <= s.len(),
        forall|i: int| 0 <= i < s.len() ==> #[trigger] s[i] >= 1,
    ensures
        seq_product(s.subrange(j, s.len() as int)) >= 1,
    decreases s.len() - j,
{
    if j < s.len() {
        lemma_suffix_product_step(s, j);
        lemma_suffix_product_pos(s, j + 1);
        let a = s[j];
        let b = seq_product(s.subrange(j + 1, s.len() as int));
        assert(a * b >= 1) by (nonlinear_arith)
            requires
                a >= 1,
                b >= 1,
        ;
    } else {
        assert(s.subrange(j, s.len() as int) =~= Seq::<int>::empty());
    }
}

/// A suffix of a sequence of positive numbers has a product no larger than the whole.
pub proof fn lemma_suffix_product_le(s: Seq<int>, j: int)
    requires
        0 <= j <= s.len(),
        forall|i: int| 0 <= i < s.len() ==> #[trigger] s[i] >= 1,
    ensures
        seq_product(s.subrange(j, s.len() as int)) <= seq_product(s),
    decreases j,
{
    if j == 0 {
        assert(s.subrange(0, s.len() as int) =~= s);
    } else {
        lemma_suffix_product_le(s, j - 1);
        lemma_suffix_product_step(s, j - 1);
        lemma_suffix_product_pos(s, j);
        let a = s[j - 1];
        let b = seq_product(s.subrange(j, s.len() as int));
        assert(b <= a * b) by (nonlinear_arith)
            requires
                a >= 1,
                b >= 1,
        ;
    }
}

/// The product of a sequence is the product of a prefix times that of the rest.
pub proof fn lemma_product_split(s: Seq<int>, j: int)
    requires
        0 <= j <= s.len(),
    ensures
        seq_product(s) == seq_product(s.subrange(0, j)) * seq_product(s.subrange(j, s.len() as int)),
    decreases s.len(),
{
    if j == 0 {
        assert(s.subrange(0, 0) =~= Seq::<int>::empty());
        assert(s.subrange(0, s.len() as int) =~= s);
    } else {
        let t = s.drop_first();
        lemma_product_split(t, j - 1);
        assert(s.subrange(0, j).drop_first() =~= t.subrange(0, j - 1));
        assert(s.subrange(j, s.len() as int) =~= t.subrange(j - 1, t.len() as int));
        let a = s[0];
        let p1 = seq_product(t.subrange(0, j - 1));
        let p2 = seq_product(t.subrange(j - 1, t.len() as int));
        assert(a * (p1 * p2) == (a * p1) * p2) by (nonlinear_arith);
    }
}

/// The product of the last elements of the factorisation of a positive `n` divides `n`.
pub proof fn lemma_product_of_last_divides(n: int, k: int)
    requires
        n >= 1,
        0 <= k <= prime_factors(n).len(),
    ensures
        product_of_last(prime_factors(n), k) >= 1,
        n % product_of_last(prime_factors(n), k) == 0,
{
    let f = prime_factors(n);
    let j = f.len() - k;
    lemma_prime_factors_product(n);
    lemma_prime_factors_divide(n);
    lemma_product_split(f, j);
    assert forall|i: int| 0 <= i < f.len() implies #[trigger] f[i] >= 1 by {}
    lemma_suffix_product_pos(f, j);
    let a = seq_product(f.subrange(0, j));
    let b = seq_product(f.subrange(j, f.len() as int));
    assert(n == a * b);
    lemma_mod_multiples_basic(a, b);
}

/// The greatest common divisor of `a` and `b`, by Euclid's algorithm.
pub open spec fn gcd(a: nat, b: nat) -> nat
    decreases b,
{
    if b == 0 {
        a
    } else {
        gcd(b, a % b)
    }
}

/// The greatest common divisor of a positive `a` and `b` is positive, divides both, and
/// is a combination `x * a + y * b` of them; returns `(x, y)`.
pub proof fn lemma_bezout(a: nat, b: nat) -> (xy: (int, int))
    requires
        a > 0,
    ensures
        xy.0 * a + xy.1 * b == gcd(a, b),
        gcd(a, b) >= 1,
        a % gcd(a, b) == 0,
        b % gcd(a, b) == 0,
    decreases b,
{
    if b == 0 {
        lemma_mod_self_0(a as int);
        (1, 0)
    } else {
        let r = a % b;
        let (x1, y1) = lemma_bezout(b, r);
        let g = gcd(b, r);
        let q = a / b;
        lemma_fundamental_div_mod(a as int, b as int);
        lemma_fundamental_div_mod(b as int, g as int);
        lemma_fundamental_div_mod(r as int, g as int);
        let kb = (b / g) as int;
        let kr = (r / g) as int;
        assert(a == g * (kb * q + kr)) by (nonlinear_arith)
            requires
                a == b * q + r,
                b == g * kb,
                r == g * kr,
        ;
        assert(a == (kb * q + kr) * g) by (nonlinear_arith)
            requires
                a == g * (kb * q + kr),
        ;
        lemma_mod_multiples_basic(kb * q + kr, g as int);
        let x = y1;
        let y = x1 - y1 * q;
        assert(x * a + y * b == g) by (nonlinear_arith)
            requires
                a == b * q + r,
                x1 * b + y1 * r == g,
                x == y1,
                y == x1 - y1 * q,
        ;
        (x, y)
    }
}

/// Euclid's lemma: a prime that divides a product of positive numbers divides one of them.
pub proof fn lemma_euclid(p: int, a: int, b: int)
    requires
        is_prime(p),
        a >= 1,
        b >= 1,
        (a * b) % p == 0,
    ensures
        a % p == 0 || b % p == 0,
{
    if a % p != 0 {
        let (x, y) = lemma_bezout(p as nat, a as nat);
        let g = gcd(p as nat, a as nat);
        lemma_divisor_le(p, g as int);
        if g >= 2 && g < p {
            assert(p % (g as int) != 0);
        }
        assert(g == 1);
        lemma_fundamental_div_mod(a * b, p);
        let k = (a * b) / p;
        assert(b == (x * b + y * k) * p) by (nonlinear_arith)
            requires
                x * p + y * a == 1,
                a * b == p * k,
        ;
        lemma_mod_multiples_basic(x * b + y * k, p);
    }
}

/// The prime factors of `n`, counted with multiplicity.
pub open spec fn factor_bag(n: int) -> Multiset<int> {
    prime_factors(n).to_multiset()
}

/// The factors of a number of at least 2 are its least divisor and the factors of the
/// quotient.
proof fn lemma_factor_bag_step(n: int)
    requires
        n >= 2,
    ensures
        factor_bag(n) == seq![least_divisor_from(n, 2)].to_multiset().add(
            factor_bag(n / least_divisor_from(n, 2)),
        ),
{
    let p = least_divisor_from(n, 2);
    assert(prime_factors(n) == seq![p] + prime_factors(n / p));
    lemma_multiset_commutative(seq![p], prime_factors(n / p));
}

/// A prime `p` that divides `n` can be taken out of the factors of `n`: they are `p` and
/// the factors of `n / p`.
pub proof fn lemma_factor_out(n: int, p: int)
    requires
        is_prime(p),
        n >= 2,
        n % p == 0,
    ensures
        factor_bag(n) == seq![p].to_multiset().add(factor_bag(n / p)),
    decreases n,
{
    broadcast use vstd::multiset::group_multiset_axioms;

    let q = least_divisor_from(n, 2);
    lemma_least_divisor(n, 2);
    lemma_least_divisor_is_prime(n);
    lemma_factor_bag_step(n);
    if q != p {
        // distinct primes do not divide each other
        lemma_divisor_le(n, p);
        if q % p == 0 {
            lemma_divisor_le(q, p);
            assert(q % p != 0);
        }
        if p % q == 0 {
            lemma_divisor_le(p, q);
            assert(p % q != 0);
        }
        lemma_fundamental_div_mod(n, q);
        lemma_fundamental_div_mod(n, p);
        let m = n / q;
        let l = n / p;
        lemma_quotient_divides(n, q);
        lemma_quotient_divides(n, p);
        assert(q * m == n);
        assert(p * l == n);
        lemma_euclid(p, q, m);
        lemma_euclid(q, p, l);
        lemma_divisor_le(m, p);
        lemma_divisor_le(l, q);
        lemma_div_is_strictly_smaller(n, q);
        lemma_div_is_strictly_smaller(n, p);
        lemma_factor_out(m, p);
        lemma_factor_out(l, q);
        lemma_fundamental_div_mod(m, p);
        lemma_fundamental_div_mod(l, q);
        let a = m / p;
        let b = l / q;
        assert(a == b) by (nonlinear_arith)
            requires
                q * m == n,
                p * l == n,
                m == p * a,
                l == q * b,
                p >= 2,
                q >= 2,
        ;
        assert(factor_bag(n) =~= seq![p].to_multiset().add(factor_bag(n / p)));
    }
}

/// The factors of a product of positive numbers are the factors of the one together with
/// those of the other; since they come in ascending order, the factorisation of the
/// product is the factorisations of the two merged in order.
pub proof fn lemma_factors_of_product(a: int, b: int)
    requires
        a >= 1,
        b >= 1,
    ensures
        factor_bag(a * b) == factor_bag(a).add(factor_bag(b)),
        is_ascending(prime_factors(a * b)),
    decreases a,
{
    broadcast use vstd::multiset::group_multiset_axioms;

    lemma_prime_factors_prime_ascending(a * b);
    if a == 1 {
        assert(prime_factors(1) =~= Seq::<int>::empty());
        prime_factors(1).to_multiset_ensures();
        assert(factor_bag(1) =~= Multiset::<int>::empty());
        assert(a * b == b) by (nonlinear_arith)
            requires
                a == 1,
        ;
        assert(factor_bag(a * b) =~= factor_bag(a).add(factor_bag(b)));
    } else {
        let p = least_divisor_from(a, 2);
        lemma_least_divisor(a, 2);
        lemma_least_divisor_is_prime(a);
        lemma_factor_bag_step(a);
        lemma_fundamental_div_mod(a, p);
        let a1 = a / p;
        lemma_quotient_divides(a, p);
        lemma_div_is_strictly_smaller(a, p);
        assert(a * b == (a1 * b) * p) by (nonlinear_arith)
            requires
                a == p * a1,
        ;
        assert(a * b >= 2) by (nonlinear_arith)
            requires
                a >= 2,
                b >= 1,
        ;
        lemma_mod_multiples_basic(a1 * b, p);
        lemma_factor_out(a * b, p);
        lemma_div_multiples_vanish(a1 * b, p);
        assert(p * (a1 * b) == (a1 * b) * p) by (nonlinear_arith);
        assert((a * b) / p == a1 * b);
        lemma_factors_of_product(a1, b);
        let one = seq![p].to_multiset();
        assert(factor_bag(a * b) == one.add(factor_bag(a1 * b)));
        assert(factor_bag(a) == one.add(factor_bag(a1)));
        assert(factor_bag(a1 * b) == factor_bag(a1).add(factor_bag(b)));
        assert(one.add(factor_bag(a1).add(factor_bag(b))) =~= one.add(factor_bag(a1)).add(
            factor_bag(b),
        ));
    }
}

} // verus!
