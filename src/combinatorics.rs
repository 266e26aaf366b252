use vstd::prelude::*;

verus! {

/// `n!`, with `0! == 1` (and the empty product for negative `n`).
pub open spec fn fact(n: int) -> int
    decreases n,
{
    if n <= 0 {
        1
    } else {
        n * fact(n - 1)
    }
}

/// The binomial coefficient: the number of `r`-element subsets of an
/// `n`-element set, given by Pascal's rule.
pub open spec fn binom(n: nat, r: nat) -> nat
    decreases n,
{
    if r == 0 {
        1
    } else if n == 0 {
        0
    } else {
        binom((n - 1) as nat, (r - 1) as nat) + binom((n - 1) as nat, r)
    }
}

/// The smaller of `r` and `n - r`: the number of steps `nCr` takes.
pub open spec fn short_side(n: int, r: int) -> int {
    if r > n - r {
        n - r
    } else {
        r
    }
}

/// Computes `n!` as the product `1 * 2 * ... * n`.
pub fn factorial(n: i64) -> (r: i64)
    requires
        fact(n as int) <= i64::MAX,
    ensures
        r == fact(n as int),
{
    let mut acc: i64 = 1;
    let mut i: i64 = 0;
    while i < n
        invariant
            0 <= i,
            n >= 0 ==> i <= n,
            n < 0 ==> i == 0,
            acc == fact(i as int),
            fact(n as int) <= i64::MAX,
        decreases n - i,
    {
        i = i + 1;
        proof {
            lemma_fact_mono(i as int, n as int);
            assert(fact(i as int) == i * fact(i - 1));
            assert(acc * i == fact(i as int)) by (nonlinear_arith)
                requires acc == fact(i - 1), fact(i as int) == i * fact(i - 1);
        }
        acc = acc * i;
    }
    acc
}

/// `n! / (r! * (n - r)!)`, computed from the three factorials.
pub fn naive_nCr(n: i64, r: i64) -> (res: i64)
    requires
        0 <= r <= n,
        fact(n as int) <= i64::MAX,
    ensures
        res == fact(n as int) / (fact(r as int) * fact(n - r)),
        res == binom(n as nat, r as nat),
{
    proof {
        lemma_binom_fact(n as nat, r as nat);
        lemma_fact_pos(r as int);
        lemma_fact_pos(n - r);
        let c = binom(n as nat, r as nat) as int;
        let d = fact(r as int) * fact(n - r);
        assert(c * d == fact(n as int)) by (nonlinear_arith)
            requires c * fact(r as int) * fact(n - r) == fact(n as int), d == fact(r as int) * fact(n - r);
        assert(d >= 1) by (nonlinear_arith)
            requires fact(r as int) >= 1, fact(n - r) >= 1, d == fact(r as int) * fact(n - r);
        lemma_fact_pos(n as int);
        assert(c >= 1) by (nonlinear_arith)
            requires c * d == fact(n as int), d >= 1, fact(n as int) >= 1, c >= 0;
        assert(d <= fact(n as int)) by (nonlinear_arith)
            requires c * d == fact(n as int), d >= 1, c >= 1;
        lemma_fact_mono(r as int, n as int);
        lemma_fact_mono(n - r, n as int);
        vstd::arithmetic::div_mod::lemma_div_multiples_vanish(c, d);
        assert(d * c == c * d) by (nonlinear_arith);
    }
    let nf = factorial(n);
    let rf = factorial(r);
    let sf = factorial(n - r);
    proof {
        assert(rf * sf <= fact(n as int)) by (nonlinear_arith)
            requires
                binom(n as nat, r as nat) * fact(r as int) * fact(n - r) == fact(n as int),
                binom(n as nat, r as nat) >= 1,
                rf == fact(r as int), sf == fact(n - r), rf >= 1, sf >= 1;
    }
    nf / (rf * sf)
}

/// `n choose r`, built one factor at a time so that every intermediate
/// value stays below `min(r, n - r) * (n choose r)`.
pub fn nCr(n: i64, r: i64) -> (res: i64)
    requires
        0 <= r <= n,
        short_side(n as int, r as int) * binom(n as nat, r as nat) <= i64::MAX,
    ensures
        res == binom(n as nat, r as nat),
{
    let mut r = r;
    proof {
        if r > n - r {
            lemma_binom_symmetric(n as nat, r as nat);
        }
    }
    if r > n - r {
        r = n - r;
    }
    let ghost top = binom(n as nat, r as nat);
    let mut ans: i64 = 1;
    let mut i: i64 = 1;
    while i <= r
        invariant
            0 <= r <= n - r,
            1 <= i <= r + 1,
            top == binom(n as nat, r as nat),
            r * top <= i64::MAX,
            ans == binom((n - r + i - 1) as nat, (i - 1) as nat),
        decreases r - i + 1,
    {
        let ghost m: int = n - r + i;
        proof {
            lemma_binom_absorb(m as nat, i as nat);
            lemma_binom_diag_mono((n - r) as nat, i as nat, r as nat);
            let c = binom(m as nat, i as nat) as int;
            assert(((n - r) as nat + i as nat) as nat == m as nat);
            assert(((n - r) as nat + r as nat) as nat == n as nat);
            assert(c <= top);
            assert(i * c <= r * top) by (nonlinear_arith)
                requires 1 <= i <= r, 0 <= c <= top;
            assert(ans * m == i * c) by (nonlinear_arith)
                requires i * c == m * binom((m - 1) as nat, (i - 1) as nat),
                    ans == binom((m - 1) as nat, (i - 1) as nat);
        }
        ans = ans * (n - r + i);
        proof {
            let c = binom(m as nat, i as nat) as int;
            assert(ans == i * c);
            vstd::arithmetic::div_mod::lemma_div_multiples_vanish(c, i as int);
        }
        ans = ans / i;
        i = i + 1;
    }
    ans
}

pub proof fn lemma_fact_pos(n: int)
    ensures
        fact(n) >= 1,
    decreases n,
{
    if n > 0 {
        lemma_fact_pos(n - 1);
        assert(n * fact(n - 1) >= 1) by (nonlinear_arith)
            requires n >= 1, fact(n - 1) >= 1;
    }
}

pub proof fn lemma_fact_mono(a: int, b: int)
    requires
        a <= b,
    ensures
        1 <= fact(a) <= fact(b),
    decreases b - a,
{
    lemma_fact_pos(b);
    lemma_fact_pos(a);
    if a < b {
        lemma_fact_mono(a, b - 1);
        if b > 0 {
            assert(fact(b - 1) <= b * fact(b - 1)) by (nonlinear_arith)
                requires fact(b - 1) >= 1, b >= 1;
        }
    }
}

/// There are no `r`-subsets of a smaller set.
pub proof fn lemma_binom_zero(n: nat, r: nat)
    requires
        r > n,
    ensures
        binom(n, r) == 0,
    decreases n,
{
    if n > 0 {
        lemma_binom_zero((n - 1) as nat, (r - 1) as nat);
        lemma_binom_zero((n - 1) as nat, r);
    }
}

/// There is exactly one `n`-subset of an `n`-element set.
pub proof fn lemma_binom_full(n: nat)
    ensures
        binom(n, n) == 1,
    decreases n,
{
    if n > 0 {
        lemma_binom_full((n - 1) as nat);
        lemma_binom_zero((n - 1) as nat, n);
    }
}

/// There are `n` one-element subsets of an `n`-element set.
pub proof fn lemma_binom_one(n: nat)
    ensures
        binom(n, 1) == n,
    decreases n,
{
    if n > 0 {
        lemma_binom_one((n - 1) as nat);
        assert(binom((n - 1) as nat, 0) == 1);
    }
}

/// Absorption: `r * C(n, r) == n * C(n - 1, r - 1)`.
pub proof fn lemma_binom_absorb(n: nat, r: nat)
    requires
        n >= 1,
        r >= 1,
    ensures
        r * binom(n, r) == n * binom((n - 1) as nat, (r - 1) as nat),
    decreases n, r,
{
    let a = binom((n - 1) as nat, (r - 1) as nat) as int;
    let b = binom((n - 1) as nat, r) as int;
    assert(binom(n, r) == a + b);
    if n == 1 {
        if r > 1 {
            lemma_binom_zero(0, (r - 1) as nat);
            lemma_binom_zero(1, r);
            assert(r * binom(n, r) == 0) by (nonlinear_arith)
                requires binom(n, r) == 0;
            assert(n * a == 0) by (nonlinear_arith)
                requires a == 0;
        } else {
            assert(binom(1, 1) == binom(0, 0) + binom(0, 1));
        }
    } else if r == 1 {
        // r * C(n, 1) == C(n - 1, 0) + C(n - 1, 1) == 1 + (n - 1)
        lemma_binom_one(n);
        assert(a == 1);
    } else {
        lemma_binom_absorb((n - 1) as nat, r);
        lemma_binom_absorb((n - 1) as nat, (r - 1) as nat);
        let a2 = binom((n - 2) as nat, (r - 2) as nat) as int;
        let b2 = binom((n - 2) as nat, (r - 1) as nat) as int;
        assert(a == a2 + b2);
        assert(r * b == (n - 1) * b2);
        assert((r - 1) * a == (n - 1) * a2);
        assert(r * (a + b) == n * a) by (nonlinear_arith)
            requires r * b == (n - 1) * b2, (r - 1) * a == (n - 1) * a2, a == a2 + b2;
        assert(r * binom(n, r) == n * a);
    }
}

/// Symmetry: `C(n, r) == C(n, n - r)`.
pub proof fn lemma_binom_symmetric(n: nat, r: nat)
    requires
        r <= n,
    ensures
        binom(n, r) == binom(n, (n - r) as nat),
    decreases n,
{
    if r == 0 {
        lemma_binom_full(n);
    } else if r == n {
        lemma_binom_full(n);
    } else {
        lemma_binom_symmetric((n - 1) as nat, (r - 1) as nat);
        lemma_binom_symmetric((n - 1) as nat, r);
        assert(binom(n, (n - r) as nat) == binom((n - 1) as nat, (n - r - 1) as nat) + binom(
            (n - 1) as nat,
            (n - r) as nat,
        ));
    }
}

/// Moving along a diagonal of Pascal's triangle does not decrease:
/// `C(d + i, i) <= C(d + j, j)` for `i <= j`.
pub proof fn lemma_binom_diag_mono(d: nat, i: nat, j: nat)
    requires
        i <= j,
    ensures
        binom(d + i, i) <= binom(d + j, j),
    decreases j - i,
{
    if i < j {
        lemma_binom_diag_mono(d, i, (j - 1) as nat);
        assert(binom(d + j, j) == binom((d + j - 1) as nat, (j - 1) as nat) + binom(
            (d + j - 1) as nat,
            j,
        ));
    }
}

/// `C(n, r) * r! * (n - r)! == n!`.
pub proof fn lemma_binom_fact(n: nat, r: nat)
    requires
        r <= n,
    ensures
        binom(n, r) * fact(r as int) * fact(n - r) == fact(n as int),
    decreases n,
{
    if r == 0 {
    } else if r == n {
        lemma_binom_full(n);
    } else {
        lemma_binom_fact((n - 1) as nat, (r - 1) as nat);
        lemma_binom_fact((n - 1) as nat, r);
        let a = binom((n - 1) as nat, (r - 1) as nat) as int;
        let b = binom((n - 1) as nat, r) as int;
        let fr1 = fact(r - 1);
        let fs1 = fact(n - r - 1);
        let fn1 = fact(n - 1);
        assert(fact(r as int) == r * fr1);
        assert(fact(n - r) == (n - r) * fs1);
        assert(fact(n as int) == n * fn1);
        assert((a + b) * (r * fr1) * ((n - r) * fs1) == n * fn1) by (nonlinear_arith)
            requires
                a * fr1 * ((n - r) * fs1) == fn1,
                b * (r * fr1) * fs1 == fn1;
    }
}

/// `C(n, r) == C(n, n - r)`, and both agree with `n! / (r! * (n - r)!)`.
pub proof fn lemma_choose_laws(n: nat, r: nat)
    requires
        r <= n,
    ensures
        binom(n, r) == binom(n, (n - r) as nat),
        binom(n, r) == fact(n as int) / (fact(r as int) * fact(n - r)),
{
    lemma_binom_symmetric(n, r);
    lemma_binom_fact(n, r);
    lemma_fact_pos(r as int);
    lemma_fact_pos(n - r);
    let c = binom(n, r) as int;
    let d = fact(r as int) * fact(n - r);
    assert(c * d == fact(n as int)) by (nonlinear_arith)
        requires c * fact(r as int) * fact(n - r) == fact(n as int), d == fact(r as int) * fact(n - r);
    assert(d > 0) by (nonlinear_arith)
        requires fact(r as int) >= 1, fact(n - r) >= 1, d == fact(r as int) * fact(n - r);
    vstd::arithmetic::div_mod::lemma_div_multiples_vanish(c, d);
    assert(d * c == c * d) by (nonlinear_arith);
}

} // verus!
