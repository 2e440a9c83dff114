//! Tensor products and symmetric powers: the binomial coefficients that count the basis of a
//! symmetric power (the dimension of `Sym^n` of a `d`-dimensional space is `C(d + n - 1, n)`).
use vstd::prelude::*;

verus! {

/// The binomial coefficient `C(n, k)` by Pascal's rule: the number of `k`-element subsets of an
/// `n`-element set (0 when `k > n`).
pub open spec fn binom(n: nat, k: nat) -> nat
    decreases n,
{
    if k == 0 {
        1
    } else if n == 0 {
        0
    } else {
        binom((n - 1) as nat, (k - 1) as nat) + binom((n - 1) as nat, k)
    }
}

/// There are no subsets larger than the set.
pub proof fn lemma_binom_zero(n: nat, k: nat)
    requires
        k > n,
    ensures
        binom(n, k) == 0,
    decreases n,
{
    if n > 0 {
        lemma_binom_zero((n - 1) as nat, (k - 1) as nat);
        lemma_binom_zero((n - 1) as nat, k);
    }
}

/// One more element in the subset: `(i + 1) C(n, i + 1) == (n - i) C(n, i)`.
pub proof fn lemma_binom_step(n: nat, i: nat)
    ensures
        (i + 1) * binom(n, i + 1) == (n - i) * binom(n, i),
    decreases n,
{
    if n == 0 {
        lemma_binom_zero(0, i + 1);
        if i > 0 {
            lemma_binom_zero(0, i);
        }
        assert((i + 1) * binom(n, i + 1) == (n - i) * binom(n, i)) by (nonlinear_arith)
            requires
                binom(n, i + 1) == 0,
                i > 0 ==> binom(n, i) == 0,
                n == 0,
                i >= 0,
        ;
    } else {
        let m = (n - 1) as nat;
        lemma_binom_step(m, i);
        let a = binom(m, i);
        let b = binom(m, i + 1);
        assert(binom(n, i + 1) == a + b);
        if i == 0 {
            assert(binom(m, 0) == 1);
            assert(binom(n, 0) == 1);
            assert((i + 1) * binom(n, i + 1) == (n - i) * binom(n, i)) by (nonlinear_arith)
                requires
                    i == 0,
                    binom(n, i + 1) == a + b,
                    (i + 1) * b == (m - i) * a,
                    a == 1,
                    binom(n, i) == 1,
                    n == m + 1,
            ;
        } else {
            let j = (i - 1) as nat;
            lemma_binom_step(m, j);
            let c = binom(m, j);
            assert(binom(n, i) == c + a);
            assert(j + 1 == i);
            assert((i + 1) * binom(n, i + 1) == (n - i) * binom(n, i)) by (nonlinear_arith)
                requires
                    binom(n, i + 1) == a + b,
                    binom(n, i) == c + a,
                    (i + 1) * b == (m - i) * a,
                    i * a == (m - j) * c,
                    j + 1 == i,
                    n == m + 1,
            ;
        }
    }
}

/// Choosing `k` elements is choosing the `n - k` left out.
pub proof fn lemma_binom_symmetric(n: nat, k: nat)
    requires
        k <= n,
    ensures
        binom(n, k) == binom(n, (n - k) as nat),
    decreases n,
{
    if n > 0 {
        let m = (n - 1) as nat;
        if k == 0 {
            lemma_binom_zero(m, n);
            assert(binom(n, n) == binom(m, m) + binom(m, n));
            lemma_binom_symmetric(m, 0);
            assert(binom(m, m) == binom(m, 0));
        } else if k == n {
            lemma_binom_zero(m, n);
            lemma_binom_symmetric(m, m);
            assert(binom(m, m) == binom(m, 0));
        } else {
            lemma_binom_symmetric(m, (k - 1) as nat);
            lemma_binom_symmetric(m, k);
            assert(binom(n, (n - k) as nat) == binom(m, (n - k - 1) as nat) + binom(m, (n - k) as nat));
        }
    }
}

/// The smaller of `k` and `n - k`: the number of steps the multiplicative formula takes.
pub open spec fn binomial_steps(n: nat, k: nat) -> int {
    if k <= n - k {
        k as int
    } else {
        n - k
    }
}

/// The binomial coefficient `C(n, k)`, computed as `∏ (n - i) / (i + 1)` over the smaller of `k`
/// and `n - k` steps, each intermediate product within `usize`.
pub fn binomial(n: usize, k: usize) -> (r: usize)
    requires
        forall|i: nat| i < binomial_steps(n as nat, k as nat) ==> #[trigger] binom(n as nat, i) * (n - i) <= usize::MAX,
    ensures
        r == binom(n as nat, k as nat),
{
    if k > n {
        proof {
            lemma_binom_zero(n as nat, k as nat);
        }
        return 0;
    }
    let steps = if k <= n - k {
        k
    } else {
        n - k
    };
    let mut result: usize = 1;
    let mut i: usize = 0;
    while i < steps
        invariant
            k <= n,
            steps == binomial_steps(n as nat, k as nat),
            steps <= n,
            forall|j: nat| j < binomial_steps(n as nat, k as nat) ==> #[trigger] binom(n as nat, j) * (n - j) <= usize::MAX,
            i <= steps,
            result == binom(n as nat, i as nat),
        decreases steps - i,
    {
        proof {
            lemma_binom_step(n as nat, i as nat);
            assert(binom(n as nat, i as nat) * (n - i) <= usize::MAX);
        }
        let prod = result * (n - i);
        proof {
            let c = binom(n as nat, (i + 1) as nat);
            assert(prod == (i + 1) * c);
            assert((prod as int) / ((i + 1) as int) == c) by (nonlinear_arith)
                requires
                    prod == (i + 1) * c,
                    i + 1 > 0,
            ;
        }
        result = prod / (i + 1);
        i = i + 1;
    }
    proof {
        if steps != k {
            lemma_binom_symmetric(n as nat, k as nat);
        }
    }
    result
}

/// `C(n, k)` by the same steps as `binomial`, or `None` when an intermediate product would
/// leave `usize` (exactly when `binomial`'s requirement fails).
pub fn checked_binomial(n: usize, k: usize) -> (r: Option<usize>)
    ensures
        match r {
            Some(v) => v == binom(n as nat, k as nat),
            None => !(forall|i: nat| i < binomial_steps(n as nat, k as nat) ==> #[trigger] binom(n as nat, i) * (n - i) <= usize::MAX),
        },
{
    if k > n {
        proof {
            lemma_binom_zero(n as nat, k as nat);
        }
        return Some(0);
    }
    let steps = if k <= n - k {
        k
    } else {
        n - k
    };
    let mut result: usize = 1;
    let mut i: usize = 0;
    while i < steps
        invariant
            k <= n,
            steps == binomial_steps(n as nat, k as nat),
            steps <= n,
            forall|j: nat| j < i ==> #[trigger] binom(n as nat, j) * (n - j) <= usize::MAX,
            i <= steps,
            result == binom(n as nat, i as nat),
        decreases steps - i,
    {
        proof {
            lemma_binom_step(n as nat, i as nat);
        }
        let prod = match result.checked_mul(n - i) {
            Some(p) => p,
            None => {
                assert(!(binom(n as nat, i as nat) * (n - i) <= usize::MAX));
                return None;
            },
        };
        proof {
            let c = binom(n as nat, (i + 1) as nat);
            assert(prod == (i + 1) * c);
            assert((prod as int) / ((i + 1) as int) == c) by (nonlinear_arith)
                requires
                    prod == (i + 1) * c,
                    i + 1 > 0,
            ;
        }
        result = prod / (i + 1);
        i = i + 1;
    }
    proof {
        if steps != k {
            lemma_binom_symmetric(n as nat, k as nat);
        }
    }
    Some(result)
}

} // verus!
