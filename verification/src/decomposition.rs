//! Decomposition into irreducibles (Maschke's theorem): the integer accounting of a
//! decomposition, from the multiplicity of each irreducible and its dimension.
use vstd::prelude::*;

verus! {

/// `Σ_{i < k} m[i] * d[i]`.
pub open spec fn weighted_sum(m: Seq<usize>, d: Seq<usize>, k: int) -> int
    decreases k,
{
    if k <= 0 {
        0
    } else {
        weighted_sum(m, d, k - 1) + m[k - 1] * d[k - 1]
    }
}

/// The shorter of two lengths: how far two lists are paired up.
pub open spec fn paired_len(m: Seq<usize>, d: Seq<usize>) -> int {
    if m.len() <= d.len() {
        m.len() as int
    } else {
        d.len() as int
    }
}

/// The dimension that the multiplicities and dimensions account for: each multiplicity times
/// the dimension paired with it, summed.
pub open spec fn accounted_dimension(multiplicities: Seq<usize>, dims: Seq<usize>) -> int {
    weighted_sum(multiplicities, dims, paired_len(multiplicities, dims))
}

/// Each term of the sum is non-negative, so the partial sums grow.
proof fn lemma_weighted_sum_monotone(m: Seq<usize>, d: Seq<usize>, a: int, b: int)
    requires
        0 <= a <= b <= m.len(),
        b <= d.len(),
    ensures
        0 <= weighted_sum(m, d, a) <= weighted_sum(m, d, b),
    decreases b,
{
    if b > 0 {
        if a < b {
            lemma_weighted_sum_monotone(m, d, a, b - 1);
        } else {
            lemma_weighted_sum_monotone(m, d, a - 1, b - 1);
        }
        let x = m[b - 1];
        let y = d[b - 1];
        assert(x * y >= 0) by (nonlinear_arith);
    }
}

/// Maschke's theorem checked on the numbers: whether the multiplicities times the dimensions of
/// the irreducibles (paired up as far as both lists go) add up to `dimension`.
pub fn dimensions_add_up(multiplicities: &[usize], dims: &[usize], dimension: usize) -> (r: bool)
    ensures
        r == (accounted_dimension(multiplicities@, dims@) == dimension),
{
    let ghost m = multiplicities@;
    let ghost d = dims@;
    let len = if multiplicities.len() <= dims.len() {
        multiplicities.len()
    } else {
        dims.len()
    };
    let mut total: usize = 0;
    let mut i: usize = 0;
    while i < len
        invariant
            m == multiplicities@,
            d == dims@,
            len == paired_len(m, d),
            i <= len,
            total == weighted_sum(m, d, i as int),
        decreases len - i,
    {
        let term = multiplicities[i].checked_mul(dims[i]);
        match term {
            None => {
                proof {
                    lemma_weighted_sum_monotone(m, d, i + 1, len as int);
                    lemma_weighted_sum_monotone(m, d, 0, i as int);
                }
                return false;
            },
            Some(t) => {
                match total.checked_add(t) {
                    None => {
                        proof {
                            lemma_weighted_sum_monotone(m, d, i + 1, len as int);
                        }
                        return false;
                    },
                    Some(s) => {
                        total = s;
                    },
                }
            },
        }
        i = i + 1;
    }
    total == dimension
}

/// The irreducible indices below `k`, each repeated as often as its multiplicity, in order.
pub open spec fn repeated_indices(m: Seq<usize>, k: int) -> Seq<usize>
    decreases k,
{
    if k <= 0 {
        Seq::empty()
    } else {
        repeated_indices(m, k - 1) + Seq::new(m[k - 1] as nat, |t: int| (k - 1) as usize)
    }
}

/// The blocks of the block-diagonal form, in order: irreducible `i` once for each time it
/// occurs (`multiplicities[i]` times), the irreducibles taken in order.
pub fn block_sequence(multiplicities: &[usize]) -> (r: Vec<usize>)
    ensures
        r@ == repeated_indices(multiplicities@, multiplicities@.len() as int),
{
    let ghost m = multiplicities@;
    let mut out: Vec<usize> = Vec::new();
    let mut i: usize = 0;
    while i < multiplicities.len()
        invariant
            m == multiplicities@,
            i <= m.len(),
            out@ == repeated_indices(m, i as int),
        decreases m.len() - i,
    {
        let ghost before = out@;
        let mult = multiplicities[i];
        let mut c: usize = 0;
        while c < mult
            invariant
                i < m.len(),
                mult == m[i as int],
                c <= mult,
                out@ == before + Seq::new(c as nat, |t: int| i),
            decreases mult - c,
        {
            out.push(i);
            c = c + 1;
            assert(out@ =~= before + Seq::new(c as nat, |t: int| i));
        }
        assert(repeated_indices(m, i + 1) =~= before + Seq::new(mult as nat, |t: int| i));
        i = i + 1;
    }
    out
}

} // verus!
