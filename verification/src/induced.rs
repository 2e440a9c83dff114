//! Induced representations: a subgroup given by its embedding into a group, and the group
//! arithmetic behind inducing from it (which conjugates of an element fall in the subgroup, and
//! where each block of an induced matrix comes from).
use crate::group::{lemma_spec_inverse, FiniteGroup};
use vstd::prelude::*;

verus! {

/// A subgroup specification: maps subgroup element indices to group element indices.
pub struct SubgroupEmbedding {
    /// Maps subgroup element index → group element index.
    pub embedding: Vec<usize>,
}

/// The first index at or after `k` at which `s` holds `v`.
pub open spec fn find_from(s: Seq<usize>, v: int, k: int) -> Option<int>
    decreases s.len() - k,
{
    if k < 0 || k >= s.len() {
        None
    } else if s[k] == v {
        Some(k)
    } else {
        find_from(s, v, k + 1)
    }
}

/// The first index at which `s` holds `v`, if any.
pub open spec fn first_index(s: Seq<usize>, v: int) -> Option<int> {
    find_from(s, v, 0)
}

/// The conjugate `x⁻¹ g x`.
pub open spec fn conjugate_by(group: FiniteGroup, x: int, g: int) -> int {
    group.mul(group.mul(group.spec_inverse(x), g), x)
}

/// Scanning `x` over the elements below `m` in order, the subgroup index of each conjugate
/// `x⁻¹ g x` that lies in the subgroup.
pub open spec fn conjugate_hits(group: FiniteGroup, emb: Seq<usize>, g: int, m: nat) -> Seq<usize>
    decreases m,
{
    if m == 0 {
        Seq::empty()
    } else {
        let prev = conjugate_hits(group, emb, g, (m - 1) as nat);
        match first_index(emb, conjugate_by(group, m - 1, g)) {
            Some(h) => prev.push(h as usize),
            None => prev,
        }
    }
}

/// For the block column of coset representative `reps[i]` under `g`: the first row `j` at or
/// after `k` whose `reps[j]⁻¹ g reps[i]` lies in the subgroup, with its subgroup index.
pub open spec fn block_from(group: FiniteGroup, emb: Seq<usize>, reps: Seq<usize>, g: int, i: int, k: int) -> Option<
    (usize, usize),
>
    decreases reps.len() - k,
{
    if k < 0 || k >= reps.len() {
        None
    } else {
        match first_index(emb, group.mul(group.spec_inverse(reps[k] as int), group.mul(g, reps[i] as int))) {
            Some(h) => Some((k as usize, h as usize)),
            None => block_from(group, emb, reps, g, i, k + 1),
        }
    }
}

impl SubgroupEmbedding {
    /// Create from a mapping.
    pub fn new(embedding: Vec<usize>) -> (r: Self)
        ensures
            r.embedding == embedding,
    {
        Self { embedding }
    }

    /// Order of the subgroup.
    pub fn order(&self) -> (r: usize)
        ensures
            r == self.embedding@.len(),
    {
        self.embedding.len()
    }

    /// The subgroup index of group element `g`: the first position at which the embedding
    /// holds `g`, or `None` when `g` is not in the subgroup.
    pub fn position(&self, g: usize) -> (r: Option<usize>)
        ensures
            match r {
                Some(h) => first_index(self.embedding@, g as int) == Some(h as int),
                None => first_index(self.embedding@, g as int) is None,
            },
    {
        let n = self.embedding.len();
        let mut k: usize = 0;
        while k < n
            invariant
                n == self.embedding@.len(),
                k <= n,
                first_index(self.embedding@, g as int) == find_from(self.embedding@, g as int, k as int),
            decreases n - k,
        {
            if self.embedding[k] == g {
                return Some(k);
            }
            k = k + 1;
        }
        None
    }

    /// For each group element `g` (in order), the subgroup indices of the conjugates `x⁻¹ g x`
    /// that lie in the subgroup, `x` running over the group in order. The induced character is
    /// `Ind(χ)(g) = (1/|H|) Σ χ(h)` over these indices.
    pub fn conjugate_positions(&self, group: &FiniteGroup) -> (r: Vec<Vec<usize>>)
        requires
            group.n() > 0 ==> group.conjugation_ready(),
        ensures
            r@.len() == group.n(),
            forall|g: int| 0 <= g < group.n() ==> (#[trigger] r@[g])@ == conjugate_hits(*group, self.embedding@, g, group.n()),
    {
        let n = group.order();
        let mut out: Vec<Vec<usize>> = Vec::new();
        let mut g: usize = 0;
        while g < n
            invariant
                group.n() > 0 ==> group.conjugation_ready(),
                n == group.n(),
                g <= n,
                out@.len() == g,
                forall|a: int| 0 <= a < g ==> (#[trigger] out@[a])@ == conjugate_hits(*group, self.embedding@, a, n as nat),
            decreases n - g,
        {
            let mut hits: Vec<usize> = Vec::new();
            let mut x: usize = 0;
            while x < n
                invariant
                    group.conjugation_ready(),
                    n == group.n(),
                    g < n,
                    x <= n,
                    hits@ == conjugate_hits(*group, self.embedding@, g as int, x as nat),
                decreases n - x,
            {
                assert(group.has_inverse(x as int));
                let x_inv = group.inverse(x);
                let xg = group.multiply(x_inv, g);
                let c = group.multiply(xg, x);
                assert(c == conjugate_by(*group, x as int, g as int));
                match self.position(c) {
                    Some(h) => {
                        hits.push(h);
                    },
                    None => {},
                }
                x = x + 1;
            }
            out.push(hits);
            g = g + 1;
        }
        out
    }

    /// Where the blocks of the induced representation come from: `r[g][i]` is `Some((j, h))`
    /// when `j` is the first coset representative with `reps[j]⁻¹ g reps[i]` in the subgroup,
    /// `h` being its subgroup index; the matrix of `g` then carries the block `ρ(h)` in block row
    /// `j`, block column `i`, and no later representative gets a block in that column even when
    /// it qualifies too (which it cannot when `coset_reps` holds one representative per coset).
    /// `None` when no representative qualifies.
    pub fn induced_blocks(&self, group: &FiniteGroup, coset_reps: &[usize]) -> (r: Vec<Vec<Option<(usize, usize)>>>)
        requires
            group.n() > 0 ==> group.conjugation_ready(),
            forall|i: int| 0 <= i < coset_reps@.len() ==> #[trigger] coset_reps@[i] < group.n(),
        ensures
            r@.len() == group.n(),
            forall|g: int| 0 <= g < group.n() ==> (#[trigger] r@[g])@.len() == coset_reps@.len(),
            forall|g: int, i: int|
                0 <= g < group.n() && 0 <= i < coset_reps@.len() ==> #[trigger] r@[g]@[i] == block_from(
                    *group,
                    self.embedding@,
                    coset_reps@,
                    g,
                    i,
                    0,
                ),
    {
        let n = group.order();
        let m = coset_reps.len();
        let mut out: Vec<Vec<Option<(usize, usize)>>> = Vec::new();
        let mut g: usize = 0;
        while g < n
            invariant
                group.n() > 0 ==> group.conjugation_ready(),
                forall|i: int| 0 <= i < coset_reps@.len() ==> #[trigger] coset_reps@[i] < group.n(),
                n == group.n(),
                m == coset_reps@.len(),
                g <= n,
                out@.len() == g,
                forall|a: int| 0 <= a < g ==> (#[trigger] out@[a])@.len() == m,
                forall|a: int, i: int|
                    0 <= a < g && 0 <= i < m ==> #[trigger] out@[a]@[i] == block_from(
                        *group,
                        self.embedding@,
                        coset_reps@,
                        a,
                        i,
                        0,
                    ),
            decreases n - g,
        {
            let mut row: Vec<Option<(usize, usize)>> = Vec::new();
            let mut i: usize = 0;
            while i < m
                invariant
                    group.conjugation_ready(),
                    forall|t: int| 0 <= t < coset_reps@.len() ==> #[trigger] coset_reps@[t] < group.n(),
                    n == group.n(),
                    m == coset_reps@.len(),
                    g < n,
                    i <= m,
                    row@.len() == i,
                    forall|a: int|
                        0 <= a < i ==> #[trigger] row@[a] == block_from(*group, self.embedding@, coset_reps@, g as int, a, 0),
                decreases m - i,
            {
                let ti = coset_reps[i];
                let gti = group.multiply(g, ti);
                let mut found: Option<(usize, usize)> = None;
                let mut searching = true;
                let mut j: usize = 0;
                while searching && j < m
                    invariant
                        group.conjugation_ready(),
                        forall|t: int| 0 <= t < coset_reps@.len() ==> #[trigger] coset_reps@[t] < group.n(),
                        n == group.n(),
                        m == coset_reps@.len(),
                        g < n,
                        i < m,
                        ti == coset_reps@[i as int],
                        gti == group.mul(g as int, ti as int),
                        j <= m,
                        searching ==> found is None && block_from(
                            *group,
                            self.embedding@,
                            coset_reps@,
                            g as int,
                            i as int,
                            0,
                        ) == block_from(*group, self.embedding@, coset_reps@, g as int, i as int, j as int),
                        !searching ==> found == block_from(*group, self.embedding@, coset_reps@, g as int, i as int, 0),
                    decreases m - j + if searching { 1int } else { 0int },
                {
                    let tj = coset_reps[j];
                    assert(tj < group.n());
                    assert(group.has_inverse(tj as int));
                    let tj_inv = group.inverse(tj);
                    let candidate = group.multiply(tj_inv, gti);
                    match self.position(candidate) {
                        Some(h) => {
                            found = Some((j, h));
                            searching = false;
                        },
                        None => {
                            j = j + 1;
                        },
                    }
                }
                row.push(found);
                i = i + 1;
            }
            out.push(row);
            g = g + 1;
        }
        out
    }
}

/// Law: every conjugate of the identity is the identity, so when the identity lies in the
/// subgroup, at index `h`, the conjugates of the identity give `h` once for each group element:
/// the induced character at the identity is `|G| / |H|` times the character's value there.
pub proof fn lemma_hits_at_identity(group: FiniteGroup, emb: Seq<usize>, h: int, m: nat)
    requires
        group.conjugation_ready(),
        m <= group.n(),
        first_index(emb, group.spec_identity()) == Some(h),
    ensures
        conjugate_hits(group, emb, group.spec_identity(), m) == Seq::new(m, |x: int| h as usize),
    decreases m,
{
    if m > 0 {
        lemma_hits_at_identity(group, emb, h, (m - 1) as nat);
        let x = m - 1;
        let e = group.spec_identity();
        assert(group.has_inverse(x));
        lemma_spec_inverse(group, x);
        let xi = group.spec_inverse(x);
        assert(group.is_identity_element(e));
        assert(0 <= xi < group.n());
        assert(group.mul(e, xi) == xi);
        assert(group.mul(xi, e) == xi);
        assert(conjugate_by(group, x, e) == e);
        assert(conjugate_hits(group, emb, e, m) =~= Seq::new(m, |x: int| h as usize));
    }
}

/// What the search from `k` finds: the first index at or after `k` holding `v`, or no index
/// at or after `k` holds `v`.
proof fn lemma_find_from(s: Seq<usize>, v: int, k: int)
    requires
        0 <= k,
    ensures
        match find_from(s, v, k) {
            Some(h) => k <= h < s.len() && s[h] == v && forall|h2: int| k <= h2 < h ==> s[h2] != v,
            None => forall|h2: int| k <= h2 < s.len() ==> s[h2] != v,
        },
    decreases s.len() - k,
{
    if k < s.len() && s[k] != v {
        lemma_find_from(s, v, k + 1);
    }
}

/// Law: the block that `induced_blocks` places in block column `i` under `g` comes from `g`
/// itself. `Some((j, h))` means that `reps[j]⁻¹ · (g · reps[i])` is the subgroup element at
/// index `h` (its first index in the embedding) and that no earlier representative `reps[j2]`
/// makes `reps[j2]⁻¹ · (g · reps[i])` a subgroup element; `None` means that no representative
/// does.
pub proof fn lemma_block_placement(group: FiniteGroup, emb: Seq<usize>, reps: Seq<usize>, g: int, i: int)
    requires
        0 <= i < reps.len(),
        reps.len() <= usize::MAX,
        emb.len() <= usize::MAX,
    ensures
        match block_from(group, emb, reps, g, i, 0) {
            Some((j, h)) => {
                &&& j < reps.len()
                &&& h < emb.len()
                &&& emb[h as int] == group.mul(group.spec_inverse(reps[j as int] as int), group.mul(g, reps[i] as int))
                &&& forall|h2: int| 0 <= h2 < h ==> emb[h2] != emb[h as int]
                &&& forall|j2: int, h2: int|
                    0 <= j2 < j && 0 <= h2 < emb.len() ==> emb[h2] != group.mul(
                        group.spec_inverse(reps[j2] as int),
                        group.mul(g, reps[i] as int),
                    )
            },
            None => forall|j2: int, h2: int|
                0 <= j2 < reps.len() && 0 <= h2 < emb.len() ==> emb[h2] != group.mul(
                    group.spec_inverse(reps[j2] as int),
                    group.mul(g, reps[i] as int),
                ),
        },
{
    lemma_block_from_placement(group, emb, reps, g, i, 0);
}

proof fn lemma_block_from_placement(group: FiniteGroup, emb: Seq<usize>, reps: Seq<usize>, g: int, i: int, k: int)
    requires
        0 <= i < reps.len(),
        reps.len() <= usize::MAX,
        emb.len() <= usize::MAX,
        0 <= k,
    ensures
        match block_from(group, emb, reps, g, i, k) {
            Some((j, h)) => {
                &&& k <= j < reps.len()
                &&& h < emb.len()
                &&& emb[h as int] == group.mul(group.spec_inverse(reps[j as int] as int), group.mul(g, reps[i] as int))
                &&& forall|h2: int| 0 <= h2 < h ==> emb[h2] != emb[h as int]
                &&& forall|j2: int, h2: int|
                    k <= j2 < j && 0 <= h2 < emb.len() ==> emb[h2] != group.mul(
                        group.spec_inverse(reps[j2] as int),
                        group.mul(g, reps[i] as int),
                    )
            },
            None => forall|j2: int, h2: int|
                k <= j2 < reps.len() && 0 <= h2 < emb.len() ==> emb[h2] != group.mul(
                    group.spec_inverse(reps[j2] as int),
                    group.mul(g, reps[i] as int),
                ),
        },
    decreases reps.len() - k,
{
    if k < reps.len() {
        let c = group.mul(group.spec_inverse(reps[k] as int), group.mul(g, reps[i] as int));
        lemma_find_from(emb, c, 0);
        if first_index(emb, c) is None {
            lemma_block_from_placement(group, emb, reps, g, i, k + 1);
        }
    }
}

/// Scanning `x` over the elements below `m`, the conjugate hits with the elements `xs` that
/// produced them: `hits[k]` is the first subgroup index of `xs[k]⁻¹ g xs[k]`, the `xs` increase,
/// and every `x` below `m` left out has a conjugate outside the subgroup.
pub open spec fn hits_witnessed(group: FiniteGroup, emb: Seq<usize>, g: int, m: nat, hits: Seq<usize>, xs: Seq<int>) -> bool {
    &&& xs.len() == hits.len()
    &&& forall|k1: int, k2: int| 0 <= k1 < k2 < xs.len() ==> #[trigger] xs[k1] < #[trigger] xs[k2]
    &&& forall|k: int|
        0 <= k < xs.len() ==> {
            &&& 0 <= #[trigger] xs[k] < m
            &&& hits[k] < emb.len()
            &&& emb[hits[k] as int] == group.mul(group.mul(group.spec_inverse(xs[k]), g), xs[k])
            &&& forall|h2: int| 0 <= h2 < hits[k] ==> #[trigger] emb[h2] != emb[hits[k] as int]
        }
    &&& forall|x: int, h: int|
        #![trigger emb[h], group.mul(group.mul(group.spec_inverse(x), g), x)]
        0 <= x < m && 0 <= h < emb.len() && (forall|k: int| 0 <= k < xs.len() ==> xs[k] != x) ==> emb[h]
            != group.mul(group.mul(group.spec_inverse(x), g), x)
}

/// Law: the terms `conjugate_positions` gives for `g` are exactly the subgroup elements among
/// the conjugates `x⁻¹ g x`, `x` running over the group in order: there is an increasing list
/// `xs` of group elements such that `hits[k]` is the subgroup index of `xs[k]⁻¹ g xs[k]`, and
/// every other `x` has a conjugate outside the subgroup.
pub proof fn lemma_conjugate_hits_witnessed(group: FiniteGroup, emb: Seq<usize>, g: int, m: nat) -> (xs: Seq<int>)
    requires
        emb.len() <= usize::MAX,
    ensures
        hits_witnessed(group, emb, g, m, conjugate_hits(group, emb, g, m), xs),
    decreases m,
{
    if m == 0 {
        Seq::empty()
    } else {
        let prev = lemma_conjugate_hits_witnessed(group, emb, g, (m - 1) as nat);
        let hp = conjugate_hits(group, emb, g, (m - 1) as nat);
        let x = m - 1;
        let c = group.mul(group.mul(group.spec_inverse(x), g), x);
        assert(c == conjugate_by(group, x, g));
        lemma_find_from(emb, c, 0);
        match first_index(emb, c) {
            Some(h) => {
                let xs = prev.push(x);
                let hn = hp.push(h as usize);
                assert(conjugate_hits(group, emb, g, m) == hn);
                assert forall|k1: int, k2: int| 0 <= k1 < k2 < xs.len() implies #[trigger] xs[k1] < #[trigger] xs[k2] by {
                    assert(xs[k1] == prev[k1]);
                    if k2 < prev.len() {
                        assert(xs[k2] == prev[k2]);
                    }
                }
                assert forall|k: int| 0 <= k < xs.len() implies {
                    &&& 0 <= #[trigger] xs[k] < m
                    &&& hn[k] < emb.len()
                    &&& emb[hn[k] as int] == group.mul(group.mul(group.spec_inverse(xs[k]), g), xs[k])
                    &&& forall|h2: int| 0 <= h2 < hn[k] ==> #[trigger] emb[h2] != emb[hn[k] as int]
                } by {
                    if k < prev.len() {
                        assert(xs[k] == prev[k]);
                        assert(hn[k] == hp[k]);
                    } else {
                        assert(xs[k] == x);
                        assert(hn[k] == h);
                    }
                }
                assert forall|x2: int, h2: int|
                    #![trigger emb[h2], group.mul(group.mul(group.spec_inverse(x2), g), x2)]
                    0 <= x2 < m && 0 <= h2 < emb.len() && (forall|k: int| 0 <= k < xs.len() ==> xs[k] != x2) implies emb[h2]
                        != group.mul(group.mul(group.spec_inverse(x2), g), x2) by {
                    assert(xs[prev.len() as int] == x);
                    assert forall|k: int| 0 <= k < prev.len() implies prev[k] != x2 by {
                        assert(xs[k] == prev[k]);
                    }
                }
                xs
            },
            None => {
                assert(conjugate_hits(group, emb, g, m) == hp);
                prev
            },
        }
    }
}

/// The first index at or after `k` at which `labels` holds `label`.
pub open spec fn find_label_from(labels: Seq<String>, label: Seq<char>, k: int) -> Option<int>
    decreases labels.len() - k,
{
    if k < 0 || k >= labels.len() {
        None
    } else if labels[k]@ == label {
        Some(k)
    } else {
        find_label_from(labels, label, k + 1)
    }
}

/// Scanning `x` over the elements of `group` below `m` in order, the index in `sub_labels` of the
/// label of each conjugate `x⁻¹ g x`, where a subgroup element carries that label.
pub open spec fn label_hits(group: FiniteGroup, sub_labels: Seq<String>, g: int, m: nat) -> Seq<usize>
    decreases m,
{
    if m == 0 {
        Seq::empty()
    } else {
        let prev = label_hits(group, sub_labels, g, (m - 1) as nat);
        match find_label_from(sub_labels, group.elements@[conjugate_by(group, m - 1, g)]@, 0) {
            Some(h) => prev.push(h as usize),
            None => prev,
        }
    }
}

/// With no match before `k`, the search from the start finds what the search from `k` finds.
proof fn lemma_find_label_skip(labels: Seq<String>, label: Seq<char>, k: int)
    requires
        0 <= k <= labels.len(),
        forall|t: int| 0 <= t < k ==> (#[trigger] labels[t])@ != label,
    ensures
        find_label_from(labels, label, 0) == find_label_from(labels, label, k),
    decreases k,
{
    if k > 0 {
        lemma_find_label_skip(labels, label, k - 1);
    }
}

/// For each group element `g` (in order), the subgroup indices of the conjugates `x⁻¹ g x` whose
/// labels name subgroup elements, `x` running over the group in order: the terms of the induced
/// character when the subgroup's elements are matched to the group's by label.
pub fn label_conjugate_positions(subgroup: &FiniteGroup, group: &FiniteGroup) -> (r: Vec<Vec<usize>>)
    requires
        group.n() > 0 ==> group.conjugation_ready(),
    ensures
        r@.len() == group.n(),
        forall|g: int|
            0 <= g < group.n() ==> (#[trigger] r@[g])@ == label_hits(*group, subgroup.elements@, g, group.n()),
{
    let n = group.order();
    let mut out: Vec<Vec<usize>> = Vec::new();
    let mut g: usize = 0;
    while g < n
        invariant
            group.n() > 0 ==> group.conjugation_ready(),
            n == group.n(),
            g <= n,
            out@.len() == g,
            forall|a: int|
                0 <= a < g ==> (#[trigger] out@[a])@ == label_hits(*group, subgroup.elements@, a, n as nat),
        decreases n - g,
    {
        let mut hits: Vec<usize> = Vec::new();
        let mut x: usize = 0;
        while x < n
            invariant
                group.conjugation_ready(),
                n == group.n(),
                g < n,
                x <= n,
                hits@ == label_hits(*group, subgroup.elements@, g as int, x as nat),
            decreases n - x,
        {
            assert(group.has_inverse(x as int));
            let x_inv = group.inverse(x);
            let xg = group.multiply(x_inv, g);
            let c = group.multiply(xg, x);
            assert(c == conjugate_by(*group, x as int, g as int));
            let label = &group.elements[c];
            let found = subgroup.label_index(label);
            proof {
                let labels = subgroup.elements@;
                match found {
                    Some(h) => {
                        lemma_find_label_skip(labels, label@, h as int);
                    },
                    None => {
                        lemma_find_label_skip(labels, label@, labels.len() as int);
                    },
                }
            }
            match found {
                Some(h) => {
                    hits.push(h);
                },
                None => {},
            }
            x = x + 1;
        }
        out.push(hits);
        g = g + 1;
    }
    out
}

/// Scanning `x` over the elements below `m`, the label hits with the elements `xs` that produced
/// them: `hits[k]` is the first index in `sub_labels` of the label of `xs[k]⁻¹ g xs[k]`, the `xs`
/// increase, and every `x` below `m` left out has a conjugate whose label names no subgroup
/// element.
pub open spec fn label_hits_witnessed(
    group: FiniteGroup,
    sub_labels: Seq<String>,
    g: int,
    m: nat,
    hits: Seq<usize>,
    xs: Seq<int>,
) -> bool {
    &&& xs.len() == hits.len()
    &&& forall|k1: int, k2: int| 0 <= k1 < k2 < xs.len() ==> #[trigger] xs[k1] < #[trigger] xs[k2]
    &&& forall|k: int|
        0 <= k < xs.len() ==> {
            &&& 0 <= #[trigger] xs[k] < m
            &&& hits[k] < sub_labels.len()
            &&& sub_labels[hits[k] as int]@ == group.elements@[group.mul(group.mul(group.spec_inverse(xs[k]), g), xs[k])]@
            &&& forall|h2: int| 0 <= h2 < hits[k] ==> (#[trigger] sub_labels[h2])@ != sub_labels[hits[k] as int]@
        }
    &&& forall|x: int, h: int|
        #![trigger sub_labels[h], group.mul(group.mul(group.spec_inverse(x), g), x)]
        0 <= x < m && 0 <= h < sub_labels.len() && (forall|k: int| 0 <= k < xs.len() ==> xs[k] != x)
            ==> sub_labels[h]@ != group.elements@[group.mul(group.mul(group.spec_inverse(x), g), x)]@
}

proof fn lemma_find_label_from(labels: Seq<String>, label: Seq<char>, k: int)
    requires
        0 <= k,
    ensures
        match find_label_from(labels, label, k) {
            Some(h) => k <= h < labels.len() && labels[h]@ == label && forall|h2: int| k <= h2 < h ==> labels[h2]@ != label,
            None => forall|h2: int| k <= h2 < labels.len() ==> labels[h2]@ != label,
        },
    decreases labels.len() - k,
{
    if k < labels.len() && labels[k]@ != label {
        lemma_find_label_from(labels, label, k + 1);
    }
}

/// Law: the terms `label_conjugate_positions` gives for `g` are exactly the subgroup elements
/// whose labels are those of the conjugates `x⁻¹ g x`, `x` running over the group in order: there
/// is an increasing list `xs` of group elements such that `hits[k]` is the (first) subgroup index
/// carrying the label of `xs[k]⁻¹ g xs[k]`, and the label of every other `x`'s conjugate names no
/// subgroup element.
pub proof fn lemma_label_hits_witnessed(group: FiniteGroup, sub_labels: Seq<String>, g: int, m: nat) -> (xs: Seq<
    int,
>)
    requires
        sub_labels.len() <= usize::MAX,
    ensures
        label_hits_witnessed(group, sub_labels, g, m, label_hits(group, sub_labels, g, m), xs),
    decreases m,
{
    if m == 0 {
        Seq::empty()
    } else {
        let prev = lemma_label_hits_witnessed(group, sub_labels, g, (m - 1) as nat);
        let hp = label_hits(group, sub_labels, g, (m - 1) as nat);
        let x = m - 1;
        let c = group.mul(group.mul(group.spec_inverse(x), g), x);
        assert(c == conjugate_by(group, x, g));
        let label = group.elements@[c]@;
        lemma_find_label_from(sub_labels, label, 0);
        match find_label_from(sub_labels, label, 0) {
            Some(h) => {
                let xs = prev.push(x);
                let hn = hp.push(h as usize);
                assert(label_hits(group, sub_labels, g, m) == hn);
                assert forall|k1: int, k2: int| 0 <= k1 < k2 < xs.len() implies #[trigger] xs[k1] < #[trigger] xs[k2] by {
                    assert(xs[k1] == prev[k1]);
                    if k2 < prev.len() {
                        assert(xs[k2] == prev[k2]);
                    }
                }
                assert forall|k: int| 0 <= k < xs.len() implies {
                    &&& 0 <= #[trigger] xs[k] < m
                    &&& hn[k] < sub_labels.len()
                    &&& sub_labels[hn[k] as int]@ == group.elements@[group.mul(group.mul(group.spec_inverse(xs[k]), g), xs[k])]@
                    &&& forall|h2: int| 0 <= h2 < hn[k] ==> (#[trigger] sub_labels[h2])@ != sub_labels[hn[k] as int]@
                } by {
                    if k < prev.len() {
                        assert(xs[k] == prev[k]);
                        assert(hn[k] == hp[k]);
                    } else {
                        assert(xs[k] == x);
                        assert(hn[k] == h);
                    }
                }
                assert forall|x2: int, h2: int|
                    #![trigger sub_labels[h2], group.mul(group.mul(group.spec_inverse(x2), g), x2)]
                    0 <= x2 < m && 0 <= h2 < sub_labels.len() && (forall|k: int| 0 <= k < xs.len() ==> xs[k] != x2)
                        implies sub_labels[h2]@ != group.elements@[group.mul(group.mul(group.spec_inverse(x2), g), x2)]@ by {
                    assert(xs[prev.len() as int] == x);
                    assert forall|k: int| 0 <= k < prev.len() implies prev[k] != x2 by {
                        assert(xs[k] == prev[k]);
                    }
                }
                xs
            },
            None => {
                assert(label_hits(group, sub_labels, g, m) == hp);
                prev
            },
        }
    }
}

} // verus!
