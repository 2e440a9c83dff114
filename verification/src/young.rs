//! Young diagrams and tableaux, and the characters of the symmetric groups.
use vstd::prelude::*;

pub use crate::murnaghan_nakayama::symmetric_group_character;

verus! {

/// The sum of `s[0..k)`.
pub open spec fn sum_to(s: Seq<usize>, k: int) -> int
    decreases k,
{
    if k <= 0 {
        0
    } else {
        sum_to(s, k - 1) + s[k - 1]
    }
}

/// The sum of all entries.
pub open spec fn seq_sum(s: Seq<usize>) -> int {
    sum_to(s, s.len() as int)
}

/// The number of indices `i` in `[lo, hi)` with `s[i] >= c`.
pub open spec fn count_at_least(s: Seq<usize>, lo: int, hi: int, c: int) -> nat
    decreases hi - lo,
{
    if hi <= lo {
        0
    } else {
        count_at_least(s, lo, hi - 1, c) + if s[hi - 1] >= c {
            1nat
        } else {
            0nat
        }
    }
}

/// The entries never increase from one index to the next.
pub open spec fn non_increasing(s: Seq<usize>) -> bool {
    forall|i: int| 1 <= i < s.len() ==> #[trigger] s[i] <= s[i - 1]
}

/// `n!`
pub open spec fn factorial_spec(n: nat) -> nat
    decreases n,
{
    if n == 0 {
        1
    } else {
        n * factorial_spec((n - 1) as nat)
    }
}

/// The hook length of cell `(row, col)`: the cells to its right, the cells below it, and itself.
pub open spec fn hook(s: Seq<usize>, row: int, col: int) -> int {
    (s[row] - col - 1) + count_at_least(s, row + 1, s.len() as int, col + 1) + 1
}

/// The product of the hook lengths of the first `m` cells of row `row`.
pub open spec fn row_hook_product(s: Seq<usize>, row: int, m: int) -> int
    decreases m,
{
    if m <= 0 {
        1
    } else {
        row_hook_product(s, row, m - 1) * hook(s, row, m - 1)
    }
}

/// The product of the hook lengths of all cells in the first `k` rows.
pub open spec fn hook_product_to(s: Seq<usize>, k: int) -> int
    decreases k,
{
    if k <= 0 {
        1
    } else {
        hook_product_to(s, k - 1) * row_hook_product(s, k - 1, s[k - 1] as int)
    }
}

/// The product of the hook lengths of all cells.
pub open spec fn hook_product_spec(s: Seq<usize>) -> int {
    hook_product_to(s, s.len() as int)
}

/// The rows of the conjugate diagram: entry `k` counts the rows of length at least `k + 1`.
pub open spec fn conjugate_rows(s: Seq<usize>) -> Seq<usize> {
    if s.len() == 0 {
        Seq::empty()
    } else {
        Seq::new(s[0] as nat, |k: int| count_at_least(s, 0, s.len() as int, k + 1) as usize)
    }
}

/// A Young diagram (partition) represented as non-increasing row lengths.
#[derive(Clone, Debug, PartialEq, Eq)]
pub struct YoungDiagram {
    pub rows: Vec<usize>,
}

impl YoungDiagram {
    /// The row lengths never increase.
    pub open spec fn wf(&self) -> bool {
        non_increasing(self.rows@)
    }

    /// A diagram with the given row lengths, which must not increase.
    pub fn new(rows: Vec<usize>) -> (r: Self)
        requires
            non_increasing(rows@),
        ensures
            r.rows == rows,
            r.wf(),
    {
        YoungDiagram { rows }
    }

    /// The number of cells.
    pub fn n(&self) -> (r: usize)
        requires
            seq_sum(self.rows@) <= usize::MAX,
        ensures
            r == seq_sum(self.rows@),
    {
        let len = self.rows.len();
        let mut total: usize = 0;
        let mut i: usize = 0;
        while i < len
            invariant
                len == self.rows@.len(),
                seq_sum(self.rows@) <= usize::MAX,
                i <= len,
                total == sum_to(self.rows@, i as int),
            decreases len - i,
        {
            proof {
                lemma_sum_to_monotone(self.rows@, (i + 1) as int, len as int);
            }
            total = total + self.rows[i];
            i = i + 1;
        }
        total
    }

    /// The number of rows.
    pub fn num_rows(&self) -> (r: usize)
        ensures
            r == self.rows@.len(),
    {
        self.rows.len()
    }

    /// The conjugate (transposed) diagram: row `k` counts the rows of length at least `k + 1`.
    pub fn conjugate(&self) -> (r: YoungDiagram)
        ensures
            r.rows@ == conjugate_rows(self.rows@),
            r.wf(),
    {
        if self.rows.len() == 0 {
            let r = YoungDiagram::new(Vec::new());
            assert(r.rows@ =~= conjugate_rows(self.rows@));
            return r;
        }
        let len = self.rows.len();
        let max_cols = self.rows[0];
        let mut conj_rows: Vec<usize> = Vec::new();
        let mut k: usize = 0;
        while k < max_cols
            invariant
                len == self.rows@.len(),
                len > 0,
                max_cols == self.rows@[0],
                k <= max_cols,
                conj_rows@.len() == k,
                forall|t: int|
                    0 <= t < k ==> #[trigger] conj_rows@[t] == count_at_least(self.rows@, 0, len as int, t + 1),
            decreases max_cols - k,
        {
            let col = k + 1;
            let mut count: usize = 0;
            let mut i: usize = 0;
            while i < len
                invariant
                    len == self.rows@.len(),
                    i <= len,
                    count == count_at_least(self.rows@, 0, i as int, col as int),
                    count <= i,
                decreases len - i,
            {
                if self.rows[i] >= col {
                    count = count + 1;
                }
                i = i + 1;
            }
            conj_rows.push(count);
            k = k + 1;
        }
        assert(conj_rows@ =~= conjugate_rows(self.rows@));
        assert forall|i: int| 1 <= i < conj_rows@.len() implies #[trigger] conj_rows@[i] <= conj_rows@[i - 1] by {
            lemma_count_at_least_antitone(self.rows@, 0, len as int, i, i + 1);
        }
        YoungDiagram::new(conj_rows)
    }

    /// All partitions of `n`, in decreasing lexicographic order.
    pub fn partitions(n: usize) -> (r: Vec<YoungDiagram>)
        ensures
            diagrams_view(r@) == partitions_bounded(n as nat, n as nat),
    {
        if n == 0 {
            let mut result: Vec<YoungDiagram> = Vec::new();
            result.push(YoungDiagram::new(Vec::new()));
            assert(diagrams_view(result@) =~= partitions_bounded(0, 0));
            return result;
        }
        let mut result: Vec<YoungDiagram> = Vec::new();
        let mut partition: Vec<usize> = Vec::new();
        let mut k: usize = 0;
        while k < n
            invariant
                k <= n,
                partition@.len() == k,
            decreases n - k,
        {
            partition.push(0);
            k = k + 1;
        }
        assert(non_increasing(partition@.subrange(0, 0)));
        generate_partitions(n, n, 0, &mut partition, &mut result);
        assert(prefix_all(Seq::<usize>::empty(), partitions_bounded(n as nat, n as nat)) =~= partitions_bounded(
            n as nat,
            n as nat,
        )) by {
            let s = partitions_bounded(n as nat, n as nat);
            assert forall|j: int| 0 <= j < s.len() implies #[trigger] prefix_all(Seq::<usize>::empty(), s)[j] == s[j] by {
                assert(Seq::<usize>::empty() + s[j] =~= s[j]);
            }
        }
        assert(diagrams_view(result@) =~= partitions_bounded(n as nat, n as nat));
        result
    }

    /// The hook length of cell `(row, col)`.
    pub fn hook_length(&self, row: usize, col: usize) -> (r: usize)
        requires
            row < self.rows@.len(),
            col < self.rows@[row as int],
            hook(self.rows@, row as int, col as int) <= usize::MAX,
        ensures
            r == hook(self.rows@, row as int, col as int),
    {
        let right = self.rows[row] - col - 1;
        let len = self.rows.len();
        let mut below: usize = 0;
        let mut i: usize = row + 1;
        while i < len
            invariant
                len == self.rows@.len(),
                row < len,
                row + 1 <= i <= len,
                below == count_at_least(self.rows@, row + 1, i as int, col + 1),
                below <= i - row - 1,
            decreases len - i,
        {
            if self.rows[i] > col {
                below = below + 1;
            }
            i = i + 1;
        }
        1 + right + below
    }

    /// The product of the hook lengths of all cells.
    pub fn hook_product(&self) -> (r: usize)
        requires
            hook_product_spec(self.rows@) <= usize::MAX,
        ensures
            r == hook_product_spec(self.rows@),
    {
        let len = self.rows.len();
        let mut prod: usize = 1;
        let mut i: usize = 0;
        while i < len
            invariant
                len == self.rows@.len(),
                i <= len,
                hook_product_spec(self.rows@) <= usize::MAX,
                prod == hook_product_to(self.rows@, i as int),
            decreases len - i,
        {
            let row_len = self.rows[i];
            let mut j: usize = 0;
            while j < row_len
                invariant
                    len == self.rows@.len(),
                    i < len,
                    row_len == self.rows@[i as int],
                    j <= row_len,
                    hook_product_spec(self.rows@) <= usize::MAX,
                    prod == hook_product_to(self.rows@, i as int) * row_hook_product(self.rows@, i as int, j as int),
                decreases row_len - j,
            {
                proof {
                    lemma_partial_hook_product_bound(self.rows@, i as int, (j + 1) as int);
                    lemma_hook_positive(self.rows@, i as int, j as int);
                    lemma_row_hook_product_positive(self.rows@, i as int, j as int);
                    lemma_hook_product_to_positive(self.rows@, i as int);
                    let a = hook_product_to(self.rows@, i as int);
                    let b = row_hook_product(self.rows@, i as int, j as int);
                    let h = hook(self.rows@, i as int, j as int);
                    assert(a * (b * h) == (a * b) * h) by (nonlinear_arith);
                    assert(h <= a * (b * h)) by (nonlinear_arith)
                        requires a >= 1, b >= 1, h >= 1;
                }
                let h = self.hook_length(i, j);
                prod = prod * h;
                j = j + 1;
            }
            proof {
                let a = hook_product_to(self.rows@, i as int);
                let b = row_hook_product(self.rows@, i as int, row_len as int);
                assert(hook_product_to(self.rows@, (i + 1) as int) == a * b);
            }
            i = i + 1;
        }
        prod
    }

    /// The dimension of the irreducible representation of S_n for this partition, by the hook
    /// length formula: `n!` divided by the product of the hook lengths.
    pub fn dimension(&self) -> (r: usize)
        requires
            seq_sum(self.rows@) <= usize::MAX,
            factorial_spec(seq_sum(self.rows@) as nat) <= usize::MAX,
            hook_product_spec(self.rows@) <= usize::MAX,
        ensures
            r == factorial_spec(seq_sum(self.rows@) as nat) as int / hook_product_spec(self.rows@),
    {
        let n = self.n();
        let f = factorial(n);
        let h = self.hook_product();
        proof {
            lemma_hook_product_to_positive(self.rows@, self.rows@.len() as int);
        }
        f / h
    }
}

/// Each sequence of `s` with `pre` in front.
pub open spec fn prefix_all(pre: Seq<usize>, s: Seq<Seq<usize>>) -> Seq<Seq<usize>> {
    s.map_values(|p: Seq<usize>| pre + p)
}

/// The partitions of `n` into parts of size at most `max`, in decreasing lexicographic order.
pub open spec fn partitions_bounded(n: nat, max: nat) -> Seq<Seq<usize>>
    decreases n, 1nat, 0nat,
{
    if n == 0 {
        seq![Seq::empty()]
    } else {
        partitions_first_at_most(n, if max < n { max } else { n })
    }
}

/// The partitions of `n > 0` whose first (largest) part is at most `i`, largest first part first.
pub open spec fn partitions_first_at_most(n: nat, i: nat) -> Seq<Seq<usize>>
    decreases n, 0nat, i,
{
    if i == 0 || n == 0 || i > n {
        Seq::empty()
    } else {
        prefix_all(seq![i as usize], partitions_bounded((n - i) as nat, i)) + partitions_first_at_most(
            n,
            (i - 1) as nat,
        )
    }
}

/// The row lengths of each diagram.
pub open spec fn diagrams_view(v: Seq<YoungDiagram>) -> Seq<Seq<usize>> {
    v.map_values(|d: YoungDiagram| d.rows@)
}

/// A partition of `n`: positive non-increasing parts summing to `n`.
pub open spec fn is_partition(p: Seq<usize>, n: int) -> bool {
    &&& non_increasing(p)
    &&& forall|i: int| 0 <= i < p.len() ==> #[trigger] p[i] >= 1
    &&& seq_sum(p) == n
}

/// Fill in, after the prefix `buf[..idx]`, every partition of `n` with parts at most `max`.
fn generate_partitions(n: usize, max: usize, idx: usize, buf: &mut Vec<usize>, out: &mut Vec<YoungDiagram>)
    requires
        idx + n <= old(buf)@.len(),
        non_increasing(old(buf)@.subrange(0, idx as int)),
        idx > 0 ==> old(buf)@[idx - 1] >= max,
    ensures
        final(buf)@.len() == old(buf)@.len(),
        final(buf)@.subrange(0, idx as int) == old(buf)@.subrange(0, idx as int),
        diagrams_view(final(out)@) == diagrams_view(old(out)@) + prefix_all(
            old(buf)@.subrange(0, idx as int),
            partitions_bounded(n as nat, max as nat),
        ),
    decreases n,
{
    let ghost pre = buf@.subrange(0, idx as int);
    if n == 0 {
        push_prefix(buf, idx, out);
        assert(prefix_all(pre, partitions_bounded(0, max as nat)) =~= seq![pre]);
        assert(pre + Seq::<usize>::empty() =~= pre);
        return;
    }
    let blen = buf.len();
    let ghost start = if max < n {
        max
    } else {
        n
    };
    let mut i = if max < n {
        max
    } else {
        n
    };
    let ghost out0 = diagrams_view(out@);
    assert(prefix_all(pre, partitions_first_at_most(n as nat, i as nat)) =~= prefix_all(
        pre,
        partitions_bounded(n as nat, max as nat),
    ));
    while i >= 1
        invariant
            1 <= n,
            i <= n,
            i <= max,
            idx + n <= buf@.len(),
            blen == buf@.len(),
            pre == buf@.subrange(0, idx as int),
            non_increasing(pre),
            idx > 0 ==> pre[idx - 1] >= max,
            diagrams_view(out@) + prefix_all(pre, partitions_first_at_most(n as nat, i as nat)) == out0
                + prefix_all(pre, partitions_bounded(n as nat, max as nat)),
        decreases i,
    {
        let ghost out_before = diagrams_view(out@);
        buf.set(idx, i);
        assert(buf@.subrange(0, idx as int) =~= pre);
        assert(buf@.subrange(0, idx + 1) =~= pre.push(i));
        assert(non_increasing(buf@.subrange(0, idx + 1)));
        generate_partitions(n - i, i, idx + 1, buf, out);
        assert(buf@.subrange(0, idx as int) =~= buf@.subrange(0, idx + 1).subrange(0, idx as int));
        proof {
            lemma_partitions_step(pre, n as nat, i as nat, out_before, diagrams_view(out@));
        }
        i = i - 1;
    }
    assert(partitions_first_at_most(n as nat, 0) =~= Seq::<Seq<usize>>::empty());
    assert(diagrams_view(out@) + prefix_all(pre, Seq::<Seq<usize>>::empty()) =~= diagrams_view(out@));
}

/// Appending the block of partitions with first part `i` leaves the rest to do.
proof fn lemma_partitions_step(
    pre: Seq<usize>,
    n: nat,
    i: nat,
    out_before: Seq<Seq<usize>>,
    out_after: Seq<Seq<usize>>,
)
    requires
        1 <= i <= n,
        out_after == out_before + prefix_all(pre.push(i as usize), partitions_bounded((n - i) as nat, i)),
    ensures
        out_after + prefix_all(pre, partitions_first_at_most(n, (i - 1) as nat)) == out_before + prefix_all(
            pre,
            partitions_first_at_most(n, i),
        ),
{
    let rest = partitions_bounded((n - i) as nat, i);
    let tail = partitions_first_at_most(n, (i - 1) as nat);
    let block = prefix_all(seq![i as usize], rest);
    assert(partitions_first_at_most(n, i) == block + tail);
    lemma_prefix_all_add(pre, block, tail);
    lemma_prefix_all_push(pre, i as usize, rest);
    assert(out_after + prefix_all(pre, tail) =~= out_before + (prefix_all(pre, block) + prefix_all(pre, tail)));
}

/// Append a diagram whose rows are `buf[..idx]`.
fn push_prefix(buf: &Vec<usize>, idx: usize, out: &mut Vec<YoungDiagram>)
    requires
        idx <= buf@.len(),
        non_increasing(buf@.subrange(0, idx as int)),
    ensures
        diagrams_view(final(out)@) == diagrams_view(old(out)@) + seq![buf@.subrange(0, idx as int)],
{
    let ghost pre = buf@.subrange(0, idx as int);
    let mut rows: Vec<usize> = Vec::new();
    let mut k: usize = 0;
    while k < idx
        invariant
            k <= idx,
            idx <= buf@.len(),
            pre == buf@.subrange(0, idx as int),
            rows@ == buf@.subrange(0, k as int),
        decreases idx - k,
    {
        rows.push(buf[k]);
        k = k + 1;
    }
    assert(rows@ =~= pre);
    let ghost before = out@;
    out.push(YoungDiagram::new(rows));
    assert(diagrams_view(out@) =~= diagrams_view(before) + seq![pre]);
}

/// The sum with `i` put in front.
pub proof fn lemma_sum_prepend(i: usize, p: Seq<usize>)
    ensures
        seq_sum(seq![i] + p) == i + seq_sum(p),
{
    lemma_sum_to_prepend(i, p, p.len() as int);
}

proof fn lemma_sum_to_prepend(i: usize, p: Seq<usize>, k: int)
    requires
        0 <= k <= p.len(),
    ensures
        sum_to(seq![i] + p, k + 1) == i + sum_to(p, k),
    decreases k,
{
    let q = seq![i] + p;
    if k == 0 {
        assert(sum_to(q, 0) == 0);
        assert(q[0] == i);
    } else {
        lemma_sum_to_prepend(i, p, k - 1);
        assert(q[k] == p[k - 1]);
    }
}

/// The first entry is at most the sum.
proof fn lemma_first_le_sum(p: Seq<usize>)
    requires
        p.len() > 0,
    ensures
        p[0] <= seq_sum(p),
{
    lemma_sum_to_monotone(p, 1, p.len() as int);
    assert(sum_to(p, 0) == 0);
    assert(sum_to(p, 1) == p[0]);
}

/// Law: every entry of `partitions_bounded(n, max)` is a partition of `n` whose parts are at
/// most `max`.
pub proof fn lemma_partitions_sound(n: nat, max: nat)
    requires
        n <= usize::MAX,
    ensures
        forall|k: int|
            0 <= k < partitions_bounded(n, max).len() ==> is_partition(#[trigger] partitions_bounded(n, max)[k], n as int)
                && (partitions_bounded(n, max)[k].len() > 0 ==> partitions_bounded(n, max)[k][0] <= max),
    decreases n, 1nat, 0nat,
{
    if n > 0 {
        let m: nat = if max < n { max } else { n };
        lemma_partitions_first_sound(n, m);
        assert(partitions_bounded(n, max) == partitions_first_at_most(n, m));
    } else {
        assert(is_partition(Seq::<usize>::empty(), 0));
        assert(partitions_bounded(n, max) == seq![Seq::<usize>::empty()]);
    }
}

proof fn lemma_partitions_first_sound(n: nat, i: nat)
    requires
        n <= usize::MAX,
    ensures
        forall|k: int|
            0 <= k < partitions_first_at_most(n, i).len() ==> is_partition(
                #[trigger] partitions_first_at_most(n, i)[k],
                n as int,
            ) && partitions_first_at_most(n, i)[k].len() > 0 && partitions_first_at_most(n, i)[k][0] <= i,
    decreases n, 0nat, i,
{
    if !(i == 0 || n == 0 || i > n) {
        let rest = partitions_bounded((n - i) as nat, i);
        let block = prefix_all(seq![i as usize], rest);
        let tail = partitions_first_at_most(n, (i - 1) as nat);
        lemma_partitions_sound((n - i) as nat, i);
        lemma_partitions_first_sound(n, (i - 1) as nat);
        assert forall|k: int| 0 <= k < block.len() implies is_partition(#[trigger] block[k], n as int) && block[k].len()
            > 0 && block[k][0] <= i by {
            let p = rest[k];
            assert(is_partition(p, n - i) && (p.len() > 0 ==> p[0] <= i));
            assert(block[k] == seq![i as usize] + p);
            lemma_sum_prepend(i as usize, p);
            let q = seq![i as usize] + p;
            assert forall|j: int| 1 <= j < q.len() implies #[trigger] q[j] <= q[j - 1] by {
                if j >= 2 {
                    assert(q[j] == p[j - 1] && q[j - 1] == p[j - 2]);
                    assert(p[j - 1] <= p[j - 2]);
                } else {
                    assert(q[1] == p[0] && q[0] == i);
                }
            }
            assert forall|j: int| 0 <= j < q.len() implies #[trigger] q[j] >= 1 by {
                if j >= 1 {
                    assert(q[j] == p[j - 1]);
                }
            }
        }
        let all = block + tail;
        assert forall|k: int| 0 <= k < all.len() implies is_partition(#[trigger] all[k], n as int) && all[k].len() > 0
            && all[k][0] <= i by {
            if k >= block.len() {
                assert(all[k] == tail[k - block.len()]);
            }
        }
    }
}

/// Law: every partition of `n` whose parts are at most `max` appears in
/// `partitions_bounded(n, max)`.
pub proof fn lemma_partitions_complete(n: nat, max: nat, p: Seq<usize>)
    requires
        n <= usize::MAX,
        is_partition(p, n as int),
        p.len() > 0 ==> p[0] <= max,
    ensures
        partitions_bounded(n, max).contains(p),
    decreases n, 1nat, 0nat,
{
    if n == 0 {
        if p.len() > 0 {
            lemma_first_le_sum(p);
            assert(p[0] >= 1);
        }
        assert(p =~= Seq::<usize>::empty());
        assert(partitions_bounded(n, max)[0] == p);
    } else {
        if p.len() == 0 {
            assert(seq_sum(p) == 0);
        }
        lemma_first_le_sum(p);
        lemma_partitions_first_complete(n, if max < n { max } else { n }, p);
    }
}

proof fn lemma_partitions_first_complete(n: nat, m: nat, p: Seq<usize>)
    requires
        n <= usize::MAX,
        n > 0,
        is_partition(p, n as int),
        p.len() > 0,
        p[0] <= m,
        m <= n,
    ensures
        partitions_first_at_most(n, m).contains(p),
    decreases n, 0nat, m,
{
    let i = p[0] as nat;
    assert(p[0] >= 1);
    let rest = partitions_bounded((n - m) as nat, m);
    let block = prefix_all(seq![m as usize], rest);
    let tail = partitions_first_at_most(n, (m - 1) as nat);
    assert(partitions_first_at_most(n, m) == block + tail);
    if i == m {
        let q = p.drop_first();
        assert(p =~= seq![p[0]] + q);
        lemma_sum_prepend(p[0], q);
        assert forall|j: int| 1 <= j < q.len() implies #[trigger] q[j] <= q[j - 1] by {
            assert(p[j + 1] <= p[j]);
        }
        assert forall|j: int| 0 <= j < q.len() implies #[trigger] q[j] >= 1 by {
            assert(p[j + 1] >= 1);
        }
        if q.len() > 0 {
            assert(p[1] <= p[0]);
        }
        lemma_partitions_complete((n - m) as nat, m, q);
        let k = choose|k: int| 0 <= k < rest.len() && rest[k] == q;
        assert(block[k] == p);
        assert((block + tail)[k] == p);
    } else {
        lemma_partitions_first_complete(n, (m - 1) as nat, p);
        let k = choose|k: int| 0 <= k < tail.len() && tail[k] == p;
        assert((block + tail)[block.len() + k] == p);
    }
}

/// Law: `partitions_bounded(n, max)` lists no partition twice.
pub proof fn lemma_partitions_distinct(n: nat, max: nat)
    requires
        n <= usize::MAX,
    ensures
        forall|a: int, b: int|
            0 <= a < b < partitions_bounded(n, max).len() ==> #[trigger] partitions_bounded(n, max)[a]
                != #[trigger] partitions_bounded(n, max)[b],
    decreases n, 1nat, 0nat,
{
    if n > 0 {
        let m: nat = if max < n { max } else { n };
        lemma_partitions_first_distinct(n, m);
        assert(partitions_bounded(n, max) == partitions_first_at_most(n, m));
    }
}

proof fn lemma_partitions_first_distinct(n: nat, i: nat)
    requires
        n <= usize::MAX,
    ensures
        forall|a: int, b: int|
            0 <= a < b < partitions_first_at_most(n, i).len() ==> #[trigger] partitions_first_at_most(n, i)[a]
                != #[trigger] partitions_first_at_most(n, i)[b],
    decreases n, 0nat, i,
{
    if !(i == 0 || n == 0 || i > n) {
        let rest = partitions_bounded((n - i) as nat, i);
        let block = prefix_all(seq![i as usize], rest);
        let tail = partitions_first_at_most(n, (i - 1) as nat);
        let all = block + tail;
        lemma_partitions_distinct((n - i) as nat, i);
        lemma_partitions_first_distinct(n, (i - 1) as nat);
        lemma_partitions_first_sound(n, (i - 1) as nat);
        assert forall|a: int, b: int| 0 <= a < b < all.len() implies #[trigger] all[a] != #[trigger] all[b] by {
            if b < block.len() {
                assert(all[a] == seq![i as usize] + rest[a]);
                assert(all[b] == seq![i as usize] + rest[b]);
                if all[a] == all[b] {
                    assert(rest[a] =~= all[a].drop_first());
                    assert(rest[b] =~= all[b].drop_first());
                }
            } else if a >= block.len() {
                assert(all[a] == tail[a - block.len()]);
                assert(all[b] == tail[b - block.len()]);
            } else {
                assert(all[a] == seq![i as usize] + rest[a]);
                assert(all[a][0] == i);
                assert(all[b] == tail[b - block.len()]);
                assert(tail[b - block.len()][0] <= i - 1);
            }
        }
    }
}

/// Prefixing distributes over concatenation.
proof fn lemma_prefix_all_add(pre: Seq<usize>, a: Seq<Seq<usize>>, b: Seq<Seq<usize>>)
    ensures
        prefix_all(pre, a + b) == prefix_all(pre, a) + prefix_all(pre, b),
{
    assert(prefix_all(pre, a + b) =~= prefix_all(pre, a) + prefix_all(pre, b));
}

/// Prefixing by `pre` after `[i]` is prefixing by `pre` followed by `i`.
proof fn lemma_prefix_all_push(pre: Seq<usize>, i: usize, s: Seq<Seq<usize>>)
    ensures
        prefix_all(pre, prefix_all(seq![i], s)) == prefix_all(pre.push(i), s),
{
    assert forall|k: int| 0 <= k < s.len() implies #[trigger] prefix_all(pre, prefix_all(seq![i], s))[k] == prefix_all(
        pre.push(i),
        s,
    )[k] by {
        assert(pre + (seq![i] + s[k]) =~= pre.push(i) + s[k]);
    }
    assert(prefix_all(pre, prefix_all(seq![i], s)) =~= prefix_all(pre.push(i), s));
}

/// A Young tableau: filling of a Young diagram with numbers.
#[derive(Clone, Debug, PartialEq, Eq)]
pub struct YoungTableau {
    pub diagram: YoungDiagram,
    pub entries: Vec<Vec<usize>>,
}

/// Cell `(i2, j2)` comes before cell `(i, j)` in row-major order.
pub open spec fn before_cell(i2: int, j2: int, i: int, j: int) -> bool {
    i2 < i || (i2 == i && j2 < j)
}

impl YoungTableau {
    /// The entry in row `i`, column `j`.
    pub open spec fn entry(&self, i: int, j: int) -> int {
        self.entries@[i]@[j] as int
    }

    /// Row `i` of the entries has the length the diagram gives it.
    pub open spec fn shape_ok(&self) -> bool {
        &&& self.entries@.len() == self.diagram.rows@.len()
        &&& forall|i: int| 0 <= i < self.entries@.len() ==> (#[trigger] self.entries@[i])@.len() == self.diagram.rows@[i]
    }

    /// `(i, j)` is a cell of the filling.
    pub open spec fn is_cell(&self, i: int, j: int) -> bool {
        0 <= i < self.entries@.len() && 0 <= j < self.entries@[i]@.len()
    }

    /// Every entry lies in `1..=n`.
    pub open spec fn entries_in_range(&self, n: int) -> bool {
        forall|i: int, j: int| self.is_cell(i, j) ==> 1 <= #[trigger] self.entry(i, j) <= n
    }

    /// No two cells hold the same entry.
    pub open spec fn entries_distinct(&self) -> bool {
        forall|i1: int, j1: int, i2: int, j2: int|
            self.is_cell(i1, j1) && self.is_cell(i2, j2) && (i1 != i2 || j1 != j2) ==> #[trigger] self.entry(
                i1,
                j1,
            ) != #[trigger] self.entry(i2, j2)
    }

    /// Some cell holds `v`.
    pub open spec fn holds(&self, v: int) -> bool {
        exists|i: int, j: int| self.is_cell(i, j) && #[trigger] self.entry(i, j) == v
    }

    /// Every value in `1..=n` appears.
    pub open spec fn entries_cover(&self, n: int) -> bool {
        forall|v: int| 1 <= v <= n ==> #[trigger] self.holds(v)
    }

    /// Entries strictly increase along each row.
    pub open spec fn rows_increase(&self) -> bool {
        forall|i: int, j: int| self.is_cell(i, j) && j >= 1 ==> #[trigger] self.entry(i, j) > self.entry(i, j - 1)
    }

    /// Entries strictly increase down each column, over the columns of the first row.
    pub open spec fn columns_increase(&self) -> bool {
        forall|i: int, j: int|
            1 <= i < self.diagram.rows@.len() && 0 <= j < self.diagram.rows@[0] && j < self.entries@[i]@.len() && j
                < self.entries@[i - 1]@.len() ==> #[trigger] self.entry(i, j) > self.entry(i - 1, j)
    }

    /// A standard Young tableau: the entries are `1..=n` once each (`n` the number of cells of
    /// the diagram), increasing along rows and down columns.
    pub open spec fn standard(&self) -> bool {
        let n = seq_sum(self.diagram.rows@);
        &&& self.entries_in_range(n)
        &&& self.entries_distinct()
        &&& self.entries_cover(n)
        &&& self.rows_increase()
        &&& self.columns_increase()
    }

    /// A filling of `diagram`: row `i` of `entries` must hold as many entries as row `i` of the diagram.
    pub fn new(diagram: YoungDiagram, entries: Vec<Vec<usize>>) -> (r: Self)
        requires
            entries@.len() == diagram.rows@.len(),
            forall|i: int| 0 <= i < entries@.len() ==> (#[trigger] entries@[i])@.len() == diagram.rows@[i],
        ensures
            r.diagram == diagram,
            r.entries == entries,
            r.shape_ok(),
    {
        YoungTableau { diagram, entries }
    }

    /// Check if this is a standard Young tableau (strictly increasing in rows and columns, entries 1..n).
    /// A filling with fewer rows of entries than the diagram has rows is not one.
    pub fn is_standard(&self) -> (r: bool)
        requires
            seq_sum(self.diagram.rows@) < usize::MAX,
        ensures
            r == (self.diagram.rows@.len() <= self.entries@.len() && self.standard()),
    {
        if self.entries.len() < self.diagram.rows.len() {
            return false;
        }
        self.check_standard()
    }

    /// Checks `standard()` on a filling with at least as many rows of entries as the diagram.
    fn check_standard(&self) -> (r: bool)
        requires
            self.diagram.rows@.len() <= self.entries@.len(),
            seq_sum(self.diagram.rows@) < usize::MAX,
        ensures
            r == self.standard(),
    {
        let n = self.diagram.n();
        let mut seen: Vec<bool> = Vec::new();
        let mut k: usize = 0;
        while k <= n
            invariant
                n < usize::MAX,
                k <= n + 1,
                seen@.len() == k,
                forall|t: int| 0 <= t < k ==> !(#[trigger] seen@[t]),
            decreases n + 1 - k,
        {
            seen.push(false);
            k = k + 1;
        }
        let rows = self.entries.len();
        let mut i: usize = 0;
        while i < rows
            invariant
                self.diagram.rows@.len() <= self.entries@.len(),
                n == seq_sum(self.diagram.rows@),
                n < usize::MAX,
                rows == self.entries@.len(),
                i <= rows,
                seen@.len() == n + 1,
                forall|a: int, b: int| self.is_cell(a, b) && a < i ==> 1 <= #[trigger] self.entry(a, b) <= n,
                forall|a1: int, b1: int, a2: int, b2: int|
                    self.is_cell(a1, b1) && self.is_cell(a2, b2) && a1 < i && a2 < i && (a1 != a2 || b1 != b2)
                        ==> #[trigger] self.entry(a1, b1) != #[trigger] self.entry(a2, b2),
                forall|v: int|
                    1 <= v <= n ==> (#[trigger] seen@[v] <==> exists|a: int, b: int|
                        self.is_cell(a, b) && a < i && #[trigger] self.entry(a, b) == v),
            decreases rows - i,
        {
            let row = &self.entries[i];
            let len = row.len();
            let mut j: usize = 0;
            while j < len
                invariant
                    self.diagram.rows@.len() <= self.entries@.len(),
                    n == seq_sum(self.diagram.rows@),
                    n < usize::MAX,
                    rows == self.entries@.len(),
                    i < rows,
                    row == self.entries@[i as int],
                    len == row@.len(),
                    j <= len,
                    seen@.len() == n + 1,
                    forall|a: int, b: int|
                        self.is_cell(a, b) && before_cell(a, b, i as int, j as int) ==> 1 <= #[trigger] self.entry(a, b) <= n,
                    forall|a1: int, b1: int, a2: int, b2: int|
                        self.is_cell(a1, b1) && self.is_cell(a2, b2) && before_cell(a1, b1, i as int, j as int)
                            && before_cell(a2, b2, i as int, j as int) && (a1 != a2 || b1 != b2) ==> #[trigger] self.entry(
                            a1,
                            b1,
                        ) != #[trigger] self.entry(a2, b2),
                    forall|v: int|
                        1 <= v <= n ==> (#[trigger] seen@[v] <==> exists|a: int, b: int|
                            self.is_cell(a, b) && before_cell(a, b, i as int, j as int) && #[trigger] self.entry(a, b)
                                == v),
                decreases len - j,
            {
                let val = row[j];
                assert(val == self.entry(i as int, j as int));
                if val == 0 || val > n {
                    assert(!self.entries_in_range(n as int));
                    return false;
                }
                if seen[val] {
                    proof {
                        let (a, b) = choose|a: int, b: int|
                            self.is_cell(a, b) && before_cell(a, b, i as int, j as int) && #[trigger] self.entry(a, b)
                                == val;
                        assert(self.entry(a, b) == self.entry(i as int, j as int));
                        assert(!self.entries_distinct());
                    }
                    return false;
                }
                seen.set(val, true);
                proof {
                    assert forall|v: int| 1 <= v <= n implies (#[trigger] seen@[v] <==> exists|a: int, b: int|
                        self.is_cell(a, b) && before_cell(a, b, i as int, j + 1) && #[trigger] self.entry(a, b)
                            == v) by {
                        if v == val {
                            assert(self.is_cell(i as int, j as int) && before_cell(i as int, j as int, i as int, j + 1)
                                && self.entry(i as int, j as int) == v);
                        } else if seen@[v] {
                            let (a, b) = choose|a: int, b: int|
                                self.is_cell(a, b) && before_cell(a, b, i as int, j as int) && #[trigger] self.entry(
                                    a,
                                    b,
                                ) == v;
                            assert(before_cell(a, b, i as int, j + 1));
                        } else {
                            if exists|a: int, b: int|
                                self.is_cell(a, b) && before_cell(a, b, i as int, j + 1) && #[trigger] self.entry(
                                    a,
                                    b,
                                ) == v {
                                let (a, b) = choose|a: int, b: int|
                                    self.is_cell(a, b) && before_cell(a, b, i as int, j + 1) && #[trigger] self.entry(
                                        a,
                                        b,
                                    ) == v;
                                assert(before_cell(a, b, i as int, j as int));
                            }
                        }
                    }
                }
                j = j + 1;
            }
            proof {
                assert forall|a: int, b: int| self.is_cell(a, b) && before_cell(a, b, i as int, len as int) <==> self.is_cell(a, b) && a < i + 1 by {}
            }
            i = i + 1;
        }
        assert(self.entries_in_range(n as int));
        assert(self.entries_distinct());
        let mut v: usize = 1;
        while v <= n
            invariant
                n == seq_sum(self.diagram.rows@),
                n < usize::MAX,
                rows == self.entries@.len(),
                1 <= v <= n + 1,
                seen@.len() == n + 1,
                forall|w: int| 1 <= w < v ==> #[trigger] self.holds(w),
                forall|w: int|
                    1 <= w <= n ==> (#[trigger] seen@[w] <==> exists|a: int, b: int|
                        self.is_cell(a, b) && a < rows && #[trigger] self.entry(a, b) == w),
            decreases n + 1 - v,
        {
            if !seen[v] {
                assert(!self.holds(v as int));
                return false;
            }
            assert(self.holds(v as int));
            v = v + 1;
        }
        assert(self.entries_cover(n as int));
        let mut i: usize = 0;
        while i < rows
            invariant
                rows == self.entries@.len(),
                i <= rows,
                forall|a: int, b: int| self.is_cell(a, b) && b >= 1 && a < i ==> #[trigger] self.entry(a, b) > self.entry(a, b - 1),
            decreases rows - i,
        {
            let row = &self.entries[i];
            let len = row.len();
            let mut j: usize = 1;
            while j < len
                invariant
                    rows == self.entries@.len(),
                    i < rows,
                    row == self.entries@[i as int],
                    len == row@.len(),
                    1 <= j,
                    j <= len || len == 0,
                    forall|a: int, b: int|
                        self.is_cell(a, b) && b >= 1 && (a < i || (a == i && b < j)) ==> #[trigger] self.entry(a, b) > self.entry(
                            a,
                            b - 1,
                        ),
                decreases len - j,
            {
                if row[j] <= row[j - 1] {
                    assert(!(self.entry(i as int, j as int) > self.entry(i as int, j - 1)));
                    assert(!self.rows_increase());
                    return false;
                }
                j = j + 1;
            }
            i = i + 1;
        }
        assert(self.rows_increase());
        let drows = self.diagram.rows.len();
        let max_cols = if drows > 0 {
            self.diagram.rows[0]
        } else {
            0
        };
        let mut col: usize = 0;
        while col < max_cols
            invariant
                self.diagram.rows@.len() <= self.entries@.len(),
                drows == self.diagram.rows@.len(),
                drows <= rows,
                drows > 0 ==> max_cols == self.diagram.rows@[0],
                drows == 0 ==> max_cols == 0,
                col <= max_cols,
                forall|a: int, b: int|
                    1 <= a < drows && 0 <= b < col && b < self.entries@[a]@.len() && b < self.entries@[a - 1]@.len()
                        ==> #[trigger] self.entry(a, b) > self.entry(a - 1, b),
            decreases max_cols - col,
        {
            let mut i: usize = 1;
            while i < drows
                invariant
                    self.diagram.rows@.len() <= self.entries@.len(),
                    drows == self.diagram.rows@.len(),
                    drows <= rows,
                    col < max_cols,
                    drows > 0 ==> max_cols == self.diagram.rows@[0],
                    drows == 0 ==> max_cols == 0,
                    1 <= i,
                    i <= drows || drows == 0,
                    forall|a: int, b: int|
                        1 <= a < drows && (0 <= b < col || (b == col && a < i)) && b < self.entries@[a]@.len() && b
                            < self.entries@[a - 1]@.len() ==> #[trigger] self.entry(a, b) > self.entry(a - 1, b),
                decreases drows - i,
            {
                if col < self.entries[i].len() && col < self.entries[i - 1].len() {
                    if self.entries[i][col] <= self.entries[i - 1][col] {
                        assert(!(self.entry(i as int, col as int) > self.entry(i - 1, col as int)));
                        assert(!self.columns_increase());
                        return false;
                    }
                }
                i = i + 1;
            }
            col = col + 1;
        }
        assert(self.columns_increase());
        true
    }
}

/// The rows of a filling, as values.
pub open spec fn entries_view(e: Seq<Vec<usize>>) -> Seq<Seq<usize>> {
    e.map_values(|r: Vec<usize>| r@)
}

/// Row `i` of `t` has length `rows[i]`.
pub open spec fn shaped(rows: Seq<usize>, t: Seq<Seq<usize>>) -> bool {
    &&& t.len() == rows.len()
    &&& forall|i: int| 0 <= i < t.len() ==> (#[trigger] t[i]).len() == rows[i]
}

/// `(i, j)` is a cell of `t`.
pub open spec fn fcell(t: Seq<Seq<usize>>, i: int, j: int) -> bool {
    0 <= i < t.len() && 0 <= j < t[i].len()
}

/// The number of nonzero entries of `r[0..k)`.
pub open spec fn row_filled(r: Seq<usize>, k: int) -> nat
    decreases k,
{
    if k <= 0 {
        0
    } else {
        row_filled(r, k - 1) + if r[k - 1] != 0 {
            1nat
        } else {
            0nat
        }
    }
}

/// The number of nonzero entries in rows `0..k` of `t`.
pub open spec fn filled_to(t: Seq<Seq<usize>>, k: int) -> nat
    decreases k,
{
    if k <= 0 {
        0
    } else {
        filled_to(t, k - 1) + row_filled(t[k - 1], t[k - 1].len() as int)
    }
}

/// The number of nonzero entries of `t`.
pub open spec fn filled_count(t: Seq<Seq<usize>>) -> nat {
    filled_to(t, t.len() as int)
}

/// Some cell of `t` holds `v`.
pub open spec fn fholds(t: Seq<Seq<usize>>, v: int) -> bool {
    exists|i: int, j: int| fcell(t, i, j) && #[trigger] t[i][j] == v
}

/// A standard filling of the diagram with row lengths `rows`: the entries are `1..=n` once
/// each (`n` the number of cells), increasing along rows and down columns.
#[verifier::opaque]
pub open spec fn standard_filling(rows: Seq<usize>, t: Seq<Seq<usize>>) -> bool {
    let n = seq_sum(rows);
    &&& shaped(rows, t)
    &&& forall|i: int, j: int| fcell(t, i, j) ==> 1 <= #[trigger] t[i][j] <= n
    &&& forall|i1: int, j1: int, i2: int, j2: int|
        fcell(t, i1, j1) && fcell(t, i2, j2) && (i1 != i2 || j1 != j2) ==> #[trigger] t[i1][j1]
            != #[trigger] t[i2][j2]
    &&& forall|v: int| 1 <= v <= n ==> #[trigger] fholds(t, v)
    &&& forall|i: int, j: int| fcell(t, i, j) && j >= 1 ==> #[trigger] t[i][j] > t[i][j - 1]
    &&& forall|i: int, j: int|
        1 <= i < rows.len() && 0 <= j < rows[0] && j < t[i].len() && j < t[i - 1].len() ==> #[trigger] t[i][j]
            > t[i - 1][j]
}

/// A partial filling with `1..num` placed: zero marks an empty cell, the placed entries are
/// distinct, each has its left and upper neighbours placed with smaller entries, and exactly
/// `num - 1` cells are placed.
#[verifier::opaque]
pub open spec fn partial_filling(rows: Seq<usize>, t: Seq<Seq<usize>>, num: int) -> bool {
    &&& shaped(rows, t)
    &&& forall|i: int, j: int| fcell(t, i, j) ==> #[trigger] t[i][j] < num
    &&& forall|i1: int, j1: int, i2: int, j2: int|
        fcell(t, i1, j1) && fcell(t, i2, j2) && (i1 != i2 || j1 != j2) && t[i1][j1] != 0 ==> #[trigger] t[i1][j1]
            != #[trigger] t[i2][j2]
    &&& forall|v: int| 1 <= v < num ==> #[trigger] fholds(t, v)
    &&& forall|i: int, j: int|
        fcell(t, i, j) && j >= 1 && #[trigger] t[i][j] != 0 ==> t[i][j - 1] != 0 && t[i][j - 1] < t[i][j]
    &&& forall|i: int, j: int|
        fcell(t, i, j) && i >= 1 && #[trigger] t[i][j] != 0 ==> j < t[i - 1].len() && t[i - 1][j] != 0 && t[i - 1][j]
            < t[i][j]
    &&& filled_count(t) == num - 1
}

/// `t` agrees with `e` on every placed cell of `e`.
pub open spec fn extends(t: Seq<Seq<usize>>, e: Seq<Seq<usize>>) -> bool {
    forall|i: int, j: int| fcell(e, i, j) && e[i][j] != 0 ==> #[trigger] t[i][j] == e[i][j]
}

/// `t` with every entry of at least `num` cleared.
pub open spec fn restrict(t: Seq<Seq<usize>>, num: int) -> Seq<Seq<usize>> {
    Seq::new(
        t.len(),
        |i: int|
            Seq::new(
                t[i].len(),
                |j: int|
                    if t[i][j] < num {
                        t[i][j]
                    } else {
                        0usize
                    },
            ),
    )
}

/// The entries of each tableau, as values.
pub open spec fn tableaux_view(v: Seq<YoungTableau>) -> Seq<Seq<Seq<usize>>> {
    v.map_values(|t: YoungTableau| entries_view(t.entries@))
}

/// Some cell of `t` before `(i, j)` in row-major order holds `num`.
pub open spec fn placed_before(t: Seq<Seq<usize>>, num: int, i: int, j: int) -> bool {
    exists|a: int, b: int| fcell(t, a, b) && before_cell(a, b, i, j) && #[trigger] t[a][b] == num
}

/// The tableaux of `outs` from index `lo` on have the diagram `rows`, are standard, and agree with
/// `e` on its placed cells.
pub open spec fn outs_sound(rows: Seq<usize>, outs: Seq<YoungTableau>, lo: int, e: Seq<Seq<usize>>) -> bool {
    forall|k: int|
        lo <= k < outs.len() ==> (#[trigger] outs[k]).diagram.rows@ == rows && outs[k].shape_ok() && standard_filling(
            rows,
            tableaux_view(outs)[k],
        ) && extends(tableaux_view(outs)[k], e)
}

/// No two tableaux of `outs` from index `lo` on are the same.
pub open spec fn outs_distinct(outs: Seq<YoungTableau>, lo: int) -> bool {
    forall|k1: int, k2: int|
        lo <= k1 < k2 < outs.len() ==> #[trigger] tableaux_view(outs)[k1] != #[trigger] tableaux_view(outs)[k2]
}

/// `t1` comes before `t2` in the order in which `standard_tableaux` lists tableaux: the entries
/// below some `v` sit in the same cells of both, and `t1` holds `v` in an earlier cell (row by
/// row, left to right) than `t2` does.
pub open spec fn placed_earlier(t1: Seq<Seq<usize>>, t2: Seq<Seq<usize>>) -> bool {
    exists|v: int, a: int, b: int, c: int, d: int|
        #![trigger restrict(t1, v), t1[a][b], t2[c][d]]
        restrict(t1, v) == restrict(t2, v) && fcell(t1, a, b) && t1[a][b] == v && fcell(t2, c, d) && t2[c][d] == v
            && before_cell(a, b, c, d)
}

/// The tableaux of `outs` from index `lo` on come in the order of `placed_earlier`.
pub open spec fn outs_ordered(outs: Seq<YoungTableau>, lo: int) -> bool {
    forall|k1: int, k2: int|
        lo <= k1 < k2 < outs.len() ==> placed_earlier(
            #[trigger] tableaux_view(outs)[k1],
            #[trigger] tableaux_view(outs)[k2],
        )
}

/// The tableaux of `outs` from index `lo` on hold `num` in a cell before `(i, j)`.
pub open spec fn outs_placed_before(outs: Seq<YoungTableau>, lo: int, num: int, i: int, j: int) -> bool {
    forall|k: int| lo <= k < outs.len() ==> placed_before(#[trigger] tableaux_view(outs)[k], num, i, j)
}

/// Every standard filling that `e` is the start of (its entries below `num`), with `num` in a cell
/// before `(i, j)`, is among the tableaux of `outs` from index `lo` on.
pub open spec fn outs_cover_before(
    rows: Seq<usize>,
    outs: Seq<YoungTableau>,
    lo: int,
    e: Seq<Seq<usize>>,
    num: int,
    i: int,
    j: int,
    wf: bool,
) -> bool {
    forall|t: Seq<Seq<usize>>|
        wf && standard_filling(rows, t) && #[trigger] restrict(t, num) == e && placed_before(t, num, i, j)
            ==> exists|k: int| lo <= k < outs.len() && #[trigger] tableaux_view(outs)[k] == t
}

/// Every standard filling that `e` is the start of (its entries below `num`) is among the
/// tableaux of `outs` from index `lo` on.
pub open spec fn outs_complete(
    rows: Seq<usize>,
    outs: Seq<YoungTableau>,
    lo: int,
    e: Seq<Seq<usize>>,
    num: int,
    wf: bool,
) -> bool {
    forall|t: Seq<Seq<usize>>|
        wf && standard_filling(rows, t) && #[trigger] restrict(t, num) == e ==> exists|k: int|
            lo <= k < outs.len() && #[trigger] tableaux_view(outs)[k] == t
}

/// `outs` keeps the first `lo` entries of `old`.
pub open spec fn keeps_prefix(outs: Seq<YoungTableau>, old: Seq<YoungTableau>) -> bool {
    &&& old.len() <= outs.len()
    &&& forall|k: int| 0 <= k < old.len() ==> #[trigger] outs[k] == old[k]
}

/// `e` with `v` placed in cell `(i, j)`.
pub open spec fn place(e: Seq<Seq<usize>>, i: int, j: int, v: int) -> Seq<Seq<usize>> {
    e.update(i, e[i].update(j, v as usize))
}

/// Cell `(i, j)` of `e` is empty and its left and upper neighbours are placed.
pub open spec fn placeable(e: Seq<Seq<usize>>, i: int, j: int) -> bool {
    &&& e[i][j] == 0
    &&& (j == 0 || e[i][j - 1] != 0)
    &&& (i == 0 || (j < e[i - 1].len() && e[i - 1][j] != 0))
}

/// A copy of the vector.
fn copy_vec(v: &Vec<usize>) -> (r: Vec<usize>)
    ensures
        r@ == v@,
{
    let n = v.len();
    let mut r: Vec<usize> = Vec::new();
    let mut k: usize = 0;
    while k < n
        invariant
            n == v@.len(),
            k <= n,
            r@ == v@.subrange(0, k as int),
        decreases n - k,
    {
        r.push(v[k]);
        k = k + 1;
    }
    assert(r@ =~= v@);
    r
}

/// A copy of the rows.
fn copy_rows(e: &Vec<Vec<usize>>) -> (r: Vec<Vec<usize>>)
    ensures
        entries_view(r@) == entries_view(e@),
        r@.len() == e@.len(),
{
    let n = e.len();
    let mut r: Vec<Vec<usize>> = Vec::new();
    let mut k: usize = 0;
    while k < n
        invariant
            n == e@.len(),
            k <= n,
            r@.len() == k,
            forall|t: int| 0 <= t < k ==> (#[trigger] r@[t])@ == e@[t]@,
        decreases n - k,
    {
        r.push(copy_vec(&e[k]));
        k = k + 1;
    }
    assert(entries_view(r@) =~= entries_view(e@));
    r
}

/// Put `v` in cell `(i, j)`.
fn set_cell(e: &mut Vec<Vec<usize>>, i: usize, j: usize, v: usize)
    requires
        i < old(e)@.len(),
        j < old(e)@[i as int]@.len(),
    ensures
        final(e)@.len() == old(e)@.len(),
        entries_view(final(e)@) == entries_view(old(e)@).update(i as int, old(e)@[i as int]@.update(j as int, v)),
{
    let mut row = copy_vec(&e[i]);
    row.set(j, v);
    e.set(i, row);
    assert(entries_view(e@) =~= entries_view(old(e)@).update(i as int, old(e)@[i as int]@.update(j as int, v)));
}

/// Place `num, num + 1, ..., n` in every way that keeps the filling standard, appending each
/// completed tableau.
fn fill_standard(d: &YoungDiagram, e: &mut Vec<Vec<usize>>, n: usize, num: usize, out: &mut Vec<YoungTableau>)
    requires
        n == seq_sum(d.rows@),
        n < usize::MAX,
        1 <= num <= n + 1,
        partial_filling(d.rows@, entries_view(old(e)@), num as int),
    ensures
        final(e)@.len() == old(e)@.len(),
        entries_view(final(e)@) == entries_view(old(e)@),
        keeps_prefix(final(out)@, old(out)@),
        outs_sound(d.rows@, final(out)@, old(out)@.len() as int, entries_view(old(e)@)),
        outs_distinct(final(out)@, old(out)@.len() as int),
        outs_complete(d.rows@, final(out)@, old(out)@.len() as int, entries_view(old(e)@), num as int, d.wf()),
        outs_ordered(final(out)@, old(out)@.len() as int),
    decreases n + 1 - num,
{
    let ghost e0 = entries_view(e@);
    let ghost o0 = out@;
    let ghost rows = d.rows@;
    let ghost lo = o0.len() as int;
    proof {
        lemma_partial_shaped(rows, e0, num as int);
    }
    if num > n {
        proof {
            lemma_leaf_standard(rows, e0);
        }
        let dd = YoungDiagram { rows: copy_vec(&d.rows) };
        let ee = copy_rows(e);
        assert forall|a: int| 0 <= a < ee@.len() implies (#[trigger] ee@[a])@.len() == dd.rows@[a] by {
            assert(entries_view(ee@)[a] == ee@[a]@);
            assert(e0[a].len() == rows[a]);
        }
        let tab = YoungTableau::new(dd, ee);
        out.push(tab);
        proof {
            assert(tableaux_view(out@)[lo] == e0);
            assert forall|t: Seq<Seq<usize>>|
                d.wf() && standard_filling(rows, t) && #[trigger] restrict(t, num as int) == e0 implies exists|k: int|
                    lo <= k < out@.len() && #[trigger] tableaux_view(out@)[k] == t by {
                lemma_restrict_all(rows, t, num as int);
                assert(tableaux_view(out@)[lo] == t);
            }
            assert(extends(e0, e0));
        }
        return;
    }
    let nrows = d.rows.len();
    let mut i: usize = 0;
    while i < nrows
        invariant
            n == seq_sum(rows),
            n < usize::MAX,
            1 <= num <= n,
            rows == d.rows@,
            nrows == rows.len(),
            i <= nrows,
            lo == o0.len(),
            partial_filling(rows, e0, num as int),
            shaped(rows, e0),
            e@.len() == rows.len(),
            entries_view(e@) == e0,
            keeps_prefix(out@, o0),
            outs_sound(rows, out@, lo, e0),
            outs_distinct(out@, lo),
            outs_ordered(out@, lo),
            outs_placed_before(out@, lo, num as int, i as int, 0),
            outs_cover_before(rows, out@, lo, e0, num as int, i as int, 0, d.wf()),
        decreases nrows - i,
    {
        let row_len = d.rows[i];
        let mut j: usize = 0;
        while j < row_len
            invariant
                n == seq_sum(rows),
                n < usize::MAX,
                1 <= num <= n,
                rows == d.rows@,
                nrows == rows.len(),
                i < nrows,
                row_len == rows[i as int],
                j <= row_len,
                lo == o0.len(),
                partial_filling(rows, e0, num as int),
                shaped(rows, e0),
                e@.len() == rows.len(),
                entries_view(e@) == e0,
                keeps_prefix(out@, o0),
                outs_sound(rows, out@, lo, e0),
                outs_distinct(out@, lo),
                outs_ordered(out@, lo),
                outs_placed_before(out@, lo, num as int, i as int, j as int),
                outs_cover_before(rows, out@, lo, e0, num as int, i as int, j as int, d.wf()),
            decreases row_len - j,
        {
            proof {
                assert(e0[i as int].len() == rows[i as int]);
                assert(e@[i as int]@ == e0[i as int]);
                if i > 0 {
                    assert(e@[i - 1]@ == e0[i - 1]);
                }
            }
            let free = e[i][j] == 0;
            let rok = j == 0 || e[i][j - 1] != 0;
            let cok = i == 0 || (j < e[i - 1].len() && e[i - 1][j] != 0);
            if free && rok && cok {
                assert(placeable(e0, i as int, j as int));
                let ghost before = out@;
                set_cell(e, i, j, num);
                assert(entries_view(e@) == place(e0, i as int, j as int, num as int));
                proof {
                    lemma_place(rows, e0, num as int, i as int, j as int);
                }
                fill_standard(d, e, n, num + 1, out);
                assert(e@[i as int]@ == entries_view(e@)[i as int]);
                set_cell(e, i, j, 0);
                proof {
                    assert(place(e0, i as int, j as int, num as int)[i as int].update(j as int, 0usize) =~= e0[i as int]);
                    assert(entries_view(e@) =~= e0);
                    lemma_branch_ordered(rows, e0, num as int, i as int, j as int, o0, before, out@);
                    lemma_branch(rows, e0, num as int, i as int, j as int, o0, before, out@, d.wf());
                }
            } else {
                assert(!placeable(e0, i as int, j as int));
                proof {
                    lemma_cell_skipped(rows, e0, num as int, i as int, j as int, lo, out@, d.wf());
                }
            }
            j = j + 1;
        }
        proof {
            lemma_next_row(rows, e0, num as int, i as int, lo, out@, d.wf());
        }
        i = i + 1;
    }
    proof {
        lemma_all_rows_done(rows, e0, num as int, lo, out@, d.wf());
    }
}

impl YoungTableau {
    /// Generate all standard Young tableaux of a given shape.
    pub fn standard_tableaux(diagram: &YoungDiagram) -> (r: Vec<YoungTableau>)
        requires
            seq_sum(diagram.rows@) < usize::MAX,
        ensures
            forall|k: int|
                0 <= k < r@.len() ==> (#[trigger] r@[k]).diagram.rows@ == diagram.rows@ && r@[k].shape_ok()
                    && r@[k].standard(),
            forall|k1: int, k2: int|
                0 <= k1 < k2 < r@.len() ==> #[trigger] tableaux_view(r@)[k1] != #[trigger] tableaux_view(r@)[k2],
            forall|k1: int, k2: int|
                0 <= k1 < k2 < r@.len() ==> placed_earlier(
                    #[trigger] tableaux_view(r@)[k1],
                    #[trigger] tableaux_view(r@)[k2],
                ),
            forall|t: Seq<Seq<usize>>|
                diagram.wf() && #[trigger] standard_filling(diagram.rows@, t) ==> exists|k: int|
                    0 <= k < r@.len() && #[trigger] tableaux_view(r@)[k] == t,
    {
        let n = diagram.n();
        let mut result: Vec<YoungTableau> = Vec::new();
        let mut entries: Vec<Vec<usize>> = Vec::new();
        let nrows = diagram.rows.len();
        let mut i: usize = 0;
        while i < nrows
            invariant
                nrows == diagram.rows@.len(),
                i <= nrows,
                entries@.len() == i,
                forall|a: int| 0 <= a < i ==> (#[trigger] entries@[a])@ == Seq::new(diagram.rows@[a] as nat, |b: int| 0usize),
            decreases nrows - i,
        {
            let len = diagram.rows[i];
            let mut row: Vec<usize> = Vec::new();
            let mut j: usize = 0;
            while j < len
                invariant
                    j <= len,
                    row@ == Seq::new(j as nat, |b: int| 0usize),
                decreases len - j,
            {
                row.push(0);
                j = j + 1;
                assert(row@ =~= Seq::new(j as nat, |b: int| 0usize));
            }
            entries.push(row);
            i = i + 1;
        }
        proof {
            lemma_empty_filling(diagram.rows@, entries_view(entries@));
        }
        fill_standard(diagram, &mut entries, n, 1, &mut result);
        proof {
            assert(keeps_prefix(result@, Seq::<YoungTableau>::empty()));
            assert forall|k: int| 0 <= k < result@.len() implies (#[trigger] result@[k]).diagram.rows@ == diagram.rows@
                && result@[k].shape_ok() && result@[k].standard() by {
                lemma_standard_view(result@[k]);
                assert(tableaux_view(result@)[k] == entries_view(result@[k].entries@));
            }
            assert forall|t: Seq<Seq<usize>>| diagram.wf() && #[trigger] standard_filling(diagram.rows@, t) implies exists|k: int|
                0 <= k < result@.len() && #[trigger] tableaux_view(result@)[k] == t by {
                lemma_restrict_one(diagram.rows@, t, entries_view(entries@));
            }
        }
        result
    }

}

proof fn lemma_row_filled_update(r: Seq<usize>, j: int, v: usize, k: int)
    requires
        0 <= j < r.len(),
        r[j] == 0,
        v != 0,
        0 <= k <= r.len(),
    ensures
        row_filled(r.update(j, v), k) == row_filled(r, k) + if j < k {
            1nat
        } else {
            0nat
        },
    decreases k,
{
    if k > 0 {
        lemma_row_filled_update(r, j, v, k - 1);
    }
}

proof fn lemma_filled_to_update(t: Seq<Seq<usize>>, i: int, j: int, v: usize, k: int)
    requires
        fcell(t, i, j),
        t[i][j] == 0,
        v != 0,
        0 <= k <= t.len(),
    ensures
        filled_to(t.update(i, t[i].update(j, v)), k) == filled_to(t, k) + if i < k {
            1nat
        } else {
            0nat
        },
    decreases k,
{
    if k > 0 {
        lemma_filled_to_update(t, i, j, v, k - 1);
        if k - 1 == i {
            lemma_row_filled_update(t[i], j, v, t[i].len() as int);
        }
    }
}

proof fn lemma_row_filled_bound(r: Seq<usize>, k: int)
    requires
        0 <= k <= r.len(),
    ensures
        row_filled(r, k) <= k,
        forall|j: int| 0 <= j < k && #[trigger] r[j] == 0 ==> row_filled(r, k) < k,
    decreases k,
{
    if k > 0 {
        lemma_row_filled_bound(r, k - 1);
    }
}

proof fn lemma_filled_to_bound(rows: Seq<usize>, t: Seq<Seq<usize>>, k: int)
    requires
        shaped(rows, t),
        0 <= k <= t.len(),
    ensures
        filled_to(t, k) <= sum_to(rows, k),
        forall|a: int, b: int| fcell(t, a, b) && a < k && #[trigger] t[a][b] == 0 ==> filled_to(t, k) < sum_to(rows, k),
    decreases k,
{
    if k > 0 {
        lemma_filled_to_bound(rows, t, k - 1);
        lemma_row_filled_bound(t[k - 1], t[k - 1].len() as int);
        assert(t[k - 1].len() == rows[k - 1]);
    }
}

/// A standard filling has the diagram's shape.
proof fn lemma_standard_shaped(rows: Seq<usize>, t: Seq<Seq<usize>>)
    requires
        standard_filling(rows, t),
    ensures
        shaped(rows, t),
{
    reveal(standard_filling);
}

/// Distinct cells of a standard filling hold distinct entries.
proof fn lemma_standard_distinct(rows: Seq<usize>, t: Seq<Seq<usize>>, a: int, b: int, c: int, d: int)
    requires
        standard_filling(rows, t),
        fcell(t, a, b),
        fcell(t, c, d),
        a != c || b != d,
    ensures
        t[a][b] != t[c][d],
{
    reveal(standard_filling);
}

/// A partial filling has the diagram's shape.
proof fn lemma_partial_shaped(rows: Seq<usize>, t: Seq<Seq<usize>>, num: int)
    requires
        partial_filling(rows, t, num),
    ensures
        shaped(rows, t),
{
    reveal(partial_filling);
}

/// A partial filling with every value up to the number of cells placed is standard.
proof fn lemma_leaf_standard(rows: Seq<usize>, t: Seq<Seq<usize>>)
    requires
        partial_filling(rows, t, seq_sum(rows) + 1),
    ensures
        standard_filling(rows, t),
{
    reveal(standard_filling);
    reveal(partial_filling);
    lemma_filled_to_bound(rows, t, t.len() as int);
    assert forall|i: int, j: int| fcell(t, i, j) implies #[trigger] t[i][j] != 0 by {
        if t[i][j] == 0 {
            assert(filled_to(t, t.len() as int) < sum_to(rows, t.len() as int));
        }
    }
    let n = seq_sum(rows);
    assert forall|i: int, j: int| fcell(t, i, j) implies 1 <= #[trigger] t[i][j] <= n by {
        assert(t[i][j] != 0);
    }
    assert forall|i1: int, j1: int, i2: int, j2: int|
        fcell(t, i1, j1) && fcell(t, i2, j2) && (i1 != i2 || j1 != j2) implies #[trigger] t[i1][j1]
        != #[trigger] t[i2][j2] by {
        assert(t[i1][j1] != 0);
    }
    assert forall|i: int, j: int| fcell(t, i, j) && j >= 1 implies #[trigger] t[i][j] > t[i][j - 1] by {
        assert(t[i][j] != 0);
    }
    assert forall|i: int, j: int|
        1 <= i < rows.len() && 0 <= j < rows[0] && j < t[i].len() && j < t[i - 1].len() implies #[trigger] t[i][j]
        > t[i - 1][j] by {
        assert(fcell(t, i, j));
        assert(t[i][j] != 0);
    }
}

/// A standard filling has every entry at most the number of cells.
proof fn lemma_restrict_all(rows: Seq<usize>, t: Seq<Seq<usize>>, num: int)
    requires
        standard_filling(rows, t),
        num == seq_sum(rows) + 1,
    ensures
        restrict(t, num) == t,
{
    reveal(standard_filling);
    let r = restrict(t, num);
    assert forall|i: int| 0 <= i < t.len() implies #[trigger] r[i] == t[i] by {
        assert forall|j: int| 0 <= j < t[i].len() implies #[trigger] r[i][j] == t[i][j] by {
            assert(fcell(t, i, j));
            assert(t[i][j] <= seq_sum(rows));
        }
        assert(r[i] =~= t[i]);
    }
    assert(r =~= t);
}

/// Placing `num` in a placeable cell of a partial filling with `1..num` placed gives one with
/// `1..=num` placed.
#[verifier::spinoff_prover]
#[verifier::rlimit(40)]
proof fn lemma_place(rows: Seq<usize>, e: Seq<Seq<usize>>, num: int, i: int, j: int)
    requires
        partial_filling(rows, e, num),
        1 <= num <= usize::MAX,
        fcell(e, i, j),
        placeable(e, i, j),
    ensures
        partial_filling(rows, place(e, i, j, num), num + 1),
{
    reveal(partial_filling);
    let e1 = place(e, i, j, num);
    assert forall|a: int| 0 <= a < e1.len() implies (#[trigger] e1[a]).len() == rows[a] by {
        assert(e[a].len() == rows[a]);
    }
    assert(shaped(rows, e1));
    assert forall|a: int, b: int| fcell(e1, a, b) implies #[trigger] e1[a][b] < num + 1 by {
        if a != i || b != j {
            assert(e1[a][b] == e[a][b]);
            assert(fcell(e, a, b));
        }
    }
    assert forall|a1: int, b1: int, a2: int, b2: int|
        fcell(e1, a1, b1) && fcell(e1, a2, b2) && (a1 != a2 || b1 != b2) && e1[a1][b1] != 0 implies #[trigger] e1[a1][b1]
        != #[trigger] e1[a2][b2] by {
        assert(fcell(e, a1, b1) && fcell(e, a2, b2));
        if a1 == i && b1 == j {
            assert(e1[a2][b2] == e[a2][b2]);
            assert(e[a2][b2] < num);
        } else if a2 == i && b2 == j {
            assert(e1[a1][b1] == e[a1][b1]);
            assert(e[a1][b1] < num);
        } else {
            assert(e1[a1][b1] == e[a1][b1]);
            assert(e1[a2][b2] == e[a2][b2]);
        }
    }
    assert forall|v: int| 1 <= v < num + 1 implies #[trigger] fholds(e1, v) by {
        if v == num {
            assert(e1[i][j] == v);
        } else {
            assert(fholds(e, v));
            let (a, b) = choose|a: int, b: int| fcell(e, a, b) && #[trigger] e[a][b] == v;
            if a == i && b == j {
                assert(false);
            }
            assert(e1[a][b] == e[a][b]);
        }
    }
    assert forall|a: int, b: int| fcell(e1, a, b) && b >= 1 && #[trigger] e1[a][b] != 0 implies e1[a][b - 1] != 0
        && e1[a][b - 1] < e1[a][b] by {
        assert(fcell(e, a, b));
        if a == i && b == j {
            assert(e1[a][b - 1] == e[a][b - 1]);
            assert(fcell(e, a, b - 1));
        } else if a == i && b - 1 == j {
            assert(e1[a][b] == e[a][b]);
            assert(e[a][b - 1] != 0);
        } else {
            assert(e1[a][b] == e[a][b]);
            assert(e1[a][b - 1] == e[a][b - 1]);
        }
    }
    assert forall|a: int, b: int| fcell(e1, a, b) && a >= 1 && #[trigger] e1[a][b] != 0 implies b < e1[a - 1].len()
        && e1[a - 1][b] != 0 && e1[a - 1][b] < e1[a][b] by {
        assert(fcell(e, a, b));
        if a == i && b == j {
            assert(e1[a - 1][b] == e[a - 1][b]);
            assert(fcell(e, a - 1, b));
        } else if a - 1 == i && b == j {
            assert(e1[a][b] == e[a][b]);
            assert(e[a - 1][b] != 0);
        } else {
            assert(e1[a][b] == e[a][b]);
            assert(e1[a - 1][b] == e[a - 1][b]);
        }
    }
    lemma_filled_to_update(e, i, j, num as usize, e.len() as int);
}

/// Non-increasing rows: a later row is no longer than an earlier one.
pub proof fn lemma_non_increasing_pair(s: Seq<usize>, a: int, b: int)
    requires
        non_increasing(s),
        0 <= a <= b < s.len(),
    ensures
        s[b] <= s[a],
    decreases b - a,
{
    if a < b {
        lemma_non_increasing_pair(s, a, b - 1);
        assert(s[b] <= s[b - 1]);
    }
}

/// In the start of a standard filling, the cell of the next value is placeable.
proof fn lemma_skip(rows: Seq<usize>, t: Seq<Seq<usize>>, e: Seq<Seq<usize>>, num: int, i: int, j: int)
    requires
        non_increasing(rows),
        standard_filling(rows, t),
        restrict(t, num) == e,
        fcell(t, i, j),
        t[i][j] == num,
        num >= 1,
    ensures
        fcell(e, i, j),
        placeable(e, i, j),
{
    reveal(standard_filling);
    assert(e[i].len() == t[i].len());
    assert(e[i][j] == 0);
    if j > 0 {
        assert(fcell(t, i, j - 1));
        assert(t[i][j] > t[i][j - 1]);
        assert(t[i][j - 1] >= 1);
        assert(e[i][j - 1] == t[i][j - 1]);
    }
    if i > 0 {
        assert(t[i].len() == rows[i] && t[i - 1].len() == rows[i - 1]);
        assert(rows[i] <= rows[i - 1]);
        lemma_non_increasing_pair(rows, 0, i);
        assert(fcell(t, i - 1, j));
        assert(t[i][j] > t[i - 1][j]);
        assert(t[i - 1][j] >= 1);
        assert(e[i - 1].len() == t[i - 1].len());
        assert(e[i - 1][j] == t[i - 1][j]);
    }
}

/// Clearing the entries above `num` instead of those from `num` places `num` in its cell.
#[verifier::spinoff_prover]
#[verifier::rlimit(40)]
proof fn lemma_restrict_step(rows: Seq<usize>, t: Seq<Seq<usize>>, e: Seq<Seq<usize>>, num: int, i: int, j: int)
    requires
        standard_filling(rows, t),
        restrict(t, num) == e,
        fcell(t, i, j),
        t[i][j] == num,
    ensures
        restrict(t, num + 1) == place(e, i, j, num),
{
    reveal(standard_filling);
    let r = restrict(t, num + 1);
    let p = place(e, i, j, num);
    assert forall|a: int| 0 <= a < t.len() implies #[trigger] r[a] == p[a] by {
        assert forall|b: int| 0 <= b < t[a].len() implies #[trigger] r[a][b] == p[a][b] by {
            if a == i && b == j {
            } else {
                assert(fcell(t, a, b));
                assert(t[a][b] != t[i][j]);
                assert(p[a][b] == e[a][b]);
            }
        }
        assert(r[a] =~= p[a]);
    }
    assert(r =~= p);
}

/// After the branch that places `num` in cell `(i, j)`, the loop's facts hold up to `(i, j + 1)`.
/// A standard filling that agrees with a partial filling of `1..num` on its placed cells holds
/// its entries below `num` exactly there.
proof fn lemma_restrict_of_extension(rows: Seq<usize>, e: Seq<Seq<usize>>, num: int, t: Seq<Seq<usize>>)
    requires
        partial_filling(rows, e, num),
        standard_filling(rows, t),
        extends(t, e),
    ensures
        restrict(t, num) == e,
{
    reveal(partial_filling);
    reveal(standard_filling);
    let r = restrict(t, num);
    assert forall|i: int| 0 <= i < e.len() implies #[trigger] r[i] =~= e[i] by {
        assert(t[i].len() == rows[i] && e[i].len() == rows[i]);
        assert forall|j: int| 0 <= j < e[i].len() implies r[i][j] == e[i][j] by {
            assert(fcell(t, i, j) && fcell(e, i, j));
            if e[i][j] == 0 {
                if t[i][j] < num {
                    let w = t[i][j] as int;
                    assert(1 <= w);
                    assert(fholds(e, w));
                    let (a, b) = choose|a: int, b: int| fcell(e, a, b) && #[trigger] e[a][b] == w;
                    assert(t[a][b] == w);
                    assert(fcell(t, a, b));
                    assert(a != i || b != j);
                }
            }
        }
    }
    assert(r =~= e);
}

/// The tableaux completed after placing `num` in cell `(i, j)` come after those that hold `num`
/// in an earlier cell, keeping the whole list in order.
proof fn lemma_branch_ordered(
    rows: Seq<usize>,
    e0: Seq<Seq<usize>>,
    num: int,
    i: int,
    j: int,
    o0: Seq<YoungTableau>,
    before: Seq<YoungTableau>,
    after: Seq<YoungTableau>,
)
    requires
        partial_filling(rows, e0, num),
        1 <= num <= usize::MAX,
        fcell(e0, i, j),
        placeable(e0, i, j),
        keeps_prefix(before, o0),
        keeps_prefix(after, before),
        outs_sound(rows, before, o0.len() as int, e0),
        outs_ordered(before, o0.len() as int),
        outs_placed_before(before, o0.len() as int, num, i, j),
        outs_sound(rows, after, before.len() as int, place(e0, i, j, num)),
        outs_ordered(after, before.len() as int),
    ensures
        outs_ordered(after, o0.len() as int),
{
    lemma_partial_shaped(rows, e0, num);
    let lo = o0.len() as int;
    let mid = before.len() as int;
    let e1 = place(e0, i, j, num);
    let tv = tableaux_view(after);
    let bv = tableaux_view(before);
    assert forall|k: int| 0 <= k < mid implies #[trigger] tv[k] == bv[k] by {
        assert(after[k] == before[k]);
    }
    assert forall|k1: int, k2: int| lo <= k1 < k2 < after.len() implies placed_earlier(
        #[trigger] tv[k1],
        #[trigger] tv[k2],
    ) by {
        if k2 < mid {
            assert(placed_earlier(bv[k1], bv[k2]));
        } else if k1 >= mid {
            assert(placed_earlier(tv[k1], tv[k2]));
        } else {
            let t1 = tv[k1];
            let t2 = tv[k2];
            assert(t1 == bv[k1]);
            assert(standard_filling(rows, t1) && extends(t1, e0));
            assert(standard_filling(rows, t2) && extends(t2, e1));
            assert(extends(t2, e0)) by {
                assert forall|a: int, b: int| fcell(e0, a, b) && e0[a][b] != 0 implies #[trigger] t2[a][b] == e0[a][b] by {
                    assert(a != i || b != j);
                    assert(e1[a][b] == e0[a][b]);
                    assert(fcell(e1, a, b));
                }
            }
            lemma_restrict_of_extension(rows, e0, num, t1);
            lemma_restrict_of_extension(rows, e0, num, t2);
            assert(placed_before(t1, num, i, j));
            let (a, b) = choose|a: int, b: int| fcell(t1, a, b) && before_cell(a, b, i, j) && #[trigger] t1[a][b] == num;
            assert(fcell(e1, i, j) && e1[i][j] == num);
            assert(t2[i][j] == num);
            reveal(standard_filling);
            assert(fcell(t2, i, j));
            assert(placed_earlier(t1, t2));
        }
    }
}

proof fn lemma_branch(
    rows: Seq<usize>,
    e0: Seq<Seq<usize>>,
    num: int,
    i: int,
    j: int,
    o0: Seq<YoungTableau>,
    before: Seq<YoungTableau>,
    after: Seq<YoungTableau>,
    wf: bool,
)
    requires
        partial_filling(rows, e0, num),
        1 <= num <= usize::MAX,
        fcell(e0, i, j),
        placeable(e0, i, j),
        keeps_prefix(before, o0),
        keeps_prefix(after, before),
        outs_sound(rows, before, o0.len() as int, e0),
        outs_distinct(before, o0.len() as int),
        outs_placed_before(before, o0.len() as int, num, i, j),
        outs_cover_before(rows, before, o0.len() as int, e0, num, i, j, wf),
        outs_sound(rows, after, before.len() as int, place(e0, i, j, num)),
        outs_distinct(after, before.len() as int),
        outs_complete(rows, after, before.len() as int, place(e0, i, j, num), num + 1, wf),
    ensures
        keeps_prefix(after, o0),
        outs_sound(rows, after, o0.len() as int, e0),
        outs_distinct(after, o0.len() as int),
        outs_placed_before(after, o0.len() as int, num, i, j + 1),
        outs_cover_before(rows, after, o0.len() as int, e0, num, i, j + 1, wf),
{
    lemma_partial_shaped(rows, e0, num);
    let lo = o0.len() as int;
    let mid = before.len() as int;
    let e1 = place(e0, i, j, num);
    let tv = tableaux_view(after);
    assert forall|k: int| 0 <= k < mid implies #[trigger] tv[k] == tableaux_view(before)[k] by {
        assert(after[k] == before[k]);
    }
    assert forall|k: int| mid <= k < after.len() implies extends(#[trigger] tv[k], e0) && tv[k][i][j] == num by {
        assert(extends(tv[k], e1));
        assert forall|a: int, b: int| fcell(e0, a, b) && e0[a][b] != 0 implies #[trigger] tv[k][a][b] == e0[a][b] by {
            assert(fcell(e1, a, b));
            assert(e1[a][b] == e0[a][b]);
        }
        assert(fcell(e1, i, j) && e1[i][j] != 0);
    }
    assert(outs_sound(rows, after, lo, e0)) by {
        assert forall|k: int| lo <= k < after.len() implies (#[trigger] after[k]).diagram.rows@ == rows
            && after[k].shape_ok() && standard_filling(rows, tableaux_view(after)[k]) && extends(
            tableaux_view(after)[k],
            e0,
        ) by {
            if k < mid {
                assert(after[k] == before[k]);
            }
        }
    }
    assert(outs_placed_before(after, lo, num, i, j + 1)) by {
        assert forall|k: int| lo <= k < after.len() implies placed_before(#[trigger] tableaux_view(after)[k], num, i, j + 1) by {
            if k < mid {
                assert(placed_before(tableaux_view(before)[k], num, i, j));
                let (a, b) = choose|a: int, b: int|
                    fcell(tableaux_view(before)[k], a, b) && before_cell(a, b, i, j) && #[trigger] tableaux_view(before)[k][a][b]
                        == num;
                assert(tv[k][a][b] == num);
            } else {
                assert(standard_filling(rows, tv[k]));
                lemma_standard_shaped(rows, tv[k]);
                assert(tv[k][i][j] == num);
                assert(fcell(tv[k], i, j));
            }
        }
    }
    assert(outs_distinct(after, lo)) by {
        assert forall|k1: int, k2: int| lo <= k1 < k2 < after.len() implies #[trigger] tableaux_view(after)[k1]
            != #[trigger] tableaux_view(after)[k2] by {
            if k1 < mid && k2 < mid {
                assert(tableaux_view(before)[k1] != tableaux_view(before)[k2]);
            } else if k1 < mid && k2 >= mid {
                let t1 = tableaux_view(before)[k1];
                assert(placed_before(t1, num, i, j));
                let (a, b) = choose|a: int, b: int| fcell(t1, a, b) && before_cell(a, b, i, j) && #[trigger] t1[a][b] == num;
                let t2 = tv[k2];
                assert(standard_filling(rows, t2));
                lemma_standard_shaped(rows, t2);
                if t1 == t2 {
                    assert(fcell(t2, i, j));
                    lemma_standard_distinct(rows, t2, a, b, i, j);
                    assert(t2[a][b] == t2[i][j]);
                }
            }
        }
    }
    assert(outs_cover_before(rows, after, lo, e0, num, i, j + 1, wf)) by {
        assert forall|t: Seq<Seq<usize>>|
            wf && standard_filling(rows, t) && #[trigger] restrict(t, num) == e0 && placed_before(t, num, i, j + 1) implies exists|k: int|
                lo <= k < after.len() && #[trigger] tableaux_view(after)[k] == t by {
            let (a, b) = choose|a: int, b: int| fcell(t, a, b) && before_cell(a, b, i, j + 1) && #[trigger] t[a][b] == num;
            if a == i && b == j {
                lemma_restrict_step(rows, t, e0, num, i, j);
                assert(restrict(t, num + 1) == e1);
                let k = choose|k: int| mid <= k < after.len() && #[trigger] tableaux_view(after)[k] == t;
                assert(lo <= k);
            } else {
                assert(placed_before(t, num, i, j));
                let k = choose|k: int| lo <= k < before.len() && #[trigger] tableaux_view(before)[k] == t;
                assert(tv[k] == t);
            }
        }
    }
}

/// A cell that cannot take `num` holds `num` in none of the fillings still to be found.
proof fn lemma_cell_skipped(
    rows: Seq<usize>,
    e0: Seq<Seq<usize>>,
    num: int,
    i: int,
    j: int,
    lo: int,
    outs: Seq<YoungTableau>,
    wf: bool,
)
    requires
        wf ==> non_increasing(rows),
        num >= 1,
        fcell(e0, i, j),
        !placeable(e0, i, j),
        outs_placed_before(outs, lo, num, i, j),
        outs_cover_before(rows, outs, lo, e0, num, i, j, wf),
    ensures
        outs_placed_before(outs, lo, num, i, j + 1),
        outs_cover_before(rows, outs, lo, e0, num, i, j + 1, wf),
{
    assert forall|k: int| lo <= k < outs.len() implies placed_before(#[trigger] tableaux_view(outs)[k], num, i, j + 1) by {
        let t = tableaux_view(outs)[k];
        assert(placed_before(t, num, i, j));
        let (a, b) = choose|a: int, b: int| fcell(t, a, b) && before_cell(a, b, i, j) && #[trigger] t[a][b] == num;
        assert(before_cell(a, b, i, j + 1));
    }
    assert forall|t: Seq<Seq<usize>>|
        wf && standard_filling(rows, t) && #[trigger] restrict(t, num) == e0 && placed_before(t, num, i, j + 1) implies exists|k: int|
            lo <= k < outs.len() && #[trigger] tableaux_view(outs)[k] == t by {
        let (a, b) = choose|a: int, b: int| fcell(t, a, b) && before_cell(a, b, i, j + 1) && #[trigger] t[a][b] == num;
        if a == i && b == j {
            lemma_skip(rows, t, e0, num, i, j);
        }
        assert(placed_before(t, num, i, j));
    }
}

/// Finishing row `i` is reaching the start of row `i + 1`.
proof fn lemma_next_row(
    rows: Seq<usize>,
    e0: Seq<Seq<usize>>,
    num: int,
    i: int,
    lo: int,
    outs: Seq<YoungTableau>,
    wf: bool,
)
    requires
        0 <= i < rows.len(),
        outs_placed_before(outs, lo, num, i, rows[i] as int),
        outs_cover_before(rows, outs, lo, e0, num, i, rows[i] as int, wf),
    ensures
        outs_placed_before(outs, lo, num, i + 1, 0),
        outs_cover_before(rows, outs, lo, e0, num, i + 1, 0, wf),
{
    reveal(standard_filling);
    assert forall|k: int| lo <= k < outs.len() implies placed_before(#[trigger] tableaux_view(outs)[k], num, i + 1, 0) by {
        let t = tableaux_view(outs)[k];
        assert(placed_before(t, num, i, rows[i] as int));
        let (a, b) = choose|a: int, b: int|
            fcell(t, a, b) && before_cell(a, b, i, rows[i] as int) && #[trigger] t[a][b] == num;
        assert(before_cell(a, b, i + 1, 0));
    }
    assert forall|t: Seq<Seq<usize>>|
        wf && standard_filling(rows, t) && #[trigger] restrict(t, num) == e0 && placed_before(t, num, i + 1, 0) implies exists|k: int|
            lo <= k < outs.len() && #[trigger] tableaux_view(outs)[k] == t by {
        let (a, b) = choose|a: int, b: int| fcell(t, a, b) && before_cell(a, b, i + 1, 0) && #[trigger] t[a][b] == num;
        assert(t[a].len() == rows[a]);
        assert(before_cell(a, b, i, rows[i] as int));
        assert(placed_before(t, num, i, rows[i] as int));
    }
}

/// Every value up to the number of cells lies in some row.
proof fn lemma_all_rows_done(
    rows: Seq<usize>,
    e0: Seq<Seq<usize>>,
    num: int,
    lo: int,
    outs: Seq<YoungTableau>,
    wf: bool,
)
    requires
        1 <= num <= seq_sum(rows),
        outs_cover_before(rows, outs, lo, e0, num, rows.len() as int, 0, wf),
    ensures
        outs_complete(rows, outs, lo, e0, num, wf),
{
    reveal(standard_filling);
    assert forall|t: Seq<Seq<usize>>| wf && standard_filling(rows, t) && #[trigger] restrict(t, num) == e0 implies exists|k: int|
        lo <= k < outs.len() && #[trigger] tableaux_view(outs)[k] == t by {
        assert(fholds(t, num));
        let (a, b) = choose|a: int, b: int| fcell(t, a, b) && #[trigger] t[a][b] == num;
        assert(before_cell(a, b, rows.len() as int, 0));
        assert(placed_before(t, num, rows.len() as int, 0));
    }
}

proof fn lemma_row_filled_zeros(r: Seq<usize>, k: int)
    requires
        0 <= k <= r.len(),
        forall|j: int| 0 <= j < r.len() ==> #[trigger] r[j] == 0,
    ensures
        row_filled(r, k) == 0,
    decreases k,
{
    if k > 0 {
        lemma_row_filled_zeros(r, k - 1);
    }
}

proof fn lemma_filled_to_zeros(t: Seq<Seq<usize>>, k: int)
    requires
        0 <= k <= t.len(),
        forall|i: int, j: int| fcell(t, i, j) ==> #[trigger] t[i][j] == 0,
    ensures
        filled_to(t, k) == 0,
    decreases k,
{
    if k > 0 {
        lemma_filled_to_zeros(t, k - 1);
        assert forall|j: int| 0 <= j < t[k - 1].len() implies #[trigger] t[k - 1][j] == 0 by {
            assert(fcell(t, k - 1, j));
        }
        lemma_row_filled_zeros(t[k - 1], t[k - 1].len() as int);
    }
}

/// The filling with every cell empty has nothing placed.
proof fn lemma_empty_filling(rows: Seq<usize>, e: Seq<Seq<usize>>)
    requires
        e.len() == rows.len(),
        forall|a: int| 0 <= a < e.len() ==> #[trigger] e[a] == Seq::new(rows[a] as nat, |b: int| 0usize),
    ensures
        partial_filling(rows, e, 1),
{
    reveal(partial_filling);
    assert forall|i: int, j: int| fcell(e, i, j) implies #[trigger] e[i][j] == 0 by {
        assert(e[i] == Seq::new(rows[i] as nat, |b: int| 0usize));
    }
    assert forall|a: int| 0 <= a < e.len() implies (#[trigger] e[a]).len() == rows[a] by {
        assert(e[a] == Seq::new(rows[a] as nat, |b: int| 0usize));
    }
    lemma_filled_to_zeros(e, e.len() as int);
}

/// Clearing every entry of a standard filling leaves the empty filling.
proof fn lemma_restrict_one(rows: Seq<usize>, t: Seq<Seq<usize>>, e: Seq<Seq<usize>>)
    requires
        standard_filling(rows, t),
        e.len() == rows.len(),
        forall|a: int| 0 <= a < e.len() ==> #[trigger] e[a] == Seq::new(rows[a] as nat, |b: int| 0usize),
    ensures
        restrict(t, 1) == e,
{
    reveal(standard_filling);
    let r = restrict(t, 1);
    assert forall|a: int| 0 <= a < t.len() implies #[trigger] r[a] == e[a] by {
        assert(e[a] == Seq::new(rows[a] as nat, |b: int| 0usize));
        assert(t[a].len() == rows[a]);
        assert forall|b: int| 0 <= b < t[a].len() implies #[trigger] r[a][b] == e[a][b] by {
            assert(fcell(t, a, b));
            assert(t[a][b] >= 1);
        }
        assert(r[a] =~= e[a]);
    }
    assert(r =~= e);
}

/// A tableau whose entries form a standard filling of its diagram is standard.
proof fn lemma_standard_view(tab: YoungTableau)
    requires
        tab.shape_ok(),
        standard_filling(tab.diagram.rows@, entries_view(tab.entries@)),
    ensures
        tab.standard(),
{
    reveal(standard_filling);
    let t = entries_view(tab.entries@);
    let rows = tab.diagram.rows@;
    let n = seq_sum(rows);
    assert forall|i: int| 0 <= i < t.len() implies #[trigger] t[i] == tab.entries@[i]@ by {}
    assert forall|i: int, j: int| tab.is_cell(i, j) implies fcell(t, i, j) && #[trigger] tab.entry(i, j) == t[i][j] by {
        assert(t[i] == tab.entries@[i]@);
    }
    assert forall|i: int, j: int| tab.is_cell(i, j) implies 1 <= #[trigger] tab.entry(i, j) <= n by {
        assert(fcell(t, i, j) && tab.entry(i, j) == t[i][j]);
    }
    assert forall|i1: int, j1: int, i2: int, j2: int|
        tab.is_cell(i1, j1) && tab.is_cell(i2, j2) && (i1 != i2 || j1 != j2) implies #[trigger] tab.entry(i1, j1)
        != #[trigger] tab.entry(i2, j2) by {
        assert(fcell(t, i1, j1) && tab.entry(i1, j1) == t[i1][j1]);
        assert(fcell(t, i2, j2) && tab.entry(i2, j2) == t[i2][j2]);
    }
    assert forall|v: int| 1 <= v <= n implies #[trigger] tab.holds(v) by {
        assert(fholds(t, v));
        let (a, b) = choose|a: int, b: int| fcell(t, a, b) && #[trigger] t[a][b] == v;
        assert(t[a] == tab.entries@[a]@);
        assert(tab.is_cell(a, b) && tab.entry(a, b) == v);
    }
    assert forall|i: int, j: int| tab.is_cell(i, j) && j >= 1 implies #[trigger] tab.entry(i, j) > tab.entry(i, j - 1) by {
        assert(t[i] == tab.entries@[i]@);
        assert(fcell(t, i, j));
        assert(t[i][j] > t[i][j - 1]);
    }
    assert forall|i: int, j: int|
        1 <= i < rows.len() && 0 <= j < rows[0] && j < tab.entries@[i]@.len() && j < tab.entries@[i - 1]@.len() implies #[trigger] tab.entry(
        i,
        j,
    ) > tab.entry(i - 1, j) by {
        assert(t[i] == tab.entries@[i]@);
        assert(t[i - 1] == tab.entries@[i - 1]@);
        assert(t[i][j] > t[i - 1][j]);
    }
}

/// `n!`, for `n!` within `usize`.
pub fn factorial(n: usize) -> (r: usize)
    requires
        factorial_spec(n as nat) <= usize::MAX,
    ensures
        r == factorial_spec(n as nat),
{
    let mut prod: usize = 1;
    let mut i: usize = 0;
    while i < n
        invariant
            i <= n,
            factorial_spec(n as nat) <= usize::MAX,
            prod == factorial_spec(i as nat),
        decreases n - i,
    {
        proof {
            lemma_factorial_monotone((i + 1) as nat, n as nat);
            assert(factorial_spec((i + 1) as nat) == (i + 1) * factorial_spec(i as nat));
        }
        prod = (i + 1) * prod;
        i = i + 1;
    }
    prod
}

/// `a! <= b!` for `a <= b`, and `n! >= 1`.
pub proof fn lemma_factorial_monotone(a: nat, b: nat)
    requires
        a <= b,
    ensures
        1 <= factorial_spec(a) <= factorial_spec(b),
    decreases b,
{
    if b > 0 {
        let a2: nat = if a < b { a } else { (b - 1) as nat };
        lemma_factorial_monotone(a2, (b - 1) as nat);
        let f = factorial_spec((b - 1) as nat);
        assert(f <= b * f) by (nonlinear_arith)
            requires b >= 1, f >= 1;
    }
}

/// Every hook length is at least 1.
pub proof fn lemma_hook_positive(s: Seq<usize>, row: int, col: int)
    requires
        0 <= row < s.len(),
        0 <= col < s[row],
    ensures
        hook(s, row, col) >= 1,
{
}

proof fn lemma_row_hook_product_positive(s: Seq<usize>, row: int, m: int)
    requires
        0 <= row < s.len(),
        m <= s[row],
    ensures
        row_hook_product(s, row, m) >= 1,
        forall|k: int| 0 <= k <= m ==> row_hook_product(s, row, k) <= row_hook_product(s, row, m),
    decreases m,
{
    if m > 0 {
        lemma_row_hook_product_positive(s, row, m - 1);
        let p = row_hook_product(s, row, m - 1);
        let h = hook(s, row, m - 1);
        assert(p <= p * h) by (nonlinear_arith)
            requires p >= 1, h >= 1;
    }
}

proof fn lemma_hook_product_to_positive(s: Seq<usize>, k: int)
    requires
        k <= s.len(),
    ensures
        hook_product_to(s, k) >= 1,
        forall|t: int| 0 <= t <= k ==> hook_product_to(s, t) <= hook_product_to(s, k),
    decreases k,
{
    if k > 0 {
        lemma_hook_product_to_positive(s, k - 1);
        lemma_row_hook_product_positive(s, k - 1, s[k - 1] as int);
        let p = hook_product_to(s, k - 1);
        let r = row_hook_product(s, k - 1, s[k - 1] as int);
        assert(p <= p * r) by (nonlinear_arith)
            requires p >= 1, r >= 1;
    }
}

/// A product over a prefix of the cells is at most the product over all of them.
proof fn lemma_partial_hook_product_bound(s: Seq<usize>, i: int, m: int)
    requires
        0 <= i < s.len(),
        0 <= m <= s[i],
    ensures
        hook_product_to(s, i) * row_hook_product(s, i, m) <= hook_product_spec(s),
{
    lemma_row_hook_product_positive(s, i, s[i] as int);
    lemma_hook_product_to_positive(s, i);
    lemma_hook_product_to_positive(s, s.len() as int);
    let a = hook_product_to(s, i);
    let b = row_hook_product(s, i, m);
    let c = row_hook_product(s, i, s[i] as int);
    assert(a * b <= a * c) by (nonlinear_arith)
        requires a >= 1, b <= c;
    assert(hook_product_to(s, i + 1) == a * c);
}

/// Every row is non-empty.
pub open spec fn positive_parts(s: Seq<usize>) -> bool {
    forall|i: int| 0 <= i < s.len() ==> #[trigger] s[i] >= 1
}

/// When the entries at least `c` are exactly those before `p`, there are `p` of them.
proof fn lemma_count_prefix(s: Seq<usize>, h: int, c: int, p: int)
    requires
        0 <= p <= h <= s.len(),
        forall|k: int| 0 <= k < h ==> (#[trigger] s[k] >= c <==> k < p),
    ensures
        count_at_least(s, 0, h, c) == p,
    decreases h,
{
    if h > 0 {
        if p == h {
            lemma_count_prefix(s, h - 1, c, p - 1);
        } else {
            lemma_count_prefix(s, h - 1, c, p);
        }
    }
}

/// In non-increasing rows, the rows of length at least `c` are the first ones, as many as
/// `count_at_least` counts.
proof fn lemma_count_non_increasing(s: Seq<usize>, h: int, c: int)
    requires
        non_increasing(s),
        0 <= h <= s.len(),
    ensures
        count_at_least(s, 0, h, c) <= h,
        forall|k: int| 0 <= k < h ==> (#[trigger] s[k] >= c <==> k < count_at_least(s, 0, h, c)),
    decreases h,
{
    if h > 0 {
        lemma_count_non_increasing(s, h - 1, c);
        if s[h - 1] >= c {
            assert forall|k: int| 0 <= k < h - 1 implies #[trigger] s[k] >= c by {
                lemma_non_increasing_pair(s, k, h - 1);
            }
            assert(count_at_least(s, 0, h - 1, c) == h - 1) by {
                if count_at_least(s, 0, h - 1, c) < h - 1 {
                    let k = count_at_least(s, 0, h - 1, c) as int;
                    assert(s[k] >= c);
                }
            }
        }
    }
}

/// Column `k` of a partition (with no more rows than `usize` counts) reaches down through the
/// first `conjugate_rows(s)[k]` rows and no further.
proof fn lemma_conjugate_entry(s: Seq<usize>, k: int)
    requires
        non_increasing(s),
        s.len() <= usize::MAX,
        s.len() > 0,
        0 <= k < s[0],
    ensures
        conjugate_rows(s)[k] == count_at_least(s, 0, s.len() as int, k + 1),
        1 <= conjugate_rows(s)[k] <= s.len(),
        forall|j: int| 0 <= j < s.len() ==> (#[trigger] s[j] >= k + 1 <==> j < conjugate_rows(s)[k]),
{
    lemma_count_non_increasing(s, s.len() as int, k + 1);
    let c = count_at_least(s, 0, s.len() as int, k + 1);
    assert(s[0] >= k + 1);
    assert(conjugate_rows(s)[k] == c as usize);
}

/// The conjugate of a partition is a partition of the same number, with no empty rows.
pub proof fn lemma_conjugate_size(s: Seq<usize>)
    requires
        non_increasing(s),
        s.len() <= usize::MAX,
    ensures
        seq_sum(conjugate_rows(s)) == seq_sum(s),
        non_increasing(conjugate_rows(s)),
        positive_parts(conjugate_rows(s)),
{
    let c = conjugate_rows(s);
    if s.len() > 0 {
        assert forall|k: int| 0 <= k < c.len() implies #[trigger] c[k] >= 1 by {
            lemma_conjugate_entry(s, k);
        }
        assert forall|i: int| 1 <= i < c.len() implies #[trigger] c[i] <= c[i - 1] by {
            lemma_conjugate_entry(s, i);
            lemma_conjugate_entry(s, i - 1);
            lemma_count_at_least_antitone(s, 0, s.len() as int, i, i + 1);
        }
        lemma_conjugate_sum(s, s[0] as int);
        lemma_sum_min_full(s, s.len() as int, s[0] as int);
    }
}

/// Counting the cells column by column: the first `w` columns of the conjugate hold as many cells
/// as the rows have in their first `w` columns.
proof fn lemma_conjugate_sum(s: Seq<usize>, w: int)
    requires
        non_increasing(s),
        s.len() <= usize::MAX,
        s.len() > 0,
        0 <= w <= s[0],
    ensures
        sum_to(conjugate_rows(s), w) == sum_min(s, s.len() as int, w),
    decreases w,
{
    if w > 0 {
        lemma_conjugate_sum(s, w - 1);
        lemma_sum_min_step(s, s.len() as int, w);
        lemma_conjugate_entry(s, w - 1);
    } else {
        lemma_sum_min_zero(s, s.len() as int);
    }
}

/// `Σ_{i < h} min(s[i], w)`.
pub open spec fn sum_min(s: Seq<usize>, h: int, w: int) -> int
    decreases h,
{
    if h <= 0 {
        0
    } else {
        sum_min(s, h - 1, w) + if s[h - 1] <= w {
            s[h - 1] as int
        } else {
            w
        }
    }
}

proof fn lemma_sum_min_zero(s: Seq<usize>, h: int)
    requires
        0 <= h <= s.len(),
    ensures
        sum_min(s, h, 0) == 0,
    decreases h,
{
    if h > 0 {
        lemma_sum_min_zero(s, h - 1);
    }
}

/// Widening by one column adds the rows that reach that column.
proof fn lemma_sum_min_step(s: Seq<usize>, h: int, w: int)
    requires
        0 <= h <= s.len(),
        w >= 1,
    ensures
        sum_min(s, h, w) == sum_min(s, h, w - 1) + count_at_least(s, 0, h, w),
    decreases h,
{
    if h > 0 {
        lemma_sum_min_step(s, h - 1, w);
    }
}

/// Once `w` reaches every row's length, the sum of the minima is the sum of the rows.
proof fn lemma_sum_min_full(s: Seq<usize>, h: int, w: int)
    requires
        non_increasing(s),
        0 <= h <= s.len(),
        s.len() > 0,
        w == s[0],
    ensures
        sum_min(s, h, w) == sum_to(s, h),
    decreases h,
{
    if h > 0 {
        lemma_non_increasing_pair(s, 0, h - 1);
        lemma_sum_min_full(s, h - 1, w);
    }
}

/// Conjugating a partition with no empty rows twice gives it back.
pub proof fn lemma_conjugate_involution(s: Seq<usize>)
    requires
        non_increasing(s),
        positive_parts(s),
        s.len() <= usize::MAX,
    ensures
        conjugate_rows(conjugate_rows(s)) == s,
{
    let c = conjugate_rows(s);
    if s.len() == 0 {
        assert(conjugate_rows(c) =~= s);
    } else {
        let m = s.len() as int;
        let w = s[0] as int;
        lemma_conjugate_size(s);
        assert(c[0] == m) by {
            lemma_conjugate_entry(s, 0);
            assert(s[m - 1] >= 1);
        }
        let cc = conjugate_rows(c);
        assert forall|j: int| 0 <= j < m implies #[trigger] cc[j] == s[j] by {
            lemma_conjugate_column(s, j);
        }
        assert(cc =~= s);
    }
}

/// Row `j` of the twice-conjugated partition is row `j` again.
proof fn lemma_conjugate_column(s: Seq<usize>, j: int)
    requires
        non_increasing(s),
        positive_parts(s),
        s.len() <= usize::MAX,
        0 <= j < s.len(),
    ensures
        conjugate_rows(conjugate_rows(s))[j] == s[j],
{
    let c = conjugate_rows(s);
    let w = s[0] as int;
    lemma_non_increasing_pair(s, 0, j);
    lemma_conjugate_size(s);
    assert(c.len() == w);
    assert forall|k: int| 0 <= k < w implies (#[trigger] c[k] >= j + 1 <==> k < s[j]) by {
        lemma_conjugate_entry(s, k);
    }
    lemma_count_prefix(c, w, j + 1, s[j] as int);
    assert(c[0] == s.len()) by {
        lemma_conjugate_entry(s, 0);
        assert(s[s.len() - 1] >= 1);
    }
    assert(c.len() <= usize::MAX);
}

/// Partial sums of non-negative entries grow with the bound.
pub proof fn lemma_sum_to_monotone(s: Seq<usize>, a: int, b: int)
    requires
        0 <= a <= b <= s.len(),
    ensures
        sum_to(s, a) <= sum_to(s, b),
    decreases b - a,
{
    if a < b {
        lemma_sum_to_monotone(s, a, b - 1);
    }
}

/// Counting entries at least `c` gives no fewer than counting entries at least a larger `d`.
pub proof fn lemma_count_at_least_antitone(s: Seq<usize>, lo: int, hi: int, c: int, d: int)
    requires
        c <= d,
    ensures
        count_at_least(s, lo, hi, d) <= count_at_least(s, lo, hi, c),
    decreases hi - lo,
{
    if hi > lo {
        lemma_count_at_least_antitone(s, lo, hi - 1, c, d);
    }
}

} // verus!
