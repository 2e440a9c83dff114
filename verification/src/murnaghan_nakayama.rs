//! Characters of the symmetric groups by the Murnaghan–Nakayama rule: the character of the
//! irreducible representation of S_n for a partition, at a permutation of a given cycle type,
//! is the signed count of the ways to peel border strips of the cycle lengths off the diagram.
use crate::young::{
    is_partition, lemma_non_increasing_pair, lemma_sum_prepend, lemma_sum_to_monotone, non_increasing,
    positive_parts, seq_sum, sum_to,
};
use vstd::arithmetic::div_mod::lemma_add_mod_noop;
use vstd::prelude::*;

verus! {

/// `s` without its trailing zeros.
pub open spec fn trim_zeros(s: Seq<usize>) -> Seq<usize>
    decreases s.len(),
{
    if s.len() > 0 && s.last() == 0 {
        trim_zeros(s.drop_last())
    } else {
        s
    }
}

/// The length of the row below `t` (0 below the last row).
pub open spec fn shelf(lam: Seq<usize>, t: int) -> int {
    if t + 1 < lam.len() {
        lam[t + 1] as int
    } else {
        0
    }
}

/// Each row `i` in `[b, t)` is followed by a row that is not empty and not longer than it, so a
/// border strip running through rows `b..=t` can keep exactly `lam[i + 1] - 1` cells of row `i`.
pub open spec fn strip_rows_ok(lam: Seq<usize>, b: int, t: int) -> bool {
    forall|i: int| b <= i < t ==> 1 <= #[trigger] lam[i + 1] <= lam[i]
}

/// The cells a border strip through rows `b..=t` takes from the rows above its lowest row `t`:
/// from each row `i` in `[b, t)`, everything right of column `lam[i + 1] - 2`, that is
/// `lam[i] - lam[i + 1] + 1` cells.
pub open spec fn strip_upper_cells(lam: Seq<usize>, b: int, t: int) -> int
    decreases t - b,
{
    if t <= b {
        0
    } else {
        strip_upper_cells(lam, b, t - 1) + (lam[t - 1] - lam[t] + 1)
    }
}

/// The shape left by the border strip of `size` cells whose highest row is `b` and lowest row is
/// `t` (`b <= t`): rows `b..t` keep `lam[i + 1] - 1` cells each, so that consecutive rows of the
/// strip share exactly one column (the strip is connected and holds no 2×2 square), and row `t`
/// gives up the cells still needed, keeping at least as many as the row below it.
pub open spec fn strip_remainder(lam: Seq<usize>, size: int, t: int, b: int) -> Seq<usize> {
    let needed = size - strip_upper_cells(lam, b, t);
    Seq::new(
        lam.len(),
        |i: int|
            if b <= i < t {
                (lam[i + 1] - 1) as usize
            } else if i == t {
                (lam[t] - needed) as usize
            } else {
                lam[i]
            },
    )
}

/// The border strip of `size` cells spanning rows `b..=t` of `lam`, if there is one: the shape
/// left (trailing zeros dropped) and the leg length `t - b`. There is one exactly when the rows
/// can carry it (`strip_rows_ok`), the rows above `t` give fewer than `size` cells, and row `t`
/// can give the rest (at least one cell) while staying as long as the row below it.
pub open spec fn border_strip(lam: Seq<usize>, size: int, t: int, b: int) -> Option<(Seq<usize>, nat)> {
    let upper = strip_upper_cells(lam, b, t);
    if strip_rows_ok(lam, b, t) && upper < size && size - upper <= lam[t] - shelf(lam, t) {
        Some((trim_zeros(strip_remainder(lam, size, t, b)), (t - b) as nat))
    } else {
        None
    }
}

/// The value of an option as a sequence of no or one element.
pub open spec fn option_seq<A>(o: Option<A>) -> Seq<A> {
    match o {
        None => Seq::empty(),
        Some(a) => seq![a],
    }
}

/// The border strips whose lowest row is `t` and highest row is below `bh`, highest row first.
pub open spec fn strips_in_row(lam: Seq<usize>, size: int, t: int, bh: int) -> Seq<(Seq<usize>, nat)>
    decreases bh,
{
    if bh <= 0 {
        Seq::empty()
    } else {
        strips_in_row(lam, size, t, bh - 1) + option_seq(border_strip(lam, size, t, bh - 1))
    }
}

/// The border strips whose lowest row is below `th`, by lowest row then highest row.
pub open spec fn strips_upto(lam: Seq<usize>, size: int, th: int) -> Seq<(Seq<usize>, nat)>
    decreases th,
{
    if th <= 0 {
        Seq::empty()
    } else {
        strips_upto(lam, size, th - 1) + strips_in_row(lam, size, th - 1, th)
    }
}

/// All border strips of `size` cells of `lam`.
pub open spec fn border_strips(lam: Seq<usize>, size: int) -> Seq<(Seq<usize>, nat)> {
    strips_upto(lam, size, lam.len() as int)
}

/// A found strip (shape left, leg length) as values.
pub open spec fn strip_view(r: Option<(Vec<usize>, usize)>) -> Option<(Seq<usize>, nat)> {
    match r {
        None => None,
        Some((v, l)) => Some((v@, l as nat)),
    }
}

/// A copy of the slice.
fn copy_slice(s: &[usize]) -> (r: Vec<usize>)
    ensures
        r@ == s@,
{
    let n = s.len();
    let mut v: Vec<usize> = Vec::new();
    let mut k: usize = 0;
    while k < n
        invariant
            n == s@.len(),
            k <= n,
            v@ == s@.subrange(0, k as int),
        decreases n - k,
    {
        v.push(s[k]);
        k = k + 1;
    }
    assert(v@ =~= s@);
    v
}

/// Drop the trailing zeros.
fn trim_trailing_zeros(mu: &mut Vec<usize>)
    ensures
        final(mu)@ == trim_zeros(old(mu)@),
        final(mu)@.len() <= old(mu)@.len(),
        forall|i: int| 0 <= i < final(mu)@.len() ==> #[trigger] final(mu)@[i] == old(mu)@[i],
        forall|i: int| final(mu)@.len() <= i < old(mu)@.len() ==> #[trigger] old(mu)@[i] == 0,
{
    let ghost full = mu@;
    while mu.len() > 0 && mu[mu.len() - 1] == 0
        invariant
            trim_zeros(mu@) == trim_zeros(full),
            mu@.len() <= full.len(),
            forall|i: int| 0 <= i < mu@.len() ==> #[trigger] mu@[i] == full[i],
            forall|i: int| mu@.len() <= i < full.len() ==> #[trigger] full[i] == 0,
        decreases mu@.len(),
    {
        let ghost before = mu@;
        mu.pop();
        assert(mu@ == before.drop_last());
    }
}

/// The border strip of `size` cells spanning rows `bottom_row..=top_row`, if there is one.
fn border_strip_at(lambda: &[usize], size: usize, top_row: usize, bottom_row: usize) -> (r: Option<(Vec<usize>, usize)>)
    requires
        bottom_row <= top_row < lambda@.len(),
        seq_sum(lambda@) <= usize::MAX,
    ensures
        strip_view(r) == border_strip(lambda@, size as int, top_row as int, bottom_row as int),
{
    let ghost lam = lambda@;
    let ghost t = top_row as int;
    let ghost b = bottom_row as int;
    let n = lambda.len();
    proof {
        lemma_sum_to_monotone(lam, 0, b);
        lemma_sum_to_monotone(lam, t + 1, n as int);
    }
    // The cells taken from the rows above the lowest one.
    let mut upper: usize = 0;
    let mut i: usize = bottom_row;
    while i < top_row
        invariant
            lambda@ == lam,
            n == lam.len(),
            b == bottom_row,
            t == top_row,
            bottom_row <= i <= top_row < n,
            seq_sum(lam) <= usize::MAX,
            sum_to(lam, b) + sum_to(lam, n as int) - sum_to(lam, t + 1) >= 0,
            strip_rows_ok(lam, b, i as int),
            upper == strip_upper_cells(lam, b, i as int),
            upper <= sum_to(lam, i as int) - sum_to(lam, b),
        decreases top_row - i,
    {
        if !(1 <= lambda[i + 1] && lambda[i + 1] <= lambda[i]) {
            assert(!strip_rows_ok(lam, b, t)) by {
                assert(!(1 <= lam[i + 1] <= lam[i as int]));
            }
            return None;
        }
        proof {
            assert(sum_to(lam, i + 1) == sum_to(lam, i as int) + lam[i as int]);
            lemma_sum_to_monotone(lam, i + 1, n as int);
            lemma_sum_to_monotone(lam, 0, b);
        }
        upper = upper + (lambda[i] - lambda[i + 1] + 1);
        i = i + 1;
    }
    let shelf_below = if top_row + 1 < n {
        lambda[top_row + 1]
    } else {
        0
    };
    if upper >= size {
        return None;
    }
    let needed = size - upper;
    if lambda[top_row] < shelf_below || needed > lambda[top_row] - shelf_below {
        return None;
    }
    let mut mu = copy_slice(lambda);
    let mut k: usize = bottom_row;
    while k < top_row
        invariant
            lambda@ == lam,
            n == lam.len(),
            mu@.len() == n,
            b == bottom_row,
            t == top_row,
            bottom_row <= k <= top_row < n,
            strip_rows_ok(lam, b, t),
            forall|j: int| b <= j < k ==> #[trigger] mu@[j] == lam[j + 1] - 1,
            forall|j: int| 0 <= j < n && !(b <= j < k) ==> #[trigger] mu@[j] == lam[j],
        decreases top_row - k,
    {
        assert(1 <= lam[k + 1] <= lam[k as int]);
        mu.set(k, lambda[k + 1] - 1);
        k = k + 1;
    }
    mu.set(top_row, lambda[top_row] - needed);
    assert(mu@ =~= strip_remainder(lam, size as int, t, b));
    trim_trailing_zeros(&mut mu);
    Some((mu, top_row - bottom_row))
}

/// The border strips and leg lengths, as values.
pub open spec fn strips_view(v: Seq<(Vec<usize>, usize)>) -> Seq<(Seq<usize>, nat)> {
    v.map_values(|p: (Vec<usize>, usize)| (p.0@, p.1 as nat))
}

/// Find all border strips of given size in the partition.
fn find_border_strips(lambda: &[usize], size: usize) -> (r: Vec<(Vec<usize>, usize)>)
    requires
        seq_sum(lambda@) <= usize::MAX,
    ensures
        strips_view(r@) == border_strips(lambda@, size as int),
{
    let ghost lam = lambda@;
    let n = lambda.len();
    let mut results: Vec<(Vec<usize>, usize)> = Vec::new();
    let mut top_row: usize = 0;
    while top_row < n
        invariant
            n == lam.len(),
            lambda@ == lam,
            seq_sum(lam) <= usize::MAX,
            top_row <= n,
            strips_view(results@) == strips_upto(lam, size as int, top_row as int),
        decreases n - top_row,
    {
        let mut bottom_row: usize = 0;
        while bottom_row <= top_row
            invariant
                n == lam.len(),
                lambda@ == lam,
                seq_sum(lam) <= usize::MAX,
                top_row < n,
                bottom_row <= top_row + 1,
                strips_view(results@) == strips_upto(lam, size as int, top_row as int) + strips_in_row(
                    lam,
                    size as int,
                    top_row as int,
                    bottom_row as int,
                ),
            decreases top_row + 1 - bottom_row,
        {
            let ghost before = results@;
            let found = border_strip_at(lambda, size, top_row, bottom_row);
            match found {
                Some(x) => {
                    results.push(x);
                    assert(strips_view(results@) =~= strips_view(before) + seq![(x.0@, x.1 as nat)]);
                },
                None => {},
            }
            assert(strips_view(results@) =~= strips_upto(lam, size as int, top_row as int) + strips_in_row(
                lam,
                size as int,
                top_row as int,
                bottom_row + 1,
            ));
            bottom_row = bottom_row + 1;
        }
        assert(strips_upto(lam, size as int, top_row + 1) == strips_upto(lam, size as int, top_row as int)
            + strips_in_row(lam, size as int, top_row as int, top_row + 1));
        top_row = top_row + 1;
    }
    results
}

/// `(-1)^leg`.
pub open spec fn leg_sign(leg: nat) -> int {
    if leg % 2 == 0 {
        1
    } else {
        -1
    }
}

/// The Murnaghan–Nakayama recursion: with cycle type `ct` exhausted, 1 for the empty shape and 0
/// otherwise; on an empty shape 0; else the signed sum, over the border strips of size `ct[0]`,
/// of the value on the shape left and the remaining cycles.
pub open spec fn mn_value(lam: Seq<usize>, ct: Seq<usize>) -> int
    decreases ct.len(), 1nat, 0nat,
{
    if ct.len() == 0 {
        if lam.len() == 0 {
            1
        } else {
            0
        }
    } else if lam.len() == 0 {
        0
    } else {
        mn_sum(border_strips(lam, ct[0] as int), ct.drop_first())
    }
}

/// The signed sum of the Murnaghan–Nakayama values over the given strips, first to last.
pub open spec fn mn_sum(strips: Seq<(Seq<usize>, nat)>, rest: Seq<usize>) -> int
    decreases rest.len() + 1, 0nat, strips.len(),
{
    if strips.len() == 0 {
        0
    } else {
        mn_sum(strips.drop_last(), rest) + leg_sign(strips.last().1) * mn_value(strips.last().0, rest)
    }
}

/// Every term and every running sum of the Murnaghan–Nakayama recursion fits in `i64`.
pub open spec fn mn_fits(lam: Seq<usize>, ct: Seq<usize>) -> bool
    decreases ct.len(), 1nat, 0nat,
{
    if ct.len() == 0 || lam.len() == 0 {
        true
    } else {
        mn_sum_fits(border_strips(lam, ct[0] as int), ct.drop_first())
    }
}

/// Every term and running sum of `mn_sum(strips, rest)` fits in `i64`.
pub open spec fn mn_sum_fits(strips: Seq<(Seq<usize>, nat)>, rest: Seq<usize>) -> bool
    decreases rest.len() + 1, 0nat, strips.len(),
{
    if strips.len() == 0 {
        true
    } else {
        &&& mn_sum_fits(strips.drop_last(), rest)
        &&& mn_fits(strips.last().0, rest)
        &&& i64::MIN <= leg_sign(strips.last().1) * mn_value(strips.last().0, rest) <= i64::MAX
        &&& i64::MIN <= mn_sum(strips, rest) <= i64::MAX
    }
}

/// The character of the irreducible representation of S_n for `partition` at a permutation of
/// cycle type `cycle_type`: 0 when the sizes differ, the Murnaghan–Nakayama value otherwise.
pub open spec fn sn_character(partition: Seq<usize>, cycle_type: Seq<usize>) -> int {
    if seq_sum(partition) != seq_sum(cycle_type) {
        0
    } else {
        mn_value(partition, cycle_type)
    }
}

/// `(-1)^e`.
pub open spec fn sign_of(e: int) -> int {
    if e % 2 == 0 {
        1
    } else {
        -1
    }
}

/// The cells removed from the rows below `k` by the border strip of `size` cells through rows
/// `b..=t`.
pub open spec fn strip_cells_below(lam: Seq<usize>, size: int, t: int, b: int, k: int) -> int {
    if k <= b {
        0
    } else if k <= t {
        strip_upper_cells(lam, b, k)
    } else {
        size
    }
}

/// Row by row, the remainder holds what the strip leaves.
proof fn lemma_remainder_sum(lam: Seq<usize>, size: int, t: int, b: int, k: int)
    requires
        0 <= b <= t < lam.len(),
        border_strip(lam, size, t, b) is Some,
        0 <= k <= lam.len(),
    ensures
        sum_to(strip_remainder(lam, size, t, b), k) == sum_to(lam, k) - strip_cells_below(lam, size, t, b, k),
    decreases k,
{
    if k > 0 {
        lemma_remainder_sum(lam, size, t, b, k - 1);
        let rem = strip_remainder(lam, size, t, b);
        let i = k - 1;
        let upper = strip_upper_cells(lam, b, t);
        assert(strip_rows_ok(lam, b, t) && upper < size && size - upper <= lam[t] - shelf(lam, t));
        if b <= i && i < t {
            assert(1 <= lam[i + 1] <= lam[i]);
            assert(rem[i] == lam[i + 1] - 1);
            assert(strip_upper_cells(lam, b, k) == strip_upper_cells(lam, b, i) + (lam[i] - lam[i + 1] + 1));
            if i == b {
                assert(strip_upper_cells(lam, b, b) == 0);
            }
        } else if i == t {
            assert(rem[i] == lam[t] - (size - upper));
            if t == b {
                assert(upper == 0);
            }
        } else {
            assert(rem[i] == lam[i]);
        }
    }
}

/// Dropping trailing zeros keeps a prefix.
pub proof fn lemma_trim_zeros_prefix(s: Seq<usize>)
    ensures
        trim_zeros(s).len() <= s.len(),
        forall|i: int| 0 <= i < trim_zeros(s).len() ==> #[trigger] trim_zeros(s)[i] == s[i],
        trim_zeros(s).len() > 0 ==> trim_zeros(s).last() != 0,
    decreases s.len(),
{
    if s.len() > 0 && s.last() == 0 {
        lemma_trim_zeros_prefix(s.drop_last());
    }
}

/// Law: removing a border strip of `size >= 1` cells from a partition (rows never increasing)
/// leaves a partition (positive rows never increasing, after dropping empty rows) of `size`
/// fewer cells.
pub proof fn lemma_border_strip_partition(lam: Seq<usize>, size: int, t: int, b: int)
    requires
        non_increasing(lam),
        0 <= b <= t < lam.len(),
        border_strip(lam, size, t, b) is Some,
    ensures
        is_partition((border_strip(lam, size, t, b)->0).0, seq_sum(lam) - size),
{
    let rem = strip_remainder(lam, size, t, b);
    let mu = trim_zeros(rem);
    let needed = size - strip_upper_cells(lam, b, t);
    assert forall|i: int| 1 <= i < rem.len() implies #[trigger] rem[i] <= rem[i - 1] by {
        assert(lam[i] <= lam[i - 1]);
        if b < i && i < t {
            assert(1 <= lam[i + 1] <= lam[i]);
            assert(lam[i + 1] <= lam[i]);
        } else if i == t && b < t {
            assert(1 <= lam[i] <= lam[i - 1]);
        } else if i == t + 1 {
            assert(shelf(lam, t) == lam[i]);
        } else if i == b && b < t {
            assert(1 <= lam[b + 1] <= lam[b]);
        }
    }
    lemma_remainder_sum(lam, size, t, b, lam.len() as int);
    lemma_trim_zeros_sum(rem);
    lemma_trim_zeros_prefix(rem);
    assert forall|i: int| 1 <= i < mu.len() implies #[trigger] mu[i] <= mu[i - 1] by {
        assert(mu[i] == rem[i]);
        assert(mu[i - 1] == rem[i - 1]);
    }
    assert forall|i: int| 0 <= i < mu.len() implies #[trigger] mu[i] >= 1 by {
        if mu[i] == 0 {
            assert forall|j: int| i <= j < mu.len() implies mu[j] == 0 by {
                lemma_non_increasing_pair(mu, i, j);
            }
            assert(mu.last() == 0);
        }
    }
}

/// `mu` is what is left of `lam`, row by row before empty rows are dropped, when a border strip
/// (a connected skew shape with no 2×2 square) whose highest row is `b` and lowest row is `t` is
/// taken off the rim: rows outside `b..=t` keep all their cells; each row `i` in `[b, t)` keeps
/// one cell fewer than row `i + 1` has, so that its removed cells meet those of row `i + 1` in
/// exactly one column; and row `t` loses at least one cell but keeps at least as many as the row
/// below it.
pub open spec fn rim_hook_left(lam: Seq<usize>, mu: Seq<usize>, b: int, t: int) -> bool {
    &&& mu.len() == lam.len()
    &&& 0 <= b <= t < lam.len()
    &&& forall|i: int| 0 <= i < lam.len() && (i < b || i > t) ==> #[trigger] mu[i] == lam[i]
    &&& forall|i: int| b <= i < t ==> #[trigger] mu[i] + 1 == lam[i + 1]
    &&& mu[t] < lam[t]
    &&& t + 1 < lam.len() ==> lam[t + 1] <= mu[t]
}

proof fn lemma_strips_in_row_contains(lam: Seq<usize>, size: int, t: int, bh: int, b: int)
    requires
        0 <= b < bh,
        border_strip(lam, size, t, b) is Some,
    ensures
        strips_in_row(lam, size, t, bh).contains(border_strip(lam, size, t, b)->0),
    decreases bh,
{
    let x = border_strip(lam, size, t, b)->0;
    let a = strips_in_row(lam, size, t, bh - 1);
    let c = option_seq(border_strip(lam, size, t, bh - 1));
    if b == bh - 1 {
        assert((a + c)[a.len() as int] == x);
    } else {
        lemma_strips_in_row_contains(lam, size, t, bh - 1, b);
        let k = choose|k: int| 0 <= k < a.len() && a[k] == x;
        assert((a + c)[k] == x);
    }
}

proof fn lemma_strips_upto_contains(lam: Seq<usize>, size: int, th: int, t: int, b: int)
    requires
        0 <= b <= t < th,
        border_strip(lam, size, t, b) is Some,
    ensures
        strips_upto(lam, size, th).contains(border_strip(lam, size, t, b)->0),
    decreases th,
{
    let x = border_strip(lam, size, t, b)->0;
    let a = strips_upto(lam, size, th - 1);
    let c = strips_in_row(lam, size, th - 1, th);
    if t == th - 1 {
        lemma_strips_in_row_contains(lam, size, t, th, b);
        let k = choose|k: int| 0 <= k < c.len() && c[k] == x;
        assert((a + c)[a.len() + k] == x);
    } else {
        lemma_strips_upto_contains(lam, size, th - 1, t, b);
        let k = choose|k: int| 0 <= k < a.len() && a[k] == x;
        assert((a + c)[k] == x);
    }
}

proof fn lemma_strips_in_row_index(lam: Seq<usize>, size: int, t: int, bh: int, k: int)
    requires
        0 <= k < strips_in_row(lam, size, t, bh).len(),
    ensures
        exists|b: int|
            0 <= b < bh && #[trigger] border_strip(lam, size, t, b) == Some(strips_in_row(lam, size, t, bh)[k]),
    decreases bh,
{
    if bh > 0 {
        let a = strips_in_row(lam, size, t, bh - 1);
        let c = option_seq(border_strip(lam, size, t, bh - 1));
        assert(strips_in_row(lam, size, t, bh) == a + c);
        if k < a.len() {
            lemma_strips_in_row_index(lam, size, t, bh - 1, k);
            let b = choose|b: int| 0 <= b < bh - 1 && #[trigger] border_strip(lam, size, t, b) == Some(a[k]);
            assert((a + c)[k] == a[k]);
            assert(border_strip(lam, size, t, b) == Some(strips_in_row(lam, size, t, bh)[k]));
        } else {
            assert((a + c)[k] == c[k - a.len()]);
            assert(border_strip(lam, size, t, bh - 1) == Some(strips_in_row(lam, size, t, bh)[k]));
        }
    }
}

proof fn lemma_strips_upto_index(lam: Seq<usize>, size: int, th: int, k: int)
    requires
        th <= lam.len(),
        0 <= k < strips_upto(lam, size, th).len(),
    ensures
        exists|t: int, b: int|
            0 <= b <= t < th && #[trigger] border_strip(lam, size, t, b) == Some(strips_upto(lam, size, th)[k]),
    decreases th,
{
    if th > 0 {
        let a = strips_upto(lam, size, th - 1);
        let c = strips_in_row(lam, size, th - 1, th);
        assert(strips_upto(lam, size, th) == a + c);
        if k < a.len() {
            lemma_strips_upto_index(lam, size, th - 1, k);
            let (t, b) = choose|t: int, b: int|
                0 <= b <= t < th - 1 && #[trigger] border_strip(lam, size, t, b) == Some(a[k]);
            assert((a + c)[k] == a[k]);
            assert(border_strip(lam, size, t, b) == Some(strips_upto(lam, size, th)[k]));
        } else {
            assert((a + c)[k] == c[k - a.len()]);
            lemma_strips_in_row_index(lam, size, th - 1, th, k - a.len());
            let b = choose|b: int|
                0 <= b < th && #[trigger] border_strip(lam, size, th - 1, b) == Some(c[k - a.len()]);
            assert(border_strip(lam, size, th - 1, b) == Some(strips_upto(lam, size, th)[k]));
        }
    }
}

/// The rim-hook description of a strip that `border_strip` finds: what it leaves satisfies
/// `rim_hook_left` and has `size` fewer cells.
proof fn lemma_border_strip_is_rim_hook(lam: Seq<usize>, size: int, t: int, b: int)
    requires
        non_increasing(lam),
        0 <= b <= t < lam.len(),
        border_strip(lam, size, t, b) is Some,
    ensures
        rim_hook_left(lam, strip_remainder(lam, size, t, b), b, t),
        seq_sum(lam) - seq_sum(strip_remainder(lam, size, t, b)) == size,
        border_strip(lam, size, t, b) == Some((trim_zeros(strip_remainder(lam, size, t, b)), (t - b) as nat)),
{
    let mu = strip_remainder(lam, size, t, b);
    let upper = strip_upper_cells(lam, b, t);
    assert(strip_rows_ok(lam, b, t) && upper < size && size - upper <= lam[t] - shelf(lam, t));
    assert forall|i: int| b <= i < t implies #[trigger] mu[i] + 1 == lam[i + 1] by {
        assert(1 <= lam[i + 1] <= lam[i]);
    }
    lemma_remainder_sum(lam, size, t, b, lam.len() as int);
}

/// Law (completeness of the border strips): every border strip of `lam` is found. Whenever `mu`
/// is what a border strip with highest row `b` and lowest row `t` leaves (`rim_hook_left`),
/// `border_strips` for its number of cells lists `mu` (empty rows dropped) with leg length
/// `t - b`.
pub proof fn lemma_border_strips_complete(lam: Seq<usize>, mu: Seq<usize>, b: int, t: int)
    requires
        non_increasing(lam),
        rim_hook_left(lam, mu, b, t),
    ensures
        border_strips(lam, seq_sum(lam) - seq_sum(mu)).contains((trim_zeros(mu), (t - b) as nat)),
{
    let upper = strip_upper_cells(lam, b, t);
    let size = upper + lam[t] - mu[t];
    assert forall|i: int| b <= i < t implies 1 <= #[trigger] lam[i + 1] <= lam[i] by {
        assert(mu[i] + 1 == lam[i + 1]);
        assert(lam[i + 1] <= lam[i + 1 - 1]);
    }
    assert(strip_rows_ok(lam, b, t));
    assert(upper < size && size - upper <= lam[t] - shelf(lam, t));
    assert(border_strip(lam, size, t, b) is Some);
    let rem = strip_remainder(lam, size, t, b);
    assert forall|i: int| 0 <= i < lam.len() implies #[trigger] rem[i] == mu[i] by {
        if b <= i < t {
            assert(mu[i] + 1 == lam[i + 1]);
        } else if i != t {
            assert(mu[i] == lam[i]);
        }
    }
    assert(rem =~= mu);
    lemma_remainder_sum(lam, size, t, b, lam.len() as int);
    assert(seq_sum(lam) - seq_sum(mu) == size);
    lemma_strips_upto_contains(lam, size, lam.len() as int, t, b);
}

/// Law (soundness of the border strips): everything `border_strips(lam, size)` lists is a border
/// strip of `size` cells: the shape left (empty rows dropped) and the leg length `t - b` of some
/// strip with highest row `b` and lowest row `t` (`rim_hook_left`) that takes `size` cells.
pub proof fn lemma_border_strips_sound(lam: Seq<usize>, size: int, k: int)
    requires
        non_increasing(lam),
        0 <= k < border_strips(lam, size).len(),
    ensures
        exists|mu: Seq<usize>, b: int, t: int|
            #[trigger] rim_hook_left(lam, mu, b, t) && seq_sum(lam) - seq_sum(mu) == size
                && border_strips(lam, size)[k] == (trim_zeros(mu), (t - b) as nat),
{
    lemma_strips_upto_index(lam, size, lam.len() as int, k);
    let (t, b) = choose|t: int, b: int|
        0 <= b <= t < lam.len() && #[trigger] border_strip(lam, size, t, b) == Some(
            strips_upto(lam, size, lam.len() as int)[k],
        );
    lemma_border_strip_is_rim_hook(lam, size, t, b);
    let mu = strip_remainder(lam, size, t, b);
    assert(rim_hook_left(lam, mu, b, t));
}

/// What `trim_zeros` drops is zeros.
proof fn lemma_trim_zeros_tail_zero(s: Seq<usize>)
    ensures
        forall|i: int| trim_zeros(s).len() <= i < s.len() ==> #[trigger] s[i] == 0,
    decreases s.len(),
{
    if s.len() > 0 && s.last() == 0 {
        lemma_trim_zeros_tail_zero(s.drop_last());
        lemma_trim_zeros_prefix(s.drop_last());
        assert forall|i: int| trim_zeros(s).len() <= i < s.len() implies #[trigger] s[i] == 0 by {
            if i < s.len() - 1 {
                assert(s.drop_last()[i] == s[i]);
            }
        }
    }
}

/// Two rows of the same length that agree once trailing zeros are dropped are equal.
proof fn lemma_trim_zeros_injective(s1: Seq<usize>, s2: Seq<usize>)
    requires
        s1.len() == s2.len(),
        trim_zeros(s1) == trim_zeros(s2),
    ensures
        s1 == s2,
{
    lemma_trim_zeros_prefix(s1);
    lemma_trim_zeros_prefix(s2);
    lemma_trim_zeros_tail_zero(s1);
    lemma_trim_zeros_tail_zero(s2);
    let n = trim_zeros(s1).len();
    assert forall|i: int| 0 <= i < s1.len() implies s1[i] == s2[i] by {
        if i < n {
            assert(trim_zeros(s1)[i] == s1[i]);
            assert(trim_zeros(s2)[i] == s2[i]);
        }
    }
    assert(s1 =~= s2);
}

/// A border strip is determined by what it leaves: two (highest row, lowest row) choices that
/// leave the same shape with the same leg are the same choice.
proof fn lemma_border_strip_rows_determined(lam: Seq<usize>, size: int, t1: int, b1: int, t2: int, b2: int)
    requires
        non_increasing(lam),
        0 <= b1 <= t1 < lam.len(),
        0 <= b2 <= t2 < lam.len(),
        border_strip(lam, size, t1, b1) is Some,
        border_strip(lam, size, t1, b1) == border_strip(lam, size, t2, b2),
    ensures
        t1 == t2 && b1 == b2,
{
    lemma_border_strip_is_rim_hook(lam, size, t1, b1);
    lemma_border_strip_is_rim_hook(lam, size, t2, b2);
    let mu1 = strip_remainder(lam, size, t1, b1);
    let mu2 = strip_remainder(lam, size, t2, b2);
    lemma_trim_zeros_injective(mu1, mu2);
    assert forall|mu: Seq<usize>, b: int, t: int, i: int|
        #[trigger] rim_hook_left(lam, mu, b, t) && 0 <= i < lam.len() implies (#[trigger] mu[i] < lam[i] <==> (b
        <= i && i <= t)) by {
        if b <= i && i < t {
            assert(mu[i] + 1 == lam[i + 1]);
            assert(lam[i + 1] <= lam[i + 1 - 1]);
        }
    }
    assert(mu1[b1] < lam[b1] && mu1[t1] < lam[t1]);
    assert(mu2[b2] < lam[b2] && mu2[t2] < lam[t2]);
    if b1 > 0 {
        assert(!(mu1[b1 - 1] < lam[b1 - 1]));
    }
    if b2 > 0 {
        assert(!(mu2[b2 - 1] < lam[b2 - 1]));
    }
    if t1 + 1 < lam.len() {
        assert(!(mu1[t1 + 1] < lam[t1 + 1]));
    }
    if t2 + 1 < lam.len() {
        assert(!(mu2[t2 + 1] < lam[t2 + 1]));
    }
}

proof fn lemma_strips_in_row_distinct(lam: Seq<usize>, size: int, t: int, bh: int)
    requires
        non_increasing(lam),
        0 <= t < lam.len(),
        bh <= t + 1,
    ensures
        forall|k1: int, k2: int|
            0 <= k1 < k2 < strips_in_row(lam, size, t, bh).len() ==> #[trigger] strips_in_row(lam, size, t, bh)[k1]
                != #[trigger] strips_in_row(lam, size, t, bh)[k2],
    decreases bh,
{
    if bh > 0 {
        lemma_strips_in_row_distinct(lam, size, t, bh - 1);
        let a = strips_in_row(lam, size, t, bh - 1);
        let c = option_seq(border_strip(lam, size, t, bh - 1));
        assert(strips_in_row(lam, size, t, bh) == a + c);
        assert forall|k1: int, k2: int| 0 <= k1 < k2 < (a + c).len() implies #[trigger] (a + c)[k1] != #[trigger] (
        a + c)[k2] by {
            if k2 >= a.len() {
                assert((a + c)[k2] == c[0]);
                assert((a + c)[k1] == a[k1]);
                lemma_strips_in_row_index(lam, size, t, bh - 1, k1);
                let b = choose|b: int| 0 <= b < bh - 1 && #[trigger] border_strip(lam, size, t, b) == Some(a[k1]);
                if a[k1] == c[0] {
                    lemma_border_strip_rows_determined(lam, size, t, b, t, bh - 1);
                }
            } else {
                assert((a + c)[k1] == a[k1]);
                assert((a + c)[k2] == a[k2]);
            }
        }
    }
}

proof fn lemma_strips_upto_distinct(lam: Seq<usize>, size: int, th: int)
    requires
        non_increasing(lam),
        th <= lam.len(),
    ensures
        forall|k1: int, k2: int|
            0 <= k1 < k2 < strips_upto(lam, size, th).len() ==> #[trigger] strips_upto(lam, size, th)[k1]
                != #[trigger] strips_upto(lam, size, th)[k2],
    decreases th,
{
    if th > 0 {
        lemma_strips_upto_distinct(lam, size, th - 1);
        lemma_strips_in_row_distinct(lam, size, th - 1, th);
        let a = strips_upto(lam, size, th - 1);
        let c = strips_in_row(lam, size, th - 1, th);
        assert(strips_upto(lam, size, th) == a + c);
        assert forall|k1: int, k2: int| 0 <= k1 < k2 < (a + c).len() implies #[trigger] (a + c)[k1] != #[trigger] (
        a + c)[k2] by {
            if k1 >= a.len() {
                assert((a + c)[k1] == c[k1 - a.len()]);
                assert((a + c)[k2] == c[k2 - a.len()]);
            } else if k2 >= a.len() {
                assert((a + c)[k1] == a[k1]);
                assert((a + c)[k2] == c[k2 - a.len()]);
                lemma_strips_upto_index(lam, size, th - 1, k1);
                let (t1, b1) = choose|t1: int, b1: int|
                    0 <= b1 <= t1 < th - 1 && #[trigger] border_strip(lam, size, t1, b1) == Some(a[k1]);
                lemma_strips_in_row_index(lam, size, th - 1, th, k2 - a.len());
                let b2 = choose|b2: int|
                    0 <= b2 < th && #[trigger] border_strip(lam, size, th - 1, b2) == Some(c[k2 - a.len()]);
                if a[k1] == c[k2 - a.len()] {
                    lemma_border_strip_rows_determined(lam, size, t1, b1, th - 1, b2);
                }
            } else {
                assert((a + c)[k1] == a[k1]);
                assert((a + c)[k2] == a[k2]);
            }
        }
    }
}

/// Law: `border_strips` lists each border strip once: no two entries are equal.
pub proof fn lemma_border_strips_distinct(lam: Seq<usize>, size: int, k1: int, k2: int)
    requires
        non_increasing(lam),
        0 <= k1 < border_strips(lam, size).len(),
        0 <= k2 < border_strips(lam, size).len(),
        k1 != k2,
    ensures
        border_strips(lam, size)[k1] != border_strips(lam, size)[k2],
{
    lemma_strips_upto_distinct(lam, size, lam.len() as int);
    if k1 > k2 {
        assert(strips_upto(lam, size, lam.len() as int)[k2] != strips_upto(lam, size, lam.len() as int)[k1]);
    } else {
        assert(strips_upto(lam, size, lam.len() as int)[k1] != strips_upto(lam, size, lam.len() as int)[k2]);
    }
}

/// Signs multiply as the exponents add.
proof fn lemma_sign_add(a: int, b: int)
    ensures
        sign_of(a + b) == sign_of(a) * sign_of(b),
{
    lemma_add_mod_noop(a, b, 2);
}

/// The one-row shape with `m` cells (no rows when `m` is 0).
pub open spec fn one_row(m: nat) -> Seq<usize> {
    if m == 0 {
        Seq::empty()
    } else {
        seq![m as usize]
    }
}

/// The one-column shape with `m` cells.
pub open spec fn one_column(m: nat) -> Seq<usize> {
    Seq::new(m, |i: int| 1usize)
}

/// Splitting off the first cycle.
proof fn lemma_sum_first(ct: Seq<usize>)
    requires
        ct.len() > 0,
    ensures
        seq_sum(ct) == ct[0] + seq_sum(ct.drop_first()),
{
    lemma_sum_prepend(ct[0], ct.drop_first());
    assert(seq![ct[0]] + ct.drop_first() =~= ct);
}

/// A single row has one border strip of each size up to its length: its end.
proof fn lemma_one_row_strips(m: nat, r: nat)
    requires
        1 <= r <= m,
        m <= usize::MAX,
    ensures
        border_strips(one_row(m), r as int) == seq![(one_row((m - r) as nat), 0nat)],
{
    let lam = one_row(m);
    let rem = strip_remainder(lam, r as int, 0, 0);
    assert(rem =~= seq![(m - r) as usize]);
    if m - r == 0 {
        assert(trim_zeros(rem.drop_last()) == rem.drop_last());
        assert(rem.drop_last() =~= one_row(0));
    } else {
        assert(rem =~= one_row((m - r) as nat));
    }
    assert(border_strip(lam, r as int, 0, 0) == Some((one_row((m - r) as nat), 0nat)));
    let x = (one_row((m - r) as nat), 0nat);
    assert(option_seq(border_strip(lam, r as int, 0, 0)) == seq![x]);
    assert(strips_in_row(lam, r as int, 0, 0) == Seq::<(Seq<usize>, nat)>::empty());
    assert(strips_in_row(lam, r as int, 0, 1) =~= seq![x]);
    assert(strips_upto(lam, r as int, 0) == Seq::<(Seq<usize>, nat)>::empty());
    assert(strips_upto(lam, r as int, 1) =~= seq![x]);
}

/// Law (trivial representation): the character of the one-row partition of `m` is 1 at every
/// cycle type of `m` with positive parts.
pub proof fn lemma_trivial_character(m: nat, ct: Seq<usize>)
    requires
        m <= usize::MAX,
        positive_parts(ct),
        seq_sum(ct) == m,
    ensures
        mn_value(one_row(m), ct) == 1,
        m >= 1 ==> sn_character(seq![m as usize], ct) == 1,
    decreases ct.len(),
{
    if ct.len() == 0 {
        assert(m == 0);
    } else {
        lemma_sum_first(ct);
        let r = ct[0] as nat;
        let rest = ct.drop_first();
        assert(r >= 1);
        assert(seq_sum(rest) >= 0) by {
            lemma_sum_to_monotone(rest, 0, rest.len() as int);
        }
        lemma_one_row_strips(m, r);
        assert(positive_parts(rest)) by {
            assert forall|i: int| 0 <= i < rest.len() implies #[trigger] rest[i] >= 1 by {
                assert(rest[i] == ct[i + 1]);
            }
        }
        lemma_trivial_character((m - r) as nat, rest);
        let strips = border_strips(one_row(m), r as int);
        assert(strips.drop_last() =~= Seq::<(Seq<usize>, nat)>::empty());
        assert(mn_sum(strips, rest) == mn_sum(strips.drop_last(), rest) + leg_sign(0) * mn_value(
            one_row((m - r) as nat),
            rest,
        ));
        assert(one_row(m) == seq![m as usize]);
        assert(seq_sum(seq![m as usize]) == m) by {
            lemma_sum_prepend(m as usize, Seq::empty());
            assert(seq![m as usize] + Seq::<usize>::empty() =~= seq![m as usize]);
        }
    }
}

/// Every row of a column passes one cell up to the strip: the cells taken above row `t` are
/// `t - b`.
proof fn lemma_column_upper(m: nat, b: int, t: int)
    requires
        0 <= b <= t < m,
    ensures
        strip_upper_cells(one_column(m), b, t) == t - b,
    decreases t - b,
{
    if t > b {
        lemma_column_upper(m, b, t - 1);
    }
}

/// A column followed by empty rows trims to the column.
proof fn lemma_trim_column(k: nat, z: nat)
    ensures
        trim_zeros(one_column(k) + Seq::new(z, |i: int| 0usize)) == one_column(k),
    decreases z,
{
    let s = one_column(k) + Seq::new(z, |i: int| 0usize);
    if z == 0 {
        assert(s =~= one_column(k));
        if k > 0 {
            assert(s.last() == 1);
        }
    } else {
        assert(s.last() == 0);
        assert(s.drop_last() =~= one_column(k) + Seq::new((z - 1) as nat, |i: int| 0usize));
        lemma_trim_column(k, (z - 1) as nat);
    }
}

/// The only border strip of `r` cells of a column of `m` is its bottom `r` cells.
proof fn lemma_column_strip(m: nat, r: nat, t: int, b: int)
    requires
        1 <= r <= m,
        0 <= b <= t < m,
    ensures
        border_strip(one_column(m), r as int, t, b) == if t == m - 1 && b == m - r {
            Some((one_column((m - r) as nat), (r - 1) as nat))
        } else {
            None
        },
{
    let lam = one_column(m);
    lemma_column_upper(m, b, t);
    assert(strip_rows_ok(lam, b, t));
    if t == m - 1 && b == m - r {
        let rem = strip_remainder(lam, r as int, t, b);
        assert(rem =~= one_column((m - r) as nat) + Seq::new(r, |i: int| 0usize));
        lemma_trim_column((m - r) as nat, r);
    }
}

/// Scanning the highest rows below `bh` with lowest row `t`.
proof fn lemma_column_strips_in_row(m: nat, r: nat, t: int, bh: int)
    requires
        1 <= r <= m,
        0 <= t < m,
        0 <= bh <= t + 1,
    ensures
        strips_in_row(one_column(m), r as int, t, bh) == if t == m - 1 && bh > m - r {
            seq![(one_column((m - r) as nat), (r - 1) as nat)]
        } else {
            Seq::<(Seq<usize>, nat)>::empty()
        },
    decreases bh,
{
    if bh > 0 {
        lemma_column_strips_in_row(m, r, t, bh - 1);
        lemma_column_strip(m, r, t, bh - 1);
        let x = (one_column((m - r) as nat), (r - 1) as nat);
        if t == m - 1 && bh - 1 == m - r {
            assert(strips_in_row(one_column(m), r as int, t, bh) =~= seq![x]);
        } else if t == m - 1 && bh - 1 > m - r {
            assert(strips_in_row(one_column(m), r as int, t, bh) =~= seq![x]);
        } else {
            assert(strips_in_row(one_column(m), r as int, t, bh) =~= Seq::<(Seq<usize>, nat)>::empty());
        }
    }
}

/// Scanning the lowest rows below `th`.
proof fn lemma_column_strips_upto(m: nat, r: nat, th: int)
    requires
        1 <= r <= m,
        0 <= th <= m,
    ensures
        strips_upto(one_column(m), r as int, th) == if th == m {
            seq![(one_column((m - r) as nat), (r - 1) as nat)]
        } else {
            Seq::<(Seq<usize>, nat)>::empty()
        },
    decreases th,
{
    if th > 0 {
        lemma_column_strips_upto(m, r, th - 1);
        lemma_column_strips_in_row(m, r, th - 1, th);
        if th == m {
            assert(strips_upto(one_column(m), r as int, th) =~= seq![(one_column((m - r) as nat), (r - 1) as nat)]);
        } else {
            assert(strips_upto(one_column(m), r as int, th) =~= Seq::<(Seq<usize>, nat)>::empty());
        }
    }
}

/// The cells of a column.
pub proof fn lemma_column_sum(m: nat, k: int)
    requires
        0 <= k <= m,
    ensures
        sum_to(one_column(m), k) == k,
    decreases k,
{
    if k > 0 {
        lemma_column_sum(m, k - 1);
    }
}

/// Law (sign representation): the character of the one-column partition of `m` at a permutation
/// whose cycle type `ct` has positive parts summing to `m` is `(-1)^(m - number of cycles)`.
pub proof fn lemma_sign_character(m: nat, ct: Seq<usize>)
    requires
        positive_parts(ct),
        seq_sum(ct) == m,
    ensures
        mn_value(one_column(m), ct) == sign_of(m - ct.len()),
        sn_character(one_column(m), ct) == sign_of(m - ct.len()),
    decreases ct.len(),
{
    lemma_column_sum(m, m as int);
    if ct.len() == 0 {
        assert(m == 0);
        assert(one_column(0) =~= Seq::<usize>::empty());
    } else {
        lemma_sum_first(ct);
        let r = ct[0] as nat;
        let rest = ct.drop_first();
        assert(seq_sum(rest) >= 0) by {
            lemma_sum_to_monotone(rest, 0, rest.len() as int);
        }
        assert(positive_parts(rest)) by {
            assert forall|i: int| 0 <= i < rest.len() implies #[trigger] rest[i] >= 1 by {
                assert(rest[i] == ct[i + 1]);
            }
        }
        lemma_sign_character((m - r) as nat, rest);
        lemma_column_strips_upto(m, r, m as int);
        let strips = border_strips(one_column(m), r as int);
        let x = (one_column((m - r) as nat), (r - 1) as nat);
        assert(one_column(m).len() == m);
        assert(strips == seq![x]);
        assert(strips.last() == x);
        assert(strips.drop_last() =~= Seq::<(Seq<usize>, nat)>::empty());
        assert(mn_sum(strips.drop_last(), rest) == 0);
        assert(mn_value(one_column(m), ct) == mn_sum(strips, rest));
        let v = mn_value(one_column((m - r) as nat), rest);
        assert(mn_value(one_column(m), ct) == leg_sign((r - 1) as nat) * v);
        lemma_sign_add(r - 1, (m - r) - rest.len());
        assert(leg_sign((r - 1) as nat) == sign_of(r - 1));
        assert(m - ct.len() == (r - 1) + ((m - r) - rest.len()));
    }
}

/// Sum of a slice.
fn slice_sum(s: &[usize]) -> (r: usize)
    requires
        seq_sum(s@) <= usize::MAX,
    ensures
        r == seq_sum(s@),
{
    let len = s.len();
    let mut total: usize = 0;
    let mut i: usize = 0;
    while i < len
        invariant
            len == s@.len(),
            seq_sum(s@) <= usize::MAX,
            i <= len,
            total == sum_to(s@, i as int),
        decreases len - i,
    {
        proof {
            lemma_sum_to_monotone(s@, (i + 1) as int, len as int);
        }
        total = total + s[i];
        i = i + 1;
    }
    total
}

/// Compute the character of the irreducible S_n representation via the Murnaghan-Nakayama rule.
pub fn symmetric_group_character(partition: &[usize], cycle_type: &[usize]) -> (r: i64)
    requires
        seq_sum(partition@) <= usize::MAX,
        seq_sum(cycle_type@) <= usize::MAX,
        seq_sum(partition@) == seq_sum(cycle_type@) ==> mn_fits(partition@, cycle_type@),
    ensures
        r == sn_character(partition@, cycle_type@),
{
    let pn = slice_sum(partition);
    let cn = slice_sum(cycle_type);
    if pn != cn {
        return 0;
    }
    if cycle_type.len() == 0 {
        return if partition.len() == 0 {
            1
        } else {
            0
        };
    }
    mn_rule(partition, cycle_type)
}

/// The Murnaghan–Nakayama recursion: peel a border strip of the first cycle length in every
/// way, and sum the signed values on what is left for the remaining cycles.
#[verifier::rlimit(80)]
fn mn_rule(partition: &[usize], cycle_type: &[usize]) -> (r: i64)
    requires
        seq_sum(partition@) <= usize::MAX,
        mn_fits(partition@, cycle_type@),
    ensures
        r == mn_value(partition@, cycle_type@),
    decreases cycle_type@.len(),
{
    if cycle_type.len() == 0 {
        return if partition.len() == 0 {
            1
        } else {
            0
        };
    }
    if partition.len() == 0 {
        return 0;
    }
    let r = cycle_type[0];
    let remaining = &cycle_type[1..cycle_type.len()];
    assert(remaining@ =~= cycle_type@.drop_first());
    let strips = find_border_strips(partition, r);
    let ghost sv = strips_view(strips@);
    proof {
        lemma_border_strips_sum(partition@, r as int);
    }
    let mut result: i64 = 0;
    let mut k: usize = 0;
    while k < strips.len()
        invariant
            remaining@ == cycle_type@.drop_first(),
            remaining@.len() < cycle_type@.len(),
            sv == strips_view(strips@),
            sv == border_strips(partition@, r as int),
            forall|j: int| 0 <= j < sv.len() ==> seq_sum(#[trigger] sv[j].0) <= usize::MAX,
            k <= strips@.len(),
            mn_sum_fits(sv.take(k as int), remaining@) || k == 0,
            mn_sum_fits(sv, remaining@),
            result == mn_sum(sv.take(k as int), remaining@),
        decreases strips@.len() - k,
    {
        proof {
            lemma_mn_sum_fits_prefix(sv, remaining@, (k + 1) as int);
            assert(sv.take(k + 1).drop_last() =~= sv.take(k as int));
            assert(sv.take(k + 1).last() == sv[k as int]);
        }
        let leg = strips[k].1;
        let sign: i64 = if leg % 2 == 0 {
            1
        } else {
            -1
        };
        let value = mn_rule(strips[k].0.as_slice(), remaining);
        result = result + sign * value;
        k = k + 1;
    }
    assert(sv.take(sv.len() as int) =~= sv);
    result
}

/// Sum of a slice, or `None` where it exceeds `usize::MAX`.
fn checked_slice_sum(s: &[usize]) -> (r: Option<usize>)
    ensures
        r is Some <==> seq_sum(s@) <= usize::MAX,
        r matches Some(v) ==> v == seq_sum(s@),
{
    let len = s.len();
    let mut total: usize = 0;
    let mut i: usize = 0;
    while i < len
        invariant
            len == s@.len(),
            i <= len,
            total == sum_to(s@, i as int),
        decreases len - i,
    {
        proof {
            lemma_sum_to_monotone(s@, (i + 1) as int, len as int);
        }
        match total.checked_add(s[i]) {
            Some(t) => {
                total = t;
            },
            None => {
                return None;
            },
        }
        i = i + 1;
    }
    Some(total)
}

/// The character of the irreducible S_n representation for `partition` at cycle type
/// `cycle_type`, or `None` where a size exceeds `usize::MAX` or a step of the
/// Murnaghan–Nakayama recursion leaves `i64`.
pub fn checked_symmetric_group_character(partition: &[usize], cycle_type: &[usize]) -> (r: Option<i64>)
    ensures
        r is Some <==> {
            &&& seq_sum(partition@) <= usize::MAX
            &&& seq_sum(cycle_type@) <= usize::MAX
            &&& seq_sum(partition@) == seq_sum(cycle_type@) ==> mn_fits(partition@, cycle_type@)
        },
        r matches Some(v) ==> v == sn_character(partition@, cycle_type@),
{
    let pn = match checked_slice_sum(partition) {
        Some(v) => v,
        None => {
            return None;
        },
    };
    let cn = match checked_slice_sum(cycle_type) {
        Some(v) => v,
        None => {
            return None;
        },
    };
    if pn != cn {
        return Some(0);
    }
    mn_rule_checked(partition, cycle_type)
}

/// The Murnaghan–Nakayama recursion with every product and sum checked: `None` exactly where a
/// step leaves `i64`.
#[verifier::rlimit(80)]
fn mn_rule_checked(partition: &[usize], cycle_type: &[usize]) -> (r: Option<i64>)
    requires
        seq_sum(partition@) <= usize::MAX,
    ensures
        r is Some <==> mn_fits(partition@, cycle_type@),
        r matches Some(v) ==> v == mn_value(partition@, cycle_type@),
    decreases cycle_type@.len(),
{
    if cycle_type.len() == 0 {
        return if partition.len() == 0 {
            Some(1)
        } else {
            Some(0)
        };
    }
    if partition.len() == 0 {
        return Some(0);
    }
    let r = cycle_type[0];
    let remaining = &cycle_type[1..cycle_type.len()];
    assert(remaining@ =~= cycle_type@.drop_first());
    let strips = find_border_strips(partition, r);
    let ghost sv = strips_view(strips@);
    proof {
        lemma_border_strips_sum(partition@, r as int);
    }
    let mut result: i64 = 0;
    let mut k: usize = 0;
    while k < strips.len()
        invariant
            remaining@ == cycle_type@.drop_first(),
            remaining@.len() < cycle_type@.len(),
            cycle_type@.len() > 0,
            partition@.len() > 0,
            sv == strips_view(strips@),
            sv == border_strips(partition@, r as int),
            r == cycle_type@[0],
            forall|j: int| 0 <= j < sv.len() ==> seq_sum(#[trigger] sv[j].0) <= usize::MAX,
            k <= strips@.len(),
            mn_sum_fits(sv.take(k as int), remaining@),
            result == mn_sum(sv.take(k as int), remaining@),
        decreases strips@.len() - k,
    {
        proof {
            assert(sv.take(k + 1).drop_last() =~= sv.take(k as int));
            assert(sv.take(k + 1).last() == sv[k as int]);
            assert(strips@[k as int].0@ == sv[k as int].0);
        }
        let leg = strips[k].1;
        let sign: i64 = if leg % 2 == 0 {
            1
        } else {
            -1
        };
        let value = match mn_rule_checked(strips[k].0.as_slice(), remaining) {
            Some(v) => v,
            None => {
                proof {
                    lemma_mn_sum_fits_prefix_contra(sv, remaining@, (k + 1) as int);
                }
                return None;
            },
        };
        let term = match sign.checked_mul(value) {
            Some(t) => t,
            None => {
                proof {
                    lemma_mn_sum_fits_prefix_contra(sv, remaining@, (k + 1) as int);
                }
                return None;
            },
        };
        result = match result.checked_add(term) {
            Some(t) => t,
            None => {
                proof {
                    lemma_mn_sum_fits_prefix_contra(sv, remaining@, (k + 1) as int);
                }
                return None;
            },
        };
        k = k + 1;
    }
    assert(sv.take(sv.len() as int) =~= sv);
    Some(result)
}

/// A list of strips whose prefix does not fit does not fit either.
proof fn lemma_mn_sum_fits_prefix_contra(strips: Seq<(Seq<usize>, nat)>, rest: Seq<usize>, k: int)
    requires
        !mn_sum_fits(strips.take(k), rest),
        0 <= k <= strips.len(),
    ensures
        !mn_sum_fits(strips, rest),
{
    if mn_sum_fits(strips, rest) {
        lemma_mn_sum_fits_prefix(strips, rest, k);
    }
}

/// A prefix of strips whose full sum fits also fits.
proof fn lemma_mn_sum_fits_prefix(strips: Seq<(Seq<usize>, nat)>, rest: Seq<usize>, k: int)
    requires
        mn_sum_fits(strips, rest),
        0 <= k <= strips.len(),
    ensures
        mn_sum_fits(strips.take(k), rest),
    decreases strips.len() - k,
{
    if k < strips.len() {
        assert(strips.take(k + 1).drop_last() =~= strips.take(k));
        lemma_mn_sum_fits_prefix(strips, rest, k + 1);
    } else {
        assert(strips.take(k) =~= strips);
    }
}

/// Every shape left by a border strip has no more cells than the shape it came from.
proof fn lemma_border_strips_sum(lam: Seq<usize>, size: int)
    requires
        size >= 0,
    ensures
        forall|j: int|
            0 <= j < border_strips(lam, size).len() ==> seq_sum(#[trigger] border_strips(lam, size)[j].0)
                <= seq_sum(lam),
{
    lemma_strips_upto_sum(lam, size, lam.len() as int);
}

proof fn lemma_strips_upto_sum(lam: Seq<usize>, size: int, th: int)
    requires
        size >= 0,
        th <= lam.len(),
    ensures
        forall|j: int|
            0 <= j < strips_upto(lam, size, th).len() ==> seq_sum(#[trigger] strips_upto(lam, size, th)[j].0)
                <= seq_sum(lam),
    decreases th,
{
    if th > 0 {
        lemma_strips_upto_sum(lam, size, th - 1);
        lemma_strips_in_row_sum(lam, size, th - 1, th);
        let a = strips_upto(lam, size, th - 1);
        let b = strips_in_row(lam, size, th - 1, th);
        assert forall|j: int| 0 <= j < (a + b).len() implies seq_sum(#[trigger] (a + b)[j].0) <= seq_sum(lam) by {
            if j >= a.len() {
                assert((a + b)[j] == b[j - a.len()]);
            }
        }
    }
}

proof fn lemma_strips_in_row_sum(lam: Seq<usize>, size: int, t: int, bh: int)
    requires
        size >= 0,
        0 <= t < lam.len(),
        bh <= t + 1,
    ensures
        forall|j: int|
            0 <= j < strips_in_row(lam, size, t, bh).len() ==> seq_sum(#[trigger] strips_in_row(lam, size, t, bh)[j].0)
                <= seq_sum(lam),
    decreases bh,
{
    if bh > 0 {
        lemma_strips_in_row_sum(lam, size, t, bh - 1);
        let a = strips_in_row(lam, size, t, bh - 1);
        let b = option_seq(border_strip(lam, size, t, bh - 1));
        if border_strip(lam, size, t, bh - 1) is Some {
            lemma_border_strip_sum(lam, size, t, bh - 1);
        }
        assert forall|j: int| 0 <= j < (a + b).len() implies seq_sum(#[trigger] (a + b)[j].0) <= seq_sum(lam) by {
            if j >= a.len() {
                assert((a + b)[j] == b[j - a.len()]);
            }
        }
    }
}

proof fn lemma_border_strip_sum(lam: Seq<usize>, size: int, t: int, b: int)
    requires
        size >= 0,
        0 <= b <= t < lam.len(),
        border_strip(lam, size, t, b) is Some,
    ensures
        seq_sum((border_strip(lam, size, t, b)->0).0) <= seq_sum(lam),
{
    let mu = strip_remainder(lam, size, t, b);
    assert forall|i: int| 0 <= i < lam.len() implies #[trigger] mu[i] <= lam[i] by {
        if b <= i < t {
            assert(1 <= lam[i + 1] <= lam[i]);
        }
    }
    lemma_trim_zeros_sum(mu);
    lemma_sum_to_pointwise(mu, lam, lam.len() as int);
}

/// Dropping trailing zeros keeps the sum.
pub proof fn lemma_trim_zeros_sum(s: Seq<usize>)
    ensures
        seq_sum(trim_zeros(s)) == seq_sum(s),
    decreases s.len(),
{
    if s.len() > 0 && s.last() == 0 {
        lemma_trim_zeros_sum(s.drop_last());
        assert(sum_to(s.drop_last(), s.len() - 1) == sum_to(s, s.len() - 1)) by {
            lemma_sum_to_prefix_eq(s.drop_last(), s, s.len() - 1);
        }
    }
}

/// Sums over a common prefix agree.
pub proof fn lemma_sum_to_prefix_eq(a: Seq<usize>, b: Seq<usize>, k: int)
    requires
        0 <= k <= a.len(),
        k <= b.len(),
        forall|i: int| 0 <= i < k ==> a[i] == b[i],
    ensures
        sum_to(a, k) == sum_to(b, k),
    decreases k,
{
    if k > 0 {
        lemma_sum_to_prefix_eq(a, b, k - 1);
    }
}

/// Pointwise smaller entries give a smaller sum.
pub proof fn lemma_sum_to_pointwise(a: Seq<usize>, b: Seq<usize>, k: int)
    requires
        0 <= k <= a.len(),
        k <= b.len(),
        forall|i: int| 0 <= i < k ==> #[trigger] a[i] <= b[i],
    ensures
        sum_to(a, k) <= sum_to(b, k),
    decreases k,
{
    if k > 0 {
        lemma_sum_to_pointwise(a, b, k - 1);
    }
}

} // verus!
