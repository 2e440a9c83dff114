//! The degree of an irreducible character of S_n: the character of a partition at the
//! identity (cycle type `[1, …, 1]`) is the number of standard Young tableaux of its shape.
//!
//! Both counts peel one cell at a time off a corner of the diagram: the Murnaghan–Nakayama rule
//! with cycles of length 1 removes the border strips of one cell, which are the corners, and a
//! standard tableau holds its largest entry in a corner.
use crate::murnaghan_nakayama::{
    border_strip, lemma_column_sum, lemma_trim_zeros_prefix, lemma_trim_zeros_sum, leg_sign,
    mn_sum, mn_value, one_column, shelf, sn_character, strip_remainder, strip_rows_ok, strip_upper_cells,
    strips_in_row, strips_upto, trim_zeros,
};
use crate::young::{
    entries_view, fcell, fholds, lemma_non_increasing_pair, non_increasing, seq_sum, shaped, standard_filling,
    sum_to, tableaux_view, YoungTableau,
};
use vstd::prelude::*;

verus! {

/// Row `t` ends in a corner: it is longer than the row below it.
pub open spec fn is_corner(lam: Seq<usize>, t: int) -> bool {
    0 <= t < lam.len() && lam[t] > shelf(lam, t)
}

/// The rows below `k` that end in a corner, in increasing order.
pub open spec fn corners_upto(lam: Seq<usize>, k: int) -> Seq<int>
    decreases k,
{
    if k <= 0 {
        Seq::empty()
    } else {
        corners_upto(lam, k - 1) + if is_corner(lam, k - 1) {
            seq![k - 1]
        } else {
            Seq::empty()
        }
    }
}

/// The shape left by removing the last cell of row `t` (empty rows dropped).
pub open spec fn remove_corner(lam: Seq<usize>, t: int) -> Seq<usize> {
    trim_zeros(lam.update(t, (lam[t] - 1) as usize))
}

/// The one-cell border strip at the corner of row `t`.
pub open spec fn corner_strip(lam: Seq<usize>, t: int) -> (Seq<usize>, nat) {
    (remove_corner(lam, t), 0nat)
}

/// The cells a strip takes from the rows above its lowest row: at least one per row.
proof fn lemma_upper_cells_at_least(lam: Seq<usize>, b: int, t: int)
    requires
        0 <= b <= t < lam.len(),
        strip_rows_ok(lam, b, t),
    ensures
        strip_upper_cells(lam, b, t) >= t - b,
    decreases t - b,
{
    if t > b {
        let i = t - 1;
        assert(b <= i < t);
        assert(1 <= lam[i + 1] <= lam[i]);
        lemma_upper_cells_at_least(lam, b, t - 1);
    }
}

/// A border strip of one cell is a corner: only the one-row strip at a corner row exists.
proof fn lemma_one_cell_strip(lam: Seq<usize>, t: int, b: int)
    requires
        0 <= b <= t < lam.len(),
    ensures
        border_strip(lam, 1, t, b) == if b == t && is_corner(lam, t) {
            Some(corner_strip(lam, t))
        } else {
            None
        },
{
    if b < t && strip_rows_ok(lam, b, t) {
        lemma_upper_cells_at_least(lam, b, t);
    }
    if b == t && is_corner(lam, t) {
        assert(strip_remainder(lam, 1, t, t) =~= lam.update(t, (lam[t] - 1) as usize));
    }
}

proof fn lemma_one_cell_strips_in_row(lam: Seq<usize>, t: int, bh: int)
    requires
        0 <= t < lam.len(),
        0 <= bh <= t + 1,
    ensures
        strips_in_row(lam, 1, t, bh) == if bh == t + 1 && is_corner(lam, t) {
            seq![corner_strip(lam, t)]
        } else {
            Seq::<(Seq<usize>, nat)>::empty()
        },
    decreases bh,
{
    if bh > 0 {
        lemma_one_cell_strips_in_row(lam, t, bh - 1);
        lemma_one_cell_strip(lam, t, bh - 1);
        if bh == t + 1 && is_corner(lam, t) {
            assert(strips_in_row(lam, 1, t, bh) =~= seq![corner_strip(lam, t)]);
        } else {
            assert(strips_in_row(lam, 1, t, bh) =~= Seq::<(Seq<usize>, nat)>::empty());
        }
    }
}

/// The border strips of one cell are the corners, from the highest row down.
proof fn lemma_one_cell_strips(lam: Seq<usize>, k: int)
    requires
        0 <= k <= lam.len(),
    ensures
        strips_upto(lam, 1, k) == corners_upto(lam, k).map_values(|t: int| corner_strip(lam, t)),
    decreases k,
{
    if k > 0 {
        lemma_one_cell_strips(lam, k - 1);
        lemma_one_cell_strips_in_row(lam, k - 1, k);
        assert(strips_upto(lam, 1, k) =~= corners_upto(lam, k).map_values(|t: int| corner_strip(lam, t)));
    }
}

/// The filling `u` with `m` appended to row `t`, as a filling of `lam` (rows past the end of `u`
/// read as empty).
pub open spec fn add_cell(u: Seq<Seq<usize>>, lam: Seq<usize>, t: int, m: nat) -> Seq<Seq<usize>> {
    Seq::new(
        lam.len(),
        |i: int|
            {
                let row = if i < u.len() {
                    u[i]
                } else {
                    Seq::<usize>::empty()
                };
                if i == t {
                    row.push(m as usize)
                } else {
                    row
                }
            },
    )
}

/// The fillings of `lam` with `1..=m` built by putting `m` in a corner, `m - 1` in a corner of
/// what is left, and so on down to 1, corners taken from the highest row down at each step.
pub open spec fn corner_fillings(lam: Seq<usize>, m: nat) -> Seq<Seq<Seq<usize>>>
    decreases m, 1nat, 0nat,
{
    if m == 0 {
        if lam.len() == 0 {
            seq![Seq::<Seq<usize>>::empty()]
        } else {
            Seq::empty()
        }
    } else if lam.len() == 0 {
        Seq::empty()
    } else {
        corner_fillings_over(lam, corners_upto(lam, lam.len() as int), m)
    }
}

/// The fillings built with `m` in the corner of row `c`: those of the shape left there, with `m`
/// put back.
pub open spec fn fillings_at(lam: Seq<usize>, c: int, m: nat) -> Seq<Seq<Seq<usize>>>
    decreases m, 0nat, 0nat,
{
    if m == 0 {
        Seq::empty()
    } else {
        corner_fillings(remove_corner(lam, c), (m - 1) as nat).map_values(
            |u: Seq<Seq<usize>>| add_cell(u, lam, c, m),
        )
    }
}

/// The fillings of `corner_fillings(lam, m)` whose entry `m` sits in one of the corner rows `cs`.
pub open spec fn corner_fillings_over(lam: Seq<usize>, cs: Seq<int>, m: nat) -> Seq<Seq<Seq<usize>>>
    decreases m, 0nat, cs.len(),
{
    if cs.len() == 0 || m == 0 {
        Seq::empty()
    } else {
        corner_fillings_over(lam, cs.drop_last(), m) + fillings_at(lam, cs.last(), m)
    }
}

/// As many fillings are built as the Murnaghan–Nakayama rule gives at the identity.
proof fn lemma_corner_fillings_len(lam: Seq<usize>, m: nat)
    ensures
        corner_fillings(lam, m).len() == mn_value(lam, one_column(m)),
    decreases m, 1nat, 0nat,
{
    let ct = one_column(m);
    if m > 0 && lam.len() > 0 {
        assert(ct[0] == 1);
        assert(ct.drop_first() =~= one_column((m - 1) as nat));
        lemma_one_cell_strips(lam, lam.len() as int);
        lemma_corner_fillings_over_len(lam, corners_upto(lam, lam.len() as int), m);
    }
}

proof fn lemma_corner_fillings_over_len(lam: Seq<usize>, cs: Seq<int>, m: nat)
    requires
        m > 0,
    ensures
        corner_fillings_over(lam, cs, m).len() == mn_sum(
            cs.map_values(|t: int| corner_strip(lam, t)),
            one_column((m - 1) as nat),
        ),
    decreases m, 0nat, cs.len(),
{
    if cs.len() > 0 {
        lemma_corner_fillings_over_len(lam, cs.drop_last(), m);
        lemma_corner_fillings_len(remove_corner(lam, cs.last()), (m - 1) as nat);
        assert(fillings_at(lam, cs.last(), m).len() == corner_fillings(remove_corner(lam, cs.last()), (m - 1) as nat).len());
        let strips = cs.map_values(|t: int| corner_strip(lam, t));
        assert(strips.drop_last() =~= cs.drop_last().map_values(|t: int| corner_strip(lam, t)));
        assert(strips.last() == corner_strip(lam, cs.last()));
        assert(leg_sign(0) == 1);
    }
}

/// Past the end of `trim_zeros(s)`, `s` holds zeros.
proof fn lemma_trim_zeros_tail(s: Seq<usize>)
    ensures
        forall|i: int| trim_zeros(s).len() <= i < s.len() ==> #[trigger] s[i] == 0,
    decreases s.len(),
{
    if s.len() > 0 && s.last() == 0 {
        lemma_trim_zeros_tail(s.drop_last());
        lemma_trim_zeros_prefix(s.drop_last());
        assert forall|i: int| trim_zeros(s).len() <= i < s.len() implies #[trigger] s[i] == 0 by {
            if i < s.len() - 1 {
                assert(s.drop_last()[i] == s[i]);
            }
        }
    }
}

/// Lowering one row by one lowers the sum by one.
proof fn lemma_sum_lower(s: Seq<usize>, t: int, k: int)
    requires
        0 <= t < s.len(),
        s[t] >= 1,
        0 <= k <= s.len(),
    ensures
        sum_to(s.update(t, (s[t] - 1) as usize), k) == sum_to(s, k) - if t < k {
            1int
        } else {
            0int
        },
    decreases k,
{
    if k > 0 {
        lemma_sum_lower(s, t, k - 1);
    }
}

/// The shape left at a corner is a partition with one cell fewer: row `t` is one shorter, the
/// other rows are those of `lam`, and only rows left empty are dropped.
proof fn lemma_remove_corner(lam: Seq<usize>, t: int)
    requires
        non_increasing(lam),
        is_corner(lam, t),
    ensures
        non_increasing(remove_corner(lam, t)),
        seq_sum(remove_corner(lam, t)) == seq_sum(lam) - 1,
        remove_corner(lam, t).len() <= lam.len(),
        forall|i: int|
            0 <= i < remove_corner(lam, t).len() ==> #[trigger] remove_corner(lam, t)[i] == lam[i] - if i == t {
                1int
            } else {
                0int
            },
        forall|i: int|
            remove_corner(lam, t).len() <= i < lam.len() ==> #[trigger] lam[i] == if i == t {
                1int
            } else {
                0int
            },
        forall|i: int| 0 <= i < remove_corner(lam, t).len() ==> #[trigger] remove_corner(lam, t)[i] >= 1,
{
    let s = lam.update(t, (lam[t] - 1) as usize);
    let mu = remove_corner(lam, t);
    assert(lam[t] >= 1);
    assert forall|i: int| 1 <= i < s.len() implies #[trigger] s[i] <= s[i - 1] by {
        assert(lam[i] <= lam[i - 1]);
        if i == t + 1 {
            assert(shelf(lam, t) == lam[i]);
        }
    }
    lemma_trim_zeros_prefix(s);
    lemma_trim_zeros_tail(s);
    lemma_trim_zeros_sum(s);
    lemma_sum_lower(lam, t, lam.len() as int);
    assert forall|i: int| 1 <= i < mu.len() implies #[trigger] mu[i] <= mu[i - 1] by {
        assert(mu[i] == s[i] && mu[i - 1] == s[i - 1]);
    }
    assert forall|i: int| 0 <= i < mu.len() implies #[trigger] mu[i] >= 1 by {
        if mu[i] == 0 {
            lemma_non_increasing_pair(mu, i, mu.len() - 1);
        }
    }
    assert forall|i: int| 0 <= i < mu.len() implies #[trigger] mu[i] == lam[i] - if i == t {
        1int
    } else {
        0int
    } by {
        assert(mu[i] == s[i]);
    }
    assert forall|i: int| mu.len() <= i < lam.len() implies #[trigger] lam[i] == if i == t {
        1int
    } else {
        0int
    } by {
        assert(s[i] == 0);
    }
}

/// Putting `m` in the corner of row `t` turns a standard filling of what is left into a
/// standard filling of `lam`.
#[verifier::spinoff_prover]
#[verifier::rlimit(60)]
proof fn lemma_add_cell_standard(lam: Seq<usize>, t: int, m: nat, u: Seq<Seq<usize>>)
    requires
        non_increasing(lam),
        is_corner(lam, t),
        seq_sum(lam) == m,
        m <= usize::MAX,
        standard_filling(remove_corner(lam, t), u),
    ensures
        standard_filling(lam, add_cell(u, lam, t, m)),
{
    reveal(standard_filling);
    let mu = remove_corner(lam, t);
    let x = add_cell(u, lam, t, m);
    lemma_remove_corner(lam, t);
    let c = lam[t] - 1;
    assert(seq_sum(mu) == m - 1);
    // The rows of `x`: those of `u`, with `m` after the end of row `t`.
    assert forall|i: int| 0 <= i < lam.len() implies (#[trigger] x[i]).len() == lam[i] by {
        if i < mu.len() {
            assert(u[i].len() == mu[i]);
        }
    }
    assert(shaped(lam, x));
    assert forall|i: int, j: int| fcell(x, i, j) && !(i == t && j == c) implies i < mu.len() && j < u[i].len()
        && #[trigger] x[i][j] == u[i][j] by {
        if i >= mu.len() {
            assert(lam[i] == if i == t { 1int } else { 0int });
        }
        assert(u[i].len() == mu[i]);
    }
    assert(x[t][c] == m) by {
        if t < mu.len() {
            assert(u[t].len() == mu[t]);
        }
    }
    assert(m >= 1) by {
        assert(lam[t] >= 1);
        crate::young::lemma_sum_to_monotone(lam, 0, t);
        crate::young::lemma_sum_to_monotone(lam, t + 1, lam.len() as int);
    }
    // Entries lie in `1..=m`.
    assert forall|i: int, j: int| fcell(x, i, j) implies 1 <= #[trigger] x[i][j] <= m by {
        if !(i == t && j == c) {
            assert(fcell(u, i, j));
        }
    }
    // Entries are distinct.
    assert forall|i1: int, j1: int, i2: int, j2: int|
        fcell(x, i1, j1) && fcell(x, i2, j2) && (i1 != i2 || j1 != j2) implies #[trigger] x[i1][j1]
        != #[trigger] x[i2][j2] by {
        if !(i1 == t && j1 == c) {
            assert(fcell(u, i1, j1));
        }
        if !(i2 == t && j2 == c) {
            assert(fcell(u, i2, j2));
        }
    }
    // Every value in `1..=m` appears.
    assert forall|v: int| 1 <= v <= m implies #[trigger] fholds(x, v) by {
        if v == m {
            assert(fcell(x, t, c));
        } else {
            assert(fholds(u, v));
            let (a, b) = choose|a: int, b: int| fcell(u, a, b) && #[trigger] u[a][b] == v;
            assert(a < mu.len());
            assert(u[a].len() == mu[a]);
            assert(x[a][b] == u[a][b]);
            assert(fcell(x, a, b));
        }
    }
    // Rows increase.
    assert forall|i: int, j: int| fcell(x, i, j) && j >= 1 implies #[trigger] x[i][j] > x[i][j - 1] by {
        assert(fcell(x, i, j - 1));
        if !(i == t && j == c) {
            assert(fcell(u, i, j));
        } else {
            assert(fcell(u, i, j - 1));
        }
    }
    // Columns increase.
    assert forall|i: int, j: int|
        1 <= i < lam.len() && 0 <= j < lam[0] && j < x[i].len() && j < x[i - 1].len() implies #[trigger] x[i][j]
        > x[i - 1][j] by {
        assert(fcell(x, i, j) && fcell(x, i - 1, j));
        if i - 1 == t && j == c {
            assert(shelf(lam, t) == lam[i]);
        } else if i == t && j == c {
            assert(fcell(u, i - 1, j));
        } else {
            assert(fcell(u, i, j) && fcell(u, i - 1, j));
            lemma_non_increasing_pair(mu, 0, i);
            assert(u[i].len() == mu[i]);
        }
    }
}

/// Every corner row listed is a corner, and the list increases.
proof fn lemma_corners_upto(lam: Seq<usize>, k: int)
    requires
        0 <= k <= lam.len(),
    ensures
        forall|a: int| 0 <= a < corners_upto(lam, k).len() ==> is_corner(lam, #[trigger] corners_upto(lam, k)[a])
            && corners_upto(lam, k)[a] < k,
        forall|a: int, b: int|
            0 <= a < b < corners_upto(lam, k).len() ==> #[trigger] corners_upto(lam, k)[a] < #[trigger] corners_upto(
                lam,
                k,
            )[b],
        forall|t: int| 0 <= t < k && is_corner(lam, t) ==> #[trigger] corners_upto(lam, k).contains(t),
    decreases k,
{
    if k > 0 {
        lemma_corners_upto(lam, k - 1);
        let prev = corners_upto(lam, k - 1);
        let cur = corners_upto(lam, k);
        assert forall|a: int| 0 <= a < prev.len() implies cur[a] == prev[a] by {}
        if is_corner(lam, k - 1) {
            assert(cur[prev.len() as int] == k - 1);
        }
        assert forall|t: int| 0 <= t < k && is_corner(lam, t) implies #[trigger] cur.contains(t) by {
            if t < k - 1 {
                assert(prev.contains(t));
                let a = choose|a: int| 0 <= a < prev.len() && prev[a] == t;
                assert(cur[a] == t);
            } else {
                assert(cur[prev.len() as int] == t);
            }
        }
    }
}

/// Every filling built is a standard filling of `lam`.
proof fn lemma_corner_fillings_standard(lam: Seq<usize>, m: nat)
    requires
        non_increasing(lam),
        seq_sum(lam) == m,
        m <= usize::MAX,
    ensures
        forall|k: int|
            0 <= k < corner_fillings(lam, m).len() ==> standard_filling(lam, #[trigger] corner_fillings(lam, m)[k]),
    decreases m, 1nat, 0nat,
{
    if m == 0 {
        if lam.len() == 0 {
            reveal(standard_filling);
            let e = Seq::<Seq<usize>>::empty();
            assert(corner_fillings(lam, m) == seq![e]);
            assert(shaped(lam, e));
            assert(standard_filling(lam, e));
            assert forall|k: int| 0 <= k < corner_fillings(lam, m).len() implies standard_filling(
                lam,
                #[trigger] corner_fillings(lam, m)[k],
            ) by {
                assert(k == 0);
            }
        }
    } else if lam.len() > 0 {
        lemma_corners_upto(lam, lam.len() as int);
        lemma_corner_fillings_over_standard(lam, corners_upto(lam, lam.len() as int), m);
        assert(corner_fillings(lam, m) == corner_fillings_over(lam, corners_upto(lam, lam.len() as int), m));
    }
}

proof fn lemma_corner_fillings_over_standard(lam: Seq<usize>, cs: Seq<int>, m: nat)
    requires
        non_increasing(lam),
        seq_sum(lam) == m,
        m <= usize::MAX,
        m > 0,
        forall|a: int| 0 <= a < cs.len() ==> is_corner(lam, #[trigger] cs[a]),
    ensures
        forall|k: int|
            0 <= k < corner_fillings_over(lam, cs, m).len() ==> standard_filling(
                lam,
                #[trigger] corner_fillings_over(lam, cs, m)[k],
            ),
    decreases m, 0nat, cs.len(),
{
    if cs.len() > 0 {
        let c = cs.last();
        assert(is_corner(lam, cs[cs.len() - 1]));
        lemma_corner_fillings_over_standard(lam, cs.drop_last(), m);
        let mu = remove_corner(lam, c);
        lemma_remove_corner(lam, c);
        lemma_corner_fillings_standard(mu, (m - 1) as nat);
        let prev = corner_fillings_over(lam, cs.drop_last(), m);
        let sub = corner_fillings(mu, (m - 1) as nat);
        let ext = fillings_at(lam, c, m);
        assert(ext.len() == sub.len());
        let all = prev + ext;
        assert forall|k: int| 0 <= k < all.len() implies standard_filling(lam, #[trigger] all[k]) by {
            if k >= prev.len() {
                let u = sub[k - prev.len()];
                assert(all[k] == add_cell(u, lam, c, m));
                lemma_add_cell_standard(lam, c, m, u);
            }
        }
    }
}

/// A standard filling holds its largest entry `m` at the end of a row that ends in a corner.
proof fn lemma_largest_in_corner(lam: Seq<usize>, m: nat, t: Seq<Seq<usize>>, a: int, b: int)
    requires
        non_increasing(lam),
        seq_sum(lam) == m,
        standard_filling(lam, t),
        fcell(t, a, b),
        t[a][b] == m,
    ensures
        is_corner(lam, a),
        b == lam[a] - 1,
{
    reveal(standard_filling);
    assert(t[a].len() == lam[a]);
    if b + 1 < lam[a] {
        assert(fcell(t, a, b + 1));
        assert(t[a][b + 1] > t[a][b]);
    }
    if a + 1 < lam.len() && lam[a + 1] > b {
        lemma_non_increasing_pair(lam, 0, a);
        assert(t[a + 1].len() == lam[a + 1]);
        assert(fcell(t, a + 1, b));
        assert(t[a + 1][b] > t[a][b]);
    }
}

/// `t` with the last cell of row `a` removed, as a filling of `remove_corner(lam, a)`.
pub open spec fn remove_cell(t: Seq<Seq<usize>>, lam: Seq<usize>, a: int) -> Seq<Seq<usize>> {
    Seq::new(
        remove_corner(lam, a).len(),
        |i: int|
            if i == a {
                t[a].drop_last()
            } else {
                t[i]
            },
    )
}

/// Removing the largest entry from its corner leaves a standard filling of the shape left, from
/// which putting it back gives the filling again.
#[verifier::spinoff_prover]
#[verifier::rlimit(60)]
proof fn lemma_remove_cell_standard(lam: Seq<usize>, m: nat, t: Seq<Seq<usize>>, a: int)
    requires
        non_increasing(lam),
        seq_sum(lam) == m,
        m <= usize::MAX,
        standard_filling(lam, t),
        is_corner(lam, a),
        t[a][lam[a] - 1] == m,
    ensures
        standard_filling(remove_corner(lam, a), remove_cell(t, lam, a)),
        add_cell(remove_cell(t, lam, a), lam, a, m) == t,
{
    reveal(standard_filling);
    let mu = remove_corner(lam, a);
    let u = remove_cell(t, lam, a);
    let c = lam[a] - 1;
    lemma_remove_corner(lam, a);
    assert(seq_sum(mu) == m - 1);
    assert(t[a].len() == lam[a]);
    assert(fcell(t, a, c));
    assert forall|i: int| 0 <= i < mu.len() implies (#[trigger] u[i]).len() == mu[i] by {
        assert(t[i].len() == lam[i]);
    }
    assert(shaped(mu, u));
    // The cells of `u` are those of `t` but the corner of row `a`.
    assert forall|i: int, j: int| fcell(u, i, j) implies fcell(t, i, j) && !(i == a && j == c) && #[trigger] u[i][j]
        == t[i][j] by {
        assert(t[i].len() == lam[i]);
    }
    assert forall|i: int, j: int| fcell(u, i, j) implies 1 <= #[trigger] u[i][j] <= m - 1 by {
        assert(fcell(t, i, j) && !(i == a && j == c));
    }
    assert forall|i1: int, j1: int, i2: int, j2: int|
        fcell(u, i1, j1) && fcell(u, i2, j2) && (i1 != i2 || j1 != j2) implies #[trigger] u[i1][j1]
        != #[trigger] u[i2][j2] by {
        assert(fcell(t, i1, j1) && fcell(t, i2, j2));
    }
    assert forall|v: int| 1 <= v <= m - 1 implies #[trigger] fholds(u, v) by {
        assert(fholds(t, v));
        let (p, q) = choose|p: int, q: int| fcell(t, p, q) && #[trigger] t[p][q] == v;
        assert(!(p == a && q == c));
        assert(t[p].len() == lam[p]);
        if p >= mu.len() {
            assert(lam[p] == if p == a { 1int } else { 0int });
        }
        assert(u[p][q] == t[p][q]);
        assert(fcell(u, p, q));
    }
    assert forall|i: int, j: int| fcell(u, i, j) && j >= 1 implies #[trigger] u[i][j] > u[i][j - 1] by {
        assert(fcell(t, i, j) && fcell(u, i, j - 1));
        assert(u[i][j - 1] == t[i][j - 1]);
    }
    assert forall|i: int, j: int|
        1 <= i < mu.len() && 0 <= j < mu[0] && j < u[i].len() && j < u[i - 1].len() implies #[trigger] u[i][j]
        > u[i - 1][j] by {
        assert(fcell(u, i, j) && fcell(u, i - 1, j));
        assert(u[i - 1][j] == t[i - 1][j]);
        assert(fcell(t, i, j) && fcell(t, i - 1, j));
        assert(mu[0] <= lam[0]);
    }
    // Putting the corner back.
    let x = add_cell(u, lam, a, m);
    assert forall|i: int| 0 <= i < lam.len() implies #[trigger] x[i] =~= t[i] by {
        assert(t[i].len() == lam[i]);
        if i >= mu.len() {
            assert(lam[i] == if i == a { 1int } else { 0int });
        }
        if i == a {
            assert(t[a].drop_last().push(m as usize) =~= t[a]);
        }
    }
    assert(x =~= t);
}

/// Fillings built from a corner listed in `cs` are among `corner_fillings_over(lam, cs, m)`.
proof fn lemma_over_contains(lam: Seq<usize>, cs: Seq<int>, m: nat, c: int, u: Seq<Seq<usize>>)
    requires
        m > 0,
        cs.contains(c),
        corner_fillings(remove_corner(lam, c), (m - 1) as nat).contains(u),
    ensures
        corner_fillings_over(lam, cs, m).contains(add_cell(u, lam, c, m)),
    decreases cs.len(),
{
    let prev = corner_fillings_over(lam, cs.drop_last(), m);
    let x = add_cell(u, lam, c, m);
    if cs.last() == c {
        let sub = corner_fillings(remove_corner(lam, c), (m - 1) as nat);
        let k = choose|k: int| 0 <= k < sub.len() && sub[k] == u;
        let ext = fillings_at(lam, c, m);
        assert(ext[k] == x);
        assert((prev + ext)[prev.len() + k] == x);
    } else {
        let k = choose|k: int| 0 <= k < cs.len() && cs[k] == c;
        assert(cs.drop_last()[k] == c);
        lemma_over_contains(lam, cs.drop_last(), m, c, u);
        let j = choose|j: int| 0 <= j < prev.len() && prev[j] == x;
        let sub = corner_fillings(remove_corner(lam, cs.last()), (m - 1) as nat);
        let ext = fillings_at(lam, cs.last(), m);
        assert((prev + ext)[j] == x);
    }
}

/// Every standard filling of a partition is built.
proof fn lemma_corner_fillings_complete(lam: Seq<usize>, m: nat, t: Seq<Seq<usize>>)
    requires
        non_increasing(lam),
        seq_sum(lam) == m,
        m <= usize::MAX,
        lam.len() > 0 ==> lam[0] > 0,
        standard_filling(lam, t),
    ensures
        corner_fillings(lam, m).contains(t),
    decreases m,
{
    if lam.len() > 0 {
        crate::young::lemma_sum_to_monotone(lam, 1, lam.len() as int);
        assert(sum_to(lam, 0) == 0);
        assert(sum_to(lam, 1) == lam[0]);
    }
    if m == 0 {
        reveal(standard_filling);
        assert(t =~= Seq::<Seq<usize>>::empty());
        assert(corner_fillings(lam, m)[0] == t);
    } else {
        reveal(standard_filling);
        assert(fholds(t, m as int));
        let (a, b) = choose|a: int, b: int| fcell(t, a, b) && #[trigger] t[a][b] == m;
        lemma_largest_in_corner(lam, m, t, a, b);
        let mu = remove_corner(lam, a);
        let u = remove_cell(t, lam, a);
        lemma_remove_cell_standard(lam, m, t, a);
        lemma_remove_corner(lam, a);
        lemma_corner_fillings_complete(mu, (m - 1) as nat, u);
        lemma_corners_upto(lam, lam.len() as int);
        lemma_over_contains(lam, corners_upto(lam, lam.len() as int), m, a, u);
        assert(corner_fillings(lam, m) == corner_fillings_over(lam, corners_upto(lam, lam.len() as int), m));
    }
}

/// Fillings of the shape left at a corner that give the same filling of `lam` are the same.
proof fn lemma_add_cell_injective(lam: Seq<usize>, c: int, m: nat, u1: Seq<Seq<usize>>, u2: Seq<Seq<usize>>)
    requires
        non_increasing(lam),
        is_corner(lam, c),
        shaped(remove_corner(lam, c), u1),
        shaped(remove_corner(lam, c), u2),
        add_cell(u1, lam, c, m) == add_cell(u2, lam, c, m),
    ensures
        u1 == u2,
{
    let mu = remove_corner(lam, c);
    lemma_remove_corner(lam, c);
    let x1 = add_cell(u1, lam, c, m);
    let x2 = add_cell(u2, lam, c, m);
    assert forall|i: int| 0 <= i < mu.len() implies #[trigger] u1[i] =~= u2[i] by {
        assert(x1[i] == x2[i]);
        if i == c {
            assert(u1[c] =~= x1[c].drop_last());
            assert(u2[c] =~= x2[c].drop_last());
        }
    }
    assert(u1 =~= u2);
}

/// The fillings built with `m` in the corner of row `c`: each is a standard filling of `lam`
/// holding `m` at the end of row `c`, and no two are the same.
proof fn lemma_extensions(lam: Seq<usize>, c: int, m: nat)
    requires
        non_increasing(lam),
        is_corner(lam, c),
        seq_sum(lam) == m,
        m <= usize::MAX,
        m > 0,
    ensures
        fillings_at(lam, c, m).no_duplicates(),
        forall|k: int|
            0 <= k < fillings_at(lam, c, m).len() ==> (#[trigger] fillings_at(lam, c, m)[k])[c][lam[c] - 1] == m
                && standard_filling(lam, fillings_at(lam, c, m)[k]),
    decreases m, 0nat, 0nat,
{
    let mu = remove_corner(lam, c);
    lemma_remove_corner(lam, c);
    lemma_corner_fillings_distinct(mu, (m - 1) as nat);
    lemma_corner_fillings_standard(mu, (m - 1) as nat);
    let sub = corner_fillings(mu, (m - 1) as nat);
    let ext = fillings_at(lam, c, m);
    assert forall|k: int| 0 <= k < ext.len() implies (#[trigger] ext[k])[c][lam[c] - 1] == m && standard_filling(
        lam,
        ext[k],
    ) by {
        let u = sub[k];
        lemma_standard_shaped_rows(mu, u);
        if c < mu.len() {
            assert(u[c].len() == mu[c]);
        } else {
            assert(lam[c] == 1);
        }
        lemma_add_cell_standard(lam, c, m, u);
    }
    assert forall|k1: int, k2: int| 0 <= k1 < ext.len() && 0 <= k2 < ext.len() && k1 != k2 implies ext[k1]
        != ext[k2] by {
        let u1 = sub[k1];
        let u2 = sub[k2];
        if ext[k1] == ext[k2] {
            lemma_standard_shaped_rows(mu, u1);
            lemma_standard_shaped_rows(mu, u2);
            lemma_add_cell_injective(lam, c, m, u1, u2);
        }
    }
}

/// A standard filling is shaped like its diagram.
proof fn lemma_standard_shaped_rows(rows: Seq<usize>, t: Seq<Seq<usize>>)
    requires
        standard_filling(rows, t),
    ensures
        shaped(rows, t),
{
    reveal(standard_filling);
}

/// A standard filling holds `m` in one cell only: not at the ends of two different rows.
proof fn lemma_one_place(lam: Seq<usize>, x: Seq<Seq<usize>>, r: int, c: int, m: nat)
    requires
        standard_filling(lam, x),
        0 <= r < lam.len(),
        0 <= c < lam.len(),
        r != c,
        lam[r] >= 1,
        lam[c] >= 1,
        x[r][lam[r] - 1] == m,
    ensures
        x[c][lam[c] - 1] != m,
{
    reveal(standard_filling);
    assert(x[r].len() == lam[r] && x[c].len() == lam[c]);
    assert(fcell(x, r, lam[r] - 1) && fcell(x, c, lam[c] - 1));
}

/// The fillings built from the corner rows `cs` are all different, and each holds `m` at the end
/// of one of those rows.
proof fn lemma_over_distinct(lam: Seq<usize>, cs: Seq<int>, m: nat)
    requires
        non_increasing(lam),
        seq_sum(lam) == m,
        m <= usize::MAX,
        m > 0,
        forall|a: int| 0 <= a < cs.len() ==> is_corner(lam, #[trigger] cs[a]),
        forall|a: int, b: int| 0 <= a < b < cs.len() ==> #[trigger] cs[a] < #[trigger] cs[b],
    ensures
        corner_fillings_over(lam, cs, m).no_duplicates(),
        forall|k: int|
            0 <= k < corner_fillings_over(lam, cs, m).len() ==> exists|a: int|
                0 <= a < cs.len() && (#[trigger] corner_fillings_over(lam, cs, m)[k])[cs[a]][lam[cs[a]] - 1] == m,
    decreases m, 0nat, cs.len(),
{
    if cs.len() > 0 {
        let c = cs.last();
        assert(is_corner(lam, cs[cs.len() - 1]));
        let rest = cs.drop_last();
        assert forall|a: int, b: int| 0 <= a < b < rest.len() implies #[trigger] rest[a] < #[trigger] rest[b] by {
            assert(cs[a] < cs[b]);
        }
        assert forall|a: int| 0 <= a < rest.len() implies is_corner(lam, #[trigger] rest[a]) by {
            assert(is_corner(lam, cs[a]));
        }
        lemma_over_distinct(lam, rest, m);
        lemma_corner_fillings_over_standard(lam, rest, m);
        lemma_extensions(lam, c, m);
        let prev = corner_fillings_over(lam, rest, m);
        let ext = fillings_at(lam, c, m);
        let all = prev + ext;
        assert(all == corner_fillings_over(lam, cs, m));
        assert forall|k1: int, k2: int| 0 <= k1 < prev.len() && 0 <= k2 < ext.len() implies prev[k1] != ext[k2] by {
            let x = prev[k1];
            let a = choose|a: int| 0 <= a < rest.len() && x[rest[a]][lam[rest[a]] - 1] == m;
            let r = rest[a];
            assert(r < c) by {
                assert(cs[a] < cs[cs.len() - 1]);
            }
            assert(standard_filling(lam, x));
            assert(lam[r] >= 1 && lam[c] >= 1);
            lemma_one_place(lam, x, r, c, m);
            assert(ext[k2][c][lam[c] - 1] == m);
        }
        assert forall|k1: int, k2: int| 0 <= k1 < all.len() && 0 <= k2 < all.len() && k1 != k2 implies all[k1]
            != all[k2] by {
            if k1 < prev.len() && k2 >= prev.len() {
                assert(prev[k1] != ext[k2 - prev.len()]);
            } else if k2 < prev.len() && k1 >= prev.len() {
                assert(prev[k2] != ext[k1 - prev.len()]);
            } else if k1 >= prev.len() {
                assert(ext[k1 - prev.len()] != ext[k2 - prev.len()]);
            }
        }
        assert forall|k: int| 0 <= k < all.len() implies exists|a: int|
            0 <= a < cs.len() && (#[trigger] all[k])[cs[a]][lam[cs[a]] - 1] == m by {
            if k < prev.len() {
                let a = choose|a: int| 0 <= a < rest.len() && prev[k][rest[a]][lam[rest[a]] - 1] == m;
                assert(cs[a] == rest[a]);
            } else {
                assert(cs[cs.len() - 1] == c);
                assert(ext[k - prev.len()][c][lam[c] - 1] == m);
            }
        }
    }
}

/// No filling is built twice.
proof fn lemma_corner_fillings_distinct(lam: Seq<usize>, m: nat)
    requires
        non_increasing(lam),
        seq_sum(lam) == m,
        m <= usize::MAX,
    ensures
        corner_fillings(lam, m).no_duplicates(),
    decreases m, 1nat, 0nat,
{
    if m > 0 && lam.len() > 0 {
        lemma_corners_upto(lam, lam.len() as int);
        lemma_over_distinct(lam, corners_upto(lam, lam.len() as int), m);
        assert(corner_fillings(lam, m) == corner_fillings_over(lam, corners_upto(lam, lam.len() as int), m));
    }
}

/// A tableau that is standard, with rows as long as its diagram says, is a standard filling of
/// its diagram.
proof fn lemma_view_standard(tab: YoungTableau)
    requires
        tab.shape_ok(),
        tab.standard(),
    ensures
        standard_filling(tab.diagram.rows@, entries_view(tab.entries@)),
{
    reveal(standard_filling);
    let t = entries_view(tab.entries@);
    let rows = tab.diagram.rows@;
    assert forall|i: int| 0 <= i < t.len() implies #[trigger] t[i] == tab.entries@[i]@ by {}
    assert forall|i: int, j: int| fcell(t, i, j) implies tab.is_cell(i, j) && #[trigger] t[i][j] == tab.entry(i, j) by {}
    assert(shaped(rows, t));
    assert forall|v: int| 1 <= v <= seq_sum(rows) implies #[trigger] fholds(t, v) by {
        assert(tab.holds(v));
        let (a, b) = choose|a: int, b: int| tab.is_cell(a, b) && #[trigger] tab.entry(a, b) == v;
        assert(fcell(t, a, b) && t[a][b] == v);
    }
    assert forall|i1: int, j1: int, i2: int, j2: int|
        fcell(t, i1, j1) && fcell(t, i2, j2) && (i1 != i2 || j1 != j2) implies #[trigger] t[i1][j1]
        != #[trigger] t[i2][j2] by {
        assert(tab.entry(i1, j1) != tab.entry(i2, j2));
    }
    assert forall|i: int, j: int| fcell(t, i, j) && j >= 1 implies #[trigger] t[i][j] > t[i][j - 1] by {
        assert(tab.entry(i, j) > tab.entry(i, j - 1));
    }
    assert forall|i: int, j: int|
        1 <= i < rows.len() && 0 <= j < rows[0] && j < t[i].len() && j < t[i - 1].len() implies #[trigger] t[i][j]
        > t[i - 1][j] by {
        assert(tab.entry(i, j) > tab.entry(i - 1, j));
    }
}

/// Law: the standard Young tableaux of a diagram, each listed once (as `standard_tableaux` lists
/// them), are as many as the value at the identity (the cycle type `[1, …, 1]`) of the
/// character that `symmetric_group_character` gives for the diagram: the degree of the
/// irreducible representation. A diagram of nothing but empty rows is left out: it has one
/// (empty) tableau but character 0.
pub proof fn lemma_standard_tableaux_count(rows: Seq<usize>, tabs: Seq<YoungTableau>)
    requires
        non_increasing(rows),
        rows.len() > 0 ==> rows[0] > 0,
        seq_sum(rows) < usize::MAX,
        forall|k: int|
            0 <= k < tabs.len() ==> (#[trigger] tabs[k]).diagram.rows@ == rows && tabs[k].shape_ok()
                && tabs[k].standard(),
        forall|k1: int, k2: int|
            0 <= k1 < k2 < tabs.len() ==> #[trigger] tableaux_view(tabs)[k1] != #[trigger] tableaux_view(tabs)[k2],
        forall|t: Seq<Seq<usize>>|
            #[trigger] standard_filling(rows, t) ==> exists|k: int|
                0 <= k < tabs.len() && #[trigger] tableaux_view(tabs)[k] == t,
    ensures
        tabs.len() == sn_character(rows, one_column(seq_sum(rows) as nat)),
{
    crate::young::lemma_sum_to_monotone(rows, 0, rows.len() as int);
    let m = seq_sum(rows) as nat;
    assert(seq_sum(rows) == m);
    let views = tableaux_view(tabs);
    let built = corner_fillings(rows, m);
    assert forall|k: int| 0 <= k < views.len() implies standard_filling(rows, #[trigger] views[k]) by {
        lemma_view_standard(tabs[k]);
        assert(views[k] == entries_view(tabs[k].entries@));
    }
    lemma_corner_fillings_standard(rows, m);
    lemma_corner_fillings_distinct(rows, m);
    assert(views.no_duplicates()) by {
        assert forall|k1: int, k2: int| 0 <= k1 < views.len() && 0 <= k2 < views.len() && k1 != k2 implies views[k1]
            != views[k2] by {
            if k1 < k2 {
                assert(tableaux_view(tabs)[k1] != tableaux_view(tabs)[k2]);
            } else {
                assert(tableaux_view(tabs)[k2] != tableaux_view(tabs)[k1]);
            }
        }
    }
    assert(views.to_set() =~= built.to_set()) by {
        assert forall|t: Seq<Seq<usize>>| views.to_set().contains(t) implies built.to_set().contains(t) by {
            let k = choose|k: int| 0 <= k < views.len() && views[k] == t;
            assert(standard_filling(rows, views[k]));
            lemma_corner_fillings_complete(rows, m, t);
        }
        assert forall|t: Seq<Seq<usize>>| built.to_set().contains(t) implies views.to_set().contains(t) by {
            let k = choose|k: int| 0 <= k < built.len() && built[k] == t;
            assert(standard_filling(rows, built[k]));
            let j = choose|j: int| 0 <= j < tabs.len() && #[trigger] tableaux_view(tabs)[j] == t;
            assert(views[j] == t);
        }
    }
    views.unique_seq_to_set();
    built.unique_seq_to_set();
    lemma_corner_fillings_len(rows, m);
    lemma_column_sum(m, m as int);
    assert(seq_sum(one_column(m)) == m);
}

} // verus!
