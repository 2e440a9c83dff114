//! Finite groups given by a Cayley table, and the operations on them.
use vstd::arithmetic::div_mod::{lemma_add_mod_noop, lemma_mod_bound, lemma_mod_self_0, lemma_mod_twice, lemma_small_mod};
use vstd::prelude::*;

verus! {

/// A finite group represented by its Cayley table.
pub struct FiniteGroup {
    /// Ordered list of group element labels.
    pub elements: Vec<String>,
    /// Cayley table: `table[i][j]` is the index of `element_i * element_j`.
    pub table: Vec<Vec<usize>>,
}

impl FiniteGroup {
    /// The number of elements.
    pub open spec fn n(&self) -> nat {
        self.elements@.len()
    }

    /// The product `i * j` read from the table.
    pub open spec fn mul(&self, i: int, j: int) -> int {
        self.table@[i]@[j] as int
    }

    /// The table is square, of side `n`, and every entry names an element.
    pub open spec fn wf(&self) -> bool {
        &&& self.table@.len() == self.n()
        &&& forall|i: int| 0 <= i < self.n() ==> (#[trigger] self.table@[i]@.len()) == self.n()
        &&& forall|i: int, j: int|
            0 <= i < self.n() && 0 <= j < self.n() ==> 0 <= #[trigger] self.mul(i, j) < self.n()
    }

    /// The first `n` rows of the table exist and hold at least `n` entries each, so every
    /// product of two elements can be read (whether or not it names an element).
    pub open spec fn covers(&self) -> bool {
        &&& self.table@.len() >= self.n()
        &&& forall|i: int| 0 <= i < self.n() ==> (#[trigger] self.table@[i]@.len()) >= self.n()
    }

    /// `e` is a two-sided identity.
    pub open spec fn is_identity_element(&self, e: int) -> bool {
        &&& 0 <= e < self.n()
        &&& forall|j: int| 0 <= j < self.n() ==> #[trigger] self.mul(e, j) == j && self.mul(j, e) == j
    }

    /// Some element is a two-sided identity.
    pub open spec fn has_identity(&self) -> bool {
        exists|e: int| self.is_identity_element(e)
    }

    /// The identity element (unique whenever it exists).
    pub open spec fn spec_identity(&self) -> int {
        choose|e: int| self.is_identity_element(e)
    }

    /// `j` is a two-sided inverse of `i`.
    pub open spec fn is_inverse_of(&self, i: int, j: int) -> bool {
        &&& 0 <= j < self.n()
        &&& self.mul(i, j) == self.spec_identity()
        &&& self.mul(j, i) == self.spec_identity()
    }

    /// `i` has a two-sided inverse.
    pub open spec fn has_inverse(&self, i: int) -> bool {
        exists|j: int| self.is_inverse_of(i, j)
    }

    /// Every element has a two-sided inverse.
    pub open spec fn all_invertible(&self) -> bool {
        forall|i: int| 0 <= i < self.n() ==> #[trigger] self.has_inverse(i)
    }

    /// The first two-sided inverse of `i` at or after `k` (0 if there is none).
    pub open spec fn inverse_from(&self, i: int, k: int) -> int
        decreases self.n() - k,
    {
        if k < 0 || k >= self.n() {
            0
        } else if self.is_inverse_of(i, k) {
            k
        } else {
            self.inverse_from(i, k + 1)
        }
    }

    /// The first (smallest) two-sided inverse of `i`.
    pub open spec fn spec_inverse(&self, i: int) -> int {
        self.inverse_from(i, 0)
    }

    /// `i` is conjugate to `j`: some `g` has `(g * i) * g⁻¹ == j`.
    pub open spec fn conjugates_to(&self, i: int, j: int) -> bool {
        exists|g: int| 0 <= g < self.n() && #[trigger] self.mul(self.mul(g, i), self.spec_inverse(g)) == j
    }

    /// The elements below `m` to which `l` is conjugate, in increasing order.
    pub open spec fn class_prefix(&self, l: int, m: nat) -> Seq<usize>
        decreases m,
    {
        if m == 0 {
            Seq::empty()
        } else {
            let prev = self.class_prefix(l, (m - 1) as nat);
            if self.conjugates_to(l, m - 1) {
                prev.push((m - 1) as usize)
            } else {
                prev
            }
        }
    }

    /// The conjugacy class of `l`: every element to which `l` is conjugate, in increasing order.
    pub open spec fn conjugacy_class(&self, l: int) -> Seq<usize> {
        self.class_prefix(l, self.n())
    }

    /// Scanning the elements below `k` in order, those that no earlier chosen element is
    /// conjugate to; each of them opens a class.
    pub open spec fn leaders_prefix(&self, k: nat) -> Seq<int>
        decreases k,
    {
        if k == 0 {
            Seq::empty()
        } else {
            let prev = self.leaders_prefix((k - 1) as nat);
            if exists|c: int| 0 <= c < prev.len() && self.conjugates_to(#[trigger] prev[c], k - 1) {
                prev
            } else {
                prev.push(k - 1)
            }
        }
    }

    /// The elements that open a conjugacy class, in increasing order.
    pub open spec fn class_leaders(&self) -> Seq<int> {
        self.leaders_prefix(self.n())
    }

    /// Some element of `ls` is conjugate to `j`.
    pub open spec fn reached_from(&self, ls: Seq<int>, j: int) -> bool {
        exists|c: int| 0 <= c < ls.len() && self.conjugates_to(#[trigger] ls[c], j)
    }

    /// `j` lies in the class of some leader.
    pub open spec fn lies_in_a_class(&self, j: int) -> bool {
        exists|c: int|
            0 <= c < self.class_leaders().len() && (#[trigger] self.conjugacy_class(
                self.class_leaders()[c],
            )).contains(j as usize)
    }

    /// What `conjugacy_classes` needs: a well-formed table with an identity and inverses.
    pub open spec fn conjugation_ready(&self) -> bool {
        self.wf() && self.has_identity() && self.all_invertible()
    }

    /// The table's operation is associative.
    #[verifier::opaque]
    pub open spec fn associative(&self) -> bool {
        forall|a: int, b: int, c: int|
            0 <= a < self.n() && 0 <= b < self.n() && 0 <= c < self.n() ==> #[trigger] self.mul(
                self.mul(a, b),
                c,
            ) == self.mul(a, self.mul(b, c))
    }

    /// The table describes a group: closed, associative, with identity and inverses.
    pub open spec fn is_group(&self) -> bool {
        self.conjugation_ready() && self.associative()
    }

    /// Create a group from elements and a Cayley table.
    pub fn new(elements: Vec<String>, table: Vec<Vec<usize>>) -> (r: Self)
        requires
            elements.len() == table.len(),
        ensures
            r.elements == elements,
            r.table == table,
    {
        FiniteGroup { elements, table }
    }

    /// Order of the group.
    pub fn order(&self) -> (r: usize)
        ensures
            r == self.n(),
    {
        self.elements.len()
    }

    /// Multiply two elements by index.
    pub fn multiply(&self, i: usize, j: usize) -> (r: usize)
        requires
            i < self.table@.len(),
            j < self.table@[i as int]@.len(),
        ensures
            r == self.mul(i as int, j as int),
            self.wf() && i < self.n() && j < self.n() ==> r < self.n(),
    {
        self.table[i][j]
    }

    /// Whether `e` is a two-sided identity, checked against every element.
    fn is_identity_candidate(&self, e: usize) -> (r: bool)
        requires
            self.covers(),
            e < self.n(),
        ensures
            r == self.is_identity_element(e as int),
    {
        let n = self.order();
        let mut j: usize = 0;
        while j < n
            invariant
                self.covers(),
                n == self.n(),
                e < n,
                j <= n,
                forall|k: int| 0 <= k < j ==> #[trigger] self.mul(e as int, k) == k && self.mul(k, e as int) == k,
            decreases n - j,
        {
            if !(self.table[e][j] == j && self.table[j][e] == j) {
                proof {
                    if self.is_identity_element(e as int) {
                        assert(0 <= j < self.n());
                        assert(self.mul(e as int, j as int) == j);
                        assert(self.mul(j as int, e as int) == j);
                    }
                }
                return false;
            }
            j = j + 1;
        }
        true
    }

    /// Identity element index.
    pub fn identity(&self) -> (r: usize)
        requires
            self.covers(),
            self.has_identity(),
        ensures
            r == self.spec_identity(),
            self.is_identity_element(r as int),
    {
        let n = self.order();
        let mut candidate: usize = 0;
        while candidate < n
            invariant
                self.covers(),
                self.has_identity(),
                n == self.n(),
                candidate <= n,
                forall|c: int| 0 <= c < candidate ==> !self.is_identity_element(c),
            decreases n - candidate,
        {
            if self.is_identity_candidate(candidate) {
                proof {
                    lemma_identity_unique(*self, candidate as int);
                }
                return candidate;
            }
            candidate = candidate + 1;
        }
        proof {
            let e = choose|e: int| self.is_identity_element(e);
            assert(self.is_identity_element(e));
        }
        0
    }

    /// Inverse of element at index i: the first two-sided inverse.
    pub fn inverse(&self, i: usize) -> (r: usize)
        requires
            self.covers(),
            self.has_identity(),
            i < self.n(),
            self.has_inverse(i as int),
        ensures
            r == self.spec_inverse(i as int),
            self.is_inverse_of(i as int, r as int),
    {
        let e = self.identity();
        let n = self.order();
        let mut j: usize = 0;
        while j < n
            invariant
                self.covers(),
                self.has_identity(),
                self.has_inverse(i as int),
                e == self.spec_identity(),
                n == self.n(),
                i < n,
                j <= n,
                forall|k: int| 0 <= k < j ==> !self.is_inverse_of(i as int, k),
                self.inverse_from(i as int, 0) == self.inverse_from(i as int, j as int),
            decreases n - j,
        {
            if self.table[i][j] == e && self.table[j][i] == e {
                assert(self.is_inverse_of(i as int, j as int));
                return j;
            }
            j = j + 1;
        }
        proof {
            let w = choose|w: int| self.is_inverse_of(i as int, w);
            assert(self.is_inverse_of(i as int, w));
        }
        0
    }

    /// Generate the cyclic group Z/nZ: element `i` is labelled `g{i}` and `i * j = (i + j) mod n`.
    pub fn cyclic(n: usize) -> (r: Self)
        requires
            n + n <= usize::MAX + 2,
        ensures
            r.n() == n,
            r.wf(),
            forall|i: int, j: int| 0 <= i < n && 0 <= j < n ==> #[trigger] r.mul(i, j) == (i + j) % (n as int),
            forall|i: int| 0 <= i < n ==> (#[trigger] r.elements@[i])@ == seq!['g'] + decimal(i as nat),
    {
        let mut elements: Vec<String> = Vec::new();
        let mut table: Vec<Vec<usize>> = Vec::new();
        let mut i: usize = 0;
        while i < n
            invariant
                n + n <= usize::MAX + 2,
                i <= n,
                elements@.len() == i,
                table@.len() == i,
                forall|a: int| 0 <= a < i ==> (#[trigger] elements@[a])@ == seq!['g'] + decimal(a as nat),
                forall|a: int| 0 <= a < i ==> (#[trigger] table@[a])@.len() == n,
                forall|a: int, b: int|
                    0 <= a < i && 0 <= b < n ==> #[trigger] table@[a]@[b] == (a + b) % (n as int),
            decreases n - i,
        {
            elements.push(cyclic_label(i));
            let mut row: Vec<usize> = Vec::new();
            let mut j: usize = 0;
            while j < n
                invariant
                    n + n <= usize::MAX + 2,
                    i < n,
                    j <= n,
                    row@.len() == j,
                    forall|b: int| 0 <= b < j ==> #[trigger] row@[b] == (i + b) % (n as int),
                decreases n - j,
            {
                row.push((i + j) % n);
                j = j + 1;
            }
            table.push(row);
            i = i + 1;
        }
        let r = Self::new(elements, table);
        assert forall|a: int, b: int| 0 <= a < n && 0 <= b < n implies 0 <= #[trigger] r.mul(a, b) < r.n() by {
            assert(r.mul(a, b) == (a + b) % (n as int));
        }
        r
    }

    /// Generate the symmetric group S_3 with elements e, (12), (13), (23), (123), (132).
    pub fn s3() -> (r: Self)
        ensures
            r.n() == 6,
            r.wf(),
            forall|i: int, j: int| 0 <= i < 6 && 0 <= j < 6 ==> #[trigger] r.mul(i, j) == s3_table()[i][j],
            r.elements@[0]@ == "e"@,
            r.elements@[1]@ == "(12)"@,
            r.elements@[2]@ == "(13)"@,
            r.elements@[3]@ == "(23)"@,
            r.elements@[4]@ == "(123)"@,
            r.elements@[5]@ == "(132)"@,
    {
        let elements = vec![
            "e".to_owned(),
            "(12)".to_owned(),
            "(13)".to_owned(),
            "(23)".to_owned(),
            "(123)".to_owned(),
            "(132)".to_owned(),
        ];
        let table = vec![
            vec![0, 1, 2, 3, 4, 5],
            vec![1, 0, 4, 5, 2, 3],
            vec![2, 5, 0, 4, 3, 1],
            vec![3, 4, 5, 0, 1, 2],
            vec![4, 3, 1, 2, 5, 0],
            vec![5, 2, 3, 1, 0, 4],
        ];
        let r = Self::new(elements, table);
        assert(r.table@.map_values(|row: Vec<usize>| row@) =~= s3_table());
        assert forall|i: int, j: int| 0 <= i < 6 && 0 <= j < 6 implies #[trigger] r.mul(i, j) == s3_table()[i][j] by {
            assert(r.table@.map_values(|row: Vec<usize>| row@)[i] == r.table@[i]@);
        }
        r
    }

    /// Generate the Klein four-group Z/2Z × Z/2Z with elements e, a, b, ab.
    pub fn klein_four() -> (r: Self)
        ensures
            r.n() == 4,
            r.wf(),
            forall|i: int, j: int| 0 <= i < 4 && 0 <= j < 4 ==> #[trigger] r.mul(i, j) == klein_table()[i][j],
            r.elements@[0]@ == "e"@,
            r.elements@[1]@ == "a"@,
            r.elements@[2]@ == "b"@,
            r.elements@[3]@ == "ab"@,
    {
        let elements = vec!["e".to_owned(), "a".to_owned(), "b".to_owned(), "ab".to_owned()];
        let table = vec![vec![0, 1, 2, 3], vec![1, 0, 3, 2], vec![2, 3, 0, 1], vec![3, 2, 1, 0]];
        let r = Self::new(elements, table);
        assert(r.table@.map_values(|row: Vec<usize>| row@) =~= klein_table());
        assert forall|i: int, j: int| 0 <= i < 4 && 0 <= j < 4 implies #[trigger] r.mul(i, j) == klein_table()[i][j] by {
            assert(r.table@.map_values(|row: Vec<usize>| row@)[i] == r.table@[i]@);
        }
        r
    }

    /// Conjugacy classes: partition elements into conjugacy classes.
    pub fn conjugacy_classes(&self) -> (r: Vec<Vec<usize>>)
        requires
            self.n() > 0 ==> self.conjugation_ready(),
        ensures
            r@.len() == self.class_leaders().len(),
            forall|c: int|
                0 <= c < r@.len() ==> (#[trigger] r@[c])@ == self.conjugacy_class(self.class_leaders()[c]),
    {
        let n = self.order();
        let mut visited: Vec<bool> = Vec::new();
        let mut k: usize = 0;
        while k < n
            invariant
                k <= n,
                visited@.len() == k,
                forall|t: int| 0 <= t < k ==> !(#[trigger] visited@[t]),
            decreases n - k,
        {
            visited.push(false);
            k = k + 1;
        }
        let mut classes: Vec<Vec<usize>> = Vec::new();
        let mut i: usize = 0;
        while i < n
            invariant
                self.n() > 0 ==> self.conjugation_ready(),
                n == self.n(),
                i <= n,
                visited@.len() == n,
                classes@.len() == self.leaders_prefix(i as nat).len(),
                forall|c: int|
                    0 <= c < classes@.len() ==> (#[trigger] classes@[c])@ == self.conjugacy_class(
                        self.leaders_prefix(i as nat)[c],
                    ),
                forall|t: int|
                    0 <= t < n ==> (#[trigger] visited@[t] <==> exists|c: int|
                        0 <= c < self.leaders_prefix(i as nat).len() && self.conjugates_to(
                            #[trigger] self.leaders_prefix(i as nat)[c],
                            t,
                        )),
            decreases n - i,
        {
            let ghost prev = self.leaders_prefix(i as nat);
            if visited[i] {
                assert(self.leaders_prefix((i + 1) as nat) == prev);
                i = i + 1;
                continue;
            }
            let ghost old_visited = visited@;
            let mut cls: Vec<usize> = Vec::new();
            let mut j: usize = 0;
            while j < n
                invariant
                    self.conjugation_ready(),
                    n == self.n(),
                    i < n,
                    j <= n,
                    visited@.len() == n,
                    cls@ == self.class_prefix(i as int, j as nat),
                    forall|t: int|
                        0 <= t < n ==> (#[trigger] visited@[t] <==> (old_visited[t] || (t < j
                            && self.conjugates_to(i as int, t)))),
                decreases n - j,
            {
                if self.is_conjugate(i, j) {
                    cls.push(j);
                    visited.set(j, true);
                }
                j = j + 1;
            }
            let ghost next = self.leaders_prefix((i + 1) as nat);
            assert(next == prev.push(i as int));
            classes.push(cls);
            assert forall|t: int| 0 <= t < n implies (#[trigger] visited@[t] <==> exists|c: int|
                0 <= c < next.len() && self.conjugates_to(#[trigger] next[c], t)) by {
                assert(next[prev.len() as int] == i);
                assert(forall|c: int| 0 <= c < prev.len() ==> next[c] == prev[c]);
                if visited@[t] {
                    if old_visited[t] {
                        let c = choose|c: int| 0 <= c < prev.len() && self.conjugates_to(#[trigger] prev[c], t);
                        assert(next[c] == prev[c]);
                    } else {
                        assert(self.conjugates_to(next[prev.len() as int], t));
                    }
                }
                if exists|c: int| 0 <= c < next.len() && self.conjugates_to(#[trigger] next[c], t) {
                    let c = choose|c: int| 0 <= c < next.len() && self.conjugates_to(#[trigger] next[c], t);
                    if c < prev.len() {
                        assert(self.conjugates_to(prev[c], t));
                        assert(old_visited[t]);
                    } else {
                        assert(c == prev.len());
                        assert(self.conjugates_to(i as int, t));
                    }
                }
            }
            i = i + 1;
        }
        classes
    }

    /// Check if elements i and j are conjugate.
    fn is_conjugate(&self, i: usize, j: usize) -> (r: bool)
        requires
            self.conjugation_ready(),
            i < self.n(),
            j < self.n(),
        ensures
            r == self.conjugates_to(i as int, j as int),
    {
        let n = self.order();
        let mut g: usize = 0;
        while g < n
            invariant
                self.conjugation_ready(),
                n == self.n(),
                i < n,
                g <= n,
                forall|h: int|
                    0 <= h < g ==> #[trigger] self.mul(self.mul(h, i as int), self.spec_inverse(h)) != j,
            decreases n - g,
        {
            assert(self.has_inverse(g as int));
            let g_inv = self.inverse(g);
            let gi = self.multiply(g, i);
            let conjugated = self.multiply(gi, g_inv);
            if conjugated == j {
                assert(self.mul(self.mul(g as int, i as int), self.spec_inverse(g as int)) == j);
                return true;
            }
            g = g + 1;
        }
        false
    }
}

/// What keeps a Cayley table from supporting the group operations.
#[derive(Clone, Copy, Debug, PartialEq, Eq)]
pub enum GroupDefect {
    /// The table is not square of side `order`, or an entry names no element.
    MalformedTable,
    /// No element is a two-sided identity.
    NoIdentity,
    /// This element (the first such) has no two-sided inverse.
    NoInverse(usize),
}

impl FiniteGroup {
    /// Check that the table supports `identity`, `inverse` and `conjugacy_classes`: it is a
    /// well-formed table with an identity and an inverse for every element. Otherwise say what
    /// is wrong: a malformed table, no identity, or the first element without an inverse.
    pub fn check_structure(&self) -> (r: Result<(), GroupDefect>)
        ensures
            r is Ok <==> self.conjugation_ready(),
            r == Err::<(), GroupDefect>(GroupDefect::MalformedTable) <==> !self.wf(),
            r == Err::<(), GroupDefect>(GroupDefect::NoIdentity) <==> self.wf() && !self.has_identity(),
            forall|i: usize|
                r == Err::<(), GroupDefect>(GroupDefect::NoInverse(i)) ==> {
                    &&& self.wf()
                    &&& self.has_identity()
                    &&& i < self.n()
                    &&& !self.has_inverse(i as int)
                    &&& forall|k: int| 0 <= k < i ==> #[trigger] self.has_inverse(k)
                },
    {
        let n = self.order();
        if self.table.len() != n {
            return Err(GroupDefect::MalformedTable);
        }
        let mut i: usize = 0;
        while i < n
            invariant
                n == self.n(),
                self.table@.len() == n,
                i <= n,
                forall|a: int| 0 <= a < i ==> (#[trigger] self.table@[a]@.len()) == n,
                forall|a: int, b: int| 0 <= a < i && 0 <= b < n ==> 0 <= #[trigger] self.mul(a, b) < n,
            decreases n - i,
        {
            if self.table[i].len() != n {
                return Err(GroupDefect::MalformedTable);
            }
            let mut j: usize = 0;
            while j < n
                invariant
                    n == self.n(),
                    self.table@.len() == n,
                    i < n,
                    self.table@[i as int]@.len() == n,
                    j <= n,
                    forall|b: int| 0 <= b < j ==> 0 <= #[trigger] self.mul(i as int, b) < n,
                decreases n - j,
            {
                if self.table[i][j] >= n {
                    assert(!(self.mul(i as int, j as int) < n));
                    return Err(GroupDefect::MalformedTable);
                }
                j = j + 1;
            }
            i = i + 1;
        }
        assert(self.wf());
        let mut candidate: usize = 0;
        let mut found = false;
        while candidate < n && !found
            invariant
                self.wf(),
                n == self.n(),
                candidate <= n,
                found ==> candidate < n && self.is_identity_element(candidate as int),
                !found ==> forall|c: int| 0 <= c < candidate ==> !self.is_identity_element(c),
            decreases n - candidate + if found { 0int } else { 1int },
        {
            if self.is_identity_candidate(candidate) {
                found = true;
            } else {
                candidate = candidate + 1;
            }
        }
        if !found {
            assert(!self.has_identity()) by {
                if self.has_identity() {
                    let e = choose|e: int| self.is_identity_element(e);
                    assert(self.is_identity_element(e));
                }
            }
            return Err(GroupDefect::NoIdentity);
        }
        let e = self.identity();
        let mut a: usize = 0;
        while a < n
            invariant
                self.wf(),
                self.has_identity(),
                e == self.spec_identity(),
                n == self.n(),
                a <= n,
                forall|k: int| 0 <= k < a ==> #[trigger] self.has_inverse(k),
            decreases n - a,
        {
            let mut b: usize = 0;
            let mut inverse_found = false;
            while b < n && !inverse_found
                invariant
                    self.wf(),
                    e == self.spec_identity(),
                    n == self.n(),
                    a < n,
                    b <= n,
                    inverse_found ==> self.has_inverse(a as int),
                    !inverse_found ==> forall|t: int| 0 <= t < b ==> !self.is_inverse_of(a as int, t),
                decreases n - b + if inverse_found { 0int } else { 1int },
            {
                if self.table[a][b] == e && self.table[b][a] == e {
                    assert(self.is_inverse_of(a as int, b as int));
                    inverse_found = true;
                } else {
                    b = b + 1;
                }
            }
            if !inverse_found {
                assert(!self.has_inverse(a as int)) by {
                    if self.has_inverse(a as int) {
                        let w = choose|w: int| self.is_inverse_of(a as int, w);
                        assert(self.is_inverse_of(a as int, w));
                    }
                }
                return Err(GroupDefect::NoInverse(a));
            }
            a = a + 1;
        }
        Ok(())
    }

    /// The index of the first element labelled `label`, if any element is.
    pub fn label_index(&self, label: &String) -> (r: Option<usize>)
        ensures
            match r {
                Some(i) => {
                    &&& i < self.n()
                    &&& self.elements@[i as int]@ == label@
                    &&& forall|k: int| 0 <= k < i ==> (#[trigger] self.elements@[k])@ != label@
                },
                None => forall|k: int| 0 <= k < self.n() ==> (#[trigger] self.elements@[k])@ != label@,
            },
    {
        let n = self.elements.len();
        let mut k: usize = 0;
        while k < n
            invariant
                n == self.n(),
                k <= n,
                forall|t: int| 0 <= t < k ==> (#[trigger] self.elements@[t])@ != label@,
            decreases n - k,
        {
            if self.elements[k] == *label {
                return Some(k);
            }
            k = k + 1;
        }
        None
    }

    /// The size and the first element of each conjugacy class, in the order of
    /// `conjugacy_classes` (the class sizes and representatives of a character table).
    pub fn class_sizes_and_representatives(&self) -> (r: (Vec<usize>, Vec<usize>))
        requires
            self.n() > 0 ==> self.conjugation_ready(),
        ensures
            r.0@.len() == self.class_leaders().len(),
            r.1@.len() == self.class_leaders().len(),
            forall|c: int|
                0 <= c < r.0@.len() ==> #[trigger] r.0@[c] == self.conjugacy_class(self.class_leaders()[c]).len()
                    && self.conjugacy_class(self.class_leaders()[c]).len() > 0 && r.1@[c]
                    == self.conjugacy_class(self.class_leaders()[c])[0],
    {
        let classes = self.conjugacy_classes();
        let ghost leaders = self.class_leaders();
        let mut sizes: Vec<usize> = Vec::new();
        let mut reps: Vec<usize> = Vec::new();
        let mut c: usize = 0;
        while c < classes.len()
            invariant
                self.n() > 0 ==> self.conjugation_ready(),
                leaders == self.class_leaders(),
                classes@.len() == leaders.len(),
                forall|t: int| 0 <= t < classes@.len() ==> (#[trigger] classes@[t])@ == self.conjugacy_class(leaders[t]),
                c <= classes@.len(),
                sizes@.len() == c,
                reps@.len() == c,
                forall|t: int|
                    0 <= t < c ==> #[trigger] sizes@[t] == self.conjugacy_class(leaders[t]).len()
                        && self.conjugacy_class(leaders[t]).len() > 0 && reps@[t] == self.conjugacy_class(leaders[t])[0],
            decreases classes@.len() - c,
        {
            proof {
                lemma_leaders_below(*self, self.n());
                lemma_class_of_leader(*self, leaders[c as int]);
            }
            let cls = &classes[c];
            sizes.push(cls.len());
            reps.push(cls[0]);
            c = c + 1;
        }
        (sizes, reps)
    }
}

/// The leaders chosen below `k` lie below `k`.
proof fn lemma_leaders_below(g: FiniteGroup, k: nat)
    ensures
        forall|c: int| 0 <= c < g.leaders_prefix(k).len() ==> 0 <= #[trigger] g.leaders_prefix(k)[c] < k,
    decreases k,
{
    if k > 0 {
        lemma_leaders_below(g, (k - 1) as nat);
        let prev = g.leaders_prefix((k - 1) as nat);
        let cur = g.leaders_prefix(k);
        assert(cur == prev || cur == prev.push(k - 1));
        assert forall|c: int| 0 <= c < cur.len() implies 0 <= #[trigger] cur[c] < k by {
            if c < prev.len() {
                assert(cur[c] == prev[c]);
            }
        }
    }
}

/// With an identity and inverses, every element is conjugate to itself (by the identity), so
/// its class holds it.
proof fn lemma_class_of_leader(g: FiniteGroup, l: int)
    requires
        g.conjugation_ready(),
        0 <= l < g.n(),
    ensures
        g.conjugacy_class(l).len() > 0,
{
    let e = g.spec_identity();
    lemma_identity_facts(g);
    assert(g.has_inverse(e));
    lemma_spec_inverse(g, e);
    let j = g.spec_inverse(e);
    assert(g.mul(e, j) == j);
    assert(g.mul(e, l) == l);
    assert(g.mul(l, e) == l);
    assert(g.mul(g.mul(e, l), g.spec_inverse(e)) == l);
    assert(g.conjugates_to(l, l));
    lemma_class_prefix_contains(g, l, g.n());
    assert(g.conjugacy_class(l).contains(l as usize));
}


/// The Cayley table of S_3 in the order e, (12), (13), (23), (123), (132).
pub open spec fn s3_table() -> Seq<Seq<usize>> {
    seq![
        seq![0usize, 1, 2, 3, 4, 5],
        seq![1usize, 0, 4, 5, 2, 3],
        seq![2usize, 5, 0, 4, 3, 1],
        seq![3usize, 4, 5, 0, 1, 2],
        seq![4usize, 3, 1, 2, 5, 0],
        seq![5usize, 2, 3, 1, 0, 4],
    ]
}

/// The Cayley table of the Klein four-group in the order e, a, b, ab.
pub open spec fn klein_table() -> Seq<Seq<usize>> {
    seq![seq![0usize, 1, 2, 3], seq![1usize, 0, 3, 2], seq![2usize, 3, 0, 1], seq![3usize, 2, 1, 0]]
}

/// The character of a decimal digit.
pub open spec fn digit_char(d: nat) -> char {
    (48 + d) as char
}

/// The decimal representation of `i`, most significant digit first.
pub open spec fn decimal(i: nat) -> Seq<char>
    decreases i,
{
    if i < 10 {
        seq![digit_char(i)]
    } else {
        decimal(i / 10).push(digit_char(i % 10))
    }
}

/// The label `g{i}` of element `i` of a cyclic group, made by `format!`, whose `usize`
/// display is documented as the decimal representation.
#[verifier::external_body]
fn cyclic_label(i: usize) -> (r: String)
    ensures
        r@ == seq!['g'] + decimal(i as nat),
{
    format!("g{i}")
}

/// Trait for groups that can provide element matrices for representations.
pub trait GroupOps {
    /// The number of elements.
    spec fn group_order(&self) -> nat;

    /// The operations below can be carried out.
    spec fn group_ready(&self) -> bool;

    /// The product of two elements.
    spec fn group_mul(&self, i: int, j: int) -> int;

    /// The identity element.
    spec fn group_identity(&self) -> int;

    /// The inverse of an element.
    spec fn group_inverse(&self, i: int) -> int;

    /// The conjugacy classes, each listed in increasing order.
    spec fn group_classes(&self) -> Seq<Seq<usize>>;

    /// Get the group order.
    fn order(&self) -> (r: usize)
        ensures
            r == self.group_order(),
    ;

    /// Multiply two group elements by index.
    fn multiply(&self, i: usize, j: usize) -> (r: usize)
        requires
            self.group_ready(),
            i < self.group_order(),
            j < self.group_order(),
        ensures
            r == self.group_mul(i as int, j as int),
    ;

    /// Get the identity element index.
    fn identity(&self) -> (r: usize)
        requires
            self.group_ready(),
        ensures
            r == self.group_identity(),
    ;

    /// Get the inverse of element i.
    fn inverse(&self, i: usize) -> (r: usize)
        requires
            self.group_ready(),
            i < self.group_order(),
        ensures
            r == self.group_inverse(i as int),
    ;

    /// Get conjugacy classes.
    fn conjugacy_classes(&self) -> (r: Vec<Vec<usize>>)
        requires
            self.group_ready(),
        ensures
            r@.map_values(|v: Vec<usize>| v@) == self.group_classes(),
    ;
}

impl GroupOps for FiniteGroup {
    open spec fn group_order(&self) -> nat {
        self.n()
    }

    open spec fn group_ready(&self) -> bool {
        self.conjugation_ready()
    }

    open spec fn group_mul(&self, i: int, j: int) -> int {
        self.mul(i, j)
    }

    open spec fn group_identity(&self) -> int {
        self.spec_identity()
    }

    open spec fn group_inverse(&self, i: int) -> int {
        self.spec_inverse(i)
    }

    open spec fn group_classes(&self) -> Seq<Seq<usize>> {
        Seq::new(self.class_leaders().len(), |c: int| self.conjugacy_class(self.class_leaders()[c]))
    }

    fn order(&self) -> (r: usize) {
        FiniteGroup::order(self)
    }

    fn multiply(&self, i: usize, j: usize) -> (r: usize) {
        FiniteGroup::multiply(self, i, j)
    }

    fn identity(&self) -> (r: usize) {
        FiniteGroup::identity(self)
    }

    fn inverse(&self, i: usize) -> (r: usize) {
        assert(self.has_inverse(i as int));
        FiniteGroup::inverse(self, i)
    }

    fn conjugacy_classes(&self) -> (r: Vec<Vec<usize>>) {
        let r = FiniteGroup::conjugacy_classes(self);
        assert(r@.map_values(|v: Vec<usize>| v@) =~= self.group_classes());
        r
    }
}

/// The search from `k` finds an inverse whenever one lies at or after `k`, and none lies
/// between `k` and what it finds.
proof fn lemma_inverse_from(g: FiniteGroup, i: int, k: int, j: int)
    requires
        0 <= k <= j,
        g.is_inverse_of(i, j),
    ensures
        g.is_inverse_of(i, g.inverse_from(i, k)),
        k <= g.inverse_from(i, k) <= j,
        forall|t: int| k <= t < g.inverse_from(i, k) ==> !g.is_inverse_of(i, t),
    decreases g.n() - k,
{
    if !g.is_inverse_of(i, k) {
        lemma_inverse_from(g, i, k + 1, j);
    }
}

/// `spec_inverse(i)` is the first two-sided inverse of every invertible `i`.
pub proof fn lemma_spec_inverse(g: FiniteGroup, i: int)
    requires
        g.has_inverse(i),
    ensures
        g.is_inverse_of(i, g.spec_inverse(i)),
        forall|t: int| 0 <= t < g.spec_inverse(i) ==> !g.is_inverse_of(i, t),
{
    let j = choose|j: int| g.is_inverse_of(i, j);
    lemma_inverse_from(g, i, 0, j);
}

proof fn lemma_identity_facts(g: FiniteGroup)
    requires
        g.has_identity(),
    ensures
        g.is_identity_element(g.spec_identity()),
{
}

proof fn lemma_identity_acts(g: FiniteGroup, x: int)
    requires
        g.has_identity(),
        0 <= x < g.n(),
    ensures
        g.mul(g.spec_identity(), x) == x,
        g.mul(x, g.spec_identity()) == x,
{
    let e = g.spec_identity();
    assert(g.is_identity_element(e));
    assert(g.mul(e, x) == x && g.mul(x, e) == x);
}

proof fn lemma_assoc(g: FiniteGroup, a: int, b: int, c: int)
    requires
        g.associative(),
        0 <= a < g.n(),
        0 <= b < g.n(),
        0 <= c < g.n(),
    ensures
        g.mul(g.mul(a, b), c) == g.mul(a, g.mul(b, c)),
{
    reveal(FiniteGroup::associative);
}

/// In a group, two-sided inverses are unique, so `spec_inverse` is the inverse.
pub proof fn lemma_inverse_unique(g: FiniteGroup, i: int, j: int)
    requires
        g.is_group(),
        0 <= i < g.n(),
        g.is_inverse_of(i, j),
    ensures
        g.spec_inverse(i) == j,
{
    let e = g.spec_identity();
    lemma_identity_facts(g);
    assert(g.has_inverse(i));
    lemma_spec_inverse(g, i);
    let k = g.spec_inverse(i);
    // k = k e = k (i j) = (k i) j = e j = j
    lemma_assoc(g, k, i, j);
    lemma_identity_acts(g, k);
    lemma_identity_acts(g, j);
}

/// In a group, the inverse of the identity is the identity, and inverting twice gives back the
/// element.
pub proof fn lemma_inverse_involution(g: FiniteGroup, i: int)
    requires
        g.is_group(),
        0 <= i < g.n(),
    ensures
        g.spec_inverse(g.spec_identity()) == g.spec_identity(),
        0 <= g.spec_inverse(i) < g.n(),
        g.spec_inverse(g.spec_inverse(i)) == i,
{
    let e = g.spec_identity();
    lemma_identity_facts(g);
    assert(g.mul(e, e) == e);
    lemma_inverse_unique(g, e, e);
    assert(g.has_inverse(i));
    lemma_spec_inverse(g, i);
    let j = g.spec_inverse(i);
    assert(g.is_inverse_of(j, i));
    lemma_inverse_unique(g, j, i);
}

/// In a group, every element is conjugate to itself.
proof fn lemma_conj_reflexive(g: FiniteGroup, i: int)
    requires
        g.is_group(),
        0 <= i < g.n(),
    ensures
        g.conjugates_to(i, i),
{
    let e = g.spec_identity();
    lemma_inverse_involution(g, i);
    lemma_identity_facts(g);
    assert(g.mul(e, i) == i);
    assert(g.mul(i, e) == i);
    assert(g.mul(g.mul(e, i), g.spec_inverse(e)) == i);
}

/// In a group, conjugacy is symmetric.
proof fn lemma_conj_symmetric(g: FiniteGroup, i: int, j: int)
    requires
        g.is_group(),
        0 <= i < g.n(),
        g.conjugates_to(i, j),
    ensures
        g.conjugates_to(j, i),
{
    let e = g.spec_identity();
    lemma_identity_facts(g);
    let x = choose|x: int| 0 <= x < g.n() && #[trigger] g.mul(g.mul(x, i), g.spec_inverse(x)) == j;
    lemma_inverse_involution(g, x);
    assert(g.has_inverse(x));
    lemma_spec_inverse(g, x);
    let y = g.spec_inverse(x);
    let xi = g.mul(x, i);
    // y j = y ((x i) y) = (y (x i)) y = ((y x) i) y = (e i) y = i y
    lemma_assoc(g, y, xi, y);
    lemma_assoc(g, y, x, i);
    assert(g.mul(y, x) == e);
    assert(g.mul(e, i) == i);
    assert(g.mul(y, j) == g.mul(i, y));
    // (i y) x = i (y x) = i e = i
    lemma_assoc(g, i, y, x);
    assert(g.mul(i, e) == i);
    assert(g.spec_inverse(y) == x);
    assert(g.mul(g.mul(y, j), g.spec_inverse(y)) == i);
}

/// In a group, conjugacy is transitive.
proof fn lemma_conj_transitive(g: FiniteGroup, i: int, j: int, k: int)
    requires
        g.is_group(),
        0 <= i < g.n(),
        g.conjugates_to(i, j),
        g.conjugates_to(j, k),
    ensures
        g.conjugates_to(i, k),
{
    let e = g.spec_identity();
    lemma_identity_facts(g);
    let x = choose|x: int| 0 <= x < g.n() && #[trigger] g.mul(g.mul(x, i), g.spec_inverse(x)) == j;
    assert(g.has_inverse(x));
    lemma_spec_inverse(g, x);
    let xp = g.spec_inverse(x);
    let xi = g.mul(x, i);
    assert(0 <= j < g.n());
    let h = choose|h: int| 0 <= h < g.n() && #[trigger] g.mul(g.mul(h, j), g.spec_inverse(h)) == k;
    assert(g.has_inverse(h));
    lemma_spec_inverse(g, h);
    let hp = g.spec_inverse(h);
    let m = g.mul(h, x);
    let mp = g.mul(xp, hp);
    // m mp = h (x (xp hp)) = h ((x xp) hp) = h (e hp) = h hp = e
    lemma_assoc(g, h, x, mp);
    lemma_assoc(g, x, xp, hp);
    assert(g.mul(x, xp) == e);
    assert(g.mul(e, hp) == hp);
    assert(g.mul(m, mp) == e);
    // mp m = xp (hp (h x)) = xp ((hp h) x) = xp (e x) = xp x = e
    lemma_assoc(g, xp, hp, m);
    lemma_assoc(g, hp, h, x);
    assert(g.mul(hp, h) == e);
    assert(g.mul(e, x) == x);
    assert(g.mul(mp, m) == e);
    assert(g.is_inverse_of(m, mp));
    lemma_inverse_unique(g, m, mp);
    // (m i) mp = (h (x i)) mp = ((h xi) xp) hp = (h (xi xp)) hp = (h j) hp = k
    lemma_assoc(g, h, x, i);
    let hxi = g.mul(h, xi);
    lemma_assoc(g, hxi, xp, hp);
    lemma_assoc(g, h, xi, xp);
    assert(g.mul(g.mul(m, i), g.spec_inverse(m)) == k);
}

/// Membership in a class prefix: exactly the elements below `m` to which `l` is conjugate.
proof fn lemma_class_prefix_contains(g: FiniteGroup, l: int, m: nat)
    ensures
        forall|x: usize|
            #![trigger g.class_prefix(l, m).contains(x)]
            g.class_prefix(l, m).contains(x) <==> (x < m && g.conjugates_to(l, x as int)),
        forall|a: int, b: int|
            0 <= a < b < g.class_prefix(l, m).len() ==> g.class_prefix(l, m)[a] < g.class_prefix(l, m)[b],
        forall|a: int| 0 <= a < g.class_prefix(l, m).len() ==> g.class_prefix(l, m)[a] < m,
    decreases m,
{
    if m > 0 {
        lemma_class_prefix_contains(g, l, (m - 1) as nat);
        let prev = g.class_prefix(l, (m - 1) as nat);
        let cur = g.class_prefix(l, m);
        assert forall|x: usize| (#[trigger] cur.contains(x) <==> (x < m && g.conjugates_to(l, x as int))) by {
            if g.conjugates_to(l, m - 1) {
                assert(cur == prev.push((m - 1) as usize));
                if cur.contains(x) {
                    let t = choose|t: int| 0 <= t < cur.len() && cur[t] == x;
                    if t < prev.len() {
                        assert(prev[t] == x);
                        assert(prev.contains(x));
                    }
                }
                if x < m && g.conjugates_to(l, x as int) {
                    if x < m - 1 {
                        assert(prev.contains(x));
                        let t = choose|t: int| 0 <= t < prev.len() && prev[t] == x;
                        assert(cur[t] == x);
                    } else {
                        assert(cur[prev.len() as int] == x);
                    }
                }
            } else {
                assert(cur == prev);
                if cur.contains(x) {
                    assert(prev.contains(x));
                }
            }
        }
    }
}

/// The leaders chosen below `k` are strictly increasing and below `k`, no earlier leader is
/// conjugate to a later one, every element below `k` is reached from some leader, and the
/// leaders below `k` are a prefix of those below any larger bound.
proof fn lemma_leaders(g: FiniteGroup, k: nat)
    requires
        g.is_group(),
        k <= g.n(),
    ensures
        forall|a: int, b: int|
            0 <= a < b < g.leaders_prefix(k).len() ==> g.leaders_prefix(k)[a] < g.leaders_prefix(k)[b],
        forall|a: int| 0 <= a < g.leaders_prefix(k).len() ==> 0 <= #[trigger] g.leaders_prefix(k)[a] < k,
        forall|a: int, b: int|
            0 <= a < b < g.leaders_prefix(k).len() ==> !g.conjugates_to(
                g.leaders_prefix(k)[a],
                g.leaders_prefix(k)[b],
            ),
        forall|j: int| 0 <= j < k ==> #[trigger] g.reached_from(g.leaders_prefix(k), j),
    decreases k,
{
    if k > 0 {
        let km = (k - 1) as nat;
        lemma_leaders(g, km);
        let prev = g.leaders_prefix(km);
        let cur = g.leaders_prefix(k);
        if exists|c: int| 0 <= c < prev.len() && g.conjugates_to(#[trigger] prev[c], k - 1) {
            assert(cur == prev);
            assert forall|j: int| 0 <= j < k implies #[trigger] g.reached_from(cur, j) by {
                if j < k - 1 {
                    assert(g.reached_from(prev, j));
                }
            }
        } else {
            assert(cur == prev.push(k - 1));
            assert forall|a: int, b: int| 0 <= a < b < cur.len() implies !g.conjugates_to(cur[a], cur[b]) by {
                if b == prev.len() {
                    assert(cur[a] == prev[a]);
                    assert(cur[b] == k - 1);
                    if g.conjugates_to(cur[a], cur[b]) {
                        assert(g.conjugates_to(prev[a], k - 1));
                    }
                } else {
                    assert(cur[a] == prev[a] && cur[b] == prev[b]);
                }
            }
            assert forall|j: int| 0 <= j < k implies #[trigger] g.reached_from(cur, j) by {
                if j == k - 1 {
                    lemma_conj_reflexive(g, j);
                    assert(g.conjugates_to(cur[prev.len() as int], j));
                } else {
                    assert(g.reached_from(prev, j));
                    let c = choose|c: int| 0 <= c < prev.len() && g.conjugates_to(#[trigger] prev[c], j);
                    assert(cur[c] == prev[c]);
                }
            }
        }
    }
}

/// The leaders below `k` are a prefix of the leaders below `k2 >= k`.
proof fn lemma_leaders_prefix_grows(g: FiniteGroup, k: nat, k2: nat)
    requires
        k <= k2,
    ensures
        g.leaders_prefix(k).len() <= g.leaders_prefix(k2).len(),
        forall|c: int|
            0 <= c < g.leaders_prefix(k).len() ==> g.leaders_prefix(k2)[c] == g.leaders_prefix(k)[c],
    decreases k2,
{
    if k < k2 {
        lemma_leaders_prefix_grows(g, k, (k2 - 1) as nat);
    }
}

/// Law: in a group, `conjugacy_classes` partitions the elements into conjugacy classes: every
/// element lies in exactly one class, the members of a class are conjugate to one another, each
/// class holds its first element's whole conjugacy class, and the classes list their members in
/// increasing order without repetition.
pub proof fn lemma_conjugacy_classes_partition(g: FiniteGroup)
    requires
        g.is_group(),
    ensures
        forall|j: int| 0 <= j < g.n() ==> #[trigger] g.lies_in_a_class(j),
        forall|c1: int, c2: int, j: usize|
            0 <= c1 < g.class_leaders().len() && 0 <= c2 < g.class_leaders().len()
                && #[trigger] g.conjugacy_class(g.class_leaders()[c1]).contains(j)
                && #[trigger] g.conjugacy_class(g.class_leaders()[c2]).contains(j) ==> c1 == c2,
        forall|c: int, a: usize, b: usize|
            0 <= c < g.class_leaders().len()
                && #[trigger] g.conjugacy_class(g.class_leaders()[c]).contains(a)
                && #[trigger] g.conjugacy_class(g.class_leaders()[c]).contains(b) ==> g.conjugates_to(
                a as int,
                b as int,
            ),
        forall|c: int, a: int, b: int|
            0 <= c < g.class_leaders().len() && 0 <= a < b < g.conjugacy_class(
                g.class_leaders()[c],
            ).len() ==> #[trigger] g.conjugacy_class(g.class_leaders()[c])[a] < #[trigger] g.conjugacy_class(
                g.class_leaders()[c],
            )[b],
        forall|c: int|
            0 <= c < g.class_leaders().len() ==> (#[trigger] g.conjugacy_class(
                g.class_leaders()[c],
            )).contains(g.class_leaders()[c] as usize),
{
    let n = g.n();
    let ls = g.class_leaders();
    lemma_leaders(g, n);
    assert forall|j: int| 0 <= j < n implies #[trigger] g.lies_in_a_class(j) by {
        assert(g.reached_from(ls, j));
        let c = choose|c: int| 0 <= c < ls.len() && g.conjugates_to(#[trigger] ls[c], j);
        assert(0 <= ls[c] < n);
        lemma_class_prefix_contains(g, ls[c], n);
        assert(g.conjugacy_class(ls[c]).contains(j as usize));
        assert(g.lies_in_a_class(j));
    }
    assert forall|c1: int, c2: int, j: usize|
        0 <= c1 < ls.len() && 0 <= c2 < ls.len() && #[trigger] g.conjugacy_class(ls[c1]).contains(j)
            && #[trigger] g.conjugacy_class(ls[c2]).contains(j) implies c1 == c2 by {
        assert(0 <= ls[c1] < n && 0 <= ls[c2] < n);
        lemma_class_prefix_contains(g, ls[c1], n);
        lemma_class_prefix_contains(g, ls[c2], n);
        assert(g.conjugacy_class(ls[c1]).contains((j as int) as usize));
        assert(g.conjugacy_class(ls[c2]).contains((j as int) as usize));
        assert(g.conjugates_to(ls[c1], j as int));
        assert(g.conjugates_to(ls[c2], j as int));
        lemma_conj_symmetric(g, ls[c2], j as int);
        if c1 < c2 {
            lemma_conj_transitive(g, ls[c1], j as int, ls[c2]);
        }
        if c2 < c1 {
            lemma_conj_symmetric(g, ls[c1], j as int);
            lemma_conj_transitive(g, ls[c2], j as int, ls[c1]);
        }
    }
    assert forall|c: int, a: usize, b: usize|
        0 <= c < ls.len() && #[trigger] g.conjugacy_class(ls[c]).contains(a)
            && #[trigger] g.conjugacy_class(ls[c]).contains(b) implies g.conjugates_to(a as int, b as int) by {
        assert(0 <= ls[c] < n);
        lemma_class_prefix_contains(g, ls[c], n);
        assert(g.conjugacy_class(ls[c]).contains((a as int) as usize));
        assert(g.conjugacy_class(ls[c]).contains((b as int) as usize));
        lemma_conj_symmetric(g, ls[c], a as int);
        lemma_conj_transitive(g, a as int, ls[c], b as int);
    }
    assert forall|c: int, a: int, b: int|
        0 <= c < ls.len() && 0 <= a < b < g.conjugacy_class(ls[c]).len() implies #[trigger] g.conjugacy_class(
        ls[c])[a] < #[trigger] g.conjugacy_class(ls[c])[b] by {
        lemma_class_prefix_contains(g, ls[c], n);
    }
    assert forall|c: int| 0 <= c < ls.len() implies (#[trigger] g.conjugacy_class(ls[c])).contains(
        ls[c] as usize,
    ) by {
        assert(0 <= ls[c] < n);
        lemma_class_prefix_contains(g, ls[c], n);
        lemma_conj_reflexive(g, ls[c]);
    }
}

/// Law: in an abelian group every element is its own conjugacy class, so `conjugacy_classes`
/// returns the `n` singletons `[0], [1], ..., [n - 1]`.
pub proof fn lemma_abelian_classes(g: FiniteGroup)
    requires
        g.is_group(),
        forall|a: int, b: int| 0 <= a < g.n() && 0 <= b < g.n() ==> #[trigger] g.mul(a, b) == g.mul(b, a),
    ensures
        g.class_leaders().len() == g.n(),
        forall|c: int| 0 <= c < g.n() ==> #[trigger] g.class_leaders()[c] == c,
        forall|c: int| 0 <= c < g.n() ==> #[trigger] g.conjugacy_class(c) == seq![c as usize],
{
    let n = g.n();
    assert forall|i: int, j: int| 0 <= i < n && #[trigger] g.conjugates_to(i, j) implies j == i by {
        let x = choose|x: int| 0 <= x < n && #[trigger] g.mul(g.mul(x, i), g.spec_inverse(x)) == j;
        assert(g.has_inverse(x));
        lemma_spec_inverse(g, x);
        let xp = g.spec_inverse(x);
        let e = g.spec_identity();
        lemma_identity_facts(g);
        assert(g.mul(x, i) == g.mul(i, x));
        lemma_assoc(g, i, x, xp);
        assert(g.mul(e, i) == i && g.mul(i, e) == i);
    }
    assert forall|k: nat| k <= n implies #[trigger] g.leaders_prefix(k) == Seq::new(k, |c: int| c) by {
        lemma_abelian_leaders(g, k);
    }
    assert forall|c: int| 0 <= c < n implies #[trigger] g.conjugacy_class(c) == seq![c as usize] by {
        lemma_abelian_class(g, c, n);
    }
}

proof fn lemma_abelian_leaders(g: FiniteGroup, k: nat)
    requires
        g.is_group(),
        k <= g.n(),
        forall|i: int, j: int| 0 <= i < g.n() && #[trigger] g.conjugates_to(i, j) ==> j == i,
    ensures
        g.leaders_prefix(k) == Seq::new(k, |c: int| c),
    decreases k,
{
    if k > 0 {
        let km = (k - 1) as nat;
        lemma_abelian_leaders(g, km);
        let prev = g.leaders_prefix(km);
        if exists|c: int| 0 <= c < prev.len() && g.conjugates_to(#[trigger] prev[c], k - 1) {
            let c = choose|c: int| 0 <= c < prev.len() && g.conjugates_to(#[trigger] prev[c], k - 1);
            assert(prev[c] == c);
        }
        assert(g.leaders_prefix(k) =~= Seq::new(k, |c: int| c));
    }
}

proof fn lemma_abelian_class(g: FiniteGroup, c: int, m: nat)
    requires
        g.is_group(),
        0 <= c < g.n(),
        c < m <= g.n(),
        forall|i: int, j: int| 0 <= i < g.n() && #[trigger] g.conjugates_to(i, j) ==> j == i,
    ensures
        g.class_prefix(c, m) == seq![c as usize],
    decreases m,
{
    lemma_conj_reflexive(g, c);
    if m - 1 > c {
        lemma_abelian_class(g, c, (m - 1) as nat);
    } else {
        lemma_class_prefix_empty(g, c, (m - 1) as nat);
        assert(g.class_prefix(c, m) =~= seq![c as usize]);
    }
}

proof fn lemma_class_prefix_empty(g: FiniteGroup, c: int, m: nat)
    requires
        m <= c,
        0 <= c < g.n(),
        forall|i: int, j: int| 0 <= i < g.n() && #[trigger] g.conjugates_to(i, j) ==> j == i,
    ensures
        g.class_prefix(c, m) == Seq::<usize>::empty(),
    decreases m,
{
    if m > 0 {
        lemma_class_prefix_empty(g, c, (m - 1) as nat);
        assert(!g.conjugates_to(c, m - 1));
    }
}

/// Law: the table built by `cyclic(n)` is an abelian group for `n >= 1`, with identity `0`
/// and `i⁻¹ = (n - i) mod n`.
pub proof fn lemma_cyclic_is_group(g: FiniteGroup, n: nat)
    requires
        n >= 1,
        g.n() == n,
        g.wf(),
        forall|i: int, j: int| 0 <= i < n && 0 <= j < n ==> #[trigger] g.mul(i, j) == (i + j) % (n as int),
    ensures
        g.is_group(),
        g.spec_identity() == 0,
        forall|i: int| 0 <= i < n ==> #[trigger] g.spec_inverse(i) == (n - i) % (n as int),
        forall|a: int, b: int| 0 <= a < n && 0 <= b < n ==> #[trigger] g.mul(a, b) == g.mul(b, a),
{
    let ni = n as int;
    assert forall|j: int| 0 <= j < n implies #[trigger] g.mul(0, j) == j && g.mul(j, 0) == j by {
        lemma_small_mod(j as nat, n);
    }
    assert(g.is_identity_element(0));
    lemma_identity_unique(g, 0);
    assert forall|i: int| 0 <= i < n implies #[trigger] g.has_inverse(i) by {
        let j = (ni - i) % ni;
        lemma_mod_bound(ni - i, ni);
        if i == 0 {
            lemma_mod_self_0(ni);
        } else {
            lemma_small_mod((ni - i) as nat, n);
            lemma_mod_self_0(ni);
        }
        assert(g.mul(i, j) == 0 && g.mul(j, i) == 0);
        assert(g.is_inverse_of(i, j));
    }
    assert forall|a: int, b: int| 0 <= a < n && 0 <= b < n implies #[trigger] g.mul(a, b) == g.mul(b, a) by {
        assert(g.mul(a, b) == (a + b) % ni);
        assert(g.mul(b, a) == (b + a) % ni);
    }
    reveal(FiniteGroup::associative);
    assert forall|a: int, b: int, c: int| 0 <= a < n && 0 <= b < n && 0 <= c < n implies #[trigger] g.mul(
        g.mul(a, b),
        c,
    ) == g.mul(a, g.mul(b, c)) by {
        lemma_mod_bound(a + b, ni);
        lemma_mod_bound(b + c, ni);
        lemma_add_mod_noop(a + b, c, ni);
        lemma_add_mod_noop(a, b + c, ni);
        lemma_small_mod(c as nat, n);
        lemma_small_mod(a as nat, n);
        lemma_mod_twice(a + b, ni);
        lemma_mod_twice(b + c, ni);
        assert(a + b + c == (a + b) + c);
    }
    assert(g.is_group());
    assert forall|i: int| 0 <= i < n implies #[trigger] g.spec_inverse(i) == (n - i) % (n as int) by {
        let j = (ni - i) % ni;
        lemma_mod_bound(ni - i, ni);
        if i == 0 {
            lemma_mod_self_0(ni);
        } else {
            lemma_small_mod((ni - i) as nat, n);
            lemma_mod_self_0(ni);
        }
        assert(g.mul(i, j) == 0 && g.mul(j, i) == 0);
        assert(g.is_inverse_of(i, j));
        lemma_inverse_unique(g, i, j);
    }
}

/// Law: the table built by `klein_four()` is an abelian group with identity `e` (index 0) in
/// which every element is its own inverse.
pub proof fn lemma_klein_four_is_group(g: FiniteGroup)
    requires
        g.n() == 4,
        g.wf(),
        forall|i: int, j: int| 0 <= i < 4 && 0 <= j < 4 ==> #[trigger] g.mul(i, j) == klein_table()[i][j],
    ensures
        g.is_group(),
        g.spec_identity() == 0,
        forall|i: int| 0 <= i < 4 ==> #[trigger] g.spec_inverse(i) == i,
        forall|a: int, b: int| 0 <= a < 4 && 0 <= b < 4 ==> #[trigger] g.mul(a, b) == g.mul(b, a),
{
    let t = klein_table();
    assert(t[0] == seq![0usize, 1, 2, 3]);
    assert(t[1] == seq![1usize, 0, 3, 2]);
    assert(t[2] == seq![2usize, 3, 0, 1]);
    assert(t[3] == seq![3usize, 2, 1, 0]);
    assert forall|i: int, j: int| 0 <= i < 4 && 0 <= j < 4 implies #[trigger] g.mul(i, j) == (i as usize ^ j as usize) by {
        assert(g.mul(i, j) == t[i][j]);
        if i == 0 { assert(0usize ^ 0 == 0 && 0usize ^ 1 == 1 && 0usize ^ 2 == 2 && 0usize ^ 3 == 3) by (bit_vector); }
        if i == 1 { assert(1usize ^ 0 == 1 && 1usize ^ 1 == 0 && 1usize ^ 2 == 3 && 1usize ^ 3 == 2) by (bit_vector); }
        if i == 2 { assert(2usize ^ 0 == 2 && 2usize ^ 1 == 3 && 2usize ^ 2 == 0 && 2usize ^ 3 == 1) by (bit_vector); }
        if i == 3 { assert(3usize ^ 0 == 3 && 3usize ^ 1 == 2 && 3usize ^ 2 == 1 && 3usize ^ 3 == 0) by (bit_vector); }
    }
    assert forall|j: int| 0 <= j < 4 implies #[trigger] g.mul(0, j) == j && g.mul(j, 0) == j by {
        let ju = j as usize;
        assert(ju < 4 ==> 0usize ^ ju == ju && ju ^ 0usize == ju) by (bit_vector);
    }
    assert(g.is_identity_element(0));
    lemma_identity_unique(g, 0);
    assert forall|i: int| 0 <= i < 4 implies #[trigger] g.is_inverse_of(i, i) by {
        let iu = i as usize;
        assert(iu ^ iu == 0usize) by (bit_vector);
    }
    assert forall|i: int| 0 <= i < 4 implies #[trigger] g.has_inverse(i) by {
        assert(g.is_inverse_of(i, i));
    }
    assert forall|a: int, b: int| 0 <= a < 4 && 0 <= b < 4 implies #[trigger] g.mul(a, b) == g.mul(b, a) by {
        let au = a as usize;
        let bu = b as usize;
        assert(au ^ bu == bu ^ au) by (bit_vector);
    }
    reveal(FiniteGroup::associative);
    assert forall|a: int, b: int, c: int| 0 <= a < 4 && 0 <= b < 4 && 0 <= c < 4 implies #[trigger] g.mul(
        g.mul(a, b),
        c,
    ) == g.mul(a, g.mul(b, c)) by {
        let au = a as usize;
        let bu = b as usize;
        let cu = c as usize;
        assert((au ^ bu) ^ cu == au ^ (bu ^ cu)) by (bit_vector);
        assert(au < 4 && bu < 4 ==> (au ^ bu) < 4) by (bit_vector);
        assert(bu < 4 && cu < 4 ==> (bu ^ cu) < 4) by (bit_vector);
    }
    assert(g.is_group());
    assert forall|i: int| 0 <= i < 4 implies #[trigger] g.spec_inverse(i) == i by {
        assert(g.is_inverse_of(i, i));
        lemma_inverse_unique(g, i, i);
    }
}

/// The permutation of {0, 1, 2} that S_3 element `k` stands for, as the images of 0, 1, 2.
spec fn s3_perm(k: int) -> (int, int, int) {
    if k == 0 {
        (0, 1, 2)
    } else if k == 1 {
        (1, 0, 2)
    } else if k == 2 {
        (2, 1, 0)
    } else if k == 3 {
        (0, 2, 1)
    } else if k == 4 {
        (1, 2, 0)
    } else {
        (2, 0, 1)
    }
}

spec fn perm_apply(p: (int, int, int), x: int) -> int {
    if x == 0 {
        p.0
    } else if x == 1 {
        p.1
    } else {
        p.2
    }
}

/// First `p`, then `q`.
spec fn perm_then(p: (int, int, int), q: (int, int, int)) -> (int, int, int) {
    (perm_apply(q, p.0), perm_apply(q, p.1), perm_apply(q, p.2))
}

proof fn lemma_s3_table_is_composition(i: int, j: int)
    requires
        0 <= i < 6,
        0 <= j < 6,
    ensures
        0 <= s3_table()[i][j] < 6,
        s3_perm(s3_table()[i][j] as int) == perm_then(s3_perm(i), s3_perm(j)),
{
    let t = s3_table();
    assert(t[0] == seq![0usize, 1, 2, 3, 4, 5]);
    assert(t[1] == seq![1usize, 0, 4, 5, 2, 3]);
    assert(t[2] == seq![2usize, 5, 0, 4, 3, 1]);
    assert(t[3] == seq![3usize, 4, 5, 0, 1, 2]);
    assert(t[4] == seq![4usize, 3, 1, 2, 5, 0]);
    assert(t[5] == seq![5usize, 2, 3, 1, 0, 4]);
}

/// Law: the table built by `s3()` is a group with identity `e` (index 0); the transpositions
/// are their own inverses and the two 3-cycles are each other's inverse.
pub proof fn lemma_s3_is_group(g: FiniteGroup)
    requires
        g.n() == 6,
        g.wf(),
        forall|i: int, j: int| 0 <= i < 6 && 0 <= j < 6 ==> #[trigger] g.mul(i, j) == s3_table()[i][j],
    ensures
        g.is_group(),
        g.spec_identity() == 0,
        forall|i: int| 0 <= i < 6 ==> #[trigger] g.spec_inverse(i) == seq![0int, 1, 2, 3, 5, 4][i],
{
    assert forall|i: int, j: int| 0 <= i < 6 && 0 <= j < 6 implies #[trigger] s3_perm(g.mul(i, j))
        == perm_then(s3_perm(i), s3_perm(j)) by {
        lemma_s3_table_is_composition(i, j);
    }
    assert forall|a: int, b: int| 0 <= a < 6 && 0 <= b < 6 && #[trigger] s3_perm(a) == #[trigger] s3_perm(b) implies a
        == b by {}
    assert forall|j: int| 0 <= j < 6 implies #[trigger] g.mul(0, j) == j && g.mul(j, 0) == j by {
        assert(s3_perm(g.mul(0, j)) == s3_perm(j));
        assert(s3_perm(g.mul(j, 0)) == s3_perm(j));
    }
    assert(g.is_identity_element(0));
    lemma_identity_unique(g, 0);
    let inv = seq![0int, 1, 2, 3, 5, 4];
    assert forall|i: int| 0 <= i < 6 implies #[trigger] g.is_inverse_of(i, inv[i]) by {
        assert(s3_perm(g.mul(i, inv[i])) == s3_perm(0));
        assert(s3_perm(g.mul(inv[i], i)) == s3_perm(0));
    }
    assert forall|i: int| 0 <= i < 6 implies #[trigger] g.has_inverse(i) by {
        assert(g.is_inverse_of(i, inv[i]));
    }
    reveal(FiniteGroup::associative);
    assert forall|a: int, b: int, c: int| 0 <= a < 6 && 0 <= b < 6 && 0 <= c < 6 implies #[trigger] g.mul(
        g.mul(a, b),
        c,
    ) == g.mul(a, g.mul(b, c)) by {
        let ab = g.mul(a, b);
        let bc = g.mul(b, c);
        assert(s3_perm(g.mul(ab, c)) == perm_then(s3_perm(ab), s3_perm(c)));
        assert(s3_perm(g.mul(a, bc)) == perm_then(s3_perm(a), s3_perm(bc)));
    }
    assert(g.is_group());
    assert forall|i: int| 0 <= i < 6 implies #[trigger] g.spec_inverse(i) == seq![0int, 1, 2, 3, 5, 4][i] by {
        assert(g.is_inverse_of(i, inv[i]));
        lemma_inverse_unique(g, i, inv[i]);
    }
}

/// Two identities of the same table coincide.
pub proof fn lemma_identity_unique(g: FiniteGroup, e: int)
    requires
        g.is_identity_element(e),
    ensures
        g.has_identity(),
        g.spec_identity() == e,
{
    let f = g.spec_identity();
    assert(g.is_identity_element(f));
    assert(g.mul(f, e) == e);
    assert(g.mul(f, e) == f);
}

} // verus!
