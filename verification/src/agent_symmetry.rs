//! Agent symmetry analysis: group actions on agent state spaces.
//!
//! A group of symmetries acts on the agents of a multi-agent system; this module holds the
//! state space, the permutation that each group element induces on the agent indices, and the
//! integer bookkeeping of a decomposition into irreducibles (which multiplicities and
//! dimensions make up the symmetric part and the invariant subspaces).
use crate::decomposition::{accounted_dimension, paired_len, weighted_sum};
use crate::group::FiniteGroup;
use vstd::prelude::*;

verus! {

/// An agent state space with a group action.
#[derive(Clone, Debug)]
pub struct AgentStateSpace {
    /// Number of agents.
    pub num_agents: usize,
    /// Dimension of each agent's local state space.
    pub local_dimension: usize,
    /// Description of the state space.
    pub description: String,
}

/// `c` is one of the digits `1`–`9`, which name the points 1–9 in cycle notation.
pub open spec fn is_point(c: char) -> bool {
    49 <= (c as int) <= 57
}

/// The agent named by point `c`: point 1 is agent 0.
pub open spec fn agent_of(c: char) -> int {
    c as int - 49
}

/// `s` writes a permutation of points 1–9 in cycle notation, as the labels of `s3()` do: one or
/// more cycles, each an opening `(`, one or more points and a closing `)`, no point written twice.
pub open spec fn cycle_notation(s: Seq<char>) -> bool {
    &&& s.len() >= 2
    &&& s[0] == '('
    &&& s[s.len() - 1] == ')'
    &&& forall|k: int| 0 <= k < s.len() ==> (#[trigger] s[k] == '(' || s[k] == ')' || is_point(s[k]))
    &&& forall|k: int|
        0 <= k < s.len() && #[trigger] s[k] == '(' ==> k + 1 < s.len() && is_point(s[k + 1]) && (k == 0 || s[k
            - 1] == ')')
    &&& forall|k: int|
        0 <= k < s.len() && #[trigger] s[k] == ')' ==> k >= 1 && is_point(s[k - 1]) && (k + 1 == s.len() || s[k
            + 1] == '(')
    &&& forall|k1: int, k2: int|
        0 <= k1 < k2 < s.len() && is_point(#[trigger] s[k1]) ==> #[trigger] s[k2] != s[k1]
}

/// The first index at or after `k` at which `s` holds the character with code `code`.
pub open spec fn find_code_from(s: Seq<char>, code: int, k: int) -> Option<int>
    decreases s.len() - k,
{
    if k < 0 || k >= s.len() {
        None
    } else if s[k] as int == code {
        Some(k)
    } else {
        find_code_from(s, code, k + 1)
    }
}

/// Where a group element labelled `s` sends agent `i`: its natural action on the agents, agent
/// `i` being point `i + 1`. When `s` is cycle notation, the point `i + 1` goes to the point
/// written just before it in its cycle (the last point of the cycle if it comes first), that is
/// by the inverse of the permutation as written: the Cayley tables compose the left factor first
/// (`(12) * (13)` is `(123)` in `s3()`), so this is the order in which the permutation matrices
/// multiply as the group does. Points that the label leaves out, agents past point 9, and every
/// agent under a label that is not cycle notation (`e`, `g1`, `ab`) stay where they are.
pub open spec fn agent_image(s: Seq<char>, i: int) -> int {
    if !cycle_notation(s) || i < 0 || i >= 9 {
        i
    } else {
        match find_code_from(s, i + 49, 0) {
            None => i,
            Some(k) => if s[k - 1] == '(' {
                match find_code_from(s, 41, k) {
                    Some(j) => agent_of(s[j - 1]),
                    None => i,
                }
            } else {
                agent_of(s[k - 1])
            },
        }
    }
}

/// The first index at or after `from` at which `s` holds the character with code `code`.
fn find_code(s: &str, len: usize, code: u32, from: usize) -> (r: Option<usize>)
    requires
        len == s@.len(),
        from <= len,
    ensures
        match r {
            Some(k) => find_code_from(s@, code as int, from as int) == Some(k as int) && k < len && s@[k as int]
                as int == code,
            None => find_code_from(s@, code as int, from as int) is None,
        },
{
    let mut k = from;
    while k < len
        invariant
            len == s@.len(),
            from <= k <= len,
            find_code_from(s@, code as int, from as int) == find_code_from(s@, code as int, k as int),
        decreases len - k,
    {
        let c = s.get_char(k);
        if c as u32 == code {
            return Some(k);
        }
        k = k + 1;
    }
    None
}

/// Whether `s` is cycle notation (`cycle_notation`).
fn is_cycle_notation(s: &str, len: usize) -> (r: bool)
    requires
        len == s@.len(),
    ensures
        r == cycle_notation(s@),
{
    let ghost t = s@;
    if len < 2 || s.get_char(0) != '(' || s.get_char(len - 1) != ')' {
        return false;
    }
    let mut k: usize = 0;
    while k < len
        invariant
            len == t.len(),
            t == s@,
            len >= 2,
            k <= len,
            forall|a: int| 0 <= a < k ==> (#[trigger] t[a] == '(' || t[a] == ')' || is_point(t[a])),
            forall|a: int|
                0 <= a < k && #[trigger] t[a] == '(' ==> a + 1 < len && is_point(t[a + 1]) && (a == 0 || t[a - 1]
                    == ')'),
            forall|a: int|
                0 <= a < k && #[trigger] t[a] == ')' ==> a >= 1 && is_point(t[a - 1]) && (a + 1 == len || t[a + 1]
                    == '('),
        decreases len - k,
    {
        let c = s.get_char(k);
        if c == '(' {
            if k + 1 >= len {
                return false;
            }
            let next = s.get_char(k + 1);
            if !(49 <= next as u32 && next as u32 <= 57) {
                return false;
            }
            if k > 0 && s.get_char(k - 1) != ')' {
                return false;
            }
        } else if c == ')' {
            if k == 0 {
                return false;
            }
            let prev = s.get_char(k - 1);
            if !(49 <= prev as u32 && prev as u32 <= 57) {
                return false;
            }
            if k + 1 < len && s.get_char(k + 1) != '(' {
                return false;
            }
        } else if !(49 <= c as u32 && c as u32 <= 57) {
            return false;
        }
        k = k + 1;
    }
    let mut k1: usize = 0;
    while k1 < len
        invariant
            len == t.len(),
            t == s@,
            k1 <= len,
            forall|a: int, b: int| 0 <= a < k1 && a < b < len && is_point(#[trigger] t[a]) ==> #[trigger] t[b] != t[a],
        decreases len - k1,
    {
        let c1 = s.get_char(k1);
        if 49 <= c1 as u32 && c1 as u32 <= 57 {
            let mut k2 = k1 + 1;
            while k2 < len
                invariant
                    len == t.len(),
                    t == s@,
                    k1 < len,
                    c1 == t[k1 as int],
                    is_point(c1),
                    k1 < k2 <= len,
                    forall|b: int| k1 < b < k2 ==> #[trigger] t[b] != c1,
                decreases len - k2,
            {
                if s.get_char(k2) == c1 {
                    assert(is_point(t[k1 as int]));
                    assert(t[k2 as int] == t[k1 as int]);
                    return false;
                }
                k2 = k2 + 1;
            }
        }
        k1 = k1 + 1;
    }
    true
}

impl AgentStateSpace {
    /// Total dimension of the joint state space: the number of agents times the local dimension.
    pub fn total_dimension(&self) -> (r: usize)
        requires
            self.num_agents * self.local_dimension <= usize::MAX,
        ensures
            r == self.num_agents * self.local_dimension,
    {
        self.num_agents * self.local_dimension
    }

    /// Apply group action: map agent index `i` through group element `g`, by the group's natural
    /// permutation action (see `agent_image`).
    fn apply_group_action(&self, g: usize, i: usize, group: &FiniteGroup) -> (r: usize)
        requires
            g < group.n(),
        ensures
            r == agent_image(group.elements@[g as int]@, i as int),
    {
        let label = group.elements[g].as_str();
        let len = label.unicode_len();
        if i >= 9 || !is_cycle_notation(label, len) {
            return i;
        }
        let code = (i + 49) as u32;
        match find_code(label, len, code, 0) {
            None => i,
            Some(k) => {
                assert(k >= 1) by {
                    assert(label@[0] == '(');
                }
                let before = label.get_char(k - 1);
                if before == '(' {
                    match find_code(label, len, 41, k) {
                        Some(j) => {
                            assert(j >= 1);
                            let last = label.get_char(j - 1);
                            assert(is_point(last));
                            (last as u32 - 49) as usize
                        },
                        None => i,
                    }
                } else {
                    assert(is_point(before));
                    (before as u32 - 49) as usize
                }
            },
        }
    }

    /// For each group element `g`, the image of every agent index under `g`'s natural action:
    /// `r[g][i]` is where `g` sends agent `i` (`agent_image` of `g`'s label). The permutation
    /// representation maps basis vector `e_i` to `e_{r[g][i]}`.
    pub fn permutation_action(&self, group: &FiniteGroup) -> (r: Vec<Vec<usize>>)
        ensures
            r@.len() == group.n(),
            forall|g: int| 0 <= g < r@.len() ==> (#[trigger] r@[g])@.len() == self.num_agents,
            forall|g: int, i: int|
                0 <= g < r@.len() && 0 <= i < self.num_agents ==> #[trigger] r@[g]@[i] == agent_image(
                    group.elements@[g]@,
                    i,
                ),
    {
        let n = group.order();
        let mut table: Vec<Vec<usize>> = Vec::new();
        let mut g: usize = 0;
        while g < n
            invariant
                n == group.n(),
                g <= n,
                table@.len() == g,
                forall|a: int| 0 <= a < g ==> (#[trigger] table@[a])@.len() == self.num_agents,
                forall|a: int, i: int|
                    0 <= a < g && 0 <= i < self.num_agents ==> #[trigger] table@[a]@[i] == agent_image(
                        group.elements@[a]@,
                        i,
                    ),
            decreases n - g,
        {
            let mut perm: Vec<usize> = Vec::new();
            let mut i: usize = 0;
            while i < self.num_agents
                invariant
                    i <= self.num_agents,
                    perm@.len() == i,
                    g < n,
                    n == group.n(),
                    forall|b: int| 0 <= b < i ==> #[trigger] perm@[b] == agent_image(group.elements@[g as int]@, b),
                decreases self.num_agents - i,
            {
                perm.push(self.apply_group_action(g, i, group));
                i = i + 1;
            }
            table.push(perm);
            g = g + 1;
        }
        table
    }
}

/// Where each element of `s3()` sends the three agents, in the order e, (12), (13), (23), (123),
/// (132): a transposition swaps its two agents, a 3-cycle moves every agent.
pub open spec fn s3_agent_images(k: int) -> Seq<int> {
    if k == 0 {
        seq![0, 1, 2]
    } else if k == 1 {
        seq![1, 0, 2]
    } else if k == 2 {
        seq![2, 1, 0]
    } else if k == 3 {
        seq![0, 2, 1]
    } else if k == 4 {
        seq![2, 0, 1]
    } else {
        seq![1, 2, 0]
    }
}

/// The action of a transposition `(ab)` written with points `a != b`.
proof fn lemma_transposition_image(s: Seq<char>, a: char, b: char, i: int)
    requires
        s == seq!['(', a, b, ')'],
        is_point(a),
        is_point(b),
        a != b,
        0 <= i < 9,
    ensures
        agent_image(s, i) == if i == agent_of(a) {
            agent_of(b)
        } else if i == agent_of(b) {
            agent_of(a)
        } else {
            i
        },
{
    assert(cycle_notation(s)) by {
        assert forall|k1: int, k2: int| 0 <= k1 < k2 < s.len() && is_point(#[trigger] s[k1]) implies #[trigger] s[k2]
            != s[k1] by {}
    }
    reveal_with_fuel(find_code_from, 5);
}

/// The action of a 3-cycle `(abc)` written with distinct points.
proof fn lemma_three_cycle_image(s: Seq<char>, a: char, b: char, c: char, i: int)
    requires
        s == seq!['(', a, b, c, ')'],
        is_point(a),
        is_point(b),
        is_point(c),
        a != b && b != c && a != c,
        0 <= i < 9,
    ensures
        agent_image(s, i) == if i == agent_of(a) {
            agent_of(c)
        } else if i == agent_of(b) {
            agent_of(a)
        } else if i == agent_of(c) {
            agent_of(b)
        } else {
            i
        },
{
    assert(cycle_notation(s)) by {
        assert forall|k1: int, k2: int| 0 <= k1 < k2 < s.len() && is_point(#[trigger] s[k1]) implies #[trigger] s[k2]
            != s[k1] by {}
    }
    reveal_with_fuel(find_code_from, 6);
}

/// Law: under the labels of `s3()` the agent action is the natural action of S_3 on three agents
/// (`s3_agent_images`): the identity fixes every agent, each transposition swaps its two
/// agents and fixes the third, and the 3-cycles move all three. The permutation matrices then
/// have traces 3, 1, 1, 1, 0, 0.
pub proof fn lemma_s3_agent_action(g: FiniteGroup, k: int, i: int)
    requires
        g.n() == 6,
        g.elements@[0]@ == "e"@,
        g.elements@[1]@ == "(12)"@,
        g.elements@[2]@ == "(13)"@,
        g.elements@[3]@ == "(23)"@,
        g.elements@[4]@ == "(123)"@,
        g.elements@[5]@ == "(132)"@,
        0 <= k < 6,
        0 <= i < 3,
    ensures
        agent_image(g.elements@[k]@, i) == s3_agent_images(k)[i],
{
    reveal_strlit("e");
    reveal_strlit("(12)");
    reveal_strlit("(13)");
    reveal_strlit("(23)");
    reveal_strlit("(123)");
    reveal_strlit("(132)");
    let s = g.elements@[k]@;
    if k == 0 {
        assert(s.len() == 1);
        assert(!cycle_notation(s));
    } else if k == 1 {
        assert(s =~= seq!['(', '1', '2', ')']);
        lemma_transposition_image(s, '1', '2', i);
    } else if k == 2 {
        assert(s =~= seq!['(', '1', '3', ')']);
        lemma_transposition_image(s, '1', '3', i);
    } else if k == 3 {
        assert(s =~= seq!['(', '2', '3', ')']);
        lemma_transposition_image(s, '2', '3', i);
    } else if k == 4 {
        assert(s =~= seq!['(', '1', '2', '3', ')']);
        lemma_three_cycle_image(s, '1', '2', '3', i);
    } else {
        assert(s =~= seq!['(', '1', '3', '2', ')']);
        lemma_three_cycle_image(s, '1', '3', '2', i);
    }
}

/// Analysis result for symmetry decomposition of agent state spaces.
#[derive(Debug)]
pub struct SymmetryAnalysis {
    /// The state space analyzed.
    pub state_space: AgentStateSpace,
    /// Multiplicities of each irreducible in the decomposition.
    pub multiplicities: Vec<usize>,
    /// Symmetric subspace dimension.
    pub symmetric_dimension: usize,
    /// Whether the joint state space has non-trivial symmetry.
    pub has_nontrivial_symmetry: bool,
}

/// The dimension of the symmetric part: the multiplicity of the first irreducible (the trivial
/// one) times its dimension, 0 where either list is empty.
pub open spec fn symmetric_dimension_of(multiplicities: Seq<usize>, irr_dims: Seq<usize>) -> int {
    if multiplicities.len() == 0 {
        0
    } else if irr_dims.len() == 0 {
        0
    } else {
        multiplicities[0] * irr_dims[0]
    }
}

/// Assemble the analysis of `state_space` under `group` from the multiplicities of the
/// irreducibles (in the order of `irr_dims`, their dimensions): the symmetric dimension is that
/// of the first irreducible's isotypic part, and the symmetry is non-trivial when the group has
/// more than one element.
pub fn symmetry_analysis(
    state_space: &AgentStateSpace,
    group: &FiniteGroup,
    multiplicities: Vec<usize>,
    irr_dims: &[usize],
) -> (r: SymmetryAnalysis)
    requires
        symmetric_dimension_of(multiplicities@, irr_dims@) <= usize::MAX,
    ensures
        r.state_space.num_agents == state_space.num_agents,
        r.state_space.local_dimension == state_space.local_dimension,
        r.state_space.description == state_space.description,
        r.multiplicities@ == multiplicities@,
        r.symmetric_dimension == symmetric_dimension_of(multiplicities@, irr_dims@),
        r.has_nontrivial_symmetry == (group.n() > 1),
{
    let symmetric_dimension = if multiplicities.len() == 0 {
        0
    } else if irr_dims.len() == 0 {
        0
    } else {
        multiplicities[0] * irr_dims[0]
    };
    let copy = AgentStateSpace {
        num_agents: state_space.num_agents,
        local_dimension: state_space.local_dimension,
        description: state_space.description.clone(),
    };
    SymmetryAnalysis {
        state_space: copy,
        multiplicities,
        symmetric_dimension,
        has_nontrivial_symmetry: group.order() > 1,
    }
}

/// How an invariant subspace is described.
#[derive(Clone, Copy, Debug, PartialEq, Eq)]
pub enum SubspaceKind {
    /// The first irreducible, one-dimensional: the symmetric subspace.
    Symmetric,
    /// Another one-dimensional irreducible.
    OneDimensional,
    /// An irreducible of dimension other than one.
    HigherDimensional,
}

/// One isotypic component of a decomposition: irreducible number `index`, occurring
/// `multiplicity` times, of dimension `irrep_dimension`, spanning `dimension` in all.
#[derive(Clone, Copy, Debug, PartialEq, Eq)]
pub struct InvariantComponent {
    pub index: usize,
    pub multiplicity: usize,
    pub irrep_dimension: usize,
    pub dimension: usize,
    pub kind: SubspaceKind,
}

/// The kind of the component of irreducible `i`, of dimension `d`.
pub open spec fn kind_of(i: int, d: int) -> SubspaceKind {
    if d == 1 && i == 0 {
        SubspaceKind::Symmetric
    } else if d == 1 {
        SubspaceKind::OneDimensional
    } else {
        SubspaceKind::HigherDimensional
    }
}

/// The component of irreducible `i`.
pub open spec fn component_of(multiplicities: Seq<usize>, irr_dims: Seq<usize>, i: int) -> InvariantComponent {
    InvariantComponent {
        index: i as usize,
        multiplicity: multiplicities[i],
        irrep_dimension: irr_dims[i],
        dimension: (irr_dims[i] * multiplicities[i]) as usize,
        kind: kind_of(i, irr_dims[i] as int),
    }
}

/// The components of the irreducibles below `k` that occur at all, in order.
pub open spec fn components_prefix(multiplicities: Seq<usize>, irr_dims: Seq<usize>, k: nat) -> Seq<
    InvariantComponent,
>
    decreases k,
{
    if k == 0 {
        Seq::empty()
    } else {
        let prev = components_prefix(multiplicities, irr_dims, (k - 1) as nat);
        if multiplicities[k - 1] == 0 {
            prev
        } else {
            prev.push(component_of(multiplicities, irr_dims, k - 1))
        }
    }
}

/// The total dimension of a list of components.
pub open spec fn components_dimension(cs: Seq<InvariantComponent>) -> int
    decreases cs.len(),
{
    if cs.len() == 0 {
        0
    } else {
        components_dimension(cs.drop_last()) + cs.last().dimension
    }
}

/// Every multiplicity that is not zero, times the dimension of its irreducible, fits in `usize`.
pub open spec fn components_fit(multiplicities: Seq<usize>, irr_dims: Seq<usize>) -> bool {
    forall|i: int|
        0 <= i < multiplicities.len() && multiplicities[i] != 0 ==> #[trigger] irr_dims[i] * multiplicities[i]
            <= usize::MAX
}

/// The invariant subspaces given by a decomposition: one component for each irreducible that
/// occurs (multiplicity not zero), in the order of the irreducibles.
pub fn invariant_components(multiplicities: &[usize], irr_dims: &[usize]) -> (r: Vec<InvariantComponent>)
    requires
        multiplicities@.len() <= irr_dims@.len(),
        components_fit(multiplicities@, irr_dims@),
    ensures
        r@ == components_prefix(multiplicities@, irr_dims@, multiplicities@.len()),
{
    let mut out: Vec<InvariantComponent> = Vec::new();
    let mut i: usize = 0;
    while i < multiplicities.len()
        invariant
            i <= multiplicities@.len(),
            multiplicities@.len() <= irr_dims@.len(),
            components_fit(multiplicities@, irr_dims@),
            out@ == components_prefix(multiplicities@, irr_dims@, i as nat),
        decreases multiplicities@.len() - i,
    {
        let mult = multiplicities[i];
        if mult != 0 {
            let d = irr_dims[i];
            assert(irr_dims@[i as int] * multiplicities@[i as int] <= usize::MAX);
            let dim = d * mult;
            let kind = if d == 1 && i == 0 {
                SubspaceKind::Symmetric
            } else if d == 1 {
                SubspaceKind::OneDimensional
            } else {
                SubspaceKind::HigherDimensional
            };
            out.push(InvariantComponent { index: i, multiplicity: mult, irrep_dimension: d, dimension: dim, kind });
        }
        i = i + 1;
    }
    out
}

/// The components up to `k` span what the first `k` multiplicities account for.
proof fn lemma_components_prefix_dimension(m: Seq<usize>, d: Seq<usize>, k: nat)
    requires
        k <= m.len() <= d.len(),
        components_fit(m, d),
    ensures
        components_dimension(components_prefix(m, d, k)) == weighted_sum(m, d, k as int),
    decreases k,
{
    if k > 0 {
        let i = k - 1;
        lemma_components_prefix_dimension(m, d, i as nat);
        let prev = components_prefix(m, d, i as nat);
        let x = m[i];
        let y = d[i];
        if x == 0 {
            assert(x * y == 0) by (nonlinear_arith)
                requires x == 0;
        } else {
            assert(y * x <= usize::MAX);
            assert(y * x == x * y) by (nonlinear_arith);
            let c = component_of(m, d, i);
            assert(prev.push(c).drop_last() =~= prev);
        }
    }
}

/// Law: the invariant subspaces of a decomposition together have the dimension that the
/// multiplicities account for, `Σ multiplicity × dimension`.
pub proof fn lemma_components_span(multiplicities: Seq<usize>, irr_dims: Seq<usize>)
    requires
        multiplicities.len() <= irr_dims.len(),
        components_fit(multiplicities, irr_dims),
    ensures
        components_dimension(components_prefix(multiplicities, irr_dims, multiplicities.len()))
            == accounted_dimension(multiplicities, irr_dims),
{
    lemma_components_prefix_dimension(multiplicities, irr_dims, multiplicities.len());
    assert(paired_len(multiplicities, irr_dims) == multiplicities.len());
}

} // verus!
