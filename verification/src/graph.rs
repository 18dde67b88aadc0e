//! The project dependency graph.
//!
//! Nodes are project names; an edge `u -> v` means "u depends on v".
//! The module provides reachability, cycle detection over mutual
//! reachability classes, and topological level assignment, each with a
//! contract over a small reachability theory (`reaches_in`, `reaches`,
//! `on_cycle`).

use vstd::prelude::*;
use crate::text::{
    distinct_views, lemma_lex_le_refl, lemma_lex_le_total, lemma_lex_le_trans, lex_le,
    sort_unique_strings, sorted_views, str_eq, str_le, views,
};

verus! {

/// Directed graph over project names.  `edges[u]` lists the successors of
/// node `u`: the indices of the nodes that `u` depends on.
#[derive(Debug, Clone)]
pub struct DepGraph {
    pub nodes: Vec<String>,
    pub edges: Vec<Vec<usize>>,
}

impl DepGraph {
    /// One adjacency row per node, all edge targets in range, and no two
    /// nodes carrying the same name.
    pub open spec fn wf(&self) -> bool {
        &&& self.edges@.len() == self.nodes@.len()
        &&& forall|u: int, k: int|
            0 <= u < self.edges@.len() && 0 <= k < self.edges@[u]@.len() ==> (
            #[trigger] self.edges@[u]@[k] as int) < self.nodes@.len()
        &&& distinct_views(self.nodes@)
    }

    /// Number of nodes.
    pub open spec fn n(&self) -> int {
        self.nodes@.len() as int
    }

    /// There is an edge from `u` to `v`.
    pub open spec fn has_edge(&self, u: int, v: int) -> bool {
        &&& 0 <= u < self.n()
        &&& exists|k: int|
            0 <= k < self.edges@[u]@.len() && (#[trigger] self.edges@[u]@[k] as int) == v
    }

    /// There is a path from `u` to `v` of length at most `k`.
    pub open spec fn reaches_in(&self, u: int, v: int, k: nat) -> bool
        decreases k,
    {
        u == v || (k > 0 && exists|w: int|
            #[trigger] self.has_edge(u, w) && self.reaches_in(w, v, (k - 1) as nat))
    }

    /// `v` is reachable from `u` (in zero or more steps).
    pub open spec fn reaches(&self, u: int, v: int) -> bool {
        exists|k: nat| self.reaches_in(u, v, k)
    }

    /// `u` lies on a cycle: some successor of `u` reaches back to `u`.
    pub open spec fn on_cycle(&self, u: int) -> bool {
        exists|w: int| #[trigger] self.has_edge(u, w) && self.reaches(w, u)
    }

    /// `u` and `v` reach each other.
    pub open spec fn mutual(&self, u: int, v: int) -> bool {
        self.reaches(u, v) && self.reaches(v, u)
    }

    /// The name carried by node `u`.
    pub open spec fn name_of(&self, u: int) -> Seq<char> {
        self.nodes@[u]@
    }

    /// Some node carries the name `x` and lies on a cycle.
    pub open spec fn name_on_cycle(&self, x: Seq<char>) -> bool {
        exists|u: int| 0 <= u < self.n() && #[trigger] self.name_of(u) == x && self.on_cycle(u)
    }

    /// Find the node carrying `name`, if any.
    pub fn find_node(&self, name: &str) -> (r: Option<usize>)
        ensures
            match r {
                Some(u) => (u as int) < self.n() && self.name_of(u as int) == name@,
                None => forall|u: int| 0 <= u < self.n() ==> self.name_of(u) != name@,
            },
    {
        let mut i: usize = 0;
        while i < self.nodes.len()
            invariant
                i <= self.nodes@.len(),
                forall|u: int| 0 <= u < i ==> self.name_of(u) != name@,
            decreases self.nodes@.len() - i,
        {
            if str_eq(self.nodes[i].as_str(), name) {
                return Some(i);
            }
            i = i + 1;
        }
        None
    }

    /// Whether node `u` has an edge to node `v`.
    pub fn edge_between(&self, u: usize, v: usize) -> (r: bool)
        requires
            self.wf(),
            (u as int) < self.n(),
        ensures
            r == self.has_edge(u as int, v as int),
    {
        let mut k: usize = 0;
        while k < self.edges[u].len()
            invariant
                self.wf(),
                (u as int) < self.n(),
                k <= self.edges@[u as int]@.len(),
                forall|j: int|
                    0 <= j < k ==> (#[trigger] self.edges@[u as int]@[j] as int) != v as int,
            decreases self.edges@[u as int]@.len() - k,
        {
            if self.edges[u][k] == v {
                proof {
                    assert((self.edges@[u as int]@[k as int] as int) == v as int);
                }
                return true;
            }
            k = k + 1;
        }
        false
    }
}

/// Paths can be padded: a path of length at most `k` is one of length at
/// most any larger bound.
pub proof fn lemma_reaches_in_mono(g: &DepGraph, u: int, v: int, k: nat, k2: nat)
    requires
        g.reaches_in(u, v, k),
        k <= k2,
    ensures
        g.reaches_in(u, v, k2),
    decreases k,
{
    if u != v {
        let w = choose|w: int| #[trigger] g.has_edge(u, w) && g.reaches_in(w, v, (k - 1) as nat);
        lemma_reaches_in_mono(g, w, v, (k - 1) as nat, (k2 - 1) as nat);
    }
}

/// Paths compose.
pub proof fn lemma_reaches_in_trans(g: &DepGraph, u: int, v: int, w: int, k1: nat, k2: nat)
    requires
        g.reaches_in(u, v, k1),
        g.reaches_in(v, w, k2),
    ensures
        g.reaches_in(u, w, (k1 + k2) as nat),
    decreases k1,
{
    if u == v {
        lemma_reaches_in_mono(g, v, w, k2, (k1 + k2) as nat);
    } else {
        let x = choose|x: int| #[trigger] g.has_edge(u, x) && g.reaches_in(x, v, (k1 - 1) as nat);
        lemma_reaches_in_trans(g, x, v, w, (k1 - 1) as nat, k2);
    }
}

/// Reachability is transitive.
pub proof fn lemma_reaches_trans(g: &DepGraph, u: int, v: int, w: int)
    requires
        g.reaches(u, v),
        g.reaches(v, w),
    ensures
        g.reaches(u, w),
{
    let k1 = choose|k1: nat| g.reaches_in(u, v, k1);
    let k2 = choose|k2: nat| g.reaches_in(v, w, k2);
    lemma_reaches_in_trans(g, u, v, w, k1, k2);
    assert(g.reaches_in(u, w, (k1 + k2) as nat));
}

/// Every node reaches itself.
pub proof fn lemma_reaches_refl(g: &DepGraph, u: int)
    ensures
        g.reaches(u, u),
{
    assert(g.reaches_in(u, u, 0nat));
}

/// Following one edge preserves reachability.
pub proof fn lemma_reaches_step(g: &DepGraph, u: int, w: int, v: int)
    requires
        g.has_edge(u, w),
        g.reaches(w, v),
    ensures
        g.reaches(u, v),
{
    let k = choose|k: nat| g.reaches_in(w, v, k);
    assert(g.reaches_in(u, v, (k + 1) as nat));
}

/// A node that reaches a distinct, mutually reachable node lies on a cycle.
pub proof fn lemma_mutual_on_cycle(g: &DepGraph, u: int, v: int)
    requires
        u != v,
        g.reaches(u, v),
        g.reaches(v, u),
    ensures
        g.on_cycle(u),
{
    let k = choose|k: nat| g.reaches_in(u, v, k);
    assert(k > 0);
    let w = choose|w: int| #[trigger] g.has_edge(u, w) && g.reaches_in(w, v, (k - 1) as nat);
    assert(g.reaches(w, v));
    lemma_reaches_trans(g, w, v, u);
}

/// A marked set that contains every start and is closed under edges
/// contains everything reachable from the starts.
pub proof fn lemma_closed_contains_reachable(g: &DepGraph, m: Seq<bool>, s: int, v: int, k: nat)
    requires
        g.wf(),
        m.len() == g.n(),
        0 <= s < g.n(),
        m[s],
        forall|a: int, b: int| 0 <= a < g.n() && #[trigger] g.has_edge(a, b) && m[a] ==> m[b],
        g.reaches_in(s, v, k),
        0 <= v < g.n(),
    ensures
        m[v],
    decreases k,
{
    if s != v {
        let w = choose|w: int| #[trigger] g.has_edge(s, w) && g.reaches_in(w, v, (k - 1) as nat);
        assert(0 <= w < g.n());
        lemma_closed_contains_reachable(g, m, w, v, (k - 1) as nat);
    }
}

/// Number of set entries in a boolean sequence.
pub closed spec fn count_true(s: Seq<bool>) -> nat
    decreases s.len(),
{
    if s.len() == 0 {
        0
    } else {
        (if s[0] {
            1nat
        } else {
            0nat
        }) + count_true(s.drop_first())
    }
}

/// Pointwise implication cannot lower the count; a strict new entry raises it.
pub proof fn lemma_count_true_le(a: Seq<bool>, b: Seq<bool>)
    requires
        a.len() == b.len(),
        forall|i: int| 0 <= i < a.len() ==> (a[i] ==> b[i]),
    ensures
        count_true(a) <= count_true(b),
        (exists|i: int| 0 <= i < a.len() && !a[i] && b[i]) ==> count_true(a) < count_true(b),
    decreases a.len(),
{
    if a.len() > 0 {
        lemma_count_true_le(a.drop_first(), b.drop_first());
        if exists|i: int| 0 <= i < a.len() && !a[i] && b[i] {
            let i = choose|i: int| 0 <= i < a.len() && !a[i] && b[i];
            if i > 0 {
                assert(!a.drop_first()[i - 1] && b.drop_first()[i - 1]);
            }
        }
    }
}

/// The count never exceeds the length.
pub proof fn lemma_count_true_bound(s: Seq<bool>)
    ensures
        count_true(s) <= s.len(),
    decreases s.len(),
{
    if s.len() > 0 {
        lemma_count_true_bound(s.drop_first());
    }
}

/// The soundness invariant of the marking loop: every marked node is
/// reachable from some start.
pub open spec fn marks_sound(g: &DepGraph, m: Seq<bool>, starts: Seq<usize>) -> bool {
    forall|v: int|
        0 <= v < m.len() && #[trigger] m[v] ==> exists|i: int|
            0 <= i < starts.len() && g.reaches(#[trigger] starts[i] as int, v)
}

/// One propagation pass: mark every successor of a marked node.
fn mark_pass(g: &DepGraph, m: &mut Vec<bool>, Ghost(starts): Ghost<Seq<usize>>) -> (changed: bool)
    requires
        g.wf(),
        old(m)@.len() == g.n(),
        marks_sound(g, old(m)@, starts),
    ensures
        final(m)@.len() == g.n(),
        marks_sound(g, final(m)@, starts),
        forall|v: int| 0 <= v < g.n() && old(m)@[v] ==> final(m)@[v],
        !changed ==> final(m)@ == old(m)@ && (forall|a: int, b: int|
            0 <= a < g.n() && #[trigger] g.has_edge(a, b) && final(m)@[a] ==> final(m)@[b]),
        changed ==> exists|v: int| 0 <= v < g.n() && !old(m)@[v] && final(m)@[v],
{
    let mut changed = false;
    let n = g.nodes.len();
    let mut u: usize = 0;
    while u < n
        invariant
            g.wf(),
            n == g.n(),
            m@.len() == g.n(),
            marks_sound(g, m@, starts),
            forall|v: int| 0 <= v < g.n() && old(m)@[v] ==> m@[v],
            !changed ==> m@ == old(m)@,
            !changed ==> forall|a: int, b: int|
                0 <= a < u && #[trigger] g.has_edge(a, b) && m@[a] ==> m@[b],
            changed ==> exists|v: int| 0 <= v < g.n() && !old(m)@[v] && m@[v],
            u <= n,
        decreases n - u,
    {
        if m[u] {
            let row_len = g.edges[u].len();
            let mut k: usize = 0;
            while k < row_len
                invariant
                    g.wf(),
                    n == g.n(),
                    (u as int) < g.n(),
                    row_len == g.edges@[u as int]@.len(),
                    m@.len() == g.n(),
                    marks_sound(g, m@, starts),
                    m@[u as int],
                    forall|v: int| 0 <= v < g.n() && old(m)@[v] ==> m@[v],
                    !changed ==> m@ == old(m)@,
                    !changed ==> forall|a: int, b: int|
                        0 <= a < u && #[trigger] g.has_edge(a, b) && m@[a] ==> m@[b],
                    !changed ==> forall|j: int|
                        0 <= j < k ==> m@[#[trigger] g.edges@[u as int]@[j] as int],
                    changed ==> exists|v: int| 0 <= v < g.n() && !old(m)@[v] && m@[v],
                    k <= row_len,
                decreases row_len - k,
            {
                let v = g.edges[u][k];
                if !m[v] {
                    proof {
                        let i = choose|i: int|
                            0 <= i < starts.len() && g.reaches(#[trigger] starts[i] as int,
                            u as int);
                        assert(g.has_edge(u as int, v as int)) by {
                            assert((g.edges@[u as int]@[k as int] as int) == v as int);
                        }
                        lemma_reaches_refl(g, v as int);
                        lemma_reaches_step(g, u as int, v as int, v as int);
                        lemma_reaches_trans(g, starts[i] as int, u as int, v as int);
                    }
                    m.set(v, true);
                    changed = true;
                }
                k = k + 1;
            }
            proof {
                if !changed {
                    assert forall|a: int, b: int|
                        0 <= a < u + 1 && #[trigger] g.has_edge(a, b) && m@[a] implies m@[b] by {
                        if a == u as int {
                            let j = choose|j: int|
                                0 <= j < g.edges@[a]@.len() && (#[trigger] g.edges@[a]@[j] as int)
                                    == b;
                            assert(m@[g.edges@[a]@[j] as int]);
                        }
                    }
                }
            }
        } else {
            proof {
                if !changed {
                    assert forall|a: int, b: int|
                        0 <= a < u + 1 && #[trigger] g.has_edge(a, b) && m@[a] implies m@[b] by {}
                }
            }
        }
        u = u + 1;
    }
    changed
}

/// All nodes reachable from the given start nodes.
///
/// The result has one flag per node: set exactly when some start reaches it.
pub fn reachable_from(g: &DepGraph, starts: &Vec<usize>) -> (r: Vec<bool>)
    requires
        g.wf(),
        forall|i: int| 0 <= i < starts@.len() ==> (#[trigger] starts@[i] as int) < g.n(),
    ensures
        r@.len() == g.n(),
        forall|v: int|
            0 <= v < g.n() ==> ((#[trigger] r@[v]) <==> exists|i: int|
                0 <= i < starts@.len() && g.reaches(#[trigger] starts@[i] as int, v)),
{
    let n = g.nodes.len();
    let mut m: Vec<bool> = Vec::new();
    let mut i: usize = 0;
    while i < n
        invariant
            i <= n,
            m@.len() == i,
            forall|v: int| 0 <= v < i ==> !m@[v],
        decreases n - i,
    {
        m.push(false);
        i = i + 1;
    }
    let mut s: usize = 0;
    while s < starts.len()
        invariant
            g.wf(),
            n == g.n(),
            forall|j: int| 0 <= j < starts@.len() ==> (#[trigger] starts@[j] as int) < g.n(),
            m@.len() == g.n(),
            s <= starts@.len(),
            marks_sound(g, m@, starts@),
            forall|j: int| 0 <= j < s ==> m@[#[trigger] starts@[j] as int],
        decreases starts@.len() - s,
    {
        proof {
            lemma_reaches_refl(g, starts@[s as int] as int);
        }
        let t = starts[s];
        m.set(t, true);
        s = s + 1;
    }
    loop
        invariant
            g.wf(),
            n == g.n(),
            forall|j: int| 0 <= j < starts@.len() ==> (#[trigger] starts@[j] as int) < g.n(),
            m@.len() == g.n(),
            marks_sound(g, m@, starts@),
            forall|j: int| 0 <= j < starts@.len() ==> m@[#[trigger] starts@[j] as int],
        ensures
            m@.len() == g.n(),
            marks_sound(g, m@, starts@),
            forall|j: int| 0 <= j < starts@.len() ==> m@[#[trigger] starts@[j] as int],
            forall|a: int, b: int| 0 <= a < g.n() && #[trigger] g.has_edge(a, b) && m@[a] ==> m@[b],
        decreases g.n() - count_true(m@),
    {
        let ghost pre = m@;
        let changed = mark_pass(g, &mut m, Ghost(starts@));
        if !changed {
            break ;
        }
        proof {
            lemma_count_true_le(pre, m@);
            lemma_count_true_bound(m@);
        }
    }
    proof {
        assert forall|v: int| 0 <= v < g.n() implies ((#[trigger] m@[v]) <==> exists|i: int|
            0 <= i < starts@.len() && g.reaches(#[trigger] starts@[i] as int, v)) by {
            if exists|i: int| 0 <= i < starts@.len() && g.reaches(#[trigger] starts@[i] as int, v) {
                let i = choose|i: int|
                    0 <= i < starts@.len() && g.reaches(#[trigger] starts@[i] as int, v);
                let k = choose|k: nat| g.reaches_in(starts@[i] as int, v, k);
                lemma_closed_contains_reachable(g, m@, starts@[i] as int, v, k);
            }
        }
    }
    m
}

/// The full reachability matrix: entry `[u][v]` says that `u` reaches `v`.
pub fn reach_matrix(g: &DepGraph) -> (m: Vec<Vec<bool>>)
    requires
        g.wf(),
    ensures
        m@.len() == g.n(),
        forall|u: int| 0 <= u < g.n() ==> (#[trigger] m@[u]@.len()) == g.n(),
        forall|u: int, v: int|
            0 <= u < g.n() && 0 <= v < g.n() ==> ((#[trigger] m@[u]@[v]) <==> g.reaches(u, v)),
{
    let n = g.nodes.len();
    let mut m: Vec<Vec<bool>> = Vec::new();
    let mut u: usize = 0;
    while u < n
        invariant
            g.wf(),
            n == g.n(),
            u <= n,
            m@.len() == u,
            forall|a: int| 0 <= a < u ==> (#[trigger] m@[a]@.len()) == g.n(),
            forall|a: int, v: int|
                0 <= a < u && 0 <= v < g.n() ==> ((#[trigger] m@[a]@[v]) <==> g.reaches(a, v)),
        decreases n - u,
    {
        let mut st: Vec<usize> = Vec::new();
        st.push(u);
        let row = reachable_from(g, &st);
        proof {
            assert forall|v: int| 0 <= v < g.n() implies ((#[trigger] row@[v]) <==> g.reaches(
                u as int,
                v,
            )) by {
                if row@[v] {
                    let i = choose|i: int|
                        0 <= i < st@.len() && g.reaches(#[trigger] st@[i] as int, v);
                    assert(st@[i] == u);
                }
                if g.reaches(u as int, v) {
                    assert((st@[0] as int) == u as int);
                }
            }
        }
        m.push(row);
        u = u + 1;
    }
    m
}

/// There is a path from `u` to `v` of length at most `k` whose nodes all
/// lie in `s`.
pub open spec fn reaches_within_in(g: &DepGraph, s: Set<int>, u: int, v: int, k: nat) -> bool
    decreases k,
{
    (u == v && s.contains(u)) || (k > 0 && s.contains(u) && exists|w: int|
        #[trigger] g.has_edge(u, w) && reaches_within_in(g, s, w, v, (k - 1) as nat))
}

/// `v` is reachable from `u` without leaving `s`.
pub open spec fn reaches_within(g: &DepGraph, s: Set<int>, u: int, v: int) -> bool {
    exists|k: nat| reaches_within_in(g, s, u, v, k)
}

/// The subgraph induced by `s` is strongly connected.
pub open spec fn strongly_connected_in(g: &DepGraph, s: Set<int>) -> bool {
    forall|u: int, v: int|
        s.contains(u) && s.contains(v) ==> #[trigger] reaches_within(g, s, u, v)
}

/// The set absorbs every node mutually reachable with one of its
/// members: no strongly connected component is split across sets.
pub open spec fn mutual_closed(g: &DepGraph, s: Set<int>) -> bool {
    forall|u: int, v: int|
        s.contains(u) && 0 <= v < g.n() && #[trigger] g.mutual(u, v) ==> s.contains(v)
}

/// The mutual-reachability class of node `i`.
pub open spec fn class_of(g: &DepGraph, i: int) -> Set<int> {
    Set::new(|u: int| 0 <= u < g.n() && g.mutual(i, u))
}

/// The nodes whose names occur in `names`.
pub open spec fn name_set_of(g: &DepGraph, names: Seq<Seq<char>>) -> Set<int> {
    Set::new(|u: int| 0 <= u < g.n() && names.contains(g.name_of(u)))
}

/// The name `x` occurs in one of the given name lists.
pub open spec fn in_name_lists(lists: Seq<Vec<String>>, x: Seq<char>) -> bool {
    exists|c: int| 0 <= c < lists.len() && #[trigger] views(lists[c]@).contains(x)
}

/// A path between two members of a mutual-reachability class stays inside
/// the class.
proof fn lemma_path_within_class(g: &DepGraph, i: int, u: int, v: int, k: nat)
    requires
        g.wf(),
        0 <= i < g.n(),
        class_of(g, i).contains(u),
        class_of(g, i).contains(v),
        g.reaches_in(u, v, k),
    ensures
        reaches_within_in(g, class_of(g, i), u, v, k),
    decreases k,
{
    if u != v {
        let w = choose|w: int| #[trigger] g.has_edge(u, w) && g.reaches_in(w, v, (k - 1) as nat);
        assert(0 <= w < g.n());
        assert(g.reaches(w, v)) by {
            assert(g.reaches_in(w, v, (k - 1) as nat));
        }
        assert(g.reaches(i, w)) by {
            lemma_reaches_refl(g, w);
            lemma_reaches_step(g, u, w, w);
            lemma_reaches_trans(g, i, u, w);
        }
        assert(g.reaches(w, i)) by {
            lemma_reaches_trans(g, w, v, i);
        }
        lemma_path_within_class(g, i, w, v, (k - 1) as nat);
    }
}

/// Each mutual-reachability class induces a strongly connected subgraph.
proof fn lemma_class_strongly_connected(g: &DepGraph, i: int)
    requires
        g.wf(),
        0 <= i < g.n(),
    ensures
        strongly_connected_in(g, class_of(g, i)),
{
    let s = class_of(g, i);
    assert forall|u: int, v: int| s.contains(u) && s.contains(v) implies #[trigger] reaches_within(
        g,
        s,
        u,
        v,
    ) by {
        assert(g.reaches(u, v)) by {
            lemma_reaches_trans(g, u, i, v);
        }
        let k = choose|k: nat| g.reaches_in(u, v, k);
        lemma_path_within_class(g, i, u, v, k);
        assert(reaches_within_in(g, s, u, v, k));
    }
}

/// A mutual-reachability class absorbs every mutual partner of its
/// members.
proof fn lemma_class_mutual_closed(g: &DepGraph, i: int)
    requires
        g.wf(),
        0 <= i < g.n(),
    ensures
        mutual_closed(g, class_of(g, i)),
{
    let s = class_of(g, i);
    assert forall|u: int, v: int|
        s.contains(u) && 0 <= v < g.n() && #[trigger] g.mutual(u, v) implies s.contains(v) by {
        lemma_reaches_trans(g, i, u, v);
        lemma_reaches_trans(g, v, u, i);
    }
}

/// A sequence of nodes whose consecutive pairs are edges witnesses a path.
proof fn lemma_chain_reaches(g: &DepGraph, p: Seq<int>, a: int, b: int)
    requires
        0 <= a <= b < p.len(),
        forall|j: int| a <= j < b ==> #[trigger] g.has_edge(p[j], p[j + 1]),
    ensures
        g.reaches_in(p[a], p[b], (b - a) as nat),
    decreases b - a,
{
    if a < b {
        lemma_chain_reaches(g, p, a + 1, b);
        assert(g.has_edge(p[a], p[a + 1]));
    }
}

/// Extend a chain inside `s` step by step.
proof fn build_chain(g: &DepGraph, s: Set<int>, u: int, k: nat) -> (p: Seq<int>)
    requires
        s.contains(u),
        forall|a: int| s.contains(a) ==> exists|b: int| s.contains(b) && #[trigger] g.has_edge(
            a,
            b,
        ),
    ensures
        p.len() == k + 1,
        p[0] == u,
        forall|j: int| 0 <= j < p.len() ==> s.contains(#[trigger] p[j]),
        forall|j: int| 0 <= j < k ==> #[trigger] g.has_edge(p[j], p[j + 1]),
    decreases k,
{
    if k == 0 {
        seq![u]
    } else {
        let v = choose|b: int| s.contains(b) && #[trigger] g.has_edge(u, b);
        let rest = build_chain(g, s, v, (k - 1) as nat);
        let p = seq![u] + rest;
        assert forall|j: int| 0 <= j < k implies #[trigger] g.has_edge(p[j], p[j + 1]) by {
            if j == 0 {
                assert(p[0] == u && p[1] == rest[0]);
            } else {
                assert(p[j] == rest[j - 1] && p[j + 1] == rest[j]);
                assert(g.has_edge(rest[j - 1], rest[j - 1 + 1]));
            }
        }
        p
    }
}

/// In a finite nonempty set where every node has a successor inside the
/// set, some node lies on a cycle.
proof fn lemma_trapped_set_has_cycle(g: &DepGraph, s: Set<int>, u0: int)
    requires
        g.wf(),
        s.subset_of(set_int_range_nodes(g)),
        s.contains(u0),
        forall|a: int| s.contains(a) ==> exists|b: int| s.contains(b) && #[trigger] g.has_edge(
            a,
            b,
        ),
    ensures
        exists|u: int| s.contains(u) && g.on_cycle(u),
{
    vstd::set_lib::lemma_int_range(0, g.n());
    vstd::set_lib::lemma_len_subset(s, set_int_range_nodes(g));
    let p = build_chain(g, s, u0, s.len());
    assert(p.len() == s.len() + 1);
    if p.no_duplicates() {
        p.unique_seq_to_set();
        assert(p.to_set().subset_of(s)) by {
            assert forall|x: int| p.to_set().contains(x) implies s.contains(x) by {
                let j = choose|j: int| 0 <= j < p.len() && p[j] == x;
            }
        }
        vstd::set_lib::lemma_len_subset(p.to_set(), s);
        assert(false);
    }
    let (a, b) = choose|a: int, b: int| 0 <= a < b < p.len() && p[a] == p[b];
    assert(g.has_edge(p[a], p[a + 1]));
    lemma_chain_reaches(g, p, a + 1, b);
    assert(g.reaches(p[a + 1], p[a])) by {
        assert(g.reaches_in(p[a + 1], p[b], (b - a - 1) as nat));
    }
    assert(g.on_cycle(p[a]));
}

/// The set of all node indices of `g`.
pub open spec fn set_int_range_nodes(g: &DepGraph) -> Set<int> {
    vstd::set_lib::set_int_range(0, g.n())
}

/// Name lists ordered by their first entry.
pub open spec fn cycles_ordered(cs: Seq<Vec<String>>) -> bool {
    forall|c1: int, c2: int|
        0 <= c1 < c2 < cs.len() ==> lex_le(#[trigger] cs[c1]@[0]@, #[trigger] cs[c2]@[0]@)
}

/// No name occurs in two different lists.
pub open spec fn cycles_disjoint(cs: Seq<Vec<String>>) -> bool {
    forall|c1: int, c2: int, x: Seq<char>|
        0 <= c1 < cs.len() && 0 <= c2 < cs.len() && c1 != c2 && #[trigger] views(
            cs[c1]@,
        ).contains(x) ==> !(#[trigger] views(cs[c2]@).contains(x))
}

/// Insert a name list into a list of cycles ordered by first entry.
fn insert_cycle(out: &mut Vec<Vec<String>>, c: Vec<String>)
    requires
        c@.len() > 0,
        forall|idx: int| 0 <= idx < old(out)@.len() ==> (#[trigger] old(out)@[idx]@.len()) > 0,
        cycles_ordered(old(out)@),
    ensures
        exists|j: int| 0 <= j <= old(out)@.len() && final(out)@ == old(out)@.insert(j, c),
        cycles_ordered(final(out)@),
        forall|idx: int| 0 <= idx < final(out)@.len() ==> (#[trigger] final(out)@[idx]@.len()) > 0,
{
    let mut j: usize = 0;
    while j < out.len() && str_le(out[j][0].as_str(), c[0].as_str())
        invariant
            j <= out@.len(),
            out@ == old(out)@,
            c@.len() > 0,
            forall|idx: int| 0 <= idx < out@.len() ==> (#[trigger] out@[idx]@.len()) > 0,
            forall|k: int| 0 <= k < j ==> lex_le(#[trigger] out@[k]@[0]@, c@[0]@),
        decreases out@.len() - j,
    {
        j = j + 1;
    }
    proof {
        if j < out@.len() {
            lemma_lex_le_total(out@[j as int]@[0]@, c@[0]@);
        }
    }
    let ghost pre = out@;
    out.insert(j, c);
    proof {
        assert forall|c1: int, c2: int| 0 <= c1 < c2 < out@.len() implies lex_le(
            #[trigger] out@[c1]@[0]@,
            #[trigger] out@[c2]@[0]@,
        ) by {
            let sj = j as int;
            if c1 < sj && c2 == sj {
            } else if c1 == sj && c2 > sj {
                if c2 - 1 > sj {
                    lemma_lex_le_trans(out@[c1]@[0]@, pre[sj]@[0]@, pre[c2 - 1]@[0]@);
                }
            } else if c1 < sj && c2 > sj {
                assert(out@[c1]@ == pre[c1]@ && out@[c2]@ == pre[c2 - 1]@);
                if c1 < c2 - 1 {
                    assert(lex_le(pre[c1]@[0]@, pre[c2 - 1]@[0]@));
                } else {
                    lemma_lex_le_refl(out@[c1]@[0]@);
                }
            } else if c1 > sj {
                assert(out@[c1]@ == pre[c1 - 1]@ && out@[c2]@ == pre[c2 - 1]@);
            } else {
                assert(out@[c1]@ == pre[c1]@ && out@[c2]@ == pre[c2]@);
            }
        }
    }
}

/// Detect the dependency cycles of the graph.
///
/// The result lists, for every mutual-reachability class that really
/// cycles (more than one member, or a self-loop), the sorted names of its
/// members; the lists themselves are ordered by first name and no name
/// appears twice.  A name occurs in the result exactly when its node lies
/// on a cycle.
pub fn find_cycles(g: &DepGraph) -> (cycles: Vec<Vec<String>>)
    requires
        g.wf(),
    ensures
        forall|x: Seq<char>| #[trigger] in_name_lists(cycles@, x) <==> g.name_on_cycle(x),
        forall|c: int|
            0 <= c < cycles@.len() ==> (#[trigger] cycles@[c]@.len()) > 0 && sorted_views(
                cycles@[c]@,
            ) && distinct_views(cycles@[c]@),
        forall|c: int|
            0 <= c < cycles@.len() ==> strongly_connected_in(
                g,
                name_set_of(g, views(#[trigger] cycles@[c]@)),
            ),
        forall|c: int|
            0 <= c < cycles@.len() ==> mutual_closed(
                g,
                name_set_of(g, views(#[trigger] cycles@[c]@)),
            ),
        cycles_ordered(cycles@),
        cycles_disjoint(cycles@),
{
    let n = g.nodes.len();
    let m = reach_matrix(g);
    let mut assigned: Vec<bool> = Vec::new();
    let mut t: usize = 0;
    while t < n
        invariant
            t <= n,
            assigned@.len() == t,
            forall|v: int| 0 <= v < t ==> !(#[trigger] assigned@[v]),
        decreases n - t,
    {
        assigned.push(false);
        t = t + 1;
    }
    let mut cycles: Vec<Vec<String>> = Vec::new();
    let mut i: usize = 0;
    while i < n
        invariant
            g.wf(),
            n == g.n(),
            i <= n,
            m@.len() == g.n(),
            forall|a: int| 0 <= a < g.n() ==> (#[trigger] m@[a]@.len()) == g.n(),
            forall|a: int, v: int|
                0 <= a < g.n() && 0 <= v < g.n() ==> ((#[trigger] m@[a]@[v]) <==> g.reaches(a, v)),
            assigned@.len() == n,
            forall|u: int| 0 <= u < i ==> (#[trigger] assigned@[u]),
            forall|u: int, w: int|
                0 <= u < g.n() && 0 <= w < g.n() && (#[trigger] assigned@[u])
                    && #[trigger] g.mutual(u, w) ==> assigned@[w],
            forall|x: Seq<char>|
                #[trigger] in_name_lists(cycles@, x) <==> exists|u: int|
                    0 <= u < g.n() && (#[trigger] assigned@[u]) && g.on_cycle(u) && g.name_of(u)
                        == x,
            forall|c: int|
                0 <= c < cycles@.len() ==> (#[trigger] cycles@[c]@.len()) > 0 && sorted_views(
                    cycles@[c]@,
                ) && distinct_views(cycles@[c]@),
            forall|c: int|
                0 <= c < cycles@.len() ==> strongly_connected_in(
                    g,
                    name_set_of(g, views(#[trigger] cycles@[c]@)),
                ),
            forall|c: int|
                0 <= c < cycles@.len() ==> mutual_closed(
                    g,
                    name_set_of(g, views(#[trigger] cycles@[c]@)),
                ),
            cycles_ordered(cycles@),
            cycles_disjoint(cycles@),
            forall|c: int, x: Seq<char>|
                0 <= c < cycles@.len() && #[trigger] views(cycles@[c]@).contains(x) ==> exists|
                    u: int,
                |
                    0 <= u < g.n() && (#[trigger] assigned@[u]) && g.name_of(u) == x,
        decreases n - i,
    {
        if !assigned[i] {
            let ghost pre_assigned = assigned@;
            let mut comp: Vec<String> = Vec::new();
            let ghost mut js: Seq<int> = Seq::empty();
            let mut j: usize = 0;
            while j < n
                invariant
                    g.wf(),
                    n == g.n(),
                    (i as int) < g.n(),
                    j <= n,
                    m@.len() == g.n(),
                    forall|a: int| 0 <= a < g.n() ==> (#[trigger] m@[a]@.len()) == g.n(),
                    forall|a: int, v: int|
                        0 <= a < g.n() && 0 <= v < g.n() ==> ((#[trigger] m@[a]@[v]) <==> g.reaches(
                            a,
                            v,
                        )),
                    assigned@.len() == n,
                    js.len() == comp@.len(),
                    forall|a: int|
                        0 <= a < js.len() ==> 0 <= #[trigger] js[a] < j && g.mutual(i as int, js[a])
                            && comp@[a]@ == g.name_of(js[a]),
                    forall|a: int, b: int| 0 <= a < b < js.len() ==> js[a] < js[b],
                    forall|w: int| 0 <= w < j && g.mutual(i as int, w) ==> js.contains(w),
                    forall|u: int|
                        0 <= u < g.n() ==> ((#[trigger] assigned@[u]) <==> (pre_assigned[u]
                            || js.contains(u))),
                decreases n - j,
            {
                if m[i][j] && m[j][i] {
                    proof {
                        assert(g.mutual(i as int, j as int));
                    }
                    comp.push(g.nodes[j].clone());
                    assigned.set(j, true);
                    proof {
                        let js0 = js;
                        js = js.push(j as int);
                        assert forall|w: int| 0 <= w < j + 1 && g.mutual(i as int, w) implies
                            js.contains(w) by {
                            if w < j {
                                assert(js0.contains(w));
                                let a = choose|a: int| 0 <= a < js0.len() && js0[a] == w;
                                assert(js[a] == w);
                            } else {
                                assert(js[js.len() - 1] == w);
                            }
                        }
                        assert forall|u: int| 0 <= u < g.n() implies ((#[trigger] assigned@[u])
                            <==> (pre_assigned[u] || js.contains(u))) by {
                            if u == j as int {
                                assert(js[js.len() - 1] == u);
                            } else {
                                if js0.contains(u) {
                                    let a = choose|a: int| 0 <= a < js0.len() && js0[a] == u;
                                    assert(js[a] == u);
                                }
                                if js.contains(u) {
                                    let a = choose|a: int| 0 <= a < js.len() && js[a] == u;
                                    assert(a < js0.len());
                                    assert(js0[a] == u);
                                }
                            }
                        }
                    }
                } else {
                    proof {
                        assert(!g.mutual(i as int, j as int));
                    }
                }
                j = j + 1;
            }
            proof {
                lemma_reaches_refl(g, i as int);
                assert(g.mutual(i as int, i as int));
                assert(js.contains(i as int));
            }
            let has_self_loop = g.edge_between(i, i);
            if comp.len() > 1 || has_self_loop {
                let sorted = sort_unique_strings(&comp);
                proof {
                    // every member of the class lies on a cycle
                    assert forall|a: int| 0 <= a < js.len() implies g.on_cycle(
                        #[trigger] js[a],
                    ) by {
                        if comp@.len() > 1 {
                            let o: int = if js[0] == js[a] {
                                js[1]
                            } else {
                                js[0]
                            };
                            assert(o != js[a]);
                            assert(g.reaches(js[a], o)) by {
                                lemma_reaches_trans(g, js[a], i as int, o);
                            }
                            assert(g.reaches(o, js[a])) by {
                                lemma_reaches_trans(g, o, i as int, js[a]);
                            }
                            lemma_mutual_on_cycle(g, js[a], o);
                        } else {
                            assert(js =~= seq![i as int]);
                            assert(js[a] == i as int);
                            assert(g.has_edge(i as int, i as int));
                            lemma_reaches_refl(g, i as int);
                            assert(g.on_cycle(i as int));
                        }
                    }
                    // the sorted names are exactly the names of the class
                    assert forall|x: Seq<char>| #[trigger] views(sorted@).contains(x) implies
                        exists|a: int| 0 <= a < js.len() && g.name_of(#[trigger] js[a]) == x by {
                        assert(views(comp@).contains(x));
                        let a = choose|a: int|
                            0 <= a < views(comp@).len() && #[trigger] views(comp@)[a] == x;
                        assert(comp@[a]@ == x);
                        assert(0 <= a < js.len() && g.name_of(js[a]) == x);
                    }
                    assert forall|a: int| 0 <= a < js.len() implies views(sorted@).contains(
                        g.name_of(#[trigger] js[a]),
                    ) by {
                        assert(views(comp@)[a] == g.name_of(js[a]));
                        assert(views(comp@).contains(g.name_of(js[a])));
                    }
                    // the name set of the sorted list is the class of i
                    assert(name_set_of(g, views(sorted@)) =~= class_of(g, i as int)) by {
                        assert forall|u: int| name_set_of(g, views(sorted@)).contains(u) implies
                            class_of(g, i as int).contains(u) by {
                            let a = choose|a: int|
                                0 <= a < js.len() && g.name_of(#[trigger] js[a]) == g.name_of(u);
                            assert(g.nodes@[js[a]]@ == g.nodes@[u]@);
                            assert(js[a] == u);
                        }
                        assert forall|u: int| class_of(g, i as int).contains(u) implies name_set_of(
                            g,
                            views(sorted@),
                        ).contains(u) by {
                            assert(js.contains(u));
                            let a = choose|a: int| 0 <= a < js.len() && js[a] == u;
                        }
                    }
                    lemma_class_strongly_connected(g, i as int);
                    lemma_class_mutual_closed(g, i as int);
                }
                let ghost pre_cycles = cycles@;
                insert_cycle(&mut cycles, sorted);
                proof {
                    let sj = choose|sj: int|
                        0 <= sj <= pre_cycles.len() && cycles@ == pre_cycles.insert(sj, sorted);
                    assert forall|c: int| 0 <= c < cycles@.len() implies (
                    #[trigger] cycles@[c]@.len()) > 0 && sorted_views(cycles@[c]@)
                        && distinct_views(cycles@[c]@) && strongly_connected_in(
                        g,
                        name_set_of(g, views(cycles@[c]@)),
                    ) && mutual_closed(g, name_set_of(g, views(cycles@[c]@))) by {
                        if c < sj {
                            assert(cycles@[c] == pre_cycles[c]);
                        } else if c > sj {
                            assert(cycles@[c] == pre_cycles[c - 1]);
                        } else {
                            assert(cycles@[c] == sorted);
                            assert(views(sorted@).contains(g.name_of(i as int)));
                        }
                    }
                    // the name characterization
                    assert forall|x: Seq<char>| #[trigger] in_name_lists(cycles@, x) implies
                        exists|u: int|
                            0 <= u < g.n() && (#[trigger] assigned@[u]) && g.on_cycle(u)
                                && g.name_of(u) == x by {
                        let c = choose|c: int|
                            0 <= c < cycles@.len() && #[trigger] views(cycles@[c]@).contains(x);
                        if c == sj {
                            assert(cycles@[sj] == sorted);
                            let a = choose|a: int|
                                0 <= a < js.len() && g.name_of(#[trigger] js[a]) == x;
                            assert(js.contains(js[a]));
                            assert(assigned@[js[a]]);
                            assert(0 <= js[a] < g.n() && assigned@[js[a]] && g.on_cycle(js[a])
                                && g.name_of(js[a]) == x);
                        } else {
                            let cc: int = if c < sj {
                                c
                            } else {
                                c - 1
                            };
                            assert(views(pre_cycles[cc]@).contains(x));
                            assert(in_name_lists(pre_cycles, x));
                            let u = choose|u: int|
                                0 <= u < g.n() && (#[trigger] pre_assigned[u]) && g.on_cycle(u)
                                    && g.name_of(u) == x;
                            assert(js.contains(u) || pre_assigned[u]);
                            assert(assigned@[u]);
                        }
                    }
                    assert forall|u: int|
                        0 <= u < g.n() && (#[trigger] assigned@[u]) && g.on_cycle(u) implies
                        in_name_lists(cycles@, g.name_of(u)) by {
                        if pre_assigned[u] {
                            assert(in_name_lists(pre_cycles, g.name_of(u)));
                            let c = choose|c: int|
                                0 <= c < pre_cycles.len() && #[trigger] views(
                                    pre_cycles[c]@,
                                ).contains(g.name_of(u));
                            let cc: int = if c < sj {
                                c
                            } else {
                                c + 1
                            };
                            assert(views(cycles@[cc]@).contains(g.name_of(u)));
                        } else {
                            assert(js.contains(u));
                            assert(views(cycles@[sj]@).contains(g.name_of(u)));
                        }
                    }
                    // names in any list belong to assigned nodes
                    assert forall|c: int, x: Seq<char>|
                        0 <= c < cycles@.len() && #[trigger] views(cycles@[c]@).contains(x) implies
                        exists|u: int|
                            0 <= u < g.n() && (#[trigger] assigned@[u]) && g.name_of(u) == x by {
                        if c == sj {
                            assert(cycles@[sj] == sorted);
                            let a = choose|a: int|
                                0 <= a < js.len() && g.name_of(#[trigger] js[a]) == x;
                            assert(js.contains(js[a]));
                            assert(assigned@[js[a]]);
                            assert(0 <= js[a] < g.n() && assigned@[js[a]] && g.name_of(js[a])
                                == x);
                        } else {
                            let cc: int = if c < sj {
                                c
                            } else {
                                c - 1
                            };
                            assert(views(pre_cycles[cc]@).contains(x));
                            let u = choose|u: int|
                                0 <= u < g.n() && (#[trigger] pre_assigned[u]) && g.name_of(u)
                                    == x;
                            assert(assigned@[u]);
                        }
                    }
                    // disjointness
                    assert forall|c1: int, c2: int, x: Seq<char>|
                        0 <= c1 < cycles@.len() && 0 <= c2 < cycles@.len() && c1 != c2
                            && #[trigger] views(cycles@[c1]@).contains(x) implies !(
                        #[trigger] views(cycles@[c2]@).contains(x)) by {
                        if views(cycles@[c2]@).contains(x) {
                            if c1 == sj || c2 == sj {
                                let cother: int = if c1 == sj {
                                    c2
                                } else {
                                    c1
                                };
                                let co: int = if cother < sj {
                                    cother
                                } else {
                                    cother - 1
                                };
                                assert(views(pre_cycles[co]@).contains(x));
                                let u1 = choose|u1: int|
                                    0 <= u1 < g.n() && (#[trigger] pre_assigned[u1]) && g.name_of(
                                        u1,
                                    ) == x;
                                let a = choose|a: int|
                                    0 <= a < js.len() && g.name_of(#[trigger] js[a]) == x;
                                assert(g.mutual(js[a], i as int)) by {
                                    assert(g.mutual(i as int, js[a]));
                                }
                                assert(!pre_assigned[js[a]]) by {
                                    if pre_assigned[js[a]] {
                                        assert(pre_assigned[i as int]);
                                    }
                                }
                                assert(js[a] != u1);
                                assert(g.nodes@[js[a]]@ == g.nodes@[u1]@);
                                assert(false);
                            } else {
                                let cc1: int = if c1 < sj {
                                    c1
                                } else {
                                    c1 - 1
                                };
                                let cc2: int = if c2 < sj {
                                    c2
                                } else {
                                    c2 - 1
                                };
                                assert(views(pre_cycles[cc1]@).contains(x));
                                assert(views(pre_cycles[cc2]@).contains(x));
                                assert(cc1 != cc2);
                                assert(false);
                            }
                        }
                    }
                }
            } else {
                proof {
                    // a trivial class without self-loop is not on a cycle
                    assert(js =~= seq![i as int]) by {
                        if js.len() > 1 {
                            assert(js[0] < js[1]);
                            assert(js.contains(i as int));
                        }
                    }
                    assert(!g.on_cycle(i as int)) by {
                        if g.on_cycle(i as int) {
                            let w = choose|w: int|
                                #[trigger] g.has_edge(i as int, w) && g.reaches(w, i as int);
                            assert(0 <= w < g.n());
                            assert(g.mutual(i as int, w)) by {
                                lemma_reaches_refl(g, w);
                                lemma_reaches_step(g, i as int, w, w);
                            }
                            assert(js.contains(w));
                            assert(w == i as int);
                            assert(g.has_edge(i as int, i as int));
                        }
                    }
                    assert forall|x: Seq<char>| #[trigger] in_name_lists(cycles@, x) implies
                        exists|u: int|
                            0 <= u < g.n() && (#[trigger] assigned@[u]) && g.on_cycle(u)
                                && g.name_of(u) == x by {
                        let u = choose|u: int|
                            0 <= u < g.n() && (#[trigger] pre_assigned[u]) && g.on_cycle(u)
                                && g.name_of(u) == x;
                        assert(assigned@[u]);
                    }
                    assert forall|u: int|
                        0 <= u < g.n() && (#[trigger] assigned@[u]) && g.on_cycle(u) implies
                        in_name_lists(cycles@, g.name_of(u)) by {
                        if !pre_assigned[u] {
                            assert(js.contains(u));
                            assert(u == i as int);
                            assert(false);
                        }
                    }
                    assert forall|c: int, x: Seq<char>|
                        0 <= c < cycles@.len() && #[trigger] views(cycles@[c]@).contains(x) implies
                        exists|u: int|
                            0 <= u < g.n() && (#[trigger] assigned@[u]) && g.name_of(u) == x by {
                        let u = choose|u: int|
                            0 <= u < g.n() && (#[trigger] pre_assigned[u]) && g.name_of(u) == x;
                        assert(assigned@[u]);
                    }
                }
            }
            proof {
                // assigned nodes now absorb the whole class of i
                assert forall|u: int, w: int|
                    0 <= u < g.n() && 0 <= w < g.n() && (#[trigger] assigned@[u])
                        && #[trigger] g.mutual(u, w) implies assigned@[w] by {
                    if !pre_assigned[u] {
                        assert(js.contains(u));
                        assert(g.mutual(i as int, u));
                        assert(g.mutual(i as int, w)) by {
                            lemma_reaches_trans(g, i as int, u, w);
                            lemma_reaches_trans(g, w, u, i as int);
                        }
                        assert(js.contains(w));
                    } else {
                        if !pre_assigned[w] {
                            assert(false);
                        }
                    }
                }
            }
        }
        i = i + 1;
    }
    proof {
        assert forall|x: Seq<char>| #[trigger] in_name_lists(cycles@, x) <==> g.name_on_cycle(
            x,
        ) by {
            if in_name_lists(cycles@, x) {
                let u = choose|u: int|
                    0 <= u < g.n() && (#[trigger] assigned@[u]) && g.on_cycle(u) && g.name_of(u)
                        == x;
                assert(g.name_on_cycle(x));
            }
            if g.name_on_cycle(x) {
                let u = choose|u: int|
                    0 <= u < g.n() && #[trigger] g.name_of(u) == x && g.on_cycle(u);
                assert(assigned@[u]);
            }
        }
    }
    cycles
}

/// A node with an edge to itself lies on a cycle, so its name is always
/// part of the cycle report.
pub proof fn lemma_self_loop_on_cycle(g: &DepGraph, u: int)
    requires
        g.wf(),
        g.has_edge(u, u),
    ensures
        g.on_cycle(u),
        g.name_on_cycle(g.name_of(u)),
{
    lemma_reaches_refl(g, u);
    assert(0 <= u < g.n());
    assert(g.name_of(u) == g.name_of(u) && g.on_cycle(u));
}

/// All edges of `u` that stay in the selection land on placed nodes.
pub open spec fn node_ready(g: &DepGraph, sel: Seq<bool>, placed: Seq<bool>, u: int) -> bool {
    forall|v: int| #[trigger] g.has_edge(u, v) && sel[v] ==> placed[v]
}

/// Whether node `u` is ready to be scheduled.
fn is_ready(g: &DepGraph, sel: &Vec<bool>, placed: &Vec<bool>, u: usize) -> (r: bool)
    requires
        g.wf(),
        sel@.len() == g.n(),
        placed@.len() == g.n(),
        (u as int) < g.n(),
    ensures
        r == node_ready(g, sel@, placed@, u as int),
{
    let mut k: usize = 0;
    while k < self_row_len(g, u)
        invariant
            g.wf(),
            sel@.len() == g.n(),
            placed@.len() == g.n(),
            (u as int) < g.n(),
            k <= g.edges@[u as int]@.len(),
            forall|j: int|
                0 <= j < k ==> (sel@[#[trigger] g.edges@[u as int]@[j] as int]
                    ==> placed@[g.edges@[u as int]@[j] as int]),
        decreases g.edges@[u as int]@.len() - k,
    {
        let v = g.edges[u][k];
        if sel[v] && !placed[v] {
            proof {
                assert(g.has_edge(u as int, v as int)) by {
                    assert((g.edges@[u as int]@[k as int] as int) == v as int);
                }
            }
            return false;
        }
        k = k + 1;
    }
    proof {
        assert forall|v: int| #[trigger] g.has_edge(u as int, v) && sel@[v] implies placed@[v] by {
            let j = choose|j: int|
                0 <= j < g.edges@[u as int]@.len() && (#[trigger] g.edges@[u as int]@[j] as int)
                    == v;
        }
    }
    true
}

/// Length of node `u`'s adjacency row.
fn self_row_len(g: &DepGraph, u: usize) -> (r: usize)
    requires
        g.wf(),
        (u as int) < g.n(),
    ensures
        r == g.edges@[u as int]@.len(),
{
    g.edges[u].len()
}

/// Node `u` occurs somewhere in the level list.
pub open spec fn appears(levels: Seq<Vec<usize>>, u: int) -> bool {
    exists|li: int, a: int|
        0 <= li < levels.len() && 0 <= a < levels[li]@.len() && (#[trigger] levels[li]@[a] as int)
            == u
}

/// Every entry is a selected node, levels are nonempty, and no node occurs
/// twice.
pub open spec fn levels_wf(g: &DepGraph, sel: Seq<bool>, levels: Seq<Vec<usize>>) -> bool {
    &&& forall|li: int| 0 <= li < levels.len() ==> (#[trigger] levels[li]@.len()) > 0
    &&& forall|li: int, a: int|
        0 <= li < levels.len() && 0 <= a < levels[li]@.len() ==> (
        #[trigger] levels[li]@[a] as int) < g.n() && sel[levels[li]@[a] as int]
    &&& forall|li: int, a: int, lj: int, b: int|
        0 <= li < levels.len() && 0 <= a < levels[li]@.len() && 0 <= lj < levels.len() && 0 <= b
            < levels[lj]@.len() && (li != lj || a != b) ==> (#[trigger] levels[li]@[a] as int) != (
        #[trigger] levels[lj]@[b] as int)
}

/// Each selected edge target sits in a strictly earlier level than its
/// source.
pub open spec fn levels_respect_edges(g: &DepGraph, sel: Seq<bool>, levels: Seq<Vec<usize>>) -> bool {
    forall|li: int, a: int, v: int|
        0 <= li < levels.len() && 0 <= a < levels[li]@.len() && #[trigger] g.has_edge(
            #[trigger] levels[li]@[a] as int,
            v,
        ) && sel[v] ==> exists|lj: int, b: int|
            0 <= lj < li && 0 <= b < levels[lj]@.len() && (#[trigger] levels[lj]@[b] as int) == v
}

/// Partition the selected nodes into dependency levels, dependencies first.
///
/// Level zero holds selected nodes none of whose selected dependencies
/// exist; every later level holds nodes all of whose selected dependencies
/// sit in strictly earlier levels.  Returns `None` exactly when the
/// selection contains a node on a dependency cycle.
pub fn topo_levels(g: &DepGraph, sel: &Vec<bool>) -> (r: Option<Vec<Vec<usize>>>)
    requires
        g.wf(),
        sel@.len() == g.n(),
    ensures
        match r {
            Some(levels) => {
                &&& levels_wf(g, sel@, levels@)
                &&& levels_respect_edges(g, sel@, levels@)
                &&& forall|u: int| 0 <= u < g.n() && sel@[u] ==> appears(levels@, u)
            },
            None => exists|u: int| 0 <= u < g.n() && #[trigger] sel@[u] && g.on_cycle(u),
        },
{
    let n = g.nodes.len();
    let mut placed: Vec<bool> = Vec::new();
    let mut t: usize = 0;
    while t < n
        invariant
            t <= n,
            placed@.len() == t,
            forall|v: int| 0 <= v < t ==> !(#[trigger] placed@[v]),
        decreases n - t,
    {
        placed.push(false);
        t = t + 1;
    }
    let mut levels: Vec<Vec<usize>> = Vec::new();
    loop
        invariant
            g.wf(),
            n == g.n(),
            sel@.len() == g.n(),
            placed@.len() == g.n(),
            forall|u: int| 0 <= u < g.n() && #[trigger] placed@[u] ==> sel@[u],
            forall|u: int| 0 <= u < g.n() ==> ((#[trigger] placed@[u]) <==> appears(levels@, u)),
            levels_wf(g, sel@, levels@),
            levels_respect_edges(g, sel@, levels@),
        ensures
            placed@.len() == g.n(),
            levels_wf(g, sel@, levels@),
            levels_respect_edges(g, sel@, levels@),
            forall|u: int| 0 <= u < g.n() && sel@[u] ==> #[trigger] placed@[u],
            forall|u: int| 0 <= u < g.n() ==> ((#[trigger] placed@[u]) <==> appears(levels@, u)),
        decreases g.n() - count_true(placed@),
    {
        let ghost placed0 = placed@;
        let mut level: Vec<usize> = Vec::new();
        let mut any_unplaced = false;
        let ghost mut unplaced_witness: int = 0;
        let mut u: usize = 0;
        while u < n
            invariant
                g.wf(),
                n == g.n(),
                sel@.len() == g.n(),
                placed@.len() == g.n(),
                placed@ == placed0,
                u <= n,
                forall|a: int|
                    0 <= a < level@.len() ==> (#[trigger] level@[a] as int) < u
                        && sel@[level@[a] as int] && !placed@[level@[a] as int]
                        && node_ready(g, sel@, placed@, level@[a] as int),
                forall|a: int, b: int| 0 <= a < b < level@.len() ==> level@[a] < level@[b],
                forall|w: int|
                    0 <= w < u && sel@[w] && !placed@[w] && node_ready(g, sel@, placed@, w)
                        ==> exists|a: int|
                        0 <= a < level@.len() && (#[trigger] level@[a] as int) == w,
                any_unplaced ==> 0 <= unplaced_witness < g.n() && sel@[unplaced_witness]
                    && !placed@[unplaced_witness],
                !any_unplaced && level@.len() == 0 ==> forall|w: int|
                    0 <= w < u && #[trigger] sel@[w] ==> placed@[w],
            decreases n - u,
        {
            if sel[u] && !placed[u] {
                if is_ready(g, sel, &placed, u) {
                    let ghost lvl0 = level@;
                    level.push(u);
                    proof {
                        assert forall|w: int|
                            0 <= w < u + 1 && sel@[w] && !placed@[w] && node_ready(
                                g,
                                sel@,
                                placed@,
                                w,
                            ) implies exists|a: int|
                            0 <= a < level@.len() && (#[trigger] level@[a] as int) == w by {
                            if w < u {
                                let a = choose|a: int|
                                    0 <= a < lvl0.len() && (#[trigger] lvl0[a] as int) == w;
                                assert((level@[a] as int) == w);
                            } else {
                                assert((level@[level@.len() - 1] as int) == w);
                            }
                        }
                    }
                } else {
                    any_unplaced = true;
                    proof {
                        unplaced_witness = u as int;
                    }
                }
            }
            u = u + 1;
        }
        if level.len() == 0 {
            if any_unplaced {
                proof {
                    let s = Set::new(
                        |w: int| 0 <= w < g.n() && sel@[w] && !placed@[w],
                    );
                    assert(s.subset_of(set_int_range_nodes(g)));
                    assert(s.contains(unplaced_witness));
                    assert forall|a: int| s.contains(a) implies exists|b: int|
                        s.contains(b) && #[trigger] g.has_edge(a, b) by {
                        assert(!node_ready(g, sel@, placed@, a));
                        let v = choose|v: int|
                            #[trigger] g.has_edge(a, v) && sel@[v] && !placed@[v];
                        assert(0 <= v < g.n());
                        assert(s.contains(v));
                    }
                    lemma_trapped_set_has_cycle(g, s, unplaced_witness);
                }
                return None;
            } else {
                break ;
            }
        }
        // mark the level's nodes as placed and record the level
        let ghost lvl = level@;
        let mut k: usize = 0;
        while k < level.len()
            invariant
                g.wf(),
                n == g.n(),
                sel@.len() == g.n(),
                placed@.len() == g.n(),
                level@ == lvl,
                k <= lvl.len(),
                forall|a: int|
                    0 <= a < lvl.len() ==> (#[trigger] lvl[a] as int) < g.n() && sel@[lvl[a] as int]
                        && !placed0[lvl[a] as int] && node_ready(g, sel@, placed0, lvl[a] as int),
                forall|a: int, b: int| 0 <= a < b < lvl.len() ==> lvl[a] < lvl[b],
                forall|w: int|
                    0 <= w < g.n() ==> ((#[trigger] placed@[w]) <==> (placed0[w] || exists|a: int|
                        0 <= a < k && (#[trigger] lvl[a] as int) == w)),
            decreases lvl.len() - k,
        {
            let w = level[k];
            placed.set(w, true);
            proof {
                assert forall|x: int| 0 <= x < g.n() implies ((#[trigger] placed@[x]) <==> (
                placed0[x] || exists|a: int| 0 <= a < k + 1 && (#[trigger] lvl[a] as int) == x)) by {
                    if x == w as int {
                        assert((lvl[k as int] as int) == x);
                    } else {
                        if exists|a: int| 0 <= a < k + 1 && (#[trigger] lvl[a] as int) == x {
                            let a = choose|a: int|
                                0 <= a < k + 1 && (#[trigger] lvl[a] as int) == x;
                            assert(a < k);
                        }
                    }
                }
            }
            k = k + 1;
        }
        let ghost levels0 = levels@;
        levels.push(level);
        proof {
            let m = levels0.len() as int;
            assert(levels@.len() == m + 1);
            assert(levels@[m]@ == lvl);
            assert forall|li: int| 0 <= li < m implies levels@[li] == levels0[li] by {}
            // placed now tracks membership in the extended level list
            assert forall|w: int| 0 <= w < g.n() implies ((#[trigger] placed@[w]) <==> appears(
                levels@,
                w,
            )) by {
                if placed@[w] {
                    if placed0[w] {
                        let (li, a) = choose|li: int, a: int|
                            0 <= li < levels0.len() && 0 <= a < levels0[li]@.len() && (
                            #[trigger] levels0[li]@[a] as int) == w;
                        assert((levels@[li]@[a] as int) == w);
                    } else {
                        let a = choose|a: int|
                            0 <= a < lvl.len() && (#[trigger] lvl[a] as int) == w;
                        assert((levels@[m]@[a] as int) == w);
                    }
                }
                if appears(levels@, w) {
                    let (li, a) = choose|li: int, a: int|
                        0 <= li < levels@.len() && 0 <= a < levels@[li]@.len() && (
                        #[trigger] levels@[li]@[a] as int) == w;
                    if li < m {
                        assert((levels0[li]@[a] as int) == w);
                        assert(appears(levels0, w));
                    } else {
                        assert((lvl[a] as int) == w);
                    }
                }
            }
            // the extended list is still well formed
            assert forall|li: int, a: int, lj: int, b: int|
                0 <= li < levels@.len() && 0 <= a < levels@[li]@.len() && 0 <= lj < levels@.len()
                    && 0 <= b < levels@[lj]@.len() && (li != lj || a != b) implies (
            #[trigger] levels@[li]@[a] as int) != (#[trigger] levels@[lj]@[b] as int) by {
                if li < m && lj < m {
                    assert(levels@[li] == levels0[li] && levels@[lj] == levels0[lj]);
                } else if li == m && lj == m {
                    assert(levels@[li]@ == lvl && levels@[lj]@ == lvl);
                    if a < b {
                        assert(lvl[a] < lvl[b]);
                    } else {
                        assert(lvl[b] < lvl[a]);
                    }
                } else if li == m && lj < m {
                    assert(!placed0[lvl[a] as int]);
                    if (levels@[li]@[a] as int) == (levels@[lj]@[b] as int) {
                        assert((levels0[lj]@[b] as int) == lvl[a] as int);
                        assert(appears(levels0, lvl[a] as int));
                        assert(false);
                    }
                } else {
                    assert(!placed0[lvl[b] as int]);
                    if (levels@[li]@[a] as int) == (levels@[lj]@[b] as int) {
                        assert((levels0[li]@[a] as int) == lvl[b] as int);
                        assert(appears(levels0, lvl[b] as int));
                        assert(false);
                    }
                }
            }
            // edges still land in strictly earlier levels
            assert forall|li: int, a: int, v: int|
                0 <= li < levels@.len() && 0 <= a < levels@[li]@.len() && #[trigger] g.has_edge(
                    #[trigger] levels@[li]@[a] as int,
                    v,
                ) && sel@[v] implies exists|lj: int, b: int|
                0 <= lj < li && 0 <= b < levels@[lj]@.len() && (#[trigger] levels@[lj]@[b] as int)
                    == v by {
                if li < m {
                    assert(levels@[li] == levels0[li]);
                    let (lj, b) = choose|lj: int, b: int|
                        0 <= lj < li && 0 <= b < levels0[lj]@.len() && (
                        #[trigger] levels0[lj]@[b] as int) == v;
                    assert((levels@[lj]@[b] as int) == v);
                } else {
                    let uu = levels@[li]@[a] as int;
                    assert(node_ready(g, sel@, placed0, uu));
                    assert(placed0[v]);
                    assert(appears(levels0, v));
                    let (lj, b) = choose|lj: int, b: int|
                        0 <= lj < levels0.len() && 0 <= b < levels0[lj]@.len() && (
                        #[trigger] levels0[lj]@[b] as int) == v;
                    assert((levels@[lj]@[b] as int) == v);
                }
            }
            // progress: the first node of the level is newly placed
            assert(placed@[lvl[0] as int] && !placed0[lvl[0] as int]) by {
                assert((lvl[0] as int) == lvl[0] as int);
            }
            lemma_count_true_le(placed0, placed@);
            lemma_count_true_bound(placed@);
            assert(count_true(placed0) < count_true(placed@));
        }
    }
    proof {
        assert forall|u: int| 0 <= u < g.n() && sel@[u] implies appears(levels@, u) by {
            assert(placed@[u]);
        }
    }
    Some(levels)
}

} // verus!
