//! The dominator tree of a control-flow graph: immediate dominators, the
//! children of each node in the tree, and dominance frontiers.
use crate::dominance::{
    dominates, in_frontier, is_immediate_dominator, lemma_dominates_reachable,
    lemma_dominates_reflexive, lemma_dominates_transitive, lemma_dominators_comparable,
    lemma_entry_dominates, lemma_entry_has_no_strict_dominator, lemma_entry_reachable,
    lemma_immediate_dominator_unique, lemma_reachable_avoiding_none, strictly_dominates,
};
use crate::graph::{edges_of, has_edge, reachable, reachable_without, well_formed};
use vstd::prelude::*;

verus! {

/// The index of a node in its graph.
pub type Index = usize;

/// Each element is smaller than the next.
pub open spec fn strictly_ascending(s: Seq<usize>) -> bool {
    forall|i: int, j: int| 0 <= i < j < s.len() ==> s[i] < s[j]
}

/// What the table of immediate dominators holds for node `b`: nothing for a
/// node that cannot be reached, the entry node for itself, and else the
/// immediate dominator.
pub open spec fn is_immediate_entry(g: Seq<Seq<usize>>, b: int, e: Option<usize>) -> bool {
    match e {
        Some(d) => reachable(g, b) && if b == 0 {
            d == 0
        } else {
            is_immediate_dominator(g, d as int, b)
        },
        None => !reachable(g, b),
    }
}

/// `m[d][b]` tells whether `d` dominates `b`.
pub open spec fn is_dominance_matrix(g: Seq<Seq<usize>>, m: Seq<Vec<bool>>) -> bool {
    &&& m.len() == g.len()
    &&& forall|d: int| 0 <= d < m.len() ==> (#[trigger] m[d])@.len() == g.len()
    &&& forall|d: int, b: int|
        0 <= d < g.len() && 0 <= b < g.len() ==> (#[trigger] m[d]@[b]) == dominates(g, d, b)
}

/// `t[b]` holds the immediate dominator of `b`.
pub open spec fn is_immediate_table(g: Seq<Seq<usize>>, t: Seq<Option<usize>>) -> bool {
    &&& t.len() == g.len()
    &&& forall|b: int| 0 <= b < t.len() ==> is_immediate_entry(g, b, #[trigger] t[b])
}

/// `c[i]` lists, in ascending order, the nodes whose immediate dominator is `i`.
pub open spec fn is_children_table(g: Seq<Seq<usize>>, c: Seq<Vec<usize>>) -> bool {
    &&& c.len() == g.len()
    &&& forall|i: int| 0 <= i < c.len() ==> strictly_ascending((#[trigger] c[i])@)
    &&& forall|i: int, j: usize|
        0 <= i < c.len() ==> (#[trigger] c[i]@.contains(j) <==> is_immediate_dominator(
            g,
            i,
            j as int,
        ))
}

/// `f[i]` lists, in ascending order, the dominance frontier of `i`.
pub open spec fn is_frontier_table(g: Seq<Seq<usize>>, f: Seq<Vec<usize>>) -> bool {
    &&& f.len() == g.len()
    &&& forall|i: int| 0 <= i < f.len() ==> strictly_ascending((#[trigger] f[i])@)
    &&& forall|i: int, j: usize|
        0 <= i < f.len() ==> (#[trigger] f[i]@.contains(j) <==> in_frontier(g, i, j as int))
}

/// `j` is in the dominance frontier of `i` by an edge `g[p][k]` that comes
/// before the edge `g[p_end][k_end]`.
pub open spec fn in_frontier_before(
    g: Seq<Seq<usize>>,
    i: int,
    j: int,
    p_end: int,
    k_end: int,
) -> bool {
    &&& !strictly_dominates(g, i, j)
    &&& exists|p: int, k: int|
        0 <= p < g.len() && 0 <= k < g[p].len() && (p < p_end || (p == p_end && k < k_end))
            && (#[trigger] g[p][k]) == j && dominates(g, i, p)
}

/// A vector of `n` times `false`.
fn all_false(n: usize) -> (v: Vec<bool>)
    ensures
        v@.len() == n,
        forall|i: int| 0 <= i < n ==> !v@[i],
{
    let mut v: Vec<bool> = Vec::new();
    while v.len() < n
        invariant
            v@.len() <= n,
            forall|i: int| 0 <= i < v@.len() ==> !v@[i],
        decreases n - v@.len(),
    {
        v.push(false);
    }
    v
}

/// The positions of `true` in `row`, in ascending order.
fn ascending_indices(row: &Vec<bool>) -> (v: Vec<usize>)
    ensures
        strictly_ascending(v@),
        forall|j: usize| v@.contains(j) <==> j < row@.len() && row@[j as int],
{
    let mut v: Vec<usize> = Vec::new();
    let mut j: usize = 0;
    while j < row.len()
        invariant
            j <= row@.len(),
            strictly_ascending(v@),
            forall|i: int| 0 <= i < v@.len() ==> v@[i] < j,
            forall|x: usize| v@.contains(x) <==> x < j && row@[x as int],
        decreases row@.len() - j,
    {
        if row[j] {
            let ghost before = v@;
            v.push(j);
            proof {
                assert(v@[v@.len() - 1] == j);
                assert forall|x: usize| v@.contains(x) <==> x < j + 1 && row@[x as int] by {
                    if v@.contains(x) {
                        let i = choose|i: int| 0 <= i < v@.len() && v@[i] == x;
                        if i < before.len() {
                            assert(before[i] == x);
                        }
                    }
                    if x < j && row@[x as int] {
                        let i = choose|i: int| 0 <= i < before.len() && before[i] == x;
                        assert(v@[i] == x);
                    }
                }
            }
        }
        j += 1;
    }
    v
}

/// A copy of `v`.
pub fn copy_of(v: &Vec<usize>) -> (r: Vec<usize>)
    ensures
        r@ == v@,
{
    let mut r: Vec<usize> = Vec::new();
    let mut i: usize = 0;
    while i < v.len()
        invariant
            i <= v@.len(),
            r@ == v@.subrange(0, i as int),
        decreases v@.len() - i,
    {
        r.push(v[i]);
        i += 1;
        assert(r@ =~= v@.subrange(0, i as int));
    }
    assert(v@.subrange(0, v@.len() as int) =~= v@);
    r
}

/// Computes, for every pair of nodes, whether the first dominates the
/// second: a node dominates what can be reached, but not without passing
/// through it.
fn dominance_matrix(succ: &Vec<Vec<usize>>) -> (m: Vec<Vec<bool>>)
    requires
        well_formed(edges_of(succ)),
    ensures
        is_dominance_matrix(edges_of(succ), m@),
{
    let ghost g = edges_of(succ);
    let n = succ.len();
    let reach = reachable_without(succ, n);
    proof {
        reveal(dominates);
        assert forall|b: int| 0 <= b < n implies reach@[b] == reachable(g, b) by {
            lemma_reachable_avoiding_none(g, b);
        }
    }
    let mut m: Vec<Vec<bool>> = Vec::new();
    let mut d: usize = 0;
    while d < n
        invariant
            g == edges_of(succ),
            well_formed(g),
            n == succ@.len(),
            d <= n,
            m@.len() == d,
            reach@.len() == n,
            forall|b: int| 0 <= b < n ==> reach@[b] == reachable(g, b),
            forall|c: int| 0 <= c < d ==> (#[trigger] m@[c])@.len() == n,
            forall|c: int, b: int|
                0 <= c < d && 0 <= b < n ==> (#[trigger] m@[c]@[b]) == dominates(g, c, b),
        decreases n - d,
    {
        proof {
            reveal(dominates);
        }
        let without = reachable_without(succ, d);
        let mut row: Vec<bool> = Vec::new();
        let mut b: usize = 0;
        while b < n
            invariant
                b <= n,
                row@.len() == b,
                reach@.len() == n,
                without@.len() == n,
                forall|a: int| 0 <= a < b ==> row@[a] == (reach@[a] && !without@[a]),
            decreases n - b,
        {
            row.push(reach[b] && !without[b]);
            b += 1;
        }
        m.push(row);
        d += 1;
    }
    m
}

/// Finds the immediate dominator of every reachable node: among the strict
/// dominators of a node, the one that all the others dominate.
fn immediate_dominators(g: Ghost<Seq<Seq<usize>>>, m: &Vec<Vec<bool>>) -> (t: Vec<Option<usize>>)
    requires
        is_dominance_matrix(g@, m@),
    ensures
        is_immediate_table(g@, t@),
{
    let n = m.len();
    let mut t: Vec<Option<usize>> = Vec::new();
    let mut b: usize = 0;
    while b < n
        invariant
            is_dominance_matrix(g@, m@),
            n == m@.len(),
            b <= n,
            t@.len() == b,
            forall|a: int| 0 <= a < b ==> is_immediate_entry(g@, a, #[trigger] t@[a]),
        decreases n - b,
    {
        proof {
            reveal(dominates);
            lemma_entry_reachable(g@);
            if reachable(g@, b as int) {
                lemma_dominates_reflexive(g@, b as int);
            }
        }
        if !m[b][b] {
            t.push(None);
        } else if b == 0 {
            t.push(Some(0));
        } else {
            let mut best: usize = 0;
            let mut d: usize = 1;
            proof {
                lemma_entry_dominates(g@, b as int);
                lemma_dominates_reflexive(g@, 0);
            }
            while d < n
                invariant
                    is_dominance_matrix(g@, m@),
                    n == m@.len(),
                    0 < b < n,
                    1 <= d <= n,
                    best < n,
                    strictly_dominates(g@, best as int, b as int),
                    forall|c: int|
                        0 <= c < d && strictly_dominates(g@, c, b as int) ==> dominates(
                            g@,
                            c,
                            best as int,
                        ),
                decreases n - d,
            {
                if d != b && m[d][b] {
                    proof {
                        lemma_dominators_comparable(g@, best as int, d as int, b as int);
                        lemma_dominates_reachable(g@, d as int, b as int);
                        lemma_dominates_reflexive(g@, d as int);
                    }
                    if m[best][d] {
                        proof {
                            assert forall|c: int|
                                0 <= c < d + 1 && strictly_dominates(
                                    g@,
                                    c,
                                    b as int,
                                ) implies dominates(g@, c, d as int) by {
                                if c < d {
                                    lemma_dominates_transitive(g@, c, best as int, d as int);
                                }
                            }
                        }
                        best = d;
                    }
                }
                d += 1;
            }
            proof {
                assert forall|c: int| strictly_dominates(g@, c, b as int) implies dominates(
                    g@,
                    c,
                    best as int,
                ) by {
                    lemma_dominates_reachable(g@, c, b as int);
                }
            }
            t.push(Some(best));
        }
        b += 1;
    }
    t
}

/// Lists the children of every node in the dominator tree.
fn tree_children(g: Ghost<Seq<Seq<usize>>>, t: &Vec<Option<usize>>) -> (c: Vec<Vec<usize>>)
    requires
        is_immediate_table(g@, t@),
    ensures
        is_children_table(g@, c@),
{
    let n = t.len();
    let mut c: Vec<Vec<usize>> = Vec::new();
    let mut i: usize = 0;
    while i < n
        invariant
            is_immediate_table(g@, t@),
            n == t@.len(),
            i <= n,
            c@.len() == i,
            forall|a: int| 0 <= a < i ==> strictly_ascending((#[trigger] c@[a])@),
            forall|a: int, j: usize|
                0 <= a < i ==> (#[trigger] c@[a]@.contains(j) <==> is_immediate_dominator(
                    g@,
                    a,
                    j as int,
                )),
        decreases n - i,
    {
        let mut row = all_false(n);
        let mut j: usize = 1;
        while j < n
            invariant
                is_immediate_table(g@, t@),
                n == t@.len(),
                i < n,
                1 <= j,
                row@.len() == n,
                forall|b: int|
                    0 <= b < n ==> (#[trigger] row@[b] <==> 1 <= b < j && is_immediate_dominator(
                        g@,
                        i as int,
                        b,
                    )),
            decreases n - j,
        {
            proof {
                assert(is_immediate_entry(g@, j as int, t@[j as int]));
                if is_immediate_dominator(g@, i as int, j as int) {
                    lemma_dominates_reachable(g@, i as int, j as int);
                    lemma_immediate_dominator_unique(
                        g@,
                        i as int,
                        t@[j as int]->0 as int,
                        j as int,
                    );
                }
            }
            match t[j] {
                Some(d) => {
                    if d == i {
                        row.set(j, true);
                    }
                },
                None => {},
            }
            j += 1;
        }
        let kids = ascending_indices(&row);
        proof {
            assert forall|x: usize| kids@.contains(x) <==> is_immediate_dominator(
                g@,
                i as int,
                x as int,
            ) by {
                if is_immediate_dominator(g@, i as int, x as int) {
                    lemma_dominates_reachable(g@, i as int, x as int);
                    lemma_entry_has_no_strict_dominator(g@, i as int);
                }
            }
        }
        c.push(kids);
        i += 1;
    }
    c
}

/// Lists the dominance frontier of every node: for each edge out of a node
/// that `i` dominates, the target is in the frontier of `i` unless `i`
/// strictly dominates it.
fn dominance_frontiers(succ: &Vec<Vec<usize>>, m: &Vec<Vec<bool>>) -> (f: Vec<Vec<usize>>)
    requires
        well_formed(edges_of(succ)),
        is_dominance_matrix(edges_of(succ), m@),
    ensures
        is_frontier_table(edges_of(succ), f@),
{
    let ghost g = edges_of(succ);
    let n = succ.len();
    let mut f: Vec<Vec<usize>> = Vec::new();
    let mut i: usize = 0;
    while i < n
        invariant
            g == edges_of(succ),
            well_formed(g),
            is_dominance_matrix(g, m@),
            n == succ@.len(),
            i <= n,
            f@.len() == i,
            forall|a: int| 0 <= a < i ==> strictly_ascending((#[trigger] f@[a])@),
            forall|a: int, j: usize|
                0 <= a < i ==> (#[trigger] f@[a]@.contains(j) <==> in_frontier(g, a, j as int)),
        decreases n - i,
    {
        let mut row = all_false(n);
        let mut p: usize = 0;
        while p < n
            invariant
                g == edges_of(succ),
                well_formed(g),
                is_dominance_matrix(g, m@),
                n == succ@.len(),
                i < n,
                p <= n,
                row@.len() == n,
                forall|j: int|
                    0 <= j < n ==> (#[trigger] row@[j] <==> in_frontier_before(
                        g,
                        i as int,
                        j,
                        p as int,
                        0,
                    )),
            decreases n - p,
        {
            if m[i][p] {
                let mut k: usize = 0;
                while k < succ[p].len()
                    invariant
                        g == edges_of(succ),
                        well_formed(g),
                        is_dominance_matrix(g, m@),
                        n == succ@.len(),
                        i < n,
                        p < n,
                        dominates(g, i as int, p as int),
                        k <= succ@[p as int]@.len(),
                        row@.len() == n,
                        forall|j: int|
                            0 <= j < n ==> (#[trigger] row@[j] <==> in_frontier_before(
                                g,
                                i as int,
                                j,
                                p as int,
                                k as int,
                            )),
                    decreases succ@[p as int]@.len() - k,
                {
                    let j = succ[p][k];
                    assert(j == g[p as int][k as int]);
                    assert(j < n);
                    let ghost before = row@;
                    if i == j || !m[i][j] {
                        row.set(j, true);
                    }
                    proof {
                        assert forall|x: int| 0 <= x < n implies (#[trigger] row@[x]
                            <==> in_frontier_before(g, i as int, x, p as int, k + 1)) by {
                            if in_frontier_before(g, i as int, x, p as int, k as int) {
                                let (p0, k0) = choose|p0: int, k0: int|
                                    0 <= p0 < g.len() && 0 <= k0 < g[p0].len() && (p0 < p || (p0
                                        == p && k0 < k)) && (#[trigger] g[p0][k0]) == x
                                        && dominates(g, i as int, p0);
                                assert(g[p0][k0] == x && (p0 < p || (p0 == p && k0 < k + 1)));
                            }
                            if in_frontier_before(g, i as int, x, p as int, k + 1) && !before[x] {
                                let (p0, k0) = choose|p0: int, k0: int|
                                    0 <= p0 < g.len() && 0 <= k0 < g[p0].len() && (p0 < p || (p0
                                        == p && k0 < k + 1)) && (#[trigger] g[p0][k0]) == x
                                        && dominates(g, i as int, p0);
                                if !(p0 == p && k0 == k) {
                                    assert(g[p0][k0] == x && (p0 < p || (p0 == p && k0 < k)));
                                }
                            }
                            if x == j && row@[x] && !before[x] {
                                assert(g[p as int][k as int] == x);
                            }
                        }
                    }
                    k += 1;
                }
            }
            proof {
                assert forall|j: int| 0 <= j < n implies (#[trigger] row@[j] <==> in_frontier_before(
                    g,
                    i as int,
                    j,
                    p + 1,
                    0,
                )) by {
                    if in_frontier_before(g, i as int, j, p + 1, 0) {
                        let (p0, k0) = choose|p0: int, k0: int|
                            0 <= p0 < g.len() && 0 <= k0 < g[p0].len() && (p0 < p + 1 || (p0 == p
                                + 1 && k0 < 0)) && (#[trigger] g[p0][k0]) == j && dominates(
                                g,
                                i as int,
                                p0,
                            );
                        if p0 == p {
                            assert(g[p0][k0] == j && (p0 == p && k0 < g[p as int].len()));
                            assert(in_frontier_before(
                                g,
                                i as int,
                                j,
                                p as int,
                                g[p as int].len() as int,
                            ));
                        } else {
                            assert(g[p0][k0] == j && p0 < p);
                            assert(in_frontier_before(g, i as int, j, p as int, 0));
                            if m@[i as int]@[p as int] {
                                assert(g[p0][k0] == j && (p0 < p || (p0 == p && k0 < g[p as int].len())));
                            }
                        }
                    }
                    if row@[j] {
                        if m@[i as int]@[p as int] {
                            let (p0, k0) = choose|p0: int, k0: int|
                                0 <= p0 < g.len() && 0 <= k0 < g[p0].len() && (p0 < p || (p0 == p
                                    && k0 < g[p as int].len())) && (#[trigger] g[p0][k0]) == j
                                    && dominates(g, i as int, p0);
                            assert(g[p0][k0] == j && p0 < p + 1);
                        } else {
                            let (p0, k0) = choose|p0: int, k0: int|
                                0 <= p0 < g.len() && 0 <= k0 < g[p0].len() && (p0 < p || (p0 == p
                                    && k0 < 0)) && (#[trigger] g[p0][k0]) == j && dominates(
                                    g,
                                    i as int,
                                    p0,
                                );
                            assert(g[p0][k0] == j && p0 < p + 1);
                        }
                    }
                }
            }
            p += 1;
        }
        let front = ascending_indices(&row);
        proof {
            assert forall|x: usize| front@.contains(x) <==> in_frontier(g, i as int, x as int) by {
                if front@.contains(x) {
                    let (p0, k0) = choose|p0: int, k0: int|
                        0 <= p0 < g.len() && 0 <= k0 < g[p0].len() && (p0 < n || (p0 == n && k0
                            < 0)) && (#[trigger] g[p0][k0]) == x && dominates(g, i as int, p0);
                    assert(has_edge(g, p0, x as int));
                }
                if in_frontier(g, i as int, x as int) {
                    let p0 = choose|p0: int| #[trigger]
                        has_edge(g, p0, x as int) && dominates(g, i as int, p0);
                    let k0 = choose|k0: int| 0 <= k0 < g[p0].len() && #[trigger] g[p0][k0] == x;
                    assert(g[p0][k0] == x && p0 < n);
                    assert(in_frontier_before(g, i as int, x as int, n as int, 0));
                }
            }
        }
        f.push(front);
        i += 1;
    }
    f
}

/// The dominator tree of a graph whose entry node is node 0.
pub struct DominatorTree {
    dominators: Vec<Vec<bool>>,
    immediate: Vec<Option<usize>>,
    children: Vec<Vec<usize>>,
    frontiers: Vec<Vec<usize>>,
    graph: Ghost<Seq<Seq<usize>>>,
}

impl DominatorTree {
    /// The graph that this is the dominator tree of.
    pub closed spec fn graph(&self) -> Seq<Seq<usize>> {
        self.graph@
    }

    /// The tables of the tree say of the graph what their names promise.
    pub closed spec fn wf(&self) -> bool {
        &&& well_formed(self.graph@)
        &&& is_dominance_matrix(self.graph@, self.dominators@)
        &&& is_immediate_table(self.graph@, self.immediate@)
        &&& is_children_table(self.graph@, self.children@)
        &&& is_frontier_table(self.graph@, self.frontiers@)
    }

    /// Builds the dominator tree of the graph with the given successor lists.
    pub fn new(succ: &Vec<Vec<usize>>) -> (tree: DominatorTree)
        requires
            well_formed(edges_of(succ)),
        ensures
            tree.wf(),
            tree.graph() == edges_of(succ),
    {
        let dominators = dominance_matrix(succ);
        let immediate = immediate_dominators(Ghost(edges_of(succ)), &dominators);
        let children = tree_children(Ghost(edges_of(succ)), &immediate);
        let frontiers = dominance_frontiers(succ, &dominators);
        DominatorTree { dominators, immediate, children, frontiers, graph: Ghost(edges_of(succ)) }
    }

    /// The number of nodes of the graph.
    pub fn len(&self) -> (n: usize)
        requires
            self.wf(),
        ensures
            n == self.graph().len(),
    {
        self.immediate.len()
    }

    /// Tells whether `d` dominates `b`.
    pub fn dominates(&self, d: Index, b: Index) -> (r: bool)
        requires
            self.wf(),
        ensures
            r == dominates(self.graph(), d as int, b as int),
    {
        proof {
            if dominates(self.graph(), d as int, b as int) {
                lemma_dominates_reachable(self.graph(), d as int, b as int);
            }
        }
        d < self.dominators.len() && b < self.dominators.len() && self.dominators[d][b]
    }

    /// The immediate dominator of `i`: the entry node for itself, and none
    /// for a node that cannot be reached from the entry node.
    pub fn get_immediate_dominator(&self, i: Index) -> (r: Option<Index>)
        requires
            self.wf(),
        ensures
            is_immediate_entry(self.graph(), i as int, r),
    {
        if i < self.immediate.len() {
            self.immediate[i]
        } else {
            proof {
                if reachable(self.graph(), i as int) {
                    lemma_dominates_reflexive(self.graph(), i as int);
                    lemma_dominates_reachable(self.graph(), i as int, i as int);
                }
            }
            None
        }
    }

    /// The children of `i` in the dominator tree, in ascending order: the
    /// nodes whose immediate dominator is `i`.
    pub fn get_dominator_successors(&self, i: Index) -> (r: Vec<Index>)
        requires
            self.wf(),
        ensures
            strictly_ascending(r@),
            forall|j: usize|
                r@.contains(j) <==> is_immediate_dominator(self.graph(), i as int, j as int),
    {
        if i < self.children.len() {
            copy_of(&self.children[i])
        } else {
            let r: Vec<Index> = Vec::new();
            proof {
                assert forall|j: usize|
                    !is_immediate_dominator(self.graph(), i as int, j as int) by {
                    if is_immediate_dominator(self.graph(), i as int, j as int) {
                        lemma_dominates_reachable(self.graph(), i as int, j as int);
                    }
                }
            }
            r
        }
    }

    /// The dominance frontier of `i`, in ascending order.
    pub fn get_dominance_frontier(&self, i: Index) -> (r: Vec<Index>)
        requires
            self.wf(),
        ensures
            strictly_ascending(r@),
            forall|j: usize| r@.contains(j) <==> in_frontier(self.graph(), i as int, j as int),
    {
        if i < self.frontiers.len() {
            copy_of(&self.frontiers[i])
        } else {
            let r: Vec<Index> = Vec::new();
            proof {
                assert forall|j: usize| !in_frontier(self.graph(), i as int, j as int) by {
                    if in_frontier(self.graph(), i as int, j as int) {
                        let p = choose|p: int| #[trigger]
                            has_edge(self.graph(), p, j as int) && dominates(
                                self.graph(),
                                i as int,
                                p,
                            );
                        lemma_dominates_reachable(self.graph(), i as int, p);
                    }
                }
            }
            r
        }
    }
}

} // verus!
