//! The dominance relation of a control-flow graph and the facts about it
//! that dominator trees rest on.
use crate::graph::{
    avoids, has_edge, lemma_path_in_range, lemma_path_join, lemma_path_prefix, lemma_path_suffix,
    path_between, reachable, reachable_avoiding,
};
use vstd::prelude::*;

verus! {

/// `d` dominates `b`: `b` can be reached from the entry node, and every path
/// from the entry node to `b` passes through `d`. A node that cannot be
/// reached has no dominator.
#[verifier::opaque]
pub open spec fn dominates(g: Seq<Seq<usize>>, d: int, b: int) -> bool {
    reachable(g, b) && !reachable_avoiding(g, d, b)
}

/// `d` dominates `b` and is another node.
pub open spec fn strictly_dominates(g: Seq<Seq<usize>>, d: int, b: int) -> bool {
    d != b && dominates(g, d, b)
}

/// `d` is the immediate dominator of `b`: the strict dominator of `b` that
/// every strict dominator of `b` dominates.
pub open spec fn is_immediate_dominator(g: Seq<Seq<usize>>, d: int, b: int) -> bool {
    &&& strictly_dominates(g, d, b)
    &&& forall|c: int| strictly_dominates(g, c, b) ==> dominates(g, c, d)
}

/// `j` is in the dominance frontier of `i`: `i` dominates a predecessor of
/// `j`, but does not strictly dominate `j`.
pub open spec fn in_frontier(g: Seq<Seq<usize>>, i: int, j: int) -> bool {
    &&& exists|p: int| #[trigger] has_edge(g, p, j) && dominates(g, i, p)
    &&& !strictly_dominates(g, i, j)
}

/// The number of nodes below `k` that strictly dominate `b`.
pub open spec fn strict_dominators_below(g: Seq<Seq<usize>>, b: int, k: int) -> nat
    decreases k,
{
    if k <= 0 {
        0
    } else {
        strict_dominators_below(g, b, k - 1) + if strictly_dominates(g, k - 1, b) {
            1nat
        } else {
            0nat
        }
    }
}

/// The depth of `b` in the dominator tree: the number of its strict
/// dominators.
pub open spec fn dominator_depth(g: Seq<Seq<usize>>, b: int) -> nat {
    strict_dominators_below(g, b, g.len() as int)
}

/// A path to `b` passes through each dominator of `b`.
pub proof fn lemma_dominator_on_path(g: Seq<Seq<usize>>, d: int, b: int, p: Seq<int>) -> (i: int)
    requires
        dominates(g, d, b),
        path_between(g, p, 0, b),
    ensures
        0 <= i < p.len(),
        p[i] == d,
{
    reveal(dominates);
    assert(!avoids(p, d));
    choose|i: int| 0 <= i < p.len() && p[i] == d
}

/// Plain reachability is reachability that avoids a node outside the graph.
pub proof fn lemma_reachable_avoiding_none(g: Seq<Seq<usize>>, b: int)
    ensures
        reachable(g, b) <==> reachable_avoiding(g, g.len() as int, b),
{
    if reachable(g, b) {
        let p = choose|p: Seq<int>| path_between(g, p, 0, b);
        assert forall|i: int| 0 <= i < p.len() implies p[i] != g.len() by {
            lemma_path_in_range(g, p, i);
        }
        assert(path_between(g, p, 0, b) && avoids(p, g.len() as int));
    }
    if reachable_avoiding(g, g.len() as int, b) {
        let p = choose|p: Seq<int>| #[trigger]
            path_between(g, p, 0, b) && avoids(p, g.len() as int);
        assert(path_between(g, p, 0, b));
    }
}

/// Both ends of the dominance relation are reachable nodes of the graph.
pub proof fn lemma_dominates_reachable(g: Seq<Seq<usize>>, d: int, b: int)
    requires
        dominates(g, d, b),
    ensures
        0 <= d < g.len(),
        0 <= b < g.len(),
        reachable(g, d),
        reachable(g, b),
{
    reveal(dominates);
    let p = choose|p: Seq<int>| path_between(g, p, 0, b);
    let i = lemma_dominator_on_path(g, d, b, p);
    lemma_path_in_range(g, p, i);
    lemma_path_in_range(g, p, p.len() - 1);
    lemma_path_prefix(g, p, i);
    assert(path_between(g, p.subrange(0, i + 1), 0, d));
}

/// A reachable node dominates itself.
pub proof fn lemma_dominates_reflexive(g: Seq<Seq<usize>>, b: int)
    requires
        reachable(g, b),
    ensures
        dominates(g, b, b),
{
    reveal(dominates);
    assert forall|p: Seq<int>| #[trigger] path_between(g, p, 0, b) implies !avoids(p, b) by {
        assert(p[p.len() - 1] == b);
    }
}

/// The entry node dominates every reachable node.
pub proof fn lemma_entry_dominates(g: Seq<Seq<usize>>, b: int)
    requires
        reachable(g, b),
    ensures
        dominates(g, 0, b),
{
    reveal(dominates);
    assert forall|p: Seq<int>| #[trigger] path_between(g, p, 0, b) implies !avoids(p, 0) by {
        assert(p[0] == 0);
    }
}

/// The entry node is reachable in a graph that has a node.
pub proof fn lemma_entry_reachable(g: Seq<Seq<usize>>)
    requires
        g.len() > 0,
    ensures
        reachable(g, 0),
{
    assert(path_between(g, seq![0int], 0, 0));
}

/// Only the entry node dominates the entry node.
pub proof fn lemma_entry_has_no_strict_dominator(g: Seq<Seq<usize>>, d: int)
    ensures
        !strictly_dominates(g, d, 0),
{
    reveal(dominates);
    if strictly_dominates(g, d, 0) {
        lemma_dominates_reachable(g, d, 0);
        let p = seq![0int];
        assert(path_between(g, p, 0, 0) && avoids(p, d));
    }
}

/// Dominance is transitive.
pub proof fn lemma_dominates_transitive(g: Seq<Seq<usize>>, a: int, b: int, c: int)
    requires
        dominates(g, a, b),
        dominates(g, b, c),
    ensures
        dominates(g, a, c),
{
    reveal(dominates);
    assert forall|p: Seq<int>| #[trigger] path_between(g, p, 0, c) implies !avoids(p, a) by {
        let i = lemma_dominator_on_path(g, b, c, p);
        lemma_path_prefix(g, p, i);
        let q = p.subrange(0, i + 1);
        let j = lemma_dominator_on_path(g, a, b, q);
        assert(p[j] == a);
    }
}

/// Two nodes that dominate each other are one, by the length of a path to
/// the first.
proof fn lemma_mutual_dominance_on_path(g: Seq<Seq<usize>>, a: int, b: int, p: Seq<int>)
    requires
        dominates(g, a, b),
        dominates(g, b, a),
        path_between(g, p, 0, a),
    ensures
        a == b,
    decreases p.len(),
{
    reveal(dominates);
    if a != b {
        let i = lemma_dominator_on_path(g, b, a, p);
        lemma_path_prefix(g, p, i);
        lemma_mutual_dominance_on_path(g, b, a, p.subrange(0, i + 1));
    }
}

/// Two nodes that dominate each other are the same node.
pub proof fn lemma_dominates_antisymmetric(g: Seq<Seq<usize>>, a: int, b: int)
    requires
        dominates(g, a, b),
        dominates(g, b, a),
    ensures
        a == b,
{
    reveal(dominates);
    let p = choose|p: Seq<int>| path_between(g, p, 0, a);
    lemma_mutual_dominance_on_path(g, a, b, p);
}

/// The last place on `p` that holds `a` or `c`.
proof fn lemma_last_of_two(p: Seq<int>, a: int, c: int) -> (k: int)
    requires
        !avoids(p, a),
    ensures
        0 <= k < p.len(),
        p[k] == a || p[k] == c,
        forall|j: int| k < j < p.len() ==> p[j] != a && p[j] != c,
    decreases p.len(),
{
    let last = p.len() - 1;
    if p[last] == a || p[last] == c {
        last
    } else {
        let q = p.drop_last();
        let i = choose|i: int| 0 <= i < p.len() && p[i] == a;
        assert(q[i] == a);
        let k = lemma_last_of_two(q, a, c);
        assert(q[k] == p[k]);
        assert forall|j: int| k < j < p.len() implies p[j] != a && p[j] != c by {
            if j < last {
                assert(q[j] == p[j]);
            }
        }
        k
    }
}

/// A path that reaches `a` without `c`, and goes on from `a` to `b` without
/// `c`, reaches `b` without `c`.
proof fn lemma_bypass(g: Seq<Seq<usize>>, a: int, c: int, b: int, p: Seq<int>, k: int)
    requires
        path_between(g, p, 0, b),
        0 <= k < p.len(),
        p[k] == a,
        a != c,
        forall|j: int| k < j < p.len() ==> p[j] != c,
        reachable_avoiding(g, c, a),
    ensures
        reachable_avoiding(g, c, b),
{
    reveal(dominates);
    let q = choose|q: Seq<int>| #[trigger] path_between(g, q, 0, a) && avoids(q, c);
    lemma_path_suffix(g, p, k);
    let s = p.subrange(k, p.len() as int);
    lemma_path_join(g, q, s);
    let r = q + s.subrange(1, s.len() as int);
    assert forall|j: int| 0 <= j < r.len() implies r[j] != c by {
        if j >= q.len() {
            assert(r[j] == p[k + 1 + (j - q.len())]);
        }
    }
    assert(path_between(g, r, 0, b) && avoids(r, c));
}

/// Of two dominators of one node, one dominates the other.
pub proof fn lemma_dominators_comparable(g: Seq<Seq<usize>>, a: int, c: int, b: int)
    requires
        dominates(g, a, b),
        dominates(g, c, b),
    ensures
        dominates(g, a, c) || dominates(g, c, a),
{
    reveal(dominates);
    lemma_dominates_reachable(g, a, b);
    lemma_dominates_reachable(g, c, b);
    if a == c {
        lemma_dominates_reflexive(g, a);
    } else if a == b || c == b {
    } else if !dominates(g, a, c) && !dominates(g, c, a) {
        let p = choose|p: Seq<int>| path_between(g, p, 0, b);
        let i = lemma_dominator_on_path(g, a, b, p);
        let k = lemma_last_of_two(p, a, c);
        if p[k] == a {
            lemma_bypass(g, a, c, b, p, k);
        } else {
            lemma_bypass(g, c, a, b, p, k);
        }
    }
}

/// A node has at most one immediate dominator.
pub proof fn lemma_immediate_dominator_unique(g: Seq<Seq<usize>>, d: int, e: int, b: int)
    requires
        is_immediate_dominator(g, d, b),
        is_immediate_dominator(g, e, b),
    ensures
        d == e,
{
    lemma_dominates_antisymmetric(g, d, e);
}

/// Among the nodes below `k`, a node has at least the strict dominators of
/// each of its strict dominators, and that dominator besides.
proof fn lemma_depth_monotone(g: Seq<Seq<usize>>, d: int, b: int, k: int)
    requires
        strictly_dominates(g, d, b),
        0 <= k,
    ensures
        strict_dominators_below(g, d, k) + (if d < k {
            1nat
        } else {
            0nat
        }) <= strict_dominators_below(g, b, k),
    decreases k,
{
    reveal(dominates);
    if k > 0 {
        lemma_depth_monotone(g, d, b, k - 1);
        let c = k - 1;
        if strictly_dominates(g, c, d) {
            lemma_dominates_transitive(g, c, d, b);
            if c == b {
                lemma_dominates_antisymmetric(g, d, b);
            }
        }
    }
}

/// A node lies deeper in the dominator tree than each of its strict
/// dominators, and no deeper than the number of nodes allows.
pub proof fn lemma_depth_increases(g: Seq<Seq<usize>>, d: int, b: int)
    requires
        strictly_dominates(g, d, b),
    ensures
        dominator_depth(g, d) < dominator_depth(g, b) <= g.len(),
{
    lemma_dominates_reachable(g, d, b);
    lemma_depth_monotone(g, d, b, g.len() as int);
    lemma_depth_bound(g, b, g.len() as int);
}

/// No more than `k` nodes lie below `k`.
pub proof fn lemma_depth_bound(g: Seq<Seq<usize>>, b: int, k: int)
    requires
        0 <= k,
    ensures
        strict_dominators_below(g, b, k) <= k,
    decreases k,
{
    if k > 0 {
        lemma_depth_bound(g, b, k - 1);
    }
}

/// Among the strict dominators of `b` below `k`, one that all of them
/// dominate.
proof fn lemma_lowest_dominator(g: Seq<Seq<usize>>, b: int, k: int) -> (best: int)
    requires
        reachable(g, b),
        b != 0,
        1 <= k,
    ensures
        strictly_dominates(g, best, b),
        forall|c: int| 0 <= c < k && strictly_dominates(g, c, b) ==> dominates(g, c, best),
    decreases k,
{
    if k == 1 {
        lemma_entry_dominates(g, b);
        lemma_dominates_reachable(g, 0, b);
        lemma_dominates_reflexive(g, 0);
        0
    } else {
        let prev = lemma_lowest_dominator(g, b, k - 1);
        let d = k - 1;
        if strictly_dominates(g, d, b) {
            lemma_dominators_comparable(g, prev, d, b);
            lemma_dominates_reachable(g, d, b);
            lemma_dominates_reflexive(g, d);
            if dominates(g, prev, d) {
                assert forall|c: int| 0 <= c < k && strictly_dominates(g, c, b) implies dominates(
                    g,
                    c,
                    d,
                ) by {
                    if c < d {
                        lemma_dominates_transitive(g, c, prev, d);
                    }
                }
                d
            } else {
                prev
            }
        } else {
            prev
        }
    }
}

/// Every reachable node but the entry node has an immediate dominator.
pub proof fn lemma_immediate_dominator_exists(g: Seq<Seq<usize>>, b: int) -> (d: int)
    requires
        reachable(g, b),
        b != 0,
    ensures
        is_immediate_dominator(g, d, b),
{
    lemma_dominates_reflexive(g, b);
    lemma_dominates_reachable(g, b, b);
    let d = lemma_lowest_dominator(g, b, g.len() as int);
    assert forall|c: int| strictly_dominates(g, c, b) implies dominates(g, c, d) by {
        lemma_dominates_reachable(g, c, b);
    }
    d
}

/// A node that `i` strictly dominates lies below a child of `i` in the
/// dominator tree.
pub proof fn lemma_child_above(g: Seq<Seq<usize>>, i: int, b: int) -> (c: int)
    requires
        strictly_dominates(g, i, b),
    ensures
        is_immediate_dominator(g, i, c),
        dominates(g, c, b),
    decreases dominator_depth(g, b),
{
    lemma_entry_has_no_strict_dominator(g, i);
    lemma_dominates_reachable(g, i, b);
    lemma_dominates_reflexive(g, b);
    let p = lemma_immediate_dominator_exists(g, b);
    if p == i {
        b
    } else {
        lemma_depth_increases(g, p, b);
        let c = lemma_child_above(g, i, p);
        lemma_dominates_transitive(g, c, p, b);
        c
    }
}

/// The subtrees of two children of one node in the dominator tree share
/// no node.
pub proof fn lemma_subtrees_disjoint(g: Seq<Seq<usize>>, i: int, c: int, e: int, b: int)
    requires
        is_immediate_dominator(g, i, c),
        is_immediate_dominator(g, i, e),
        dominates(g, c, b),
        dominates(g, e, b),
    ensures
        c == e,
{
    lemma_dominators_comparable(g, c, e, b);
    if c != e {
        if dominates(g, c, e) {
            lemma_dominates_antisymmetric(g, c, i);
        } else {
            lemma_dominates_antisymmetric(g, e, i);
        }
    }
}

/// A child of `i` in the dominator tree dominates no dominator of `i`.
pub proof fn lemma_child_below(g: Seq<Seq<usize>>, i: int, c: int, d: int)
    requires
        is_immediate_dominator(g, i, c),
        dominates(g, d, i),
    ensures
        !dominates(g, c, d),
{
    if dominates(g, c, d) {
        lemma_dominates_transitive(g, c, d, i);
        lemma_dominates_antisymmetric(g, c, i);
    }
}

} // verus!
