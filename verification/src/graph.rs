//! Directed graphs given by successor lists, paths through them, and
//! reachability from the entry node (node 0).
use vstd::prelude::*;

verus! {

/// The successor lists of a graph as a mathematical value: node `u` has the
/// successors `edges_of(succ)[u]`.
pub open spec fn edges_of(succ: &Vec<Vec<usize>>) -> Seq<Seq<usize>> {
    Seq::new(succ@.len(), |u: int| succ@[u]@)
}

/// Every successor index names a node of the graph.
pub open spec fn well_formed(g: Seq<Seq<usize>>) -> bool {
    forall|u: int, k: int|
        0 <= u < g.len() && 0 <= k < g[u].len() ==> (#[trigger] g[u][k]) < g.len()
}

/// There is an edge from `u` to `v`.
pub open spec fn has_edge(g: Seq<Seq<usize>>, u: int, v: int) -> bool {
    &&& 0 <= u < g.len()
    &&& 0 <= v < g.len()
    &&& exists|k: int| 0 <= k < g[u].len() && #[trigger] g[u][k] == v
}

/// `p` is a non-empty walk along edges of `g`.
pub open spec fn is_path(g: Seq<Seq<usize>>, p: Seq<int>) -> bool {
    &&& p.len() > 0
    &&& 0 <= p[0] < g.len()
    &&& forall|i: int| 0 <= i < p.len() - 1 ==> has_edge(g, #[trigger] p[i], p[i + 1])
}

/// `p` is a path that starts at `a` and ends at `b`.
pub open spec fn path_between(g: Seq<Seq<usize>>, p: Seq<int>, a: int, b: int) -> bool {
    is_path(g, p) && p[0] == a && p[p.len() - 1] == b
}

/// The node `d` does not occur on `p`.
pub open spec fn avoids(p: Seq<int>, d: int) -> bool {
    forall|i: int| 0 <= i < p.len() ==> p[i] != d
}

/// Some path leads from the entry node to `b` without passing through `d`.
pub open spec fn reachable_avoiding(g: Seq<Seq<usize>>, d: int, b: int) -> bool {
    exists|p: Seq<int>| #[trigger] path_between(g, p, 0, b) && avoids(p, d)
}

/// Some path leads from the entry node to `b`.
pub open spec fn reachable(g: Seq<Seq<usize>>, b: int) -> bool {
    exists|p: Seq<int>| path_between(g, p, 0, b)
}

/// The number of `false` entries of `s`.
pub open spec fn count_false(s: Seq<bool>) -> nat
    decreases s.len(),
{
    if s.len() == 0 {
        0
    } else {
        count_false(s.drop_last()) + if s.last() {
            0nat
        } else {
            1nat
        }
    }
}

/// Setting a `false` entry to `true` lowers the count of `false` entries by one.
pub proof fn lemma_count_false_update(s: Seq<bool>, i: int)
    requires
        0 <= i < s.len(),
        !s[i],
    ensures
        count_false(s.update(i, true)) + 1 == count_false(s),
    decreases s.len(),
{
    let t = s.update(i, true);
    if i == s.len() - 1 {
        assert(t.drop_last() =~= s.drop_last());
    } else {
        lemma_count_false_update(s.drop_last(), i);
        assert(t.drop_last() =~= s.drop_last().update(i, true));
    }
}

/// Every node on a path is a node of the graph.
pub proof fn lemma_path_in_range(g: Seq<Seq<usize>>, p: Seq<int>, i: int)
    requires
        is_path(g, p),
        0 <= i < p.len(),
    ensures
        0 <= p[i] < g.len(),
{
    if i > 0 {
        assert(has_edge(g, p[i - 1], p[i - 1 + 1]));
    }
}

/// A path cut off after position `i` is a path to the node at `i`.
pub proof fn lemma_path_prefix(g: Seq<Seq<usize>>, p: Seq<int>, i: int)
    requires
        is_path(g, p),
        0 <= i < p.len(),
    ensures
        path_between(g, p.subrange(0, i + 1), p[0], p[i]),
{
    let q = p.subrange(0, i + 1);
    assert forall|j: int| 0 <= j < q.len() - 1 implies has_edge(g, #[trigger] q[j], q[j + 1]) by {
        assert(has_edge(g, p[j], p[j + 1]));
    }
}

/// A path that starts at position `i` of a path is a path from the node at `i`.
pub proof fn lemma_path_suffix(g: Seq<Seq<usize>>, p: Seq<int>, i: int)
    requires
        is_path(g, p),
        0 <= i < p.len(),
    ensures
        path_between(g, p.subrange(i, p.len() as int), p[i], p[p.len() - 1]),
{
    let q = p.subrange(i, p.len() as int);
    lemma_path_in_range(g, p, i);
    assert forall|j: int| 0 <= j < q.len() - 1 implies has_edge(g, #[trigger] q[j], q[j + 1]) by {
        assert(has_edge(g, p[i + j], p[i + j + 1]));
    }
}

/// A path extended by an edge out of its last node is a path.
pub proof fn lemma_path_push(g: Seq<Seq<usize>>, p: Seq<int>, v: int)
    requires
        is_path(g, p),
        has_edge(g, p[p.len() - 1], v),
    ensures
        path_between(g, p.push(v), p[0], v),
{
    let q = p.push(v);
    assert forall|j: int| 0 <= j < q.len() - 1 implies has_edge(g, #[trigger] q[j], q[j + 1]) by {
        if j < p.len() - 1 {
            assert(has_edge(g, p[j], p[j + 1]));
        }
    }
}

/// Two paths that meet, the first ending where the second starts, join into
/// one path.
pub proof fn lemma_path_join(g: Seq<Seq<usize>>, p: Seq<int>, q: Seq<int>)
    requires
        is_path(g, p),
        is_path(g, q),
        p[p.len() - 1] == q[0],
    ensures
        path_between(g, p + q.subrange(1, q.len() as int), p[0], q[q.len() - 1]),
{
    let r = p + q.subrange(1, q.len() as int);
    assert forall|j: int| 0 <= j < r.len() - 1 implies has_edge(g, #[trigger] r[j], r[j + 1]) by {
        if j < p.len() - 1 {
            assert(has_edge(g, p[j], p[j + 1]));
        } else {
            let k = j - (p.len() - 1);
            assert(has_edge(g, q[k], q[k + 1]));
        }
    }
}

/// The marks `seen` are closed under the edges that leave a marked node which
/// is not in `pending`, as far as they do not lead to `avoid`.
pub open spec fn closed_except(
    g: Seq<Seq<usize>>,
    seen: Seq<bool>,
    avoid: int,
    pending: Seq<usize>,
) -> bool {
    forall|u: int, k: int|
        0 <= u < g.len() && seen[u] && !pending.contains(u as usize) && 0 <= k < g[u].len() && (
        #[trigger] g[u][k]) != avoid ==> seen[g[u][k] as int]
}

/// Marks that hold the entry node and are closed under edges hold the end of
/// every path from the entry node.
proof fn lemma_closed_holds_path_end(g: Seq<Seq<usize>>, seen: Seq<bool>, avoid: int, p: Seq<int>)
    requires
        well_formed(g),
        seen.len() == g.len(),
        closed_except(g, seen, avoid, Seq::<usize>::empty()),
        is_path(g, p),
        p[0] == 0,
        avoids(p, avoid),
        seen[0],
    ensures
        seen[p[p.len() - 1]],
    decreases p.len(),
{
    if p.len() > 1 {
        let i = p.len() - 2;
        lemma_path_prefix(g, p, i);
        let q = p.subrange(0, i + 1);
        assert forall|j: int| 0 <= j < q.len() implies q[j] != avoid by {
            assert(q[j] == p[j]);
        }
        lemma_closed_holds_path_end(g, seen, avoid, q);
        let u = p[i];
        let v = p[i + 1];
        assert(has_edge(g, u, v));
        let k = choose|k: int| 0 <= k < g[u].len() && #[trigger] g[u][k] == v;
        assert(!Seq::<usize>::empty().contains(u as usize));
        assert(g[u][k] != avoid);
    }
}

/// Tells whether every successor index names a node of the graph.
pub fn is_well_formed(succ: &Vec<Vec<usize>>) -> (r: bool)
    ensures
        r == well_formed(edges_of(succ)),
{
    let ghost g = edges_of(succ);
    let n = succ.len();
    let mut u: usize = 0;
    while u < n
        invariant
            u <= n,
            n == succ@.len(),
            g == edges_of(succ),
            forall|w: int, k: int| 0 <= w < u && 0 <= k < g[w].len() ==> (#[trigger] g[w][k]) < n,
        decreases n - u,
    {
        let mut k: usize = 0;
        while k < succ[u].len()
            invariant
                u < n,
                n == succ@.len(),
                g == edges_of(succ),
                k <= succ@[u as int]@.len(),
                forall|j: int| 0 <= j < k ==> (#[trigger] g[u as int][j]) < n,
            decreases succ@[u as int]@.len() - k,
        {
            if succ[u][k] >= n {
                proof {
                    assert(g[u as int][k as int] >= n);
                }
                return false;
            }
            k += 1;
        }
        u += 1;
    }
    true
}

/// Marks the nodes that a path from the entry node reaches without passing
/// through `avoid`. With `avoid` outside the graph this is plain reachability.
pub fn reachable_without(succ: &Vec<Vec<usize>>, avoid: usize) -> (seen: Vec<bool>)
    requires
        well_formed(edges_of(succ)),
    ensures
        seen@.len() == succ@.len(),
        forall|b: int|
            0 <= b < succ@.len() ==> (seen@[b] <==> reachable_avoiding(
                edges_of(succ),
                avoid as int,
                b,
            )),
{
    let ghost g = edges_of(succ);
    let n = succ.len();
    let mut seen: Vec<bool> = Vec::new();
    while seen.len() < n
        invariant
            seen@.len() <= n,
            forall|b: int| 0 <= b < seen@.len() ==> !seen@[b],
        decreases n - seen@.len(),
    {
        seen.push(false);
    }
    let mut stack: Vec<usize> = Vec::new();
    if n > 0 && avoid != 0 {
        seen.set(0, true);
        stack.push(0);
        proof {
            let p = seq![0int];
            assert(path_between(g, p, 0, 0));
            assert(avoids(p, avoid as int));
            assert(stack@[0] == 0);
        }
    }
    while stack.len() > 0
        invariant
            g == edges_of(succ),
            well_formed(g),
            n == succ@.len(),
            seen@.len() == n,
            forall|i: int| 0 <= i < stack@.len() ==> stack@[i] < n && seen@[stack@[i] as int],
            forall|b: int| 0 <= b < n && seen@[b] ==> reachable_avoiding(g, avoid as int, b),
            n > 0 && avoid != 0 ==> seen@[0],
            closed_except(g, seen@, avoid as int, stack@),
        decreases count_false(seen@), stack@.len(),
    {
        let ghost seen0 = seen@;
        let ghost stack0 = stack@;
        let u = stack.pop().unwrap();
        let ghost rest = stack@;
        assert(u == stack0[stack0.len() - 1]);
        assert forall|x: usize| stack0.contains(x) implies rest.contains(x) || x == u by {
            let i = choose|i: int| 0 <= i < stack0.len() && stack0[i] == x;
            if i < rest.len() {
                assert(rest[i] == x);
            }
        }
        let mut k: usize = 0;
        while k < succ[u].len()
            invariant
                g == edges_of(succ),
                well_formed(g),
                n == succ@.len(),
                seen@.len() == n,
                u < n,
                seen0.len() == n,
                seen@[u as int],
                k <= succ@[u as int]@.len(),
                forall|i: int| 0 <= i < stack@.len() ==> stack@[i] < n && seen@[stack@[i] as int],
                forall|b: int| 0 <= b < n && seen@[b] ==> reachable_avoiding(g, avoid as int, b),
                n > 0 && avoid != 0 ==> seen@[0],
                forall|b: int| 0 <= b < n && seen0[b] ==> seen@[b],
                forall|x: usize| rest.contains(x) ==> stack@.contains(x),
                forall|w: int, j: int|
                    0 <= w < n && seen@[w] && w != u && !stack@.contains(w as usize) && 0 <= j
                        < g[w].len() && (#[trigger] g[w][j]) != avoid ==> seen@[g[w][j] as int],
                forall|j: int|
                    0 <= j < k && (#[trigger] g[u as int][j]) != avoid ==> seen@[g[u as int][j] as int],
                (count_false(seen@) == count_false(seen0) && stack@.len() == rest.len())
                    || count_false(seen@) < count_false(seen0),
            decreases succ@[u as int]@.len() - k,
        {
            let v = succ[u][k];
            assert(v == g[u as int][k as int]);
            assert(v < n);
            if v != avoid && !seen[v] {
                proof {
                    let ghost pu = choose|p: Seq<int>| #[trigger]
                        path_between(g, p, 0, u as int) && avoids(p, avoid as int);
                    assert(has_edge(g, u as int, v as int));
                    lemma_path_push(g, pu, v as int);
                    let pv = pu.push(v as int);
                    assert(avoids(pv, avoid as int));
                    assert(path_between(g, pv, 0, v as int));
                    lemma_count_false_update(seen@, v as int);
                }
                let ghost stack1 = stack@;
                seen.set(v, true);
                stack.push(v);
                proof {
                    assert(stack@[stack@.len() - 1] == v);
                    assert forall|x: usize| stack1.contains(x) implies stack@.contains(x) by {
                        let i = choose|i: int| 0 <= i < stack1.len() && stack1[i] == x;
                        assert(stack@[i] == x);
                    }
                    assert(stack@.contains(v));
                }
            }
            k += 1;
        }
        proof {
            assert forall|w: int, j: int|
                0 <= w < g.len() && seen@[w] && !stack@.contains(w as usize) && 0 <= j
                    < g[w].len() && (#[trigger] g[w][j]) != avoid implies seen@[g[w][j] as int] by {
            }
        }
    }
    proof {
        assert(stack@ =~= Seq::<usize>::empty());
        assert forall|b: int| 0 <= b < n && reachable_avoiding(g, avoid as int, b) implies seen@[b] by {
            let p = choose|p: Seq<int>| #[trigger]
                path_between(g, p, 0, b) && avoids(p, avoid as int);
            assert(p[0] != avoid);
            lemma_closed_holds_path_end(g, seen@, avoid as int, p);
        }
    }
    seen
}

} // verus!
