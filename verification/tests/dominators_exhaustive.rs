use circom_ssa::dominator_tree::DominatorTree;

// Dominators by the textbook data-flow equations, as sets of bits: the
// dominators of the entry block are the entry block, and those of another
// block are the block itself and what dominates all of its predecessors.
fn dominator_sets(succ: &Vec<Vec<usize>>) -> (Vec<bool>, Vec<u32>) {
    let n = succ.len();
    let mut reachable = vec![false; n];
    let mut stack = vec![0];
    reachable[0] = true;
    while let Some(u) = stack.pop() {
        for &v in &succ[u] {
            if !reachable[v] {
                reachable[v] = true;
                stack.push(v);
            }
        }
    }
    let all: u32 = (1u32 << n) - 1;
    let mut dom = vec![all; n];
    dom[0] = 1;
    let mut changed = true;
    while changed {
        changed = false;
        for b in 1..n {
            if !reachable[b] {
                continue;
            }
            let mut meet = all;
            for p in 0..n {
                if reachable[p] && succ[p].contains(&b) {
                    meet &= dom[p];
                }
            }
            let next = meet | (1 << b);
            if next != dom[b] {
                dom[b] = next;
                changed = true;
            }
        }
    }
    (reachable, dom)
}

fn check(succ: &Vec<Vec<usize>>) {
    let n = succ.len();
    let (reachable, dom) = dominator_sets(succ);
    let tree = DominatorTree::new(succ);
    assert_eq!(tree.len(), n);
    let dominates = |d: usize, b: usize| reachable[b] && dom[b] & (1 << d) != 0;
    for b in 0..n {
        for d in 0..n {
            assert_eq!(tree.dominates(d, b), dominates(d, b), "{:?}: {} dominates {}", succ, d, b);
        }
        let expected = if !reachable[b] {
            None
        } else if b == 0 {
            Some(0)
        } else {
            // The strict dominator with the most dominators is the closest.
            (0..n)
                .filter(|&d| d != b && dominates(d, b))
                .max_by_key(|&d| dom[d].count_ones())
        };
        assert_eq!(tree.get_immediate_dominator(b), expected, "{:?}: idom of {}", succ, b);
    }
    for i in 0..n {
        let children: Vec<usize> =
            (1..n).filter(|&j| tree.get_immediate_dominator(j) == Some(i)).collect();
        assert_eq!(tree.get_dominator_successors(i), children, "{:?}: children of {}", succ, i);
        let frontier: Vec<usize> = (0..n)
            .filter(|&j| {
                (0..n).any(|p| succ[p].contains(&j) && dominates(i, p))
                    && !(i != j && dominates(i, j))
            })
            .collect();
        assert_eq!(tree.get_dominance_frontier(i), frontier, "{:?}: frontier of {}", succ, i);
    }
}

fn graph(n: usize, bits: u64) -> Vec<Vec<usize>> {
    (0..n).map(|u| (0..n).filter(|v| bits >> (u * n + v) & 1 == 1).collect()).collect()
}

#[test]
fn all_graphs_of_up_to_three_blocks() {
    for n in 1..=3 {
        for bits in 0..(1u64 << (n * n)) {
            check(&graph(n, bits));
        }
    }
}

#[test]
fn all_graphs_of_four_blocks() {
    for bits in 0..(1u64 << 16) {
        check(&graph(4, bits));
    }
}

#[test]
fn many_graphs_of_six_blocks() {
    let mut state: u64 = 0x2545_f491_4f6c_dd1d;
    for _ in 0..3000 {
        state ^= state << 13;
        state ^= state >> 7;
        state ^= state << 17;
        // Thin the edges out, so that blocks get dominators besides the
        // entry block.
        let bits = state & (state >> 36) & ((1u64 << 36) - 1);
        check(&graph(6, bits));
    }
}
