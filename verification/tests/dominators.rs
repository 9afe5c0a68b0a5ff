use circom_ssa::dominator_tree::DominatorTree;
use circom_ssa::graph::{is_well_formed, reachable_without};

fn diamond() -> Vec<Vec<usize>> {
    vec![vec![1, 2], vec![3], vec![3], vec![]]
}

// 0 -> 1 -> 2 -> 3, with the back edge 2 -> 1 and the exit 3.
fn looping() -> Vec<Vec<usize>> {
    vec![vec![1], vec![2], vec![1, 3], vec![]]
}

#[test]
fn diamond_immediate_dominators() {
    let tree = DominatorTree::new(&diamond());
    assert_eq!(tree.len(), 4);
    assert_eq!(tree.get_immediate_dominator(0), Some(0));
    assert_eq!(tree.get_immediate_dominator(1), Some(0));
    assert_eq!(tree.get_immediate_dominator(2), Some(0));
    assert_eq!(tree.get_immediate_dominator(3), Some(0));
}

#[test]
fn diamond_frontiers() {
    let tree = DominatorTree::new(&diamond());
    assert_eq!(tree.get_dominance_frontier(0), Vec::<usize>::new());
    assert_eq!(tree.get_dominance_frontier(1), vec![3]);
    assert_eq!(tree.get_dominance_frontier(2), vec![3]);
    assert_eq!(tree.get_dominance_frontier(3), Vec::<usize>::new());
}

#[test]
fn diamond_tree_children() {
    let tree = DominatorTree::new(&diamond());
    assert_eq!(tree.get_dominator_successors(0), vec![1, 2, 3]);
    assert_eq!(tree.get_dominator_successors(1), Vec::<usize>::new());
    assert_eq!(tree.get_dominator_successors(2), Vec::<usize>::new());
    assert_eq!(tree.get_dominator_successors(3), Vec::<usize>::new());
}

#[test]
fn diamond_dominance() {
    let tree = DominatorTree::new(&diamond());
    assert!(tree.dominates(0, 3));
    assert!(tree.dominates(3, 3));
    assert!(!tree.dominates(1, 3));
    assert!(!tree.dominates(2, 3));
    assert!(!tree.dominates(3, 0));
    assert!(!tree.dominates(0, 4));
}

#[test]
fn loop_immediate_dominators_form_a_chain() {
    let tree = DominatorTree::new(&looping());
    assert_eq!(tree.get_immediate_dominator(1), Some(0));
    assert_eq!(tree.get_immediate_dominator(2), Some(1));
    assert_eq!(tree.get_immediate_dominator(3), Some(2));
    assert_eq!(tree.get_dominator_successors(0), vec![1]);
    assert_eq!(tree.get_dominator_successors(1), vec![2]);
    assert_eq!(tree.get_dominator_successors(2), vec![3]);
}

#[test]
fn loop_header_is_in_the_frontier_of_the_loop() {
    let tree = DominatorTree::new(&looping());
    assert_eq!(tree.get_dominance_frontier(0), Vec::<usize>::new());
    assert_eq!(tree.get_dominance_frontier(1), vec![1]);
    assert_eq!(tree.get_dominance_frontier(2), vec![1]);
    assert_eq!(tree.get_dominance_frontier(3), Vec::<usize>::new());
}

#[test]
fn back_edge_to_the_entry_puts_it_in_frontiers() {
    // 0 -> 1 -> 0: nothing strictly dominates the entry block.
    let tree = DominatorTree::new(&vec![vec![1], vec![0]]);
    assert_eq!(tree.get_dominance_frontier(0), vec![0]);
    assert_eq!(tree.get_dominance_frontier(1), vec![0]);
}

#[test]
fn self_loop_is_its_own_frontier() {
    let tree = DominatorTree::new(&vec![vec![1], vec![1]]);
    assert_eq!(tree.get_dominance_frontier(1), vec![1]);
    assert_eq!(tree.get_dominance_frontier(0), Vec::<usize>::new());
}

#[test]
fn unreachable_block_has_no_dominator_and_no_frontier() {
    // Block 2 cannot be reached, though it leads to block 1.
    let tree = DominatorTree::new(&vec![vec![1], vec![], vec![1]]);
    assert_eq!(tree.get_immediate_dominator(2), None);
    assert_eq!(tree.get_dominance_frontier(2), Vec::<usize>::new());
    assert_eq!(tree.get_dominator_successors(2), Vec::<usize>::new());
    assert!(!tree.dominates(2, 2));
    assert!(!tree.dominates(0, 2));
    assert_eq!(tree.get_immediate_dominator(1), Some(0));
    assert_eq!(tree.get_dominance_frontier(0), Vec::<usize>::new());
}

#[test]
fn index_outside_the_graph_has_nothing() {
    let tree = DominatorTree::new(&diamond());
    assert_eq!(tree.get_immediate_dominator(7), None);
    assert_eq!(tree.get_dominance_frontier(7), Vec::<usize>::new());
    assert_eq!(tree.get_dominator_successors(7), Vec::<usize>::new());
}

#[test]
fn empty_graph_has_an_empty_tree() {
    let tree = DominatorTree::new(&Vec::new());
    assert_eq!(tree.len(), 0);
    assert_eq!(tree.get_immediate_dominator(0), None);
}

#[test]
fn single_block() {
    let tree = DominatorTree::new(&vec![vec![]]);
    assert_eq!(tree.get_immediate_dominator(0), Some(0));
    assert_eq!(tree.get_dominator_successors(0), Vec::<usize>::new());
    assert_eq!(tree.get_dominance_frontier(0), Vec::<usize>::new());
}

#[test]
fn nested_branches() {
    // 0 -> {1, 2}; 1 -> {3, 4}; 3 -> 5; 4 -> 5; 5 -> 6; 2 -> 6.
    let succ = vec![vec![1, 2], vec![3, 4], vec![6], vec![5], vec![5], vec![6], vec![]];
    let tree = DominatorTree::new(&succ);
    assert_eq!(tree.get_immediate_dominator(5), Some(1));
    assert_eq!(tree.get_immediate_dominator(6), Some(0));
    assert_eq!(tree.get_dominator_successors(0), vec![1, 2, 6]);
    assert_eq!(tree.get_dominator_successors(1), vec![3, 4, 5]);
    assert_eq!(tree.get_dominance_frontier(3), vec![5]);
    assert_eq!(tree.get_dominance_frontier(4), vec![5]);
    assert_eq!(tree.get_dominance_frontier(1), vec![6]);
    assert_eq!(tree.get_dominance_frontier(5), vec![6]);
    assert_eq!(tree.get_dominance_frontier(2), vec![6]);
}

#[test]
fn reachability_without_a_block() {
    let succ = diamond();
    assert_eq!(reachable_without(&succ, 4), vec![true, true, true, true]);
    assert_eq!(reachable_without(&succ, 1), vec![true, false, true, true]);
    assert_eq!(reachable_without(&succ, 0), vec![false, false, false, false]);
    assert_eq!(reachable_without(&looping(), 2), vec![true, true, false, false]);
}

#[test]
fn successors_must_be_blocks_of_the_graph() {
    assert!(is_well_formed(&diamond()));
    assert!(is_well_formed(&Vec::new()));
    assert!(is_well_formed(&vec![vec![0]]));
    assert!(!is_well_formed(&vec![vec![1]]));
    assert!(!is_well_formed(&vec![vec![1], vec![0, 2]]));
}
