//! Placement of phi statements: every variable gets a phi statement in each
//! block of the iterated dominance frontier of the blocks that write it.
use crate::dominance::in_frontier;
use crate::dominator_tree::{DominatorTree, Index};
use crate::traits::{SSABasicBlock, SSAConfig, SSAEnvironment};
use vstd::prelude::*;

verus! {

/// Every block meets its invariant.
pub open spec fn all_wf<B: SSABasicBlock>(blocks: Seq<B>) -> bool {
    forall|i: int| 0 <= i < blocks.len() ==> (#[trigger] blocks[i]).wf()
}

/// The phi statements of `blocks`, each as the pair of its block's index and
/// its variable.
pub open spec fn phi_slots<B: SSABasicBlock>(blocks: Seq<B>) -> Set<(int, B::Variable)> {
    Set::new(|s: (int, B::Variable)| 0 <= s.0 < blocks.len() && blocks[s.0].phis().contains(s.1))
}

/// `slots` holds, for every variable that block `i` writes or has a slot
/// for, a slot in each block of the dominance frontier of `i`.
pub open spec fn phi_closed<B: SSABasicBlock>(
    g: Seq<Seq<usize>>,
    blocks: Seq<B>,
    slots: Set<(int, B::Variable)>,
) -> bool {
    forall|i: int, j: int, v: B::Variable|
        #![trigger in_frontier(g, i, j), slots.contains((j, v))]
        0 <= i < blocks.len() && 0 <= j < blocks.len() && in_frontier(g, i, j) && (
        blocks[i].written().contains(v) || slots.contains((i, v))) ==> slots.contains((j, v))
}

/// `slots` is the placement of phi statements for `blocks`: the least set
/// that holds the phi statements which are there already and is closed under
/// dominance frontiers.
pub open spec fn is_phi_placement<B: SSABasicBlock>(
    g: Seq<Seq<usize>>,
    blocks: Seq<B>,
    slots: Set<(int, B::Variable)>,
) -> bool {
    &&& phi_slots(blocks).subset_of(slots)
    &&& phi_closed(g, blocks, slots)
    &&& forall|other: Set<(int, B::Variable)>|
        phi_slots(blocks).subset_of(other) && #[trigger] phi_closed(g, blocks, other)
            ==> slots.subset_of(other)
}

/// There is only one placement of phi statements: in whatever order the
/// blocks are taken up, the same phi statements come to stand.
pub proof fn lemma_phi_placement_unique<B: SSABasicBlock>(
    g: Seq<Seq<usize>>,
    blocks: Seq<B>,
    a: Set<(int, B::Variable)>,
    b: Set<(int, B::Variable)>,
)
    requires
        is_phi_placement(g, blocks, a),
        is_phi_placement(g, blocks, b),
    ensures
        a == b,
{
    assert(a.subset_of(b));
    assert(b.subset_of(a));
    assert(a =~= b);
}

/// Where no block writes a variable, the placement holds no phi statement.
pub proof fn lemma_no_writes_no_phis<B: SSABasicBlock>(
    g: Seq<Seq<usize>>,
    blocks: Seq<B>,
    slots: Set<(int, B::Variable)>,
)
    requires
        all_wf(blocks),
        forall|i: int| 0 <= i < blocks.len() ==> (#[trigger] blocks[i]).written().is_empty(),
        is_phi_placement(g, blocks, slots),
    ensures
        slots == Set::<(int, B::Variable)>::empty(),
{
    let none = Set::<(int, B::Variable)>::empty();
    assert forall|s: (int, B::Variable)| !phi_slots(blocks).contains(s) by {
        if 0 <= s.0 < blocks.len() {
            blocks[s.0].lemma_written();
            assert(blocks[s.0].written().is_empty());
            assert(!blocks[s.0].written().contains(s.1));
        }
    }
    assert(phi_slots(blocks).subset_of(none));
    assert(phi_closed(g, blocks, none)) by {
        assert forall|i: int, j: int, v: B::Variable|
            #![trigger in_frontier(g, i, j), none.contains((j, v))]
            0 <= i < blocks.len() && 0 <= j < blocks.len() && in_frontier(g, i, j) && (
            blocks[i].written().contains(v) || none.contains((i, v))) implies none.contains(
            (j, v),
        ) by {
            assert(blocks[i].written().is_empty());
        }
    }
    assert(slots.subset_of(none));
    assert(slots =~= none);
}

/// The variables that one of the first `k` blocks writes.
spec fn written_below<B: SSABasicBlock>(blocks: Seq<B>, k: nat) -> Set<B::Variable>
    decreases k,
{
    if k == 0 {
        Set::empty()
    } else {
        written_below(blocks, (k - 1) as nat).union(blocks[k - 1].written())
    }
}

/// The number of pairs of one of the first `k` blocks and a variable of
/// `all` for which the block has no phi statement.
spec fn missing_below<B: SSABasicBlock>(
    blocks: Seq<B>,
    all: Set<B::Variable>,
    k: nat,
) -> nat
    decreases k,
{
    if k == 0 {
        0
    } else {
        missing_below(blocks, all, (k - 1) as nat) + all.difference(blocks[k - 1].phis()).len()
    }
}

/// The variables that the first `k` blocks write are finitely many, and
/// hold what each of these blocks writes.
proof fn lemma_written_below<B: SSABasicBlock>(blocks: Seq<B>, k: nat)
    requires
        all_wf(blocks),
        k <= blocks.len(),
    ensures
        written_below(blocks, k).finite(),
        forall|i: int, v: B::Variable|
            0 <= i < k && (#[trigger] blocks[i].written().contains(v)) ==> written_below(
                blocks,
                k,
            ).contains(v),
    decreases k,
{
    if k > 0 {
        lemma_written_below(blocks, (k - 1) as nat);
        blocks[k - 1].lemma_written();
    }
}

/// A new phi statement leaves one pair less without one.
proof fn lemma_missing_insert<B: SSABasicBlock>(
    cur: Seq<B>,
    next: Seq<B>,
    all: Set<B::Variable>,
    j: int,
    v: B::Variable,
    k: nat,
)
    requires
        all.finite(),
        all.contains(v),
        0 <= j < cur.len(),
        next.len() == cur.len(),
        k <= cur.len(),
        !cur[j].phis().contains(v),
        next[j].phis() == cur[j].phis().insert(v),
        forall|i: int| 0 <= i < cur.len() && i != j ==> (#[trigger] next[i]).phis() == cur[i].phis(),
    ensures
        missing_below(next, all, k) + (if j < k {
            1nat
        } else {
            0nat
        }) == missing_below(cur, all, k),
    decreases k,
{
    if k > 0 {
        lemma_missing_insert(cur, next, all, j, v, (k - 1) as nat);
        if j == k - 1 {
            let before = all.difference(cur[j].phis());
            let after = all.difference(next[j].phis());
            assert(after =~= before.remove(v));
            assert(before.contains(v));
        } else {
            assert(next[k - 1].phis() == cur[k - 1].phis());
        }
    }
}

/// `post` is `pre` after it got, one after the other, a phi statement for
/// each variable in `vars`.
pub open spec fn phi_chain<B: SSABasicBlock>(pre: B, vars: Seq<B::Variable>, post: B) -> bool
    decreases vars.len(),
{
    if vars.len() == 0 {
        post == pre
    } else {
        exists|mid: B|
            phi_chain(pre, vars.drop_last(), mid) && #[trigger] B::phi_inserted(
                &mid,
                vars.last(),
                &post,
            )
    }
}

/// `post` is `pre` with more phi statements.
pub open spec fn extended_by_phis<B: SSABasicBlock>(pre: B, post: B) -> bool {
    exists|vars: Seq<B::Variable>| phi_chain(pre, vars, post)
}

/// Each block of `post` is the block of `pre` with more phi statements.
pub open spec fn phis_added<B: SSABasicBlock>(pre: Seq<B>, post: Seq<B>) -> bool {
    &&& post.len() == pre.len()
    &&& forall|i: int| 0 <= i < pre.len() ==> #[trigger] extended_by_phis(pre[i], post[i])
}

/// One more phi statement in a block.
proof fn lemma_phi_chain_step<B: SSABasicBlock>(
    pre: B,
    vars: Seq<B::Variable>,
    mid: B,
    var: B::Variable,
    post: B,
)
    requires
        phi_chain(pre, vars, mid),
        B::phi_inserted(&mid, var, &post),
    ensures
        phi_chain(pre, vars.push(var), post),
{
    assert(vars.push(var).drop_last() =~= vars);
    assert(vars.push(var).last() == var);
}

/// What holds of the blocks while phi statements are placed: `cur` is
/// `start` with more phi statements, none of them without need.
spec fn placing<B: SSABasicBlock>(
    g: Seq<Seq<usize>>,
    start: Seq<B>,
    cur: Seq<B>,
    all: Set<B::Variable>,
) -> bool {
    &&& cur.len() == start.len()
    &&& forall|i: int|
        0 <= i < cur.len() ==> {
            &&& (#[trigger] cur[i]).wf()
            &&& cur[i].successors_spec() == start[i].successors_spec()
            &&& start[i].phis().subset_of(cur[i].phis())
            &&& cur[i].phis().subset_of(all)
            &&& cur[i].written() == start[i].written().union(cur[i].phis())
        }
    &&& forall|other: Set<(int, B::Variable)>|
        phi_slots(start).subset_of(other) && #[trigger] phi_closed(g, start, other) ==> phi_slots(
            cur,
        ).subset_of(other)
}

/// What holds while phi statements are placed holds at the start.
proof fn lemma_placing_start<B: SSABasicBlock>(g: Seq<Seq<usize>>, start: Seq<B>)
    requires
        all_wf(start),
    ensures
        placing(g, start, start, written_below(start, start.len())),
        written_below(start, start.len()).finite(),
{
    let all = written_below(start, start.len());
    lemma_written_below(start, start.len());
    assert forall|i: int| 0 <= i < start.len() implies {
        &&& start[i].phis().subset_of(all)
        &&& (#[trigger] start[i]).written() == start[i].written().union(start[i].phis())
    } by {
        start[i].lemma_written();
        assert forall|v: B::Variable| start[i].phis().contains(v) implies all.contains(v) by {
            assert(start[i].written().contains(v));
        }
        assert(start[i].written() =~= start[i].written().union(start[i].phis()));
    }
}

/// What holds while phi statements are placed still holds after one more
/// is placed where the dominance frontier asks for it, and one pair less
/// is without one.
proof fn lemma_placing_step<B: SSABasicBlock>(
    g: Seq<Seq<usize>>,
    start: Seq<B>,
    cur: Seq<B>,
    next: Seq<B>,
    all: Set<B::Variable>,
    i: int,
    j: int,
    v: B::Variable,
)
    requires
        all_wf(start),
        all == written_below(start, start.len()),
        placing(g, start, cur, all),
        0 <= i < cur.len(),
        0 <= j < cur.len(),
        in_frontier(g, i, j),
        cur[i].written().contains(v),
        !cur[j].phis().contains(v),
        next.len() == cur.len(),
        forall|k: int| 0 <= k < cur.len() && k != j ==> (#[trigger] next[k]) == cur[k],
        next[j].wf(),
        next[j].phis() == cur[j].phis().insert(v),
        next[j].written() == cur[j].written().insert(v),
        next[j].successors_spec() == cur[j].successors_spec(),
    ensures
        placing(g, start, next, all),
        missing_below(next, all, next.len()) < missing_below(cur, all, cur.len()),
{
    lemma_written_below(start, start.len());
    assert(all.contains(v)) by {
        if start[i].written().contains(v) {
        } else {
            assert(cur[i].phis().contains(v));
        }
    }
    lemma_missing_insert(cur, next, all, j, v, cur.len());
    assert forall|k: int| 0 <= k < next.len() implies {
        &&& (#[trigger] next[k]).wf()
        &&& next[k].successors_spec() == start[k].successors_spec()
        &&& start[k].phis().subset_of(next[k].phis())
        &&& next[k].phis().subset_of(all)
        &&& next[k].written() == start[k].written().union(next[k].phis())
    } by {
        if k == j {
            assert(cur[j].wf());
            assert(next[j].written() =~= start[j].written().union(next[j].phis()));
        } else {
            assert(next[k] == cur[k]);
            assert(cur[k].wf());
        }
    }
    assert forall|other: Set<(int, B::Variable)>|
        phi_slots(start).subset_of(other) && #[trigger] phi_closed(
            g,
            start,
            other,
        ) implies phi_slots(next).subset_of(other) by {
        assert(phi_slots(cur).subset_of(other));
        assert forall|s: (int, B::Variable)| phi_slots(next).contains(s) implies other.contains(
            s,
        ) by {
            if s.0 == j && s.1 == v {
                if !start[i].written().contains(v) {
                    assert(cur[i].phis().contains(v));
                    assert(phi_slots(cur).contains((i, v)));
                }
                assert(in_frontier(g, i, j));
                assert(other.contains((j, v)));
            } else {
                if s.0 != j {
                    assert(next[s.0] == cur[s.0]);
                }
                assert(phi_slots(cur).contains(s));
            }
        }
    }
}

/// For every variable that block `i` writes, each block of the dominance
/// frontier of `i` has a phi statement.
spec fn settled<B: SSABasicBlock>(g: Seq<Seq<usize>>, cur: Seq<B>, i: int) -> bool {
    forall|j: int, v: B::Variable|
        0 <= j < cur.len() && in_frontier(g, i, j) && cur[i].written().contains(v) ==> (
        #[trigger] cur[j].phis().contains(v))
}

/// The blocks that are not settled are in the work list.
spec fn pending<B: SSABasicBlock>(
    g: Seq<Seq<usize>>,
    cur: Seq<B>,
    work: Seq<usize>,
    but: int,
) -> bool {
    forall|i: int|
        0 <= i < cur.len() && i != but ==> work.contains(i as usize) || #[trigger] settled(
            g,
            cur,
            i,
        )
}

/// Insert a phi statement without arguments in block `j`, for each variable
/// written in block `i`, if `j` is in the dominance frontier of `i`. A phi
/// statement writes its variable, so that this goes on until nothing is left
/// to insert: the phi statements that stand in the end are the least
/// placement.
pub fn insert_phi_statements<Cfg: SSAConfig>(
    basic_blocks: &mut [Cfg::BasicBlock],
    dominator_tree: &DominatorTree,
    env: &mut <Cfg::BasicBlock as SSABasicBlock>::Environment,
)
    requires
        dominator_tree.wf(),
        dominator_tree.graph().len() == old(basic_blocks)@.len(),
        all_wf(old(basic_blocks)@),
        old(env).wf(),
    ensures
        *final(env) == *old(env),
        final(basic_blocks)@.len() == old(basic_blocks)@.len(),
        all_wf(final(basic_blocks)@),
        phis_added(old(basic_blocks)@, final(basic_blocks)@),
        is_phi_placement(
            dominator_tree.graph(),
            old(basic_blocks)@,
            phi_slots(final(basic_blocks)@),
        ),
        forall|i: int|
            0 <= i < old(basic_blocks)@.len() ==> {
                &&& (#[trigger] final(basic_blocks)@[i]).written() == old(basic_blocks)@[i].written().union(final(basic_blocks)@[i].phis())
                &&& final(basic_blocks)@[i].successors_spec() == old(basic_blocks)@[i].successors_spec()
            },
        (forall|i: int|
            0 <= i < old(basic_blocks)@.len() ==> (#[trigger] old(basic_blocks)@[i]).written().is_empty()) ==> forall|i: int|
            0 <= i < old(basic_blocks)@.len() ==> (#[trigger] final(basic_blocks)@[i]).phis().is_empty(),
{
    let ghost g = dominator_tree.graph();
    let ghost start = basic_blocks@;
    let ghost all = written_below(start, start.len());
    let n = basic_blocks.len();
    let ghost mut added: Seq<Seq<<Cfg::BasicBlock as SSABasicBlock>::Variable>> = Seq::new(
        start.len(),
        |i: int| Seq::empty(),
    );
    proof {
        lemma_placing_start(g, start);
    }
    // Insert phi statements at the dominance frontier of each block.
    let mut work_list: Vec<Index> = Vec::new();
    let mut next: usize = 0;
    while next < n
        invariant
            next <= n,
            work_list@.len() == next,
            forall|i: int| 0 <= i < next ==> work_list@[i] == i,
        decreases n - next,
    {
        work_list.push(next);
        next += 1;
    }
    proof {
        assert forall|x: usize| x < n implies work_list@.contains(x) by {
            assert(work_list@[x as int] == x);
        }
    }
    while work_list.len() > 0
        invariant
            dominator_tree.wf(),
            g == dominator_tree.graph(),
            g.len() == n,
            start.len() == n,
            basic_blocks@.len() == n,
            all_wf(start),
            all == written_below(start, start.len()),
            all.finite(),
            env.wf(),
            *env == *old(env),
            placing(g, start, basic_blocks@, all),
            added.len() == n,
            forall|i: int| 0 <= i < n ==> phi_chain(start[i], #[trigger] added[i], basic_blocks@[i]),
            pending(g, basic_blocks@, work_list@, -1),
            forall|i: int| 0 <= i < work_list@.len() ==> work_list@[i] < n,
        decreases missing_below(basic_blocks@, all, n as nat), work_list@.len(),
    {
        let ghost work0 = work_list@;
        let ghost popped = basic_blocks@;
        let current_index = work_list.pop().unwrap();
        let ghost rest = work_list@;
        let ghost cur_i = current_index as int;
        proof {
            assert forall|x: usize| work0.contains(x) implies rest.contains(x) || x
                == current_index by {
                let i = choose|i: int| 0 <= i < work0.len() && work0[i] == x;
                if i < rest.len() {
                    assert(rest[i] == x);
                }
            }
            assert(pending(g, basic_blocks@, rest, cur_i));
        }
        let variables_written = basic_blocks[current_index].variables_written();
        let frontier = dominator_tree.get_dominance_frontier(current_index);
        proof {
            assert forall|f2: int| 0 <= f2 < frontier@.len() implies (#[trigger] frontier@[f2])
                < n by {
                assert(frontier@.contains(frontier@[f2]));
                assert(in_frontier(g, cur_i, frontier@[f2] as int));
            }
        }
        let mut f: usize = 0;
        while f < frontier.len()
            invariant
                forall|f2: int| 0 <= f2 < frontier@.len() ==> (#[trigger] frontier@[f2]) < n,
                dominator_tree.wf(),
                g == dominator_tree.graph(),
                g.len() == n,
                start.len() == n,
                basic_blocks@.len() == n,
                popped.len() == n,
                all_wf(start),
                all == written_below(start, start.len()),
                all.finite(),
                env.wf(),
                *env == *old(env),
                current_index < n,
                cur_i == current_index,
                f <= frontier@.len(),
                forall|j: usize| frontier@.contains(j) <==> in_frontier(g, cur_i, j as int),
                placing(g, start, basic_blocks@, all),
                added.len() == n,
                forall|i: int| 0 <= i < n ==> phi_chain(start[i], #[trigger] added[i], basic_blocks@[i]),
                pending(g, basic_blocks@, work_list@, cur_i),
                forall|i: int| 0 <= i < work_list@.len() ==> work_list@[i] < n,
                forall|k: int|
                    0 <= k < variables_written@.len() ==> basic_blocks@[cur_i].written().contains(
                        #[trigger] variables_written@[k],
                    ),
                work_list@.contains(current_index) || {
                    &&& basic_blocks@[cur_i].written() == variables_written@.to_set()
                    &&& forall|f2: int, k2: int|
                        0 <= f2 < f && 0 <= k2 < variables_written@.len()
                            ==> #[trigger] basic_blocks@[frontier@[f2] as int].phis().contains(
                            variables_written@[k2],
                        )
                },
                (missing_below(basic_blocks@, all, n as nat) == missing_below(popped, all, n as nat)
                    && work_list@.len() == rest.len()) || missing_below(
                    basic_blocks@,
                    all,
                    n as nat,
                ) < missing_below(popped, all, n as nat),
            decreases frontier@.len() - f,
        {
            let frontier_index = frontier[f];
            proof {
                assert(frontier@.contains(frontier_index));
                assert(in_frontier(g, cur_i, frontier_index as int));
            }
            let mut k: usize = 0;
            while k < variables_written.len()
                invariant
                    forall|f2: int| 0 <= f2 < frontier@.len() ==> (#[trigger] frontier@[f2]) < n,
                    g.len() == n,
                    start.len() == n,
                    basic_blocks@.len() == n,
                    popped.len() == n,
                    all_wf(start),
                    all == written_below(start, start.len()),
                    all.finite(),
                    env.wf(),
                    *env == *old(env),
                    current_index < n,
                    cur_i == current_index,
                    f < frontier@.len(),
                    frontier_index == frontier@[f as int],
                    frontier_index < n,
                    in_frontier(g, cur_i, frontier_index as int),
                    k <= variables_written@.len(),
                    placing(g, start, basic_blocks@, all),
                    added.len() == n,
                    forall|i: int| 0 <= i < n ==> phi_chain(start[i], #[trigger] added[i], basic_blocks@[i]),
                    pending(g, basic_blocks@, work_list@, cur_i),
                    forall|i: int| 0 <= i < work_list@.len() ==> work_list@[i] < n,
                    forall|k2: int|
                        0 <= k2 < variables_written@.len() ==> basic_blocks@[cur_i].written().contains(
                            #[trigger] variables_written@[k2],
                        ),
                    work_list@.contains(current_index) || {
                        &&& basic_blocks@[cur_i].written() == variables_written@.to_set()
                        &&& forall|f2: int, k2: int|
                            0 <= f2 < f && 0 <= k2 < variables_written@.len()
                                ==> #[trigger] basic_blocks@[frontier@[f2] as int].phis().contains(
                                variables_written@[k2],
                            )
                        &&& forall|k2: int|
                            0 <= k2 < k ==> basic_blocks@[frontier_index as int].phis().contains(
                                #[trigger] variables_written@[k2],
                            )
                    },
                    (missing_below(basic_blocks@, all, n as nat) == missing_below(
                        popped,
                        all,
                        n as nat,
                    ) && work_list@.len() == rest.len()) || missing_below(
                        basic_blocks@,
                        all,
                        n as nat,
                    ) < missing_below(popped, all, n as nat),
                decreases variables_written@.len() - k,
            {
                let var = &variables_written[k];
                if !basic_blocks[frontier_index].has_phi_statement(var) {
                    // If a phi statement was added to the block we need to
                    // re-add the block to the work list.
                    let ghost before = basic_blocks@;
                    let ghost work1 = work_list@;
                    basic_blocks[frontier_index].insert_phi_statement(var, env);
                    work_list.push(frontier_index);
                    proof {
                        let after = basic_blocks@;
                        let j = frontier_index as int;
                        lemma_phi_chain_step(start[j], added[j], before[j], *var, after[j]);
                        added = added.update(j, added[j].push(*var));
                        assert forall|i: int| 0 <= i < n implies phi_chain(
                            start[i],
                            #[trigger] added[i],
                            after[i],
                        ) by {
                            if i != j {
                                assert(after[i] == before[i]);
                            }
                        }
                        lemma_placing_step(
                            g,
                            start,
                            before,
                            after,
                            all,
                            cur_i,
                            frontier_index as int,
                            *var,
                        );
                        assert(work_list@[work_list@.len() - 1] == frontier_index);
                        assert(work_list@.contains(frontier_index));
                        assert forall|x: usize| work1.contains(x) implies work_list@.contains(
                            x,
                        ) by {
                            let i = choose|i: int| 0 <= i < work1.len() && work1[i] == x;
                            assert(work_list@[i] == x);
                        }
                        assert forall|i: int|
                            0 <= i < after.len() && i != cur_i implies work_list@.contains(
                            i as usize,
                        ) || #[trigger] settled(g, after, i) by {
                            if i != frontier_index && !work_list@.contains(i as usize) {
                                assert(settled(g, before, i));
                                assert(after[i] == before[i]);
                                assert forall|j: int, v: <Cfg::BasicBlock as SSABasicBlock>::Variable|
                                    0 <= j < after.len() && in_frontier(g, i, j)
                                        && after[i].written().contains(v) implies (
                                #[trigger] after[j].phis().contains(v)) by {
                                    assert(before[j].phis().contains(v));
                                    if j != frontier_index {
                                        assert(after[j] == before[j]);
                                    }
                                }
                            }
                        }
                        if !work_list@.contains(current_index) {
                            assert(after[cur_i] == before[cur_i]);
                            assert forall|f2: int, k2: int|
                                0 <= f2 < f && 0 <= k2 < variables_written@.len()
                                    implies #[trigger] after[frontier@[f2] as int].phis().contains(
                                variables_written@[k2],
                            ) by {
                                assert(before[frontier@[f2] as int].phis().contains(
                                    variables_written@[k2],
                                ));
                                if frontier@[f2] != frontier_index {
                                    assert(after[frontier@[f2] as int] == before[frontier@[f2] as int]);
                                }
                            }
                        }
                        assert forall|k2: int|
                            0 <= k2 < variables_written@.len() implies after[cur_i].written().contains(
                            #[trigger] variables_written@[k2],
                        ) by {
                            if cur_i != frontier_index {
                                assert(after[cur_i] == before[cur_i]);
                            }
                        }
                    }
                }
                k += 1;
            }
            f += 1;
        }
        proof {
            let cur = basic_blocks@;
            if !work_list@.contains(current_index) {
                assert forall|j: int, v: <Cfg::BasicBlock as SSABasicBlock>::Variable|
                    0 <= j < cur.len() && in_frontier(g, cur_i, j) && cur[cur_i].written().contains(
                        v,
                    ) implies (#[trigger] cur[j].phis().contains(v)) by {
                    assert(frontier@.contains(j as usize));
                    let f2 = choose|f2: int| 0 <= f2 < frontier@.len() && frontier@[f2] == j as usize;
                    assert(variables_written@.to_set().contains(v));
                    assert(variables_written@.contains(v));
                    let k2 = choose|k2: int|
                        0 <= k2 < variables_written@.len() && variables_written@[k2] == v;
                    assert(cur[frontier@[f2] as int].phis().contains(variables_written@[k2]));
                }
                assert(settled(g, cur, cur_i));
            }
        }
    }
    proof {
        let cur = basic_blocks@;
        let slots = phi_slots(cur);
        assert forall|i: int| 0 <= i < n implies #[trigger] extended_by_phis(start[i], cur[i]) by {
            assert(phi_chain(start[i], added[i], cur[i]));
        }
        assert(phi_slots(start).subset_of(slots)) by {
            assert forall|s: (int, <Cfg::BasicBlock as SSABasicBlock>::Variable)|
                phi_slots(start).contains(s) implies slots.contains(s) by {
                assert(cur[s.0].wf());
            }
        }
        assert(phi_closed(g, start, slots)) by {
            assert forall|i: int, j: int, v: <Cfg::BasicBlock as SSABasicBlock>::Variable|
                #![trigger in_frontier(g, i, j), slots.contains((j, v))]
                0 <= i < start.len() && 0 <= j < start.len() && in_frontier(g, i, j) && (
                start[i].written().contains(v) || slots.contains((i, v))) implies slots.contains(
                (j, v),
            ) by {
                assert(cur[i].wf());
                assert(!work_list@.contains(i as usize));
                assert(settled(g, cur, i));
                assert(cur[i].written().contains(v));
                assert(cur[j].phis().contains(v));
            }
        }
        assert(all_wf(cur)) by {
            assert forall|i: int| 0 <= i < cur.len() implies (#[trigger] cur[i]).wf() by {}
        }
        if forall|i: int| 0 <= i < start.len() ==> (#[trigger] start[i]).written().is_empty() {
            lemma_no_writes_no_phis(g, start, slots);
            assert forall|i: int| 0 <= i < start.len() implies (#[trigger] cur[i]).phis().is_empty() by {
                assert forall|v: <Cfg::BasicBlock as SSABasicBlock>::Variable|
                    !cur[i].phis().contains(v) by {
                    assert(!slots.contains((i, v)));
                }
                assert(cur[i].phis() =~= Set::empty());
            }
        }
    }
}

} // verus!
