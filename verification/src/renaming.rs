//! Renaming of variables into versions, along the dominator tree.
use crate::dominance::{dominator_depth, is_immediate_dominator, lemma_depth_increases};
use crate::dominator_tree::{strictly_ascending, DominatorTree, Index};
use crate::errors::SSAResult;
use crate::graph::well_formed;
use crate::phi_placement::all_wf;
use crate::traits::{SSABasicBlock, SSAConfig, SSAEnvironment};
use vstd::prelude::*;

verus! {

/// The control-flow graph that the successors of the blocks make up.
pub open spec fn cfg_of<B: SSABasicBlock>(blocks: Seq<B>) -> Seq<Seq<usize>> {
    Seq::new(blocks.len(), |i: int| blocks[i].successors_spec())
}

/// `kids` lists the children of `i` in the dominator tree of `g`, in
/// ascending order.
pub open spec fn is_children_list(g: Seq<Seq<usize>>, i: int, kids: Seq<usize>) -> bool {
    &&& strictly_ascending(kids)
    &&& forall|j: usize| kids.contains(j) <==> is_immediate_dominator(g, i, j as int)
}

/// `post` is `pre` but for block `i`, whose variables were renamed under
/// `env_pre`, which gave `env_post` and the result `r`.
#[verifier::opaque]
pub open spec fn block_renamed<B: SSABasicBlock>(
    pre: Seq<B>,
    i: int,
    env_pre: B::Environment,
    post: Seq<B>,
    env_post: B::Environment,
    r: SSAResult<()>,
) -> bool {
    &&& 0 <= i < pre.len()
    &&& post.len() == pre.len()
    &&& B::renamed(&pre[i], &env_pre, &post[i], &env_post, r)
    &&& forall|k: int| 0 <= k < pre.len() && k != i ==> post[k] == pre[k]
}

/// `post` is `pre` but for block `j`, whose phi statements took the versions
/// visible in `env`.
pub open spec fn block_patched<B: SSABasicBlock>(
    pre: Seq<B>,
    j: int,
    env: B::Environment,
    post: Seq<B>,
) -> bool {
    &&& 0 <= j < pre.len()
    &&& post.len() == pre.len()
    &&& B::phis_updated(&pre[j], &env, &post[j])
    &&& forall|k: int| 0 <= k < pre.len() && k != j ==> post[k] == pre[k]
}

/// `post` is `pre` after the phi statements of the first `k` blocks in
/// `succ` took, one block after the other, the versions visible in `env`.
pub open spec fn successors_patched<B: SSABasicBlock>(
    succ: Seq<usize>,
    k: nat,
    pre: Seq<B>,
    env: B::Environment,
    post: Seq<B>,
) -> bool
    decreases k,
{
    if k == 0 {
        post == pre
    } else {
        exists|mid: Seq<B>|
            {
                &&& successors_patched(succ, (k - 1) as nat, pre, env, mid)
                &&& #[trigger] block_patched(mid, succ[k - 1] as int, env, post)
            }
    }
}

/// The conversion of the children in `kids` ended after `k` of them: with
/// an error, or when all were converted.
pub open spec fn children_ended(kids: Seq<usize>, k: nat, r: SSAResult<()>) -> bool {
    &&& k <= kids.len()
    &&& r is Ok ==> k == kids.len()
}

/// `inner` is `outer` with one more, empty scope.
pub open spec fn scope_entered<B: SSABasicBlock>(
    outer: (Seq<B>, B::Environment),
    inner: (Seq<B>, B::Environment),
) -> bool {
    inner.0 == outer.0 && B::Environment::scope_added(&outer.1, &inner.1)
}

/// `outer` is `inner` without its innermost scope.
pub open spec fn scope_left<B: SSABasicBlock>(
    inner: (Seq<B>, B::Environment),
    outer: (Seq<B>, B::Environment),
) -> bool {
    outer.0 == inner.0 && B::Environment::scope_removed(&inner.1, &outer.1)
}

/// `post`, `env_post` and `r` are what the conversion of the subtree of `i`
/// in the dominator tree of `g` makes of `pre` and `env_pre`: the variables
/// of block `i` are renamed; if that fails, its error is the result; else
/// the phi statements of the successors of `i` take the versions visible
/// then, and the children of `i` are converted in ascending order, up to the
/// first that fails.
pub open spec fn subtree_converted<B: SSABasicBlock>(
    g: Seq<Seq<usize>>,
    i: int,
    pre: Seq<B>,
    env_pre: B::Environment,
    post: Seq<B>,
    env_post: B::Environment,
    r: SSAResult<()>,
) -> bool
    decreases g.len() - dominator_depth(g, i), 1nat, 0nat,
{
    exists|own: Seq<B>, env_own: B::Environment, r_own: SSAResult<()>|
        {
            &&& #[trigger] block_renamed(pre, i, env_pre, own, env_own, r_own)
            &&& if r_own is Err {
                post == own && env_post == env_own && r == r_own
            } else {
                exists|patched: Seq<B>, kids: Seq<usize>, k: nat|
                    {
                        &&& #[trigger] successors_patched(
                            own[i].successors_spec(),
                            own[i].successors_spec().len(),
                            own,
                            env_own,
                            patched,
                        )
                        &&& is_children_list(g, i, kids)
                        &&& #[trigger] children_ended(kids, k, r)
                        &&& children_converted(
                            g,
                            i,
                            kids,
                            k,
                            patched,
                            env_own,
                            post,
                            env_post,
                            r,
                        )
                    }
            }
        }
}

/// `post`, `env_post` and `r` are what the conversion of the first `k`
/// children in `kids` makes of `pre` and `env_pre`, each in a scope of its
/// own, where all but the last of them succeed and `r` is the result of the
/// last.
pub open spec fn children_converted<B: SSABasicBlock>(
    g: Seq<Seq<usize>>,
    i: int,
    kids: Seq<usize>,
    k: nat,
    pre: Seq<B>,
    env_pre: B::Environment,
    post: Seq<B>,
    env_post: B::Environment,
    r: SSAResult<()>,
) -> bool
    decreases g.len() - dominator_depth(g, i), 0nat, k,
{
    if k == 0 {
        post == pre && env_post == env_pre && r is Ok
    } else {
        exists|
            outer: (Seq<B>, B::Environment),
            inner: (Seq<B>, B::Environment),
            done: (Seq<B>, B::Environment),
        |
            {
                &&& children_converted(
                    g,
                    i,
                    kids,
                    (k - 1) as nat,
                    pre,
                    env_pre,
                    outer.0,
                    outer.1,
                    Ok(()),
                )
                &&& #[trigger] scope_entered(outer, inner)
                &&& dominator_depth(g, i) < dominator_depth(g, kids[k - 1] as int) <= g.len()
                &&& subtree_converted(g, kids[k - 1] as int, inner.0, inner.1, done.0, done.1, r)
                &&& #[trigger] scope_left(done, (post, env_post))
            }
    }
}

/// `post` has the blocks of `pre`, with their invariants and successors.
pub open spec fn same_shape<B: SSABasicBlock>(pre: Seq<B>, post: Seq<B>) -> bool {
    &&& post.len() == pre.len()
    &&& forall|k: int|
        0 <= k < pre.len() ==> (#[trigger] post[k]).wf() && post[k].successors_spec()
            == pre[k].successors_spec()
}

/// One more patched successor.
proof fn lemma_patched_step<B: SSABasicBlock>(
    succ: Seq<usize>,
    k: nat,
    pre: Seq<B>,
    env: B::Environment,
    mid: Seq<B>,
    post: Seq<B>,
)
    requires
        successors_patched(succ, k, pre, env, mid),
        block_patched(mid, succ[k as int] as int, env, post),
    ensures
        successors_patched(succ, k + 1, pre, env, post),
{
    let k1: nat = k + 1;
    assert(successors_patched(succ, (k1 - 1) as nat, pre, env, mid));
    assert(block_patched(mid, succ[k1 - 1] as int, env, post));
}

/// One more converted child.
proof fn lemma_children_step<B: SSABasicBlock>(
    g: Seq<Seq<usize>>,
    i: int,
    kids: Seq<usize>,
    k: nat,
    pre: Seq<B>,
    env_pre: B::Environment,
    mid: Seq<B>,
    env_mid: B::Environment,
    env_in: B::Environment,
    post: Seq<B>,
    env_out: B::Environment,
    env_post: B::Environment,
    r: SSAResult<()>,
)
    requires
        children_converted(g, i, kids, k, pre, env_pre, mid, env_mid, Ok(())),
        B::Environment::scope_added(&env_mid, &env_in),
        dominator_depth(g, i) < dominator_depth(g, kids[k as int] as int) <= g.len(),
        subtree_converted(g, kids[k as int] as int, mid, env_in, post, env_out, r),
        B::Environment::scope_removed(&env_out, &env_post),
    ensures
        children_converted(g, i, kids, k + 1, pre, env_pre, post, env_post, r),
{
    let k1: nat = k + 1;
    assert(children_converted(g, i, kids, (k1 - 1) as nat, pre, env_pre, mid, env_mid, Ok(())));
    assert(subtree_converted(g, kids[k1 - 1] as int, mid, env_in, post, env_out, r));
    assert(scope_entered((mid, env_mid), (mid, env_in)));
    assert(scope_left((post, env_out), (post, env_post)));
}

/// A subtree whose own block cannot be renamed.
proof fn lemma_subtree_failed<B: SSABasicBlock>(
    g: Seq<Seq<usize>>,
    i: int,
    pre: Seq<B>,
    env_pre: B::Environment,
    own: Seq<B>,
    env_own: B::Environment,
    r: SSAResult<()>,
)
    requires
        block_renamed(pre, i, env_pre, own, env_own, r),
        r is Err,
    ensures
        subtree_converted(g, i, pre, env_pre, own, env_own, r),
{
}

/// A subtree whose own block is renamed, with its successors patched and
/// its children converted as far as they could be.
proof fn lemma_subtree_done<B: SSABasicBlock>(
    g: Seq<Seq<usize>>,
    i: int,
    pre: Seq<B>,
    env_pre: B::Environment,
    own: Seq<B>,
    env_own: B::Environment,
    r_own: SSAResult<()>,
    patched: Seq<B>,
    kids: Seq<usize>,
    k: nat,
    post: Seq<B>,
    env_post: B::Environment,
    r: SSAResult<()>,
)
    requires
        block_renamed(pre, i, env_pre, own, env_own, r_own),
        r_own is Ok,
        successors_patched(
            own[i].successors_spec(),
            own[i].successors_spec().len(),
            own,
            env_own,
            patched,
        ),
        is_children_list(g, i, kids),
        children_ended(kids, k, r),
        children_converted(g, i, kids, k, patched, env_own, post, env_post, r),
    ensures
        subtree_converted(g, i, pre, env_pre, post, env_post, r),
{
}

/// Converts the subtree of `current_index` in the dominator tree.
fn insert_ssa_variables_impl<Cfg: SSAConfig>(
    current_index: Index,
    basic_blocks: &mut [Cfg::BasicBlock],
    dominator_tree: &DominatorTree,
    env: &mut <Cfg::BasicBlock as SSABasicBlock>::Environment,
) -> (r: SSAResult<()>)
    requires
        dominator_tree.wf(),
        dominator_tree.graph().len() == old(basic_blocks)@.len(),
        current_index < old(basic_blocks)@.len(),
        all_wf(old(basic_blocks)@),
        well_formed(cfg_of(old(basic_blocks)@)),
        old(env).wf(),
    ensures
        subtree_converted(
            dominator_tree.graph(),
            current_index as int,
            old(basic_blocks)@,
            *old(env),
            final(basic_blocks)@,
            *final(env),
            r,
        ),
        same_shape(old(basic_blocks)@, final(basic_blocks)@),
        final(env).wf(),
        final(env).depth() == old(env).depth(),
    decreases dominator_tree.graph().len() - dominator_depth(
        dominator_tree.graph(),
        current_index as int,
    ),
{
    let ghost g = dominator_tree.graph();
    let ghost start = basic_blocks@;
    let ghost env_start = *env;
    let ghost cur_i = current_index as int;
    let n = basic_blocks.len();
    // 1. Update variables in current block.
    let renamed = basic_blocks[current_index].insert_ssa_variables(env);
    let ghost own = basic_blocks@;
    let ghost env_own = *env;
    let ghost r_own = renamed;
    proof {
        reveal(block_renamed);
        assert(block_renamed(start, cur_i, env_start, own, env_own, renamed));
        assert(same_shape(start, own)) by {
            assert forall|k: int| 0 <= k < start.len() implies (#[trigger] own[k]).wf()
                && own[k].successors_spec() == start[k].successors_spec() by {
                if k != cur_i {
                    assert(own[k] == start[k]);
                }
                assert(start[k].wf());
            }
        }
    }
    if renamed.is_err() {
        proof {
            lemma_subtree_failed(g, cur_i, start, env_start, own, env_own, renamed);
        }
        return renamed;
    }
    let successors = basic_blocks[current_index].successors();
    proof {
        assert forall|k: int| 0 <= k < successors@.len() implies (#[trigger] successors@[k])
            < n by {
            assert(cfg_of(start)[cur_i][k] < n);
        }
    }
    // 2. Update phi statements in successor blocks.
    let mut s: usize = 0;
    while s < successors.len()
        invariant
            s <= successors@.len(),
            basic_blocks@.len() == n,
            own.len() == n,
            env.wf(),
            *env == env_own,
            forall|k: int| 0 <= k < successors@.len() ==> (#[trigger] successors@[k]) < n,
            same_shape(own, basic_blocks@),
            successors_patched(successors@, s as nat, own, env_own, basic_blocks@),
        decreases successors@.len() - s,
    {
        let successor_index = successors[s];
        let ghost before = basic_blocks@;
        basic_blocks[successor_index].update_phi_statements(env);
        proof {
            let after = basic_blocks@;
            assert(block_patched(before, successor_index as int, env_own, after));
            lemma_patched_step(successors@, s as nat, own, env_own, before, after);
            assert forall|k: int| 0 <= k < own.len() implies (#[trigger] after[k]).wf()
                && after[k].successors_spec() == own[k].successors_spec() by {
                if k != successor_index {
                    assert(after[k] == before[k]);
                }
                assert(before[k].wf());
            }
        }
        s += 1;
    }
    let ghost patched = basic_blocks@;
    proof {
        assert(successors@ == own[cur_i].successors_spec());
    }
    // 3. Update dominator tree successors recursively.
    let children = dominator_tree.get_dominator_successors(current_index);
    proof {
        assert(is_children_list(g, cur_i, children@));
    }
    let mut c: usize = 0;
    while c < children.len()
        invariant
            dominator_tree.wf(),
            g == dominator_tree.graph(),
            g.len() == n,
            cur_i == current_index,
            c <= children@.len(),
            is_children_list(g, cur_i, children@),
            start == old(basic_blocks)@,
            env_start == *old(env),
            env_own.depth() == env_start.depth(),
            block_renamed(start, cur_i, env_start, own, env_own, r_own),
            r_own is Ok,
            successors_patched(
                own[cur_i].successors_spec(),
                own[cur_i].successors_spec().len(),
                own,
                env_own,
                patched,
            ),
            basic_blocks@.len() == n,
            start.len() == n,
            patched.len() == n,
            well_formed(cfg_of(start)),
            same_shape(start, patched),
            same_shape(patched, basic_blocks@),
            env.wf(),
            env.depth() == env_own.depth(),
            children_converted(
                g,
                cur_i,
                children@,
                c as nat,
                patched,
                env_own,
                basic_blocks@,
                *env,
                Ok(()),
            ),
        decreases children@.len() - c,
    {
        let successor_index = children[c];
        let ghost mid = basic_blocks@;
        let ghost env_mid = *env;
        proof {
            assert(children@.contains(successor_index));
            assert(is_immediate_dominator(g, cur_i, successor_index as int));
            lemma_depth_increases(g, cur_i, successor_index as int);
            crate::dominance::lemma_dominates_reachable(g, cur_i, successor_index as int);
            assert(all_wf(mid)) by {
                assert forall|k: int| 0 <= k < mid.len() implies (#[trigger] mid[k]).wf() by {}
            }
            assert(cfg_of(mid) =~= cfg_of(start)) by {
                assert forall|k: int| 0 <= k < n implies cfg_of(mid)[k] == cfg_of(start)[k] by {
                    assert(mid[k].successors_spec() == patched[k].successors_spec());
                    assert(patched[k].successors_spec() == start[k].successors_spec());
                }
            }
        }
        env.add_variable_scope();
        let ghost env_in = *env;
        let converted = insert_ssa_variables_impl::<Cfg>(
            successor_index,
            basic_blocks,
            dominator_tree,
            env,
        );
        let ghost env_out = *env;
        env.remove_variable_scope();
        proof {
            let after = basic_blocks@;
            lemma_children_step(
                g,
                cur_i,
                children@,
                c as nat,
                patched,
                env_own,
                mid,
                env_mid,
                env_in,
                after,
                env_out,
                *env,
                converted,
            );
            assert(same_shape(patched, after)) by {
                assert forall|k: int| 0 <= k < patched.len() implies (#[trigger] after[k]).wf()
                    && after[k].successors_spec() == patched[k].successors_spec() by {
                    assert(mid[k].successors_spec() == patched[k].successors_spec());
                }
            }
        }
        if converted.is_err() {
            proof {
                let after = basic_blocks@;
                assert(same_shape(start, after)) by {
                    assert forall|k: int| 0 <= k < start.len() implies (#[trigger] after[k]).wf()
                        && after[k].successors_spec() == start[k].successors_spec() by {
                        assert(patched[k].successors_spec() == start[k].successors_spec());
                    }
                }
                lemma_subtree_done(
                    g,
                    cur_i,
                    start,
                    env_start,
                    own,
                    env_own,
                    r_own,
                    patched,
                    children@,
                    (c + 1) as nat,
                    after,
                    *env,
                    converted,
                );
            }
            return converted;
        }
        assert(converted == Ok::<(), crate::errors::SSAError>(())) by {
            assert(converted is Ok);
            let u = converted->Ok_0;
            assert(u == ());
            assert(converted == Ok::<(), crate::errors::SSAError>(u));
        }
        c += 1;
    }
    proof {
        let after = basic_blocks@;
        assert(same_shape(start, after)) by {
            assert forall|k: int| 0 <= k < start.len() implies (#[trigger] after[k]).wf()
                && after[k].successors_spec() == start[k].successors_spec() by {
                assert(patched[k].successors_spec() == start[k].successors_spec());
            }
        }
        lemma_subtree_done(
            g,
            cur_i,
            start,
            env_start,
            own,
            env_own,
            r_own,
            patched,
            children@,
            children@.len(),
            after,
            *env,
            Ok(()),
        );
    }
    Ok(())
}

/// Traverses the dominator tree in pre-order and for each block, the function
///
/// 1. Renames all variables to SSA form, keeping track of the current
///    version of each variable.
/// 2. Updates phi expression arguments in each successor of the current
///    block, adding the correct versioned arguments to the expression.
///
/// Each child of a block in the dominator tree is converted in a scope of
/// its own, which is removed again whether or not the child could be
/// converted. The first block that cannot be renamed ends the conversion
/// with its error.
pub fn insert_ssa_variables<Cfg: SSAConfig>(
    basic_blocks: &mut [Cfg::BasicBlock],
    dominator_tree: &DominatorTree,
    env: &mut <Cfg::BasicBlock as SSABasicBlock>::Environment,
) -> (r: SSAResult<()>)
    requires
        dominator_tree.wf(),
        dominator_tree.graph().len() == old(basic_blocks)@.len(),
        old(basic_blocks)@.len() > 0,
        all_wf(old(basic_blocks)@),
        well_formed(cfg_of(old(basic_blocks)@)),
        old(env).wf(),
    ensures
        subtree_converted(
            dominator_tree.graph(),
            0,
            old(basic_blocks)@,
            *old(env),
            final(basic_blocks)@,
            *final(env),
            r,
        ),
        same_shape(old(basic_blocks)@, final(basic_blocks)@),
        final(env).wf(),
        final(env).depth() == old(env).depth(),
{
    insert_ssa_variables_impl::<Cfg>(0, basic_blocks, dominator_tree, env)
}

} // verus!
