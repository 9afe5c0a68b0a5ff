//! Every argument of a phi statement of a converted graph arrives over an
//! edge of the graph and names a version that reaches the end of the block
//! that the edge leaves.
use crate::basic_block::{
    block_run, indexed, is_empty_phi, lemma_block_run_block, lemma_phis_lead, patched_arguments,
    statement_patched, BasicBlock,
};
use crate::phi_placement::{extended_by_phis, phi_chain, phis_added};
use crate::dominance::{
    dominates,
    dominator_depth,
    is_immediate_dominator,
    lemma_child_below,
    lemma_dominates_reachable,
    lemma_dominates_reflexive,
    lemma_dominates_transitive,
    lemma_subtrees_disjoint,
};
use crate::dominance_property::{
    assigned_above,
    assigned_in,
    lemma_assigned_above_persists,
    lemma_assigned_persists,
    lemma_children_sound,
    lemma_patched_occurrences,
    lemma_visible_after_block,
    lemma_visible_in_child,
    same_occurrences,
    visible_sound,
};
use crate::graph::well_formed;
use crate::renaming::cfg_of;
use crate::environment::{EnvModel, Environment};
use crate::errors::{SSAError, SSAResult};
use crate::graph::has_edge;
use crate::ir::{Expression, PhiArgument, Statement, VariableId, Version};
use crate::renaming::{
    block_patched, block_renamed, children_converted, children_ended, is_children_list,
    scope_entered, scope_left, subtree_converted, successors_patched,
};
use crate::traits::SSABasicBlock;
use crate::versioning::{statement_phi, statement_renamed};
use vstd::prelude::*;

verus! {

/// The arguments of `stmt`, if it is a phi statement.
pub open spec fn phi_arguments(stmt: Statement) -> Seq<PhiArgument> {
    match stmt {
        Statement::Substitution { rhe: Expression::Phi { args, .. }, .. } => args@,
        _ => Seq::empty(),
    }
}

/// `a` is an argument of a phi statement for `x` in `block`.
pub open spec fn has_argument(block: BasicBlock, x: VariableId, a: PhiArgument) -> bool {
    exists|s: int|
        0 <= s < block.stmts@.len() && statement_phi(block.stmts@[s]) == Some(x) && (
        #[trigger] phi_arguments(block.stmts@[s])).contains(a)
}

/// No phi statement of `blocks` has an argument.
pub open spec fn without_arguments(blocks: Seq<BasicBlock>) -> bool {
    forall|j: int, x: VariableId, a: PhiArgument|
        0 <= j < blocks.len() ==> !#[trigger] has_argument(blocks[j], x, a)
}

/// `b` has the index and the neighbours of `a`.
pub open spec fn same_frame(a: BasicBlock, b: BasicBlock) -> bool {
    &&& b.index == a.index
    &&& b.successors@ == a.successors@
    &&& b.predecessors@ == a.predecessors@
}

/// The phi statements of `b` have the arguments that those of `a` have.
pub open spec fn same_arguments(a: BasicBlock, b: BasicBlock) -> bool {
    forall|x: VariableId, arg: PhiArgument|
        #![trigger has_argument(b, x, arg)]
        #![trigger has_argument(a, x, arg)]
        has_argument(b, x, arg) <==> has_argument(a, x, arg)
}

/// A block that was renamed has the frame and the phi arguments that it
/// had, and the environment notes its index.
pub proof fn lemma_renamed_arguments(
    pre: Seq<BasicBlock>,
    i: int,
    env_pre: Environment,
    own: Seq<BasicBlock>,
    env_own: Environment,
)
    requires
        block_renamed(pre, i, env_pre, own, env_own, Ok(())),
    ensures
        own.len() == pre.len(),
        0 <= i < pre.len(),
        env_own@.block == pre[i].index,
        forall|d: int| 0 <= d < pre.len() ==> #[trigger] same_frame(pre[d], own[d]),
        forall|d: int| 0 <= d < pre.len() ==> #[trigger] same_arguments(pre[d], own[d]),
{
    reveal(block_renamed);
    let m = env_pre@.entered(pre[i].index);
    lemma_block_run_block(pre[i].stmts@, m, pre[i].stmts@.len());
    assert forall|d: int| 0 <= d < pre.len() implies #[trigger] same_arguments(pre[d], own[d]) by {
        if d == i {
            assert forall|s: int| 0 <= s < pre[i].stmts@.len() implies phi_arguments(
                own[i].stmts@[s],
            ) == phi_arguments(pre[i].stmts@[s]) && statement_phi(own[i].stmts@[s])
                == statement_phi(pre[i].stmts@[s]) by {
                assert(statement_renamed(
                    pre[i].stmts@[s],
                    block_run(pre[i].stmts@, m, s as nat).0,
                    own[i].stmts@[s],
                ));
            }
            assert forall|x: VariableId, arg: PhiArgument|
                has_argument(own[i], x, arg) <==> has_argument(pre[i], x, arg) by {
                if has_argument(own[i], x, arg) {
                    let s = choose|s: int|
                        0 <= s < own[i].stmts@.len() && statement_phi(own[i].stmts@[s]) == Some(x)
                            && (#[trigger] phi_arguments(own[i].stmts@[s])).contains(arg);
                    assert(phi_arguments(pre[i].stmts@[s]) == phi_arguments(own[i].stmts@[s]));
                }
                if has_argument(pre[i], x, arg) {
                    let s = choose|s: int|
                        0 <= s < pre[i].stmts@.len() && statement_phi(pre[i].stmts@[s]) == Some(x)
                            && (#[trigger] phi_arguments(pre[i].stmts@[s])).contains(arg);
                    assert(phi_arguments(own[i].stmts@[s]) == phi_arguments(pre[i].stmts@[s]));
                }
            }
        } else {
            assert(own[d] == pre[d]);
        }
    }
    assert forall|d: int| 0 <= d < pre.len() implies #[trigger] same_frame(pre[d], own[d]) by {
        if d != i {
            assert(own[d] == pre[d]);
        }
    }
}

/// An argument that a block has after the phi statements of the first `k`
/// blocks in `succ` were patched was there before, or it is the version
/// that is visible in `env`, arrived from the block of `env`, in one of
/// these blocks.
pub proof fn lemma_patched_arguments(
    succ: Seq<usize>,
    k: nat,
    pre: Seq<BasicBlock>,
    env: Environment,
    post: Seq<BasicBlock>,
    j: int,
    x: VariableId,
    a: PhiArgument,
)
    requires
        k <= succ.len(),
        successors_patched(succ, k, pre, env, post),
        0 <= j < pre.len(),
        has_argument(post[j], x, a),
    ensures
        has_argument(pre[j], x, a) || (a.predecessor == env@.block && env@.visible(x) == Some(
            a.version,
        ) && exists|t: int| 0 <= t < k && #[trigger] succ[t] == j),
    decreases k,
{
    if k > 0 {
        let mid = choose|mid: Seq<BasicBlock>|
            successors_patched(succ, (k - 1) as nat, pre, env, mid) && #[trigger] block_patched(
                mid,
                succ[k - 1] as int,
                env,
                post,
            );
        lemma_patched_frame(succ, (k - 1) as nat, pre, env, mid, j);
        if j == succ[k - 1] as int {
            let s = choose|s: int|
                0 <= s < post[j].stmts@.len() && statement_phi(post[j].stmts@[s]) == Some(x) && (
                #[trigger] phi_arguments(post[j].stmts@[s])).contains(a);
            assert(statement_patched(mid[j].stmts@[s], env@, post[j].stmts@[s]));
            let args = phi_arguments(mid[j].stmts@[s]);
            assert(statement_phi(mid[j].stmts@[s]) == Some(x));
            assert(phi_arguments(post[j].stmts@[s]) == patched_arguments(args, x, env@));
            if args.contains(a) {
                assert(has_argument(mid[j], x, a));
                lemma_patched_arguments(succ, (k - 1) as nat, pre, env, mid, j, x, a);
                if !has_argument(pre[j], x, a) {
                    let t = choose|t: int| 0 <= t < k - 1 && #[trigger] succ[t] == j;
                    assert(succ[t] == j);
                }
            } else {
                let grown = patched_arguments(args, x, env@);
                let n = choose|n: int| 0 <= n < grown.len() && grown[n] == a;
                assert(n == args.len()) by {
                    if n < args.len() {
                        assert(args[n] == a);
                    }
                }
                assert(succ[k - 1] == j);
            }
        } else {
            assert(post[j] == mid[j]);
            lemma_patched_arguments(succ, (k - 1) as nat, pre, env, mid, j, x, a);
            if !has_argument(pre[j], x, a) {
                let t = choose|t: int| 0 <= t < k - 1 && #[trigger] succ[t] == j;
                assert(succ[t] == j);
            }
        }
    }
}

/// Patching leaves the frame of every block as it is, and takes no
/// argument away.
pub proof fn lemma_patched_frame(
    succ: Seq<usize>,
    k: nat,
    pre: Seq<BasicBlock>,
    env: Environment,
    post: Seq<BasicBlock>,
    j: int,
)
    requires
        k <= succ.len(),
        successors_patched(succ, k, pre, env, post),
        0 <= j < pre.len(),
    ensures
        post.len() == pre.len(),
        same_frame(pre[j], post[j]),
    decreases k,
{
    if k > 0 {
        let mid = choose|mid: Seq<BasicBlock>|
            successors_patched(succ, (k - 1) as nat, pre, env, mid) && #[trigger] block_patched(
                mid,
                succ[k - 1] as int,
                env,
                post,
            );
        lemma_patched_frame(succ, (k - 1) as nat, pre, env, mid, j);
        if j != succ[k - 1] as int {
            assert(post[j] == mid[j]);
        }
    }
}

/// The version `v` of `x` reaches the end of block `p`: it is the version
/// that `x` has from the start, or it is assigned in `p` or in a block that
/// strictly dominates `p`.
pub open spec fn reaches_end(
    g: Seq<Seq<usize>>,
    init: EnvModel,
    blocks: Seq<BasicBlock>,
    x: VariableId,
    v: Version,
    p: int,
) -> bool {
    ||| init.visible(x) == Some(v)
    ||| (0 <= p < blocks.len() && assigned_in(blocks[p], x, v))
    ||| assigned_above(g, blocks, x, v, p)
}

/// The argument `a` of a phi statement for `x` in block `j` arrives over an
/// edge from a block that can be reached, and names a version that reaches
/// the end of that block.
#[verifier::opaque]
pub open spec fn argument_sound(
    g: Seq<Seq<usize>>,
    init: EnvModel,
    blocks: Seq<BasicBlock>,
    j: int,
    x: VariableId,
    a: PhiArgument,
) -> bool {
    &&& has_edge(g, a.predecessor as int, j)
    &&& dominates(g, a.predecessor as int, a.predecessor as int)
    &&& reaches_end(g, init, blocks, x, a.version, a.predecessor as int)
}

/// Every argument of a phi statement of `blocks` is sound.
#[verifier::opaque]
pub open spec fn arguments_sound(g: Seq<Seq<usize>>, init: EnvModel, blocks: Seq<BasicBlock>) -> bool {
    forall|j: int, x: VariableId, a: PhiArgument|
        0 <= j < blocks.len() && #[trigger] has_argument(blocks[j], x, a) ==> argument_sound(
            g,
            init,
            blocks,
            j,
            x,
            a,
        )
}

/// No argument of a phi statement of `blocks` arrives from a block that `i`
/// dominates.
#[verifier::opaque]
pub open spec fn arguments_outside(g: Seq<Seq<usize>>, blocks: Seq<BasicBlock>, i: int) -> bool {
    forall|j: int, x: VariableId, a: PhiArgument|
        0 <= j < blocks.len() && #[trigger] has_argument(blocks[j], x, a) ==> !dominates(
            g,
            i,
            a.predecessor as int,
        )
}

/// Every argument of a phi statement of `post` arrives from a block that
/// `i` dominates, or is an argument of `pre`.
#[verifier::opaque]
pub open spec fn arguments_from(
    g: Seq<Seq<usize>>,
    pre: Seq<BasicBlock>,
    post: Seq<BasicBlock>,
    i: int,
) -> bool {
    forall|j: int, x: VariableId, a: PhiArgument|
        0 <= j < post.len() && #[trigger] has_argument(post[j], x, a) ==> dominates(
            g,
            i,
            a.predecessor as int,
        ) || has_argument(pre[j], x, a)
}

/// One of the first `k` nodes in `kids` dominates `p`.
pub open spec fn inside_subtrees(g: Seq<Seq<usize>>, kids: Seq<usize>, k: nat, p: int) -> bool {
    exists|l: int| 0 <= l < k && dominates(g, #[trigger] kids[l] as int, p)
}

/// Every argument of a phi statement of `post` arrives from a block below
/// one of the first `k` nodes in `kids`, or is an argument of `pre`.
#[verifier::opaque]
pub open spec fn arguments_from_children(
    g: Seq<Seq<usize>>,
    pre: Seq<BasicBlock>,
    post: Seq<BasicBlock>,
    kids: Seq<usize>,
    k: nat,
) -> bool {
    forall|j: int, x: VariableId, a: PhiArgument|
        0 <= j < post.len() && #[trigger] has_argument(post[j], x, a) ==> inside_subtrees(
            g,
            kids,
            k,
            a.predecessor as int,
        ) || has_argument(pre[j], x, a)
}

/// All blocks of `post` have the frames of the blocks of `pre`.
pub open spec fn same_frames(pre: Seq<BasicBlock>, post: Seq<BasicBlock>) -> bool {
    &&& post.len() == pre.len()
    &&& forall|d: int| 0 <= d < pre.len() ==> #[trigger] same_frame(pre[d], post[d])
}

/// Blocks with the same frames make the same graph and hold the same
/// places.
proof fn lemma_same_frames_graph(pre: Seq<BasicBlock>, post: Seq<BasicBlock>)
    requires
        same_frames(pre, post),
    ensures
        cfg_of(post) == cfg_of(pre),
        indexed(pre) ==> indexed(post),
{
    assert(cfg_of(post) =~= cfg_of(pre)) by {
        assert forall|d: int| 0 <= d < pre.len() implies cfg_of(post)[d] == cfg_of(pre)[d] by {
            assert(same_frame(pre[d], post[d]));
        }
    }
    if indexed(pre) {
        assert forall|d: int| 0 <= d < post.len() implies (#[trigger] post[d]).index == d by {
            assert(same_frame(pre[d], post[d]));
        }
    }
}

/// Having the same frames carries over from one state of the blocks to the
/// next.
proof fn lemma_same_frames_twice(a: Seq<BasicBlock>, b: Seq<BasicBlock>, c: Seq<BasicBlock>)
    requires
        same_frames(a, b),
        same_frames(b, c),
    ensures
        same_frames(a, c),
{
    assert forall|d: int| 0 <= d < a.len() implies #[trigger] same_frame(a[d], c[d]) by {
        assert(same_frame(a[d], b[d]));
        assert(same_frame(b[d], c[d]));
    }
}

/// A sound argument stays sound while the blocks that dominate the block
/// that it arrives from read and assign what they did.
proof fn lemma_argument_persists(
    g: Seq<Seq<usize>>,
    init: EnvModel,
    pre: Seq<BasicBlock>,
    post: Seq<BasicBlock>,
    j: int,
    x: VariableId,
    a: PhiArgument,
)
    requires
        post.len() == pre.len(),
        argument_sound(g, init, pre, j, x, a),
        forall|d: int|
            0 <= d < pre.len() && dominates(g, d, a.predecessor as int)
                ==> #[trigger] same_occurrences(pre[d], post[d]),
    ensures
        argument_sound(g, init, post, j, x, a),
{
    reveal(argument_sound);
    let p = a.predecessor as int;
    let v = a.version;
    if init.visible(x) != Some(v) {
        if 0 <= p < pre.len() && assigned_in(pre[p], x, v) {
            assert(same_occurrences(pre[p], post[p]));
            lemma_assigned_persists(pre[p], post[p], x, v, pre[p].stmts@.len() as int);
            reveal(same_occurrences);
        } else {
            lemma_assigned_above_persists(g, pre, post, x, v, p);
        }
    }
}

/// The version that is visible at the end of block `i` makes a sound
/// argument in each successor of `i`.
proof fn lemma_new_argument(
    g: Seq<Seq<usize>>,
    init: EnvModel,
    blocks: Seq<BasicBlock>,
    m: EnvModel,
    i: int,
    j: int,
    x: VariableId,
    a: PhiArgument,
)
    requires
        blocks.len() == g.len(),
        visible_sound(g, init, blocks, m, i, true),
        has_edge(g, i, j),
        dominates(g, i, i),
        a.predecessor == i,
        m.visible(x) == Some(a.version),
    ensures
        argument_sound(g, init, blocks, j, x, a),
{
    reveal(argument_sound);
    reveal(visible_sound);
    if init.visible(x) != Some(a.version) {
        if !assigned_in(blocks[i], x, a.version) {
            assert(assigned_above(g, blocks, x, a.version, i));
        }
    }
}

/// Every argument of a phi statement of `post` arrives from block `i`, or
/// is an argument of `pre`.
#[verifier::opaque]
pub open spec fn arguments_from_block(pre: Seq<BasicBlock>, post: Seq<BasicBlock>, i: int) -> bool {
    forall|j: int, x: VariableId, a: PhiArgument|
        0 <= j < post.len() && #[trigger] has_argument(post[j], x, a) ==> a.predecessor == i
            || has_argument(pre[j], x, a)
}

/// After block `i` is renamed and its successors are patched, every
/// argument is sound, and the new ones arrive from `i`.
proof fn lemma_after_patching(
    g: Seq<Seq<usize>>,
    init: EnvModel,
    i: int,
    pre: Seq<BasicBlock>,
    env_pre: Environment,
    own: Seq<BasicBlock>,
    env_own: Environment,
    patched: Seq<BasicBlock>,
)
    requires
        pre.len() == g.len(),
        well_formed(g),
        g == cfg_of(pre),
        indexed(pre),
        dominates(g, i, i),
        env_pre@.scopes.len() > 0,
        block_renamed(pre, i, env_pre, own, env_own, Ok(())),
        successors_patched(
            own[i].successors_spec(),
            own[i].successors_spec().len(),
            own,
            env_own,
            patched,
        ),
        visible_sound(g, init, pre, env_pre@, i, false),
        arguments_sound(g, init, pre),
        arguments_outside(g, pre, i),
    ensures
        same_frames(pre, patched),
        visible_sound(g, init, patched, env_own@, i, true),
        env_own@.scopes.len() > 0,
        arguments_sound(g, init, patched),
        arguments_from_block(pre, patched, i),
        forall|d: int| 0 <= d < pre.len() ==> #[trigger] same_occurrences(own[d], patched[d]),
{
    lemma_renamed_arguments(pre, i, env_pre, own, env_own);
    let succ = own[i].successors_spec();
    assert forall|d: int| 0 <= d < pre.len() implies #[trigger] same_occurrences(
        own[d],
        patched[d],
    ) && same_frame(pre[d], patched[d]) by {
        lemma_patched_occurrences(succ, succ.len(), own, env_own, patched, d);
        lemma_patched_frame(succ, succ.len(), own, env_own, patched, d);
        assert(same_frame(pre[d], own[d]));
    }
    assert forall|d: int| 0 <= d < pre.len() implies #[trigger] same_frame(pre[d], patched[d]) by {
        lemma_patched_frame(succ, succ.len(), own, env_own, patched, d);
        assert(same_frame(pre[d], own[d]));
    }
    lemma_patched_frame(succ, succ.len(), own, env_own, patched, i);
    lemma_visible_after_block(g, init, i, pre, env_pre, own, env_own, patched);
    assert(same_frame(pre[i], own[i]));
    assert(succ == g[i]);
    reveal(arguments_sound);
    reveal(arguments_outside);
    reveal(arguments_from_block);
    assert forall|j: int, x: VariableId, a: PhiArgument|
        0 <= j < patched.len() && #[trigger] has_argument(
            patched[j],
            x,
            a,
        ) implies argument_sound(g, init, patched, j, x, a) && (a.predecessor == i || has_argument(
        pre[j],
        x,
        a,
    )) by {
        lemma_patched_arguments(succ, succ.len(), own, env_own, patched, j, x, a);
        assert(same_arguments(pre[j], own[j]));
        if has_argument(own[j], x, a) {
            assert(has_argument(pre[j], x, a));
            assert(argument_sound(g, init, pre, j, x, a));
            assert forall|d: int|
                0 <= d < pre.len() && dominates(
                    g,
                    d,
                    a.predecessor as int,
                ) implies #[trigger] same_occurrences(pre[d], patched[d]) by {
                assert(d != i);
                crate::dominance_property::lemma_renamed_frame(
                    pre,
                    i,
                    env_pre,
                    own,
                    env_own,
                    Ok(()),
                );
                assert(own[d] == pre[d]);
                assert(same_occurrences(own[d], patched[d]));
            }
            lemma_argument_persists(g, init, pre, patched, j, x, a);
        } else {
            let t = choose|t: int| 0 <= t < succ.len() && #[trigger] succ[t] == j;
            assert(g[i][t] == j);
            assert(has_edge(g, i, j));
            lemma_new_argument(g, init, patched, env_own@, i, j, x, a);
        }
    }
}

/// No argument has arrived from below a child of `i` before a child of
/// `i` is converted.
proof fn lemma_outside_child(
    g: Seq<Seq<usize>>,
    i: int,
    c: int,
    pre: Seq<BasicBlock>,
    patched: Seq<BasicBlock>,
)
    requires
        patched.len() == pre.len(),
        dominates(g, i, i),
        is_immediate_dominator(g, i, c),
        arguments_outside(g, pre, i),
        arguments_from_block(pre, patched, i),
    ensures
        arguments_outside(g, patched, c),
{
    reveal(arguments_outside);
    reveal(arguments_from_block);
    assert forall|j: int, x: VariableId, a: PhiArgument|
        0 <= j < patched.len() && #[trigger] has_argument(patched[j], x, a) implies !dominates(
        g,
        c,
        a.predecessor as int,
    ) by {
        if a.predecessor == i {
            lemma_child_below(g, i, c, i);
        } else {
            assert(has_argument(pre[j], x, a));
            if dominates(g, c, a.predecessor as int) {
                lemma_dominates_transitive(g, i, c, a.predecessor as int);
            }
        }
    }
}

/// Once the first `k` children of `i` in the dominator tree are converted,
/// every argument of a phi statement is sound, and the new ones arrive from
/// blocks below these children.
proof fn lemma_children_arguments(
    g: Seq<Seq<usize>>,
    init: EnvModel,
    i: int,
    kids: Seq<usize>,
    k: nat,
    pre: Seq<BasicBlock>,
    env_pre: Environment,
    post: Seq<BasicBlock>,
    env_post: Environment,
)
    requires
        pre.len() == g.len(),
        g.len() <= usize::MAX,
        well_formed(g),
        g == cfg_of(pre),
        indexed(pre),
        dominates(g, i, i),
        env_pre@.scopes.len() > 0,
        is_children_list(g, i, kids),
        k <= kids.len(),
        children_converted(g, i, kids, k, pre, env_pre, post, env_post, Ok(())),
        visible_sound(g, init, pre, env_pre@, i, true),
        arguments_sound(g, init, pre),
        forall|c: int| is_immediate_dominator(g, i, c) ==> #[trigger] arguments_outside(g, pre, c),
    ensures
        same_frames(pre, post),
        arguments_sound(g, init, post),
        arguments_from_children(g, pre, post, kids, k),
    decreases g.len() - dominator_depth(g, i), 0nat, k,
{
    lemma_children_sound(g, init, i, kids, k, pre, env_pre, post, env_post);
    if k == 0 {
        reveal(arguments_from_children);
        assert(same_frames(pre, post));
    } else {
        let (outer, inner, done) = choose|
            outer: (Seq<BasicBlock>, Environment),
            inner: (Seq<BasicBlock>, Environment),
            done: (Seq<BasicBlock>, Environment),
        |
            {
                &&& children_converted(
                    g,
                    i,
                    kids,
                    (k - 1) as nat,
                    pre,
                    env_pre,
                    outer.0,
                    outer.1,
                    Ok(()),
                )
                &&& #[trigger] scope_entered(outer, inner)
                &&& dominator_depth(g, i) < dominator_depth(g, kids[k - 1] as int) <= g.len()
                &&& subtree_converted(
                    g,
                    kids[k - 1] as int,
                    inner.0,
                    inner.1,
                    done.0,
                    done.1,
                    Ok(()),
                )
                &&& #[trigger] scope_left(done, (post, env_post))
            };
        lemma_children_arguments(g, init, i, kids, (k - 1) as nat, pre, env_pre, outer.0, outer.1);
        lemma_children_sound(g, init, i, kids, (k - 1) as nat, pre, env_pre, outer.0, outer.1);
        let c = kids[k - 1] as int;
        assert(kids.contains(kids[k - 1]));
        assert(is_immediate_dominator(g, i, c));
        lemma_dominates_reachable(g, i, c);
        lemma_dominates_reflexive(g, c);
        assert(inner.1@ == outer.1@.pushed());
        lemma_visible_in_child(g, init, i, kids, k, pre, env_pre@, outer.0, outer.1@, inner.1@);
        lemma_same_frames_graph(pre, outer.0);
        lemma_outside_later(g, i, kids, k, pre, outer.0);
        lemma_subtree_arguments(g, init, c, inner.0, inner.1, done.0, done.1);
        lemma_same_frames_twice(pre, outer.0, post);
        lemma_from_children_step(g, i, kids, k, pre, outer.0, post);
    }
}

/// Before the `k`-th child is converted, no argument has arrived from below
/// it.
proof fn lemma_outside_later(
    g: Seq<Seq<usize>>,
    i: int,
    kids: Seq<usize>,
    k: nat,
    pre: Seq<BasicBlock>,
    outer: Seq<BasicBlock>,
)
    requires
        outer.len() == pre.len(),
        is_children_list(g, i, kids),
        0 < k <= kids.len(),
        arguments_outside(g, pre, kids[k - 1] as int),
        arguments_from_children(g, pre, outer, kids, (k - 1) as nat),
    ensures
        arguments_outside(g, outer, kids[k - 1] as int),
{
    reveal(arguments_outside);
    reveal(arguments_from_children);
    let c = kids[k - 1] as int;
    assert(kids.contains(kids[k - 1]));
    assert forall|j: int, x: VariableId, a: PhiArgument|
        0 <= j < outer.len() && #[trigger] has_argument(outer[j], x, a) implies !dominates(
        g,
        c,
        a.predecessor as int,
    ) by {
        if inside_subtrees(g, kids, (k - 1) as nat, a.predecessor as int) {
            let l = choose|l: int|
                0 <= l < k - 1 && dominates(g, #[trigger] kids[l] as int, a.predecessor as int);
            assert(kids.contains(kids[l]));
            if dominates(g, c, a.predecessor as int) {
                lemma_subtrees_disjoint(g, i, kids[l] as int, c, a.predecessor as int);
            }
        } else {
            assert(has_argument(pre[j], x, a));
        }
    }
}

/// What arrived while one more child was converted arrived from below that
/// child.
proof fn lemma_from_children_step(
    g: Seq<Seq<usize>>,
    i: int,
    kids: Seq<usize>,
    k: nat,
    pre: Seq<BasicBlock>,
    outer: Seq<BasicBlock>,
    post: Seq<BasicBlock>,
)
    requires
        outer.len() == pre.len(),
        post.len() == pre.len(),
        0 < k <= kids.len(),
        arguments_from_children(g, pre, outer, kids, (k - 1) as nat),
        arguments_from(g, outer, post, kids[k - 1] as int),
    ensures
        arguments_from_children(g, pre, post, kids, k),
{
    reveal(arguments_from_children);
    reveal(arguments_from);
    assert forall|j: int, x: VariableId, a: PhiArgument|
        0 <= j < post.len() && #[trigger] has_argument(post[j], x, a) implies inside_subtrees(
        g,
        kids,
        k,
        a.predecessor as int,
    ) || has_argument(pre[j], x, a) by {
        if dominates(g, kids[k - 1] as int, a.predecessor as int) {
        } else {
            assert(has_argument(outer[j], x, a));
            if inside_subtrees(g, kids, (k - 1) as nat, a.predecessor as int) {
                let l = choose|l: int|
                    0 <= l < k - 1 && dominates(g, #[trigger] kids[l] as int, a.predecessor as int);
                assert(dominates(g, kids[l] as int, a.predecessor as int));
            }
        }
    }
}

/// In the subtree of `i` in the dominator tree, once it is converted,
/// every argument of a phi statement is sound, and the new ones arrive
/// from blocks of the subtree.
pub proof fn lemma_subtree_arguments(
    g: Seq<Seq<usize>>,
    init: EnvModel,
    i: int,
    pre: Seq<BasicBlock>,
    env_pre: Environment,
    post: Seq<BasicBlock>,
    env_post: Environment,
)
    requires
        pre.len() == g.len(),
        g.len() <= usize::MAX,
        well_formed(g),
        g == cfg_of(pre),
        indexed(pre),
        dominates(g, i, i),
        env_pre@.scopes.len() > 0,
        subtree_converted(g, i, pre, env_pre, post, env_post, Ok(())),
        visible_sound(g, init, pre, env_pre@, i, false),
        arguments_sound(g, init, pre),
        arguments_outside(g, pre, i),
    ensures
        same_frames(pre, post),
        arguments_sound(g, init, post),
        arguments_from(g, pre, post, i),
    decreases g.len() - dominator_depth(g, i), 1nat, 0nat,
{
    lemma_dominates_reachable(g, i, i);
    let (own, env_own, r_own) = choose|own: Seq<BasicBlock>, env_own: Environment, r_own: SSAResult<()>|
        {
            &&& #[trigger] block_renamed(pre, i, env_pre, own, env_own, r_own)
            &&& if r_own is Err {
                post == own && env_post == env_own && Ok::<(), SSAError>(()) == r_own
            } else {
                exists|patched: Seq<BasicBlock>, kids: Seq<usize>, k: nat|
                    {
                        &&& #[trigger] successors_patched(
                            own[i].successors_spec(),
                            own[i].successors_spec().len(),
                            own,
                            env_own,
                            patched,
                        )
                        &&& is_children_list(g, i, kids)
                        &&& #[trigger] children_ended(kids, k, Ok::<(), SSAError>(()))
                        &&& children_converted(
                            g,
                            i,
                            kids,
                            k,
                            patched,
                            env_own,
                            post,
                            env_post,
                            Ok(()),
                        )
                    }
            }
        };
    let (patched, kids, k) = choose|patched: Seq<BasicBlock>, kids: Seq<usize>, k: nat|
        {
            &&& #[trigger] successors_patched(
                own[i].successors_spec(),
                own[i].successors_spec().len(),
                own,
                env_own,
                patched,
            )
            &&& is_children_list(g, i, kids)
            &&& #[trigger] children_ended(kids, k, Ok::<(), SSAError>(()))
            &&& children_converted(g, i, kids, k, patched, env_own, post, env_post, Ok(()))
        };
    assert(r_own == Ok::<(), SSAError>(())) by {
        let u = r_own->Ok_0;
        assert(u == ());
    }
    lemma_after_patching(g, init, i, pre, env_pre, own, env_own, patched);
    lemma_same_frames_graph(pre, patched);
    assert forall|c: int| is_immediate_dominator(g, i, c) implies #[trigger] arguments_outside(
        g,
        patched,
        c,
    ) by {
        lemma_outside_child(g, i, c, pre, patched);
    }
    lemma_children_arguments(g, init, i, kids, k, patched, env_own, post, env_post);
    lemma_same_frames_twice(pre, patched, post);
    lemma_from_subtree(g, i, kids, k, pre, patched, post);
}

/// What arrived while the subtree of `i` was converted arrived from `i` or
/// from below one of its children.
proof fn lemma_from_subtree(
    g: Seq<Seq<usize>>,
    i: int,
    kids: Seq<usize>,
    k: nat,
    pre: Seq<BasicBlock>,
    patched: Seq<BasicBlock>,
    post: Seq<BasicBlock>,
)
    requires
        patched.len() == pre.len(),
        post.len() == pre.len(),
        dominates(g, i, i),
        is_children_list(g, i, kids),
        k <= kids.len(),
        arguments_from_block(pre, patched, i),
        arguments_from_children(g, patched, post, kids, k),
    ensures
        arguments_from(g, pre, post, i),
{
    reveal(arguments_from_block);
    reveal(arguments_from_children);
    reveal(arguments_from);
    assert forall|j: int, x: VariableId, a: PhiArgument|
        0 <= j < post.len() && #[trigger] has_argument(post[j], x, a) implies dominates(
        g,
        i,
        a.predecessor as int,
    ) || has_argument(pre[j], x, a) by {
        if inside_subtrees(g, kids, k, a.predecessor as int) {
            let l = choose|l: int|
                0 <= l < k && dominates(g, #[trigger] kids[l] as int, a.predecessor as int);
            assert(kids.contains(kids[l]));
            lemma_dominates_transitive(g, i, kids[l] as int, a.predecessor as int);
        } else {
            assert(has_argument(patched[j], x, a));
        }
    }
}

/// A block that got phi statements has the frame that it had, and each
/// argument that it has it had before.
proof fn lemma_placed_block(before: BasicBlock, after: BasicBlock, x: VariableId, a: PhiArgument)
    requires
        extended_by_phis(before, after),
    ensures
        same_frame(before, after),
        has_argument(after, x, a) ==> has_argument(before, x, a),
{
    let vars = choose|vars: Seq<VariableId>| phi_chain(before, vars, after);
    let added = lemma_phis_lead(before, vars, after);
    if has_argument(after, x, a) {
        let s = choose|s: int|
            0 <= s < after.stmts@.len() && statement_phi(after.stmts@[s]) == Some(x) && (
            #[trigger] phi_arguments(after.stmts@[s])).contains(a);
        if s < added {
            let k = choose|k: int| 0 <= k < vars.len() && is_empty_phi(after.stmts@[s], vars[k]);
            assert(phi_arguments(after.stmts@[s]).len() == 0);
        } else {
            assert(after.stmts@[added + (s - added)] == before.stmts@[s - added]);
            assert(phi_arguments(before.stmts@[s - added]).contains(a));
        }
    }
}

/// Blocks that got phi statements have the frames that they had, and no
/// arguments if they had none.
pub proof fn lemma_placed_arguments(start: Seq<BasicBlock>, placed: Seq<BasicBlock>)
    requires
        phis_added(start, placed),
        without_arguments(start),
    ensures
        same_frames(start, placed),
        without_arguments(placed),
{
    assert forall|d: int| 0 <= d < start.len() implies #[trigger] same_frame(
        start[d],
        placed[d],
    ) by {
        assert(extended_by_phis(start[d], placed[d]));
        lemma_placed_block(start[d], placed[d], 0, PhiArgument { predecessor: 0, version: 0 });
    }
    assert forall|j: int, x: VariableId, a: PhiArgument| 0 <= j < placed.len() implies !#[trigger] has_argument(
        placed[j],
        x,
        a,
    ) by {
        assert(extended_by_phis(start[j], placed[j]));
        lemma_placed_block(start[j], placed[j], x, a);
        assert(!has_argument(start[j], x, a));
    }
}

/// Where no phi statement has an argument, every argument is sound, and
/// none has arrived from anywhere.
pub proof fn lemma_without_arguments(
    g: Seq<Seq<usize>>,
    init: EnvModel,
    blocks: Seq<BasicBlock>,
    i: int,
)
    requires
        without_arguments(blocks),
    ensures
        arguments_sound(g, init, blocks),
        arguments_outside(g, blocks, i),
{
    reveal(arguments_sound);
    reveal(arguments_outside);
}

/// What `arguments_sound` says of one argument.
pub proof fn lemma_argument_sound(
    g: Seq<Seq<usize>>,
    init: EnvModel,
    blocks: Seq<BasicBlock>,
    j: int,
    x: VariableId,
    a: PhiArgument,
)
    requires
        arguments_sound(g, init, blocks),
        0 <= j < blocks.len(),
        has_argument(blocks[j], x, a),
    ensures
        argument_sound(g, init, blocks, j, x, a),
{
    reveal(arguments_sound);
}

} // verus!
