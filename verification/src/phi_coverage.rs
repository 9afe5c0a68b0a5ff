//! Every phi statement of a converted graph has an argument for each edge
//! that enters its block, as far as the variable has a version where the
//! edge starts, and no two arguments for one edge.
use crate::basic_block::{
    block_run, has_argument_from, indexed, lemma_block_run_block, patched_arguments,
    statement_patched, BasicBlock,
};
use crate::dominance::{
    dominates,
    dominator_depth,
    is_immediate_dominator,
    lemma_child_above,
    lemma_dominates_reachable,
    lemma_dominates_reflexive,
    strictly_dominates,
};
use crate::dominance_property::{lemma_subtree_sound, visible_sound};
use crate::environment::{lemma_minted, lemma_pushed, EnvModel, Environment};
use crate::errors::{SSAError, SSAResult};
use crate::graph::{has_edge, well_formed};
use crate::ir::{PhiArgument, Statement, VariableId};
use crate::phi_arguments::phi_arguments;
use crate::renaming::{
    block_patched, block_renamed, cfg_of, children_converted, children_ended, is_children_list,
    scope_entered, scope_left, subtree_converted, successors_patched,
};
use crate::traits::SSABasicBlock;
use crate::versioning::{statement_phi, statement_renamed, statement_write};
use vstd::prelude::*;

verus! {

/// No two of `args` arrive from one block.
pub open spec fn distinct_arguments(args: Seq<PhiArgument>) -> bool {
    forall|m: int, n: int|
        0 <= m < n < args.len() ==> (#[trigger] args[m]).predecessor != (
        #[trigger] args[n]).predecessor
}

/// `b` is `a` but for the arguments of its phi statements: those of `a` are
/// still there, and where no two of them arrived from one block, no two do.
#[verifier::opaque]
pub open spec fn phis_grow(a: BasicBlock, b: BasicBlock) -> bool {
    &&& b.index == a.index
    &&& b.successors@ == a.successors@
    &&& b.stmts@.len() == a.stmts@.len()
    &&& forall|s: int|
        0 <= s < a.stmts@.len() ==> {
            &&& statement_phi(#[trigger] b.stmts@[s]) == statement_phi(a.stmts@[s])
            &&& statement_write(b.stmts@[s]) == statement_write(a.stmts@[s])
            &&& distinct_arguments(phi_arguments(a.stmts@[s])) ==> distinct_arguments(
                phi_arguments(b.stmts@[s]),
            )
            &&& forall|p: usize|
                has_argument_from(phi_arguments(a.stmts@[s]), p) ==> #[trigger] has_argument_from(
                    phi_arguments(b.stmts@[s]),
                    p,
                )
        }
}

/// Each block of `post` is the block of `pre` but for the arguments of its
/// phi statements.
pub open spec fn all_grow(pre: Seq<BasicBlock>, post: Seq<BasicBlock>) -> bool {
    &&& post.len() == pre.len()
    &&& forall|d: int| 0 <= d < pre.len() ==> #[trigger] phis_grow(pre[d], post[d])
}

/// A statement of `block` writes `x`.
pub open spec fn writes(block: BasicBlock, x: VariableId) -> bool {
    exists|t: int| 0 <= t < block.stmts@.len() && statement_write(#[trigger] block.stmts@[t]) == Some(x)
}

/// A block that strictly dominates `p` writes `x`.
pub open spec fn written_above(
    g: Seq<Seq<usize>>,
    blocks: Seq<BasicBlock>,
    x: VariableId,
    p: int,
) -> bool {
    exists|d: int| 0 <= d < blocks.len() && strictly_dominates(g, d, p) && #[trigger] writes(blocks[d], x)
}

/// `x` has a version at the end of block `p`: it has one from the start, or
/// `p` or a block that strictly dominates `p` writes it.
pub open spec fn has_version(
    g: Seq<Seq<usize>>,
    init: EnvModel,
    blocks: Seq<BasicBlock>,
    x: VariableId,
    p: int,
) -> bool {
    ||| init.visible(x) is Some
    ||| (0 <= p < blocks.len() && writes(blocks[p], x))
    ||| written_above(g, blocks, x, p)
}

/// Every variable that has a version from the start, or that a block which
/// strictly dominates `i` writes, or, if `own` holds, block `i`, has a
/// visible version in `m`.
#[verifier::opaque]
pub open spec fn visible_complete(
    g: Seq<Seq<usize>>,
    init: EnvModel,
    blocks: Seq<BasicBlock>,
    m: EnvModel,
    i: int,
    own: bool,
) -> bool {
    forall|x: VariableId|
        init.visible(x) is Some || written_above(g, blocks, x, i) || (own && writes(blocks[i], x))
            ==> (#[trigger] m.visible(x)) is Some
}

/// Each phi statement in a successor of `p` has an argument from `p` for
/// its variable, if that has a version at the end of `p`.
#[verifier::opaque]
pub open spec fn edges_covered(
    g: Seq<Seq<usize>>,
    init: EnvModel,
    blocks: Seq<BasicBlock>,
    p: int,
) -> bool {
    forall|j: int, s: int|
        has_edge(g, p, j) && 0 <= s < blocks[j].stmts@.len() && (#[trigger] statement_phi(
            blocks[j].stmts@[s],
        )) is Some && has_version(g, init, blocks, statement_phi(blocks[j].stmts@[s])->0, p)
            ==> has_argument_from(phi_arguments(blocks[j].stmts@[s]), p as usize)
}

/// A block differs from itself in nothing.
pub proof fn lemma_grow_self(a: BasicBlock)
    ensures
        phis_grow(a, a),
{
    reveal(phis_grow);
}

/// Differing in the arguments of phi statements only carries over from
/// one block to the next.
pub proof fn lemma_grow_twice(a: BasicBlock, b: BasicBlock, c: BasicBlock)
    requires
        phis_grow(a, b),
        phis_grow(b, c),
    ensures
        phis_grow(a, c),
{
    reveal(phis_grow);
    assert forall|s: int| 0 <= s < a.stmts@.len() implies {
        &&& statement_phi(#[trigger] c.stmts@[s]) == statement_phi(a.stmts@[s])
        &&& statement_write(c.stmts@[s]) == statement_write(a.stmts@[s])
        &&& distinct_arguments(phi_arguments(a.stmts@[s])) ==> distinct_arguments(
            phi_arguments(c.stmts@[s]),
        )
        &&& forall|p: usize|
            has_argument_from(phi_arguments(a.stmts@[s]), p) ==> #[trigger] has_argument_from(
                phi_arguments(c.stmts@[s]),
                p,
            )
    } by {
        assert(statement_phi(b.stmts@[s]) == statement_phi(a.stmts@[s]));
        assert forall|p: usize|
            has_argument_from(phi_arguments(a.stmts@[s]), p) implies #[trigger] has_argument_from(
            phi_arguments(c.stmts@[s]),
            p,
        ) by {
            assert(has_argument_from(phi_arguments(b.stmts@[s]), p));
        }
    }
}

/// Differing in the arguments of phi statements only carries over from
/// one state of the blocks to the next.
pub proof fn lemma_all_grow_twice(a: Seq<BasicBlock>, b: Seq<BasicBlock>, c: Seq<BasicBlock>)
    requires
        all_grow(a, b),
        all_grow(b, c),
    ensures
        all_grow(a, c),
{
    assert forall|d: int| 0 <= d < a.len() implies #[trigger] phis_grow(a[d], c[d]) by {
        assert(phis_grow(a[d], b[d]));
        assert(phis_grow(b[d], c[d]));
        lemma_grow_twice(a[d], b[d], c[d]);
    }
}

/// Blocks that differ in the arguments of their phi statements only make
/// the same graph and write the same variables.
pub proof fn lemma_all_grow_graph(pre: Seq<BasicBlock>, post: Seq<BasicBlock>)
    requires
        all_grow(pre, post),
    ensures
        cfg_of(post) == cfg_of(pre),
        indexed(pre) ==> indexed(post),
        forall|d: int, x: VariableId|
            0 <= d < pre.len() ==> (#[trigger] writes(post[d], x) <==> writes(pre[d], x)),
{
    reveal(phis_grow);
    assert(cfg_of(post) =~= cfg_of(pre)) by {
        assert forall|d: int| 0 <= d < pre.len() implies cfg_of(post)[d] == cfg_of(pre)[d] by {
            assert(phis_grow(pre[d], post[d]));
        }
    }
    if indexed(pre) {
        assert forall|d: int| 0 <= d < post.len() implies (#[trigger] post[d]).index == d by {
            assert(phis_grow(pre[d], post[d]));
        }
    }
    assert forall|d: int, x: VariableId| 0 <= d < pre.len() implies (#[trigger] writes(post[d], x)
        <==> writes(pre[d], x)) by {
        assert(phis_grow(pre[d], post[d]));
        if writes(post[d], x) {
            let t = choose|t: int|
                0 <= t < post[d].stmts@.len() && statement_write(#[trigger] post[d].stmts@[t])
                    == Some(x);
            assert(statement_write(pre[d].stmts@[t]) == Some(x));
        }
        if writes(pre[d], x) {
            let t = choose|t: int|
                0 <= t < pre[d].stmts@.len() && statement_write(#[trigger] pre[d].stmts@[t])
                    == Some(x);
            assert(statement_phi(post[d].stmts@[t]) == statement_phi(pre[d].stmts@[t]));
            assert(statement_write(post[d].stmts@[t]) == Some(x));
        }
    }
}

/// A variable that is visible at the start of a block, or that one of its
/// first `s` statements writes, is visible after these statements.
proof fn lemma_block_visible(stmts: Seq<Statement>, m: EnvModel, s: nat, x: VariableId)
    requires
        m.scopes.len() > 0,
        s <= stmts.len(),
        block_run(stmts, m, s).1 is None,
        m.visible(x) is Some || exists|t: int|
            0 <= t < s && statement_write(#[trigger] stmts[t]) == Some(x),
    ensures
        block_run(stmts, m, s).0.visible(x) is Some,
    decreases s,
{
    if s > 0 {
        let before = block_run(stmts, m, (s - 1) as nat);
        crate::dominance_property::lemma_block_scopes(stmts, m, (s - 1) as nat);
        match statement_write(stmts[s - 1]) {
            Some(y) => {
                lemma_minted(before.0, y, x);
            },
            None => {},
        }
        if statement_write(stmts[s - 1]) != Some(x) {
            if !(m.visible(x) is Some) {
                let t = choose|t: int| 0 <= t < s && statement_write(#[trigger] stmts[t]) == Some(x);
                assert(0 <= t < s - 1 && statement_write(stmts[t]) == Some(x));
            }
            lemma_block_visible(stmts, m, (s - 1) as nat, x);
        }
    }
}

/// Patching one phi statement keeps its arguments and adds at most one,
/// which arrives from a block that none arrived from.
proof fn lemma_statement_grows(pre: Statement, m: EnvModel, post: Statement)
    requires
        statement_patched(pre, m, post),
    ensures
        statement_phi(post) == statement_phi(pre),
        statement_write(post) == statement_write(pre),
        distinct_arguments(phi_arguments(pre)) ==> distinct_arguments(phi_arguments(post)),
        forall|p: usize|
            has_argument_from(phi_arguments(pre), p) ==> #[trigger] has_argument_from(
                phi_arguments(post),
                p,
            ),
        statement_phi(pre) matches Some(x) && m.visible(x) is Some ==> has_argument_from(
            phi_arguments(post),
            m.block,
        ),
{
    if statement_phi(pre) is Some {
        let x = statement_phi(pre)->0;
        let args = phi_arguments(pre);
        let grown = phi_arguments(post);
        assert(grown == patched_arguments(args, x, m));
        assert forall|p: usize| has_argument_from(args, p) implies #[trigger] has_argument_from(
            grown,
            p,
        ) by {
            let n = choose|n: int| 0 <= n < args.len() && (#[trigger] args[n]).predecessor == p;
            assert(grown[n].predecessor == p);
        }
        if m.visible(x) is Some && !has_argument_from(args, m.block) {
            assert(grown[args.len() as int].predecessor == m.block);
            if distinct_arguments(args) {
                assert forall|a: int, b: int| 0 <= a < b < grown.len() implies (
                #[trigger] grown[a]).predecessor != (#[trigger] grown[b]).predecessor by {
                    if b == args.len() {
                        assert(args[a].predecessor != m.block);
                    } else {
                        assert(args[a].predecessor != args[b].predecessor);
                    }
                }
            }
        }
    }
}

/// Patching the phi statements of blocks changes the arguments of phi
/// statements only.
pub proof fn lemma_patched_grow(
    succ: Seq<usize>,
    k: nat,
    pre: Seq<BasicBlock>,
    env: Environment,
    post: Seq<BasicBlock>,
)
    requires
        k <= succ.len(),
        successors_patched(succ, k, pre, env, post),
    ensures
        all_grow(pre, post),
    decreases k,
{
    if k == 0 {
        assert forall|d: int| 0 <= d < pre.len() implies #[trigger] phis_grow(pre[d], post[d]) by {
            lemma_grow_self(pre[d]);
        }
    } else {
        let mid = choose|mid: Seq<BasicBlock>|
            successors_patched(succ, (k - 1) as nat, pre, env, mid) && #[trigger] block_patched(
                mid,
                succ[k - 1] as int,
                env,
                post,
            );
        lemma_patched_grow(succ, (k - 1) as nat, pre, env, mid);
        lemma_block_patched_grow(mid, succ[k - 1] as int, env, post);
        lemma_all_grow_twice(pre, mid, post);
    }
}

/// Patching the phi statements of one block only adds arguments.
proof fn lemma_block_patched_grow(
    mid: Seq<BasicBlock>,
    j: int,
    env: Environment,
    post: Seq<BasicBlock>,
)
    requires
        block_patched(mid, j, env, post),
    ensures
        all_grow(mid, post),
{
    assert forall|d: int| 0 <= d < mid.len() implies #[trigger] phis_grow(mid[d], post[d]) by {
        if d == j {
            reveal(phis_grow);
            assert forall|s: int| 0 <= s < mid[d].stmts@.len() implies {
                &&& statement_phi(#[trigger] post[d].stmts@[s]) == statement_phi(mid[d].stmts@[s])
                &&& statement_write(post[d].stmts@[s]) == statement_write(mid[d].stmts@[s])
                &&& distinct_arguments(phi_arguments(mid[d].stmts@[s])) ==> distinct_arguments(
                    phi_arguments(post[d].stmts@[s]),
                )
                &&& forall|p: usize|
                    has_argument_from(phi_arguments(mid[d].stmts@[s]), p)
                        ==> #[trigger] has_argument_from(phi_arguments(post[d].stmts@[s]), p)
            } by {
                assert(statement_patched(mid[d].stmts@[s], env@, post[d].stmts@[s]));
                lemma_statement_grows(mid[d].stmts@[s], env@, post[d].stmts@[s]);
            }
        } else {
            assert(post[d] == mid[d]);
            lemma_grow_self(mid[d]);
        }
    }
}

/// After the phi statements of the first `k` blocks in `succ` were
/// patched, each phi statement of these blocks has an argument from the
/// block of `env` for its variable, if that is visible in `env`.
pub proof fn lemma_patched_covered(
    succ: Seq<usize>,
    k: nat,
    pre: Seq<BasicBlock>,
    env: Environment,
    post: Seq<BasicBlock>,
    t: int,
    s: int,
)
    requires
        k <= succ.len(),
        successors_patched(succ, k, pre, env, post),
        0 <= t < k,
        0 <= succ[t] < pre.len(),
        0 <= s < post[succ[t] as int].stmts@.len(),
        statement_phi(post[succ[t] as int].stmts@[s]) matches Some(x) && env@.visible(x) is Some,
    ensures
        has_argument_from(phi_arguments(post[succ[t] as int].stmts@[s]), env@.block),
    decreases k,
{
    let j = succ[t] as int;
    let mid = choose|mid: Seq<BasicBlock>|
        successors_patched(succ, (k - 1) as nat, pre, env, mid) && #[trigger] block_patched(
            mid,
            succ[k - 1] as int,
            env,
            post,
        );
    lemma_patched_grow(succ, (k - 1) as nat, pre, env, mid);
    lemma_block_patched_grow(mid, succ[k - 1] as int, env, post);
    assert(phis_grow(mid[j], post[j]));
    reveal(phis_grow);
    assert(statement_phi(post[j].stmts@[s]) == statement_phi(mid[j].stmts@[s]));
    if j == succ[k - 1] as int {
        assert(statement_patched(mid[j].stmts@[s], env@, post[j].stmts@[s]));
        lemma_statement_grows(mid[j].stmts@[s], env@, post[j].stmts@[s]);
    } else {
        assert(t < k - 1);
        lemma_patched_covered(succ, (k - 1) as nat, pre, env, mid, t, s);
        assert(post[j] == mid[j]);
    }
}

/// Renaming a block changes no argument of a phi statement, and makes
/// visible what the block writes besides what was visible.
pub proof fn lemma_renamed_grow(
    pre: Seq<BasicBlock>,
    i: int,
    env_pre: Environment,
    own: Seq<BasicBlock>,
    env_own: Environment,
)
    requires
        env_pre@.scopes.len() > 0,
        block_renamed(pre, i, env_pre, own, env_own, Ok(())),
    ensures
        0 <= i < pre.len(),
        all_grow(pre, own),
        env_own@.block == pre[i].index,
        env_own@.scopes.len() > 0,
        forall|x: VariableId|
            env_pre@.visible(x) is Some || writes(pre[i], x) ==> (#[trigger] env_own@.visible(
                x,
            )) is Some,
{
    reveal(block_renamed);
    reveal(phis_grow);
    let m = env_pre@.entered(pre[i].index);
    let stmts = pre[i].stmts@;
    crate::dominance_property::lemma_block_scopes(stmts, m, stmts.len());
    lemma_block_run_block(stmts, m, stmts.len());
    assert forall|x: VariableId|
        env_pre@.visible(x) is Some || writes(pre[i], x) implies (#[trigger] env_own@.visible(
        x,
    )) is Some by {
        if writes(pre[i], x) {
            let t = choose|t: int|
                0 <= t < stmts.len() && statement_write(#[trigger] stmts[t]) == Some(x);
            assert(statement_write(stmts[t]) == Some(x));
        }
        lemma_block_visible(stmts, m, stmts.len(), x);
    }
    assert forall|d: int| 0 <= d < pre.len() implies #[trigger] phis_grow(pre[d], own[d]) by {
        if d == i {
            assert forall|s: int| 0 <= s < stmts.len() implies {
                &&& statement_phi(#[trigger] own[i].stmts@[s]) == statement_phi(stmts[s])
                &&& statement_write(own[i].stmts@[s]) == statement_write(stmts[s])
                &&& phi_arguments(own[i].stmts@[s]) == phi_arguments(stmts[s])
            } by {
                assert(statement_renamed(
                    stmts[s],
                    block_run(stmts, m, s as nat).0,
                    own[i].stmts@[s],
                ));
            }
        } else {
            assert(own[d] == pre[d]);
        }
    }
}

/// Blocks that differ in the arguments of their phi statements only give
/// the same variables a version at the end of a block.
proof fn lemma_has_version_same(
    g: Seq<Seq<usize>>,
    init: EnvModel,
    pre: Seq<BasicBlock>,
    post: Seq<BasicBlock>,
    x: VariableId,
    p: int,
)
    requires
        all_grow(pre, post),
    ensures
        has_version(g, init, post, x, p) <==> has_version(g, init, pre, x, p),
        written_above(g, post, x, p) <==> written_above(g, pre, x, p),
{
    lemma_all_grow_graph(pre, post);
    if written_above(g, post, x, p) {
        let d = choose|d: int|
            0 <= d < post.len() && strictly_dominates(g, d, p) && #[trigger] writes(post[d], x);
        assert(writes(pre[d], x));
    }
    if written_above(g, pre, x, p) {
        let d = choose|d: int|
            0 <= d < pre.len() && strictly_dominates(g, d, p) && #[trigger] writes(pre[d], x);
        assert(writes(post[d], x));
    }
    if 0 <= p < pre.len() {
        assert(writes(post[p], x) <==> writes(pre[p], x));
    }
}

/// Edges that are covered stay covered while only arguments are added.
proof fn lemma_covered_persists(
    g: Seq<Seq<usize>>,
    init: EnvModel,
    pre: Seq<BasicBlock>,
    post: Seq<BasicBlock>,
    p: int,
)
    requires
        pre.len() == g.len(),
        all_grow(pre, post),
        edges_covered(g, init, pre, p),
    ensures
        edges_covered(g, init, post, p),
{
    reveal(edges_covered);
    assert forall|j: int, s: int|
        has_edge(g, p, j) && 0 <= s < post[j].stmts@.len() && (#[trigger] statement_phi(
            post[j].stmts@[s],
        )) is Some && has_version(
            g,
            init,
            post,
            statement_phi(post[j].stmts@[s])->0,
            p,
        ) implies has_argument_from(phi_arguments(post[j].stmts@[s]), p as usize) by {
        assert(phis_grow(pre[j], post[j]));
        reveal(phis_grow);
        let x = statement_phi(post[j].stmts@[s])->0;
        assert(statement_phi(pre[j].stmts@[s]) == Some(x));
        lemma_has_version_same(g, init, pre, post, x, p);
        assert(has_argument_from(phi_arguments(pre[j].stmts@[s]), p as usize));
    }
}

/// After block `i` is renamed and its successors are patched, what `i` or
/// a block above it writes is visible, and the edges that leave `i` are
/// covered.
proof fn lemma_after_patching(
    g: Seq<Seq<usize>>,
    init: EnvModel,
    i: int,
    pre: Seq<BasicBlock>,
    env_pre: Environment,
    own: Seq<BasicBlock>,
    env_own: Environment,
    patched: Seq<BasicBlock>,
)
    requires
        pre.len() == g.len(),
        well_formed(g),
        g == cfg_of(pre),
        indexed(pre),
        dominates(g, i, i),
        env_pre@.scopes.len() > 0,
        block_renamed(pre, i, env_pre, own, env_own, Ok(())),
        successors_patched(
            own[i].successors_spec(),
            own[i].successors_spec().len(),
            own,
            env_own,
            patched,
        ),
        visible_complete(g, init, pre, env_pre@, i, false),
    ensures
        all_grow(pre, patched),
        env_own@.scopes.len() > 0,
        visible_complete(g, init, patched, env_own@, i, true),
        edges_covered(g, init, patched, i),
{
    lemma_renamed_grow(pre, i, env_pre, own, env_own);
    let succ = own[i].successors_spec();
    lemma_patched_grow(succ, succ.len(), own, env_own, patched);
    lemma_all_grow_twice(pre, own, patched);
    lemma_all_grow_graph(pre, patched);
    lemma_all_grow_graph(pre, own);
    assert(phis_grow(pre[i], own[i]));
    assert(succ == g[i]) by {
        reveal(phis_grow);
    }
    assert(visible_complete(g, init, patched, env_own@, i, true)) by {
        reveal(visible_complete);
        assert forall|x: VariableId|
            init.visible(x) is Some || written_above(g, patched, x, i) || writes(
                patched[i],
                x,
            ) implies (#[trigger] env_own@.visible(x)) is Some by {
            lemma_has_version_same(g, init, pre, patched, x, i);
            if !writes(pre[i], x) {
                assert(env_pre@.visible(x) is Some);
            }
        }
    }
    reveal(edges_covered);
    assert forall|j: int, s: int|
        has_edge(g, i, j) && 0 <= s < patched[j].stmts@.len() && (#[trigger] statement_phi(
            patched[j].stmts@[s],
        )) is Some && has_version(
            g,
            init,
            patched,
            statement_phi(patched[j].stmts@[s])->0,
            i,
        ) implies has_argument_from(phi_arguments(patched[j].stmts@[s]), i as usize) by {
        let x = statement_phi(patched[j].stmts@[s])->0;
        let t = choose|t: int| 0 <= t < g[i].len() && #[trigger] g[i][t] == j;
        assert(env_own@.visible(x) is Some) by {
            reveal(visible_complete);
        }
        lemma_patched_covered(succ, succ.len(), own, env_own, patched, t, s);
    }
}

/// What a block above a child of `i` writes is visible on entering the
/// child.
proof fn lemma_complete_in_child(
    g: Seq<Seq<usize>>,
    init: EnvModel,
    i: int,
    c: int,
    pre: Seq<BasicBlock>,
    own: EnvModel,
    outer: Seq<BasicBlock>,
    around: EnvModel,
    inside: EnvModel,
)
    requires
        pre.len() == g.len(),
        dominates(g, i, i),
        is_immediate_dominator(g, i, c),
        visible_complete(g, init, pre, own, i, true),
        all_grow(pre, outer),
        around.scopes == own.scopes,
        inside == around.pushed(),
    ensures
        visible_complete(g, init, outer, inside, c, false),
{
    reveal(visible_complete);
    lemma_all_grow_graph(pre, outer);
    assert forall|x: VariableId|
        init.visible(x) is Some || written_above(g, outer, x, c) implies (#[trigger] inside.visible(
        x,
    )) is Some by {
        lemma_pushed(around, x);
        assert(around.visible(x) == own.visible(x));
        if !(init.visible(x) is Some) {
            let d = choose|d: int|
                0 <= d < outer.len() && strictly_dominates(g, d, c) && #[trigger] writes(
                    outer[d],
                    x,
                );
            assert(writes(pre[d], x));
            assert(dominates(g, d, i));
            if d != i {
                assert(strictly_dominates(g, d, i));
                assert(written_above(g, pre, x, i));
            }
            assert(own.visible(x) is Some);
        }
    }
}

/// Once the first `k` children of `i` in the dominator tree are converted,
/// the edges that leave the blocks below them are covered.
proof fn lemma_children_covered(
    g: Seq<Seq<usize>>,
    init: EnvModel,
    i: int,
    kids: Seq<usize>,
    k: nat,
    pre: Seq<BasicBlock>,
    env_pre: Environment,
    post: Seq<BasicBlock>,
    env_post: Environment,
)
    requires
        pre.len() == g.len(),
        g.len() <= usize::MAX,
        well_formed(g),
        g == cfg_of(pre),
        indexed(pre),
        dominates(g, i, i),
        env_pre@.scopes.len() > 0,
        is_children_list(g, i, kids),
        k <= kids.len(),
        children_converted(g, i, kids, k, pre, env_pre, post, env_post, Ok(())),
        visible_complete(g, init, pre, env_pre@, i, true),
    ensures
        all_grow(pre, post),
        env_post@.scopes == env_pre@.scopes,
        forall|l: int, p: int|
            0 <= l < k && 0 <= p < pre.len() && #[trigger] dominates(g, kids[l] as int, p)
                ==> edges_covered(g, init, post, p),
    decreases g.len() - dominator_depth(g, i), 0nat, k,
{
    if k == 0 {
        assert forall|d: int| 0 <= d < pre.len() implies #[trigger] phis_grow(pre[d], post[d]) by {
            lemma_grow_self(pre[d]);
        }
    } else {
        let (outer, inner, done) = choose|
            outer: (Seq<BasicBlock>, Environment),
            inner: (Seq<BasicBlock>, Environment),
            done: (Seq<BasicBlock>, Environment),
        |
            {
                &&& children_converted(
                    g,
                    i,
                    kids,
                    (k - 1) as nat,
                    pre,
                    env_pre,
                    outer.0,
                    outer.1,
                    Ok(()),
                )
                &&& #[trigger] scope_entered(outer, inner)
                &&& dominator_depth(g, i) < dominator_depth(g, kids[k - 1] as int) <= g.len()
                &&& subtree_converted(
                    g,
                    kids[k - 1] as int,
                    inner.0,
                    inner.1,
                    done.0,
                    done.1,
                    Ok(()),
                )
                &&& #[trigger] scope_left(done, (post, env_post))
            };
        lemma_children_covered(g, init, i, kids, (k - 1) as nat, pre, env_pre, outer.0, outer.1);
        let c = kids[k - 1] as int;
        assert(kids.contains(kids[k - 1]));
        assert(is_immediate_dominator(g, i, c));
        lemma_dominates_reachable(g, i, c);
        lemma_dominates_reflexive(g, c);
        assert(inner.1@ == outer.1@.pushed());
        assert(env_post@ == done.1@.popped());
        lemma_complete_in_child(g, init, i, c, pre, env_pre@, outer.0, outer.1@, inner.1@);
        lemma_all_grow_graph(pre, outer.0);
        lemma_subtree_covered(g, init, c, inner.0, inner.1, done.0, done.1);
        lemma_all_grow_twice(pre, outer.0, post);
        assert(env_post@.scopes =~= env_pre@.scopes) by {
            lemma_pushed(outer.1@, 0);
            assert(done.1@.scopes.drop_last() == outer.1@.scopes);
        }
        assert forall|l: int, p: int|
            0 <= l < k && 0 <= p < pre.len() && #[trigger] dominates(
                g,
                kids[l] as int,
                p,
            ) implies edges_covered(g, init, post, p) by {
            if l < k - 1 {
                lemma_covered_persists(g, init, outer.0, post, p);
            }
        }
    }
}

/// In the subtree of `i` in the dominator tree, once it is converted,
/// every edge that leaves a block of the subtree is covered, and no two
/// arguments of a phi statement arrive from one block if none did.
pub proof fn lemma_subtree_covered(
    g: Seq<Seq<usize>>,
    init: EnvModel,
    i: int,
    pre: Seq<BasicBlock>,
    env_pre: Environment,
    post: Seq<BasicBlock>,
    env_post: Environment,
)
    requires
        pre.len() == g.len(),
        g.len() <= usize::MAX,
        well_formed(g),
        g == cfg_of(pre),
        indexed(pre),
        dominates(g, i, i),
        env_pre@.scopes.len() > 0,
        subtree_converted(g, i, pre, env_pre, post, env_post, Ok(())),
        visible_complete(g, init, pre, env_pre@, i, false),
    ensures
        all_grow(pre, post),
        env_post@.scopes.len() == env_pre@.scopes.len(),
        env_post@.scopes.drop_last() == env_pre@.scopes.drop_last(),
        forall|p: int|
            0 <= p < pre.len() && #[trigger] dominates(g, i, p) ==> edges_covered(
                g,
                init,
                post,
                p,
            ),
    decreases g.len() - dominator_depth(g, i), 1nat, 0nat,
{
    lemma_dominates_reachable(g, i, i);
    assert(visible_sound(g, env_pre@, pre, env_pre@, i, false)) by {
        reveal(visible_sound);
    }
    lemma_subtree_sound(g, env_pre@, i, pre, env_pre, post, env_post);
    let (own, env_own, r_own) = choose|own: Seq<BasicBlock>, env_own: Environment, r_own: SSAResult<()>|
        {
            &&& #[trigger] block_renamed(pre, i, env_pre, own, env_own, r_own)
            &&& if r_own is Err {
                post == own && env_post == env_own && Ok::<(), SSAError>(()) == r_own
            } else {
                exists|patched: Seq<BasicBlock>, kids: Seq<usize>, k: nat|
                    {
                        &&& #[trigger] successors_patched(
                            own[i].successors_spec(),
                            own[i].successors_spec().len(),
                            own,
                            env_own,
                            patched,
                        )
                        &&& is_children_list(g, i, kids)
                        &&& #[trigger] children_ended(kids, k, Ok::<(), SSAError>(()))
                        &&& children_converted(
                            g,
                            i,
                            kids,
                            k,
                            patched,
                            env_own,
                            post,
                            env_post,
                            Ok(()),
                        )
                    }
            }
        };
    let (patched, kids, k) = choose|patched: Seq<BasicBlock>, kids: Seq<usize>, k: nat|
        {
            &&& #[trigger] successors_patched(
                own[i].successors_spec(),
                own[i].successors_spec().len(),
                own,
                env_own,
                patched,
            )
            &&& is_children_list(g, i, kids)
            &&& #[trigger] children_ended(kids, k, Ok::<(), SSAError>(()))
            &&& children_converted(g, i, kids, k, patched, env_own, post, env_post, Ok(()))
        };
    assert(r_own == Ok::<(), SSAError>(())) by {
        let u = r_own->Ok_0;
        assert(u == ());
    }
    lemma_after_patching(g, init, i, pre, env_pre, own, env_own, patched);
    lemma_all_grow_graph(pre, patched);
    lemma_children_covered(g, init, i, kids, k, patched, env_own, post, env_post);
    lemma_all_grow_twice(pre, patched, post);
    lemma_covered_persists(g, init, patched, post, i);
    assert forall|p: int| 0 <= p < pre.len() && #[trigger] dominates(g, i, p) implies edges_covered(
        g,
        init,
        post,
        p,
    ) by {
        if p != i {
            let c = lemma_child_above(g, i, p);
            lemma_dominates_reachable(g, i, c);
            assert(kids.contains(c as usize));
            let l = choose|l: int| 0 <= l < kids.len() && kids[l] == c as usize;
            assert(dominates(g, kids[l] as int, p));
        }
    }
}

/// The conversion of a subtree changes, besides the names of variables,
/// the arguments of phi statements only, and those it only adds to.
pub proof fn lemma_subtree_grows(
    g: Seq<Seq<usize>>,
    i: int,
    pre: Seq<BasicBlock>,
    env_pre: Environment,
    post: Seq<BasicBlock>,
    env_post: Environment,
)
    requires
        env_pre@.scopes.len() > 0,
        subtree_converted(g, i, pre, env_pre, post, env_post, Ok(())),
    ensures
        all_grow(pre, post),
        env_post@.scopes.len() > 0,
    decreases g.len() - dominator_depth(g, i), 1nat, 0nat,
{
    let (own, env_own, r_own) = choose|own: Seq<BasicBlock>, env_own: Environment, r_own: SSAResult<()>|
        {
            &&& #[trigger] block_renamed(pre, i, env_pre, own, env_own, r_own)
            &&& if r_own is Err {
                post == own && env_post == env_own && Ok::<(), SSAError>(()) == r_own
            } else {
                exists|patched: Seq<BasicBlock>, kids: Seq<usize>, k: nat|
                    {
                        &&& #[trigger] successors_patched(
                            own[i].successors_spec(),
                            own[i].successors_spec().len(),
                            own,
                            env_own,
                            patched,
                        )
                        &&& is_children_list(g, i, kids)
                        &&& #[trigger] children_ended(kids, k, Ok::<(), SSAError>(()))
                        &&& children_converted(
                            g,
                            i,
                            kids,
                            k,
                            patched,
                            env_own,
                            post,
                            env_post,
                            Ok(()),
                        )
                    }
            }
        };
    let (patched, kids, k) = choose|patched: Seq<BasicBlock>, kids: Seq<usize>, k: nat|
        {
            &&& #[trigger] successors_patched(
                own[i].successors_spec(),
                own[i].successors_spec().len(),
                own,
                env_own,
                patched,
            )
            &&& is_children_list(g, i, kids)
            &&& #[trigger] children_ended(kids, k, Ok::<(), SSAError>(()))
            &&& children_converted(g, i, kids, k, patched, env_own, post, env_post, Ok(()))
        };
    assert(r_own == Ok::<(), SSAError>(())) by {
        let u = r_own->Ok_0;
        assert(u == ());
    }
    lemma_renamed_grow(pre, i, env_pre, own, env_own);
    let succ = own[i].successors_spec();
    lemma_patched_grow(succ, succ.len(), own, env_own, patched);
    lemma_all_grow_twice(pre, own, patched);
    lemma_children_grow(g, i, kids, k, patched, env_own, post, env_post);
    lemma_all_grow_twice(pre, patched, post);
}

/// The conversion of the first `k` children of `i` only adds arguments to
/// phi statements, besides renaming variables.
proof fn lemma_children_grow(
    g: Seq<Seq<usize>>,
    i: int,
    kids: Seq<usize>,
    k: nat,
    pre: Seq<BasicBlock>,
    env_pre: Environment,
    post: Seq<BasicBlock>,
    env_post: Environment,
)
    requires
        env_pre@.scopes.len() > 0,
        k <= kids.len(),
        children_converted(g, i, kids, k, pre, env_pre, post, env_post, Ok(())),
    ensures
        all_grow(pre, post),
        env_post@.scopes.len() > 0,
    decreases g.len() - dominator_depth(g, i), 0nat, k,
{
    if k == 0 {
        assert forall|d: int| 0 <= d < pre.len() implies #[trigger] phis_grow(pre[d], post[d]) by {
            lemma_grow_self(pre[d]);
        }
    } else {
        let (outer, inner, done) = choose|
            outer: (Seq<BasicBlock>, Environment),
            inner: (Seq<BasicBlock>, Environment),
            done: (Seq<BasicBlock>, Environment),
        |
            {
                &&& children_converted(
                    g,
                    i,
                    kids,
                    (k - 1) as nat,
                    pre,
                    env_pre,
                    outer.0,
                    outer.1,
                    Ok(()),
                )
                &&& #[trigger] scope_entered(outer, inner)
                &&& dominator_depth(g, i) < dominator_depth(g, kids[k - 1] as int) <= g.len()
                &&& subtree_converted(
                    g,
                    kids[k - 1] as int,
                    inner.0,
                    inner.1,
                    done.0,
                    done.1,
                    Ok(()),
                )
                &&& #[trigger] scope_left(done, (post, env_post))
            };
        lemma_children_grow(g, i, kids, (k - 1) as nat, pre, env_pre, outer.0, outer.1);
        assert(inner.1@ == outer.1@.pushed());
        lemma_subtree_grows(g, kids[k - 1] as int, inner.0, inner.1, done.0, done.1);
        assert(env_post@ == done.1@.popped());
        lemma_all_grow_twice(pre, outer.0, post);
    }
}

} // verus!
