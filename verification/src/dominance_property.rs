//! Every read of a converted graph names a version that was assigned on
//! the way to it: earlier in its block, or in a block that dominates it.
use crate::basic_block::{block_run, BasicBlock};
use crate::occurrences::lemma_statement_patched;
use crate::renaming::{
    block_patched, block_renamed, children_converted, children_ended, is_children_list,
    scope_entered, scope_left, subtree_converted, successors_patched,
};
use crate::dominance::{
    dominates, dominator_depth, is_immediate_dominator, lemma_child_above, lemma_child_below,
    lemma_dominates_antisymmetric, lemma_dominates_reachable, lemma_dominates_reflexive,
    lemma_dominates_transitive, lemma_subtrees_disjoint, strictly_dominates,
};
use crate::environment::{lemma_minted, lemma_pushed, EnvModel, Environment};
use crate::errors::{SSAError, SSAResult};
use crate::ir::{Meta, Statement, VariableId, VariableName, Version};
use crate::occurrences::{lemma_statement_names, statement_names, statement_target};
use crate::traits::SSABasicBlock;
use crate::versioning::{
    first_undefined,
    statement_error,
    statement_reads,
    statement_renamed,
    statement_write,
};
use vstd::prelude::*;

verus! {

/// `stmt` assigns the version `v` of `x`.
pub open spec fn assigns(stmt: Statement, x: VariableId, v: Version) -> bool {
    statement_target(stmt) == Some(VariableName { id: x, version: Some(v) })
}

/// One of the first `s` statements of `stmts` assigns the version `v` of `x`.
pub open spec fn assigned_before(stmts: Seq<Statement>, x: VariableId, v: Version, s: int) -> bool {
    exists|t: int| 0 <= t < s && t < stmts.len() && assigns(#[trigger] stmts[t], x, v)
}

/// A statement of `block` assigns the version `v` of `x`.
pub open spec fn assigned_in(block: BasicBlock, x: VariableId, v: Version) -> bool {
    assigned_before(block.stmts@, x, v, block.stmts@.len() as int)
}

/// A block that strictly dominates `b` assigns the version `v` of `x`.
pub open spec fn assigned_above(
    g: Seq<Seq<usize>>,
    blocks: Seq<BasicBlock>,
    x: VariableId,
    v: Version,
    b: int,
) -> bool {
    exists|d: int|
        0 <= d < blocks.len() && strictly_dominates(g, d, b) && #[trigger] assigned_in(
            blocks[d],
            x,
            v,
        )
}

/// The version `v` of `x` reaches the statement `s` of block `b`: it is
/// the version that `x` has from the start, or it is assigned before `s` in
/// `b`, or in a block that strictly dominates `b`.
pub open spec fn reaches(
    g: Seq<Seq<usize>>,
    init: EnvModel,
    blocks: Seq<BasicBlock>,
    x: VariableId,
    v: Version,
    b: int,
    s: int,
) -> bool {
    ||| init.visible(x) == Some(v)
    ||| assigned_before(blocks[b].stmts@, x, v, s)
    ||| assigned_above(g, blocks, x, v, b)
}

/// Every read in block `b` names a version, and that version reaches it.
#[verifier::opaque]
pub open spec fn block_sound(
    g: Seq<Seq<usize>>,
    init: EnvModel,
    blocks: Seq<BasicBlock>,
    b: int,
) -> bool {
    forall|s: int, k: int|
        0 <= s < blocks[b].stmts@.len() && 0 <= k < statement_names(blocks[b].stmts@[s]).len()
            ==> {
            let name = #[trigger] statement_names(blocks[b].stmts@[s])[k];
            name.version matches Some(v) && reaches(g, init, blocks, name.id, v, b, s)
        }
}

/// Where no read is undefined, each read has a visible version.
proof fn lemma_all_defined(reads: Seq<(VariableId, Meta)>, m: EnvModel, k: int)
    requires
        first_undefined(reads, m) is None,
        0 <= k < reads.len(),
    ensures
        m.visible(reads[k].0) is Some,
    decreases reads.len(),
{
    if k < reads.len() - 1 {
        lemma_all_defined(reads.drop_last(), m, k);
    }
}

/// The version that is visible after the first `s` statements of a block
/// was visible at its start or is assigned by one of these statements.
proof fn lemma_block_origin(stmts: Seq<Statement>, m: EnvModel, s: nat, x: VariableId, v: Version)
    requires
        m.scopes.len() > 0,
        s <= stmts.len(),
        block_run(stmts, m, s).1 is None,
        block_run(stmts, m, s).0.visible(x) == Some(v),
    ensures
        m.visible(x) == Some(v) || exists|t: int|
            0 <= t < s && statement_write(#[trigger] stmts[t]) == Some(x) && v == (block_run(
                stmts,
                m,
                t as nat,
            ).0.count(x) + 1) as usize,
    decreases s,
{
    if s > 0 {
        let before = block_run(stmts, m, (s - 1) as nat);
        lemma_block_scopes(stmts, m, (s - 1) as nat);
        match statement_write(stmts[s - 1]) {
            Some(y) => {
                lemma_minted(before.0, y, x);
                if y == x {
                    assert(statement_write(stmts[s - 1]) == Some(x));
                } else {
                    lemma_block_origin(stmts, m, (s - 1) as nat, x, v);
                }
            },
            None => {
                lemma_block_origin(stmts, m, (s - 1) as nat, x, v);
            },
        }
    }
}

/// Renaming the statements of a block changes the innermost scope only.
pub proof fn lemma_block_scopes(stmts: Seq<Statement>, m: EnvModel, s: nat)
    requires
        m.scopes.len() > 0,
        s <= stmts.len(),
    ensures
        block_run(stmts, m, s).0.scopes.len() == m.scopes.len(),
        block_run(stmts, m, s).0.scopes.drop_last() == m.scopes.drop_last(),
        block_run(stmts, m, s).1 is None && s > 0 ==> block_run(stmts, m, (s - 1) as nat).1 is None
            && statement_error(stmts[s - 1], block_run(stmts, m, (s - 1) as nat).0) is None,
    decreases s,
{
    if s > 0 {
        lemma_block_scopes(stmts, m, (s - 1) as nat);
        let before = block_run(stmts, m, (s - 1) as nat);
        match statement_write(stmts[s - 1]) {
            Some(y) => {
                lemma_minted(before.0, y, y);
            },
            None => {},
        }
    }
}

/// If a block can be renamed, each of its statements can, in its turn.
proof fn lemma_block_run_ok(stmts: Seq<Statement>, m: EnvModel, s: nat)
    requires
        m.scopes.len() > 0,
        s < stmts.len(),
        block_run(stmts, m, stmts.len()).1 is None,
    ensures
        block_run(stmts, m, s).1 is None,
        statement_error(stmts[s as int], block_run(stmts, m, s).0) is None,
    decreases stmts.len() - s,
{
    if s + 1 < stmts.len() {
        lemma_block_run_ok(stmts, m, s + 1);
    }
    lemma_block_scopes(stmts, m, s + 1);
}

/// In a block that was renamed, every read names a version that was
/// visible at the start of the block or is assigned before the read.
proof fn lemma_renamed_block(
    pre: BasicBlock,
    m: EnvModel,
    post: BasicBlock,
    s: int,
    k: int,
)
    requires
        m.scopes.len() > 0,
        block_run(pre.stmts@, m, pre.stmts@.len()).1 is None,
        post.stmts@.len() == pre.stmts@.len(),
        forall|t: int|
            0 <= t < pre.stmts@.len() ==> statement_renamed(
                pre.stmts@[t],
                block_run(pre.stmts@, m, t as nat).0,
                #[trigger] post.stmts@[t],
            ),
        0 <= s < post.stmts@.len(),
        0 <= k < statement_names(post.stmts@[s]).len(),
    ensures
        ({
            let name = statement_names(post.stmts@[s])[k];
            name.version matches Some(v) && (m.visible(name.id) == Some(v) || assigned_before(
                post.stmts@,
                name.id,
                v,
                s,
            ))
        }),
{
    let stmts = pre.stmts@;
    let here = block_run(stmts, m, s as nat).0;
    lemma_block_run_ok(stmts, m, s as nat);
    assert(statement_renamed(stmts[s], here, post.stmts@[s]));
    lemma_statement_names(stmts[s], here, post.stmts@[s]);
    let reads = statement_reads(stmts[s]);
    let name = statement_names(post.stmts@[s])[k];
    assert(name == (VariableName { id: reads[k].0, version: here.visible(reads[k].0) }));
    lemma_all_defined(reads, here, k);
    let x = name.id;
    let v = name.version->0;
    lemma_block_origin(stmts, m, s as nat, x, v);
    if m.visible(x) != Some(v) {
        let t = choose|t: int|
            0 <= t < s && statement_write(#[trigger] stmts[t]) == Some(x) && v == (block_run(
                stmts,
                m,
                t as nat,
            ).0.count(x) + 1) as usize;
        assert(statement_renamed(stmts[t], block_run(stmts, m, t as nat).0, post.stmts@[t]));
        lemma_statement_names(stmts[t], block_run(stmts, m, t as nat).0, post.stmts@[t]);
        assert(assigns(post.stmts@[t], x, v));
    }
}

/// The statements of `b` read and assign what the statements of `a` do.
#[verifier::opaque]
pub open spec fn same_occurrences(a: BasicBlock, b: BasicBlock) -> bool {
    &&& b.stmts@.len() == a.stmts@.len()
    &&& forall|t: int|
        0 <= t < a.stmts@.len() ==> statement_names(#[trigger] b.stmts@[t]) == statement_names(
            a.stmts@[t],
        ) && statement_target(b.stmts@[t]) == statement_target(a.stmts@[t])
}

/// A version that is assigned in a block is assigned in every block that
/// reads and assigns what that block does.
pub proof fn lemma_assigned_persists(a: BasicBlock, b: BasicBlock, x: VariableId, v: Version, s: int)
    requires
        same_occurrences(a, b),
        assigned_before(a.stmts@, x, v, s),
    ensures
        assigned_before(b.stmts@, x, v, s),
{
    reveal(same_occurrences);
    let t = choose|t: int| 0 <= t < s && t < a.stmts@.len() && assigns(#[trigger] a.stmts@[t], x, v);
    assert(statement_target(b.stmts@[t]) == statement_target(a.stmts@[t]));
    assert(assigns(b.stmts@[t], x, v));
}

/// A version that is assigned above `b` stays assigned above `b` while the
/// blocks that strictly dominate `b` read and assign what they did.
pub proof fn lemma_assigned_above_persists(
    g: Seq<Seq<usize>>,
    pre: Seq<BasicBlock>,
    post: Seq<BasicBlock>,
    x: VariableId,
    v: Version,
    b: int,
)
    requires
        post.len() == pre.len(),
        forall|d: int|
            0 <= d < pre.len() && strictly_dominates(g, d, b) ==> #[trigger] same_occurrences(
                pre[d],
                post[d],
            ),
        assigned_above(g, pre, x, v, b),
    ensures
        assigned_above(g, post, x, v, b),
{
    let d = choose|d: int|
        0 <= d < pre.len() && strictly_dominates(g, d, b) && #[trigger] assigned_in(pre[d], x, v);
    assert(same_occurrences(pre[d], post[d]));
    lemma_assigned_persists(pre[d], post[d], x, v, pre[d].stmts@.len() as int);
    assert(assigned_in(post[d], x, v));
}

/// A block whose reads name versions that reach them stays so while it and
/// the blocks that strictly dominate it read and assign what they did.
proof fn lemma_block_sound_persists(
    g: Seq<Seq<usize>>,
    init: EnvModel,
    pre: Seq<BasicBlock>,
    post: Seq<BasicBlock>,
    b: int,
)
    requires
        post.len() == pre.len(),
        0 <= b < pre.len(),
        forall|d: int|
            0 <= d < pre.len() && (d == b || strictly_dominates(g, d, b))
                ==> #[trigger] same_occurrences(pre[d], post[d]),
        block_sound(g, init, pre, b),
    ensures
        block_sound(g, init, post, b),
{
    reveal(same_occurrences);
    reveal(block_sound);
    assert(same_occurrences(pre[b], post[b]));
    assert forall|s: int, k: int|
        0 <= s < post[b].stmts@.len() && 0 <= k < statement_names(
            post[b].stmts@[s],
        ).len() implies ({
        let name = #[trigger] statement_names(post[b].stmts@[s])[k];
        name.version matches Some(v) && reaches(g, init, post, name.id, v, b, s)
    }) by {
        assert(statement_names(post[b].stmts@[s]) == statement_names(pre[b].stmts@[s]));
        let name = statement_names(pre[b].stmts@[s])[k];
        let x = name.id;
        let v = name.version->0;
        assert(reaches(g, init, pre, x, v, b, s));
        if assigned_before(pre[b].stmts@, x, v, s) {
            lemma_assigned_persists(pre[b], post[b], x, v, s);
        }
        if assigned_above(g, pre, x, v, b) {
            lemma_assigned_above_persists(g, pre, post, x, v, b);
        }
    }
}

/// Patching phi statements changes neither what the statements of a block
/// read nor what they assign.
pub proof fn lemma_patched_occurrences(
    succ: Seq<usize>,
    k: nat,
    pre: Seq<BasicBlock>,
    env: Environment,
    post: Seq<BasicBlock>,
    d: int,
)
    requires
        successors_patched(succ, k, pre, env, post),
        0 <= d < pre.len(),
    ensures
        post.len() == pre.len(),
        same_occurrences(pre[d], post[d]),
    decreases k,
{
    reveal(same_occurrences);
    if k > 0 {
        let mid = choose|mid: Seq<BasicBlock>|
            successors_patched(succ, (k - 1) as nat, pre, env, mid) && #[trigger] block_patched(
                mid,
                succ[k - 1] as int,
                env,
                post,
            );
        lemma_patched_occurrences(succ, (k - 1) as nat, pre, env, mid, d);
        let j = succ[k - 1] as int;
        if d == j {
            assert forall|t: int| 0 <= t < mid[d].stmts@.len() implies statement_names(
                #[trigger] post[d].stmts@[t],
            ) == statement_names(mid[d].stmts@[t]) && statement_target(post[d].stmts@[t])
                == statement_target(mid[d].stmts@[t]) by {
                lemma_statement_patched(mid[d].stmts@[t], env@, post[d].stmts@[t]);
            }
        } else {
            assert(post[d] == mid[d]);
        }
    }
}

/// Every version that is visible in `m` was visible from the start, or is
/// assigned in a block that strictly dominates `i`, or, if `own` holds, in
/// block `i`.
#[verifier::opaque]
pub open spec fn visible_sound(
    g: Seq<Seq<usize>>,
    init: EnvModel,
    blocks: Seq<BasicBlock>,
    m: EnvModel,
    i: int,
    own: bool,
) -> bool {
    forall|x: VariableId, v: Version|
        m.visible(x) == Some(v) ==> init.visible(x) == Some(v) || #[trigger] assigned_above(
            g,
            blocks,
            x,
            v,
            i,
        ) || (own && assigned_in(blocks[i], x, v))
}

/// None of the first `k` nodes in `kids` dominates `d`.
pub open spec fn outside_subtrees(g: Seq<Seq<usize>>, kids: Seq<usize>, k: nat, d: int) -> bool {
    forall|j: int| 0 <= j < k ==> !dominates(g, #[trigger] kids[j] as int, d)
}

/// Having the same reads and assignments carries over from one block to
/// the next.
pub proof fn lemma_same_occurrences_twice(a: BasicBlock, b: BasicBlock, c: BasicBlock)
    requires
        same_occurrences(a, b),
        same_occurrences(b, c),
    ensures
        same_occurrences(a, c),
{
    reveal(same_occurrences);
    assert forall|t: int| 0 <= t < a.stmts@.len() implies statement_names(#[trigger] c.stmts@[t])
        == statement_names(a.stmts@[t]) && statement_target(c.stmts@[t]) == statement_target(
        a.stmts@[t],
    ) by {
        assert(statement_names(b.stmts@[t]) == statement_names(a.stmts@[t]));
    }
}

/// What is visible on entering a child of `i` in the dominator tree is
/// assigned above the child: in `i`, or above `i`.
pub proof fn lemma_visible_in_child(
    g: Seq<Seq<usize>>,
    init: EnvModel,
    i: int,
    kids: Seq<usize>,
    k: nat,
    pre: Seq<BasicBlock>,
    own: EnvModel,
    outer: Seq<BasicBlock>,
    around: EnvModel,
    inside: EnvModel,
)
    requires
        pre.len() == g.len(),
        outer.len() == pre.len(),
        dominates(g, i, i),
        is_children_list(g, i, kids),
        0 < k <= kids.len(),
        visible_sound(g, init, pre, own, i, true),
        around.scopes == own.scopes,
        inside == around.pushed(),
        forall|d: int|
            0 <= d < pre.len() && outside_subtrees(g, kids, (k - 1) as nat, d)
                ==> #[trigger] same_occurrences(pre[d], outer[d]),
    ensures
        visible_sound(g, init, outer, inside, kids[k - 1] as int, false),
{
    reveal(visible_sound);
    let c = kids[k - 1] as int;
    assert(kids.contains(kids[k - 1]));
    assert(is_immediate_dominator(g, i, c));
    lemma_dominates_reachable(g, i, c);
    assert forall|x: VariableId, v: Version| inside.visible(x) == Some(v) implies init.visible(
        x,
    ) == Some(v) || #[trigger] assigned_above(g, outer, x, v, c) by {
        lemma_pushed(around, x);
        assert(own.visible(x) == Some(v));
        if init.visible(x) != Some(v) {
            let d = if assigned_above(g, pre, x, v, i) {
                choose|d: int|
                    0 <= d < pre.len() && strictly_dominates(g, d, i) && #[trigger] assigned_in(
                        pre[d],
                        x,
                        v,
                    )
            } else {
                i
            };
            assert(dominates(g, d, i));
            assert(assigned_in(pre[d], x, v));
            lemma_dominates_transitive(g, d, i, c);
            if d == c {
                lemma_dominates_antisymmetric(g, i, c);
            }
            assert(strictly_dominates(g, d, c));
            assert(outside_subtrees(g, kids, (k - 1) as nat, d)) by {
                assert forall|j: int| 0 <= j < k - 1 implies !dominates(
                    g,
                    #[trigger] kids[j] as int,
                    d,
                ) by {
                    assert(kids.contains(kids[j]));
                    lemma_child_below(g, i, kids[j] as int, d);
                }
            }
            assert(same_occurrences(pre[d], outer[d]));
            lemma_assigned_persists(pre[d], outer[d], x, v, pre[d].stmts@.len() as int);
            assert(assigned_in(outer[d], x, v));
        }
    }
}

/// Once the first `k` children of `i` in the dominator tree are converted,
/// every read below them names a version that reaches it, the blocks
/// outside of their subtrees read and assign what they did, and the scopes
/// are those from before.
pub proof fn lemma_children_sound(
    g: Seq<Seq<usize>>,
    init: EnvModel,
    i: int,
    kids: Seq<usize>,
    k: nat,
    pre: Seq<BasicBlock>,
    env_pre: Environment,
    post: Seq<BasicBlock>,
    env_post: Environment,
)
    requires
        pre.len() == g.len(),
        g.len() <= usize::MAX,
        dominates(g, i, i),
        env_pre@.scopes.len() > 0,
        is_children_list(g, i, kids),
        k <= kids.len(),
        children_converted(g, i, kids, k, pre, env_pre, post, env_post, Ok(())),
        visible_sound(g, init, pre, env_pre@, i, true),
    ensures
        post.len() == pre.len(),
        forall|d: int|
            0 <= d < pre.len() && outside_subtrees(g, kids, k, d) ==> #[trigger] same_occurrences(
                pre[d],
                post[d],
            ),
        forall|j: int, b: int|
            0 <= j < k && #[trigger] dominates(g, kids[j] as int, b) ==> block_sound(
                g,
                init,
                post,
                b,
            ),
        env_post@.scopes == env_pre@.scopes,
    decreases g.len() - dominator_depth(g, i), 0nat, k,
{
    reveal(visible_sound);
    if k == 0 {
        assert forall|d: int| 0 <= d < pre.len() implies #[trigger] same_occurrences(
            pre[d],
            post[d],
        ) by {
            reveal(same_occurrences);
        }
    } else {
        let (outer, inner, done) = choose|
            outer: (Seq<BasicBlock>, Environment),
            inner: (Seq<BasicBlock>, Environment),
            done: (Seq<BasicBlock>, Environment),
        |
            {
                &&& children_converted(
                    g,
                    i,
                    kids,
                    (k - 1) as nat,
                    pre,
                    env_pre,
                    outer.0,
                    outer.1,
                    Ok(()),
                )
                &&& #[trigger] scope_entered(outer, inner)
                &&& dominator_depth(g, i) < dominator_depth(g, kids[k - 1] as int) <= g.len()
                &&& subtree_converted(
                    g,
                    kids[k - 1] as int,
                    inner.0,
                    inner.1,
                    done.0,
                    done.1,
                    Ok(()),
                )
                &&& #[trigger] scope_left(done, (post, env_post))
            };
        lemma_children_sound(g, init, i, kids, (k - 1) as nat, pre, env_pre, outer.0, outer.1);
        let c = kids[k - 1] as int;
        assert(kids.contains(kids[k - 1]));
        assert(is_immediate_dominator(g, i, c));
        lemma_dominates_reachable(g, i, c);
        lemma_dominates_reflexive(g, c);
        assert(inner.1@ == outer.1@.pushed());
        lemma_visible_in_child(g, init, i, kids, k, pre, env_pre@, outer.0, outer.1@, inner.1@);
        lemma_subtree_sound(g, init, c, inner.0, inner.1, done.0, done.1);
        assert(env_post@ == done.1@.popped());
        assert(env_post@.scopes =~= env_pre@.scopes) by {
            lemma_pushed(outer.1@, 0);
            assert(done.1@.scopes.drop_last() == outer.1@.scopes);
        }
        assert forall|d: int|
            0 <= d < pre.len() && outside_subtrees(g, kids, k, d) implies #[trigger] same_occurrences(
            pre[d],
            post[d],
        ) by {
            assert(!dominates(g, kids[k - 1] as int, d));
            assert(outside_subtrees(g, kids, (k - 1) as nat, d));
            assert(same_occurrences(pre[d], outer.0[d]));
            assert(same_occurrences(inner.0[d], done.0[d]));
            lemma_same_occurrences_twice(pre[d], outer.0[d], post[d]);
        }
        assert forall|j: int, b: int|
            0 <= j < k && #[trigger] dominates(g, kids[j] as int, b) implies block_sound(
            g,
            init,
            post,
            b,
        ) by {
            if j < k - 1 {
                assert(block_sound(g, init, outer.0, b));
                lemma_dominates_reachable(g, kids[j] as int, b);
                assert forall|d: int|
                    0 <= d < outer.0.len() && (d == b || strictly_dominates(g, d, b))
                        implies #[trigger] same_occurrences(outer.0[d], post[d]) by {
                    if dominates(g, c, d) {
                        lemma_dominates_reflexive(g, b);
                        lemma_dominates_transitive(g, c, d, b);
                        assert(kids.contains(kids[j]));
                        lemma_subtrees_disjoint(g, i, kids[j] as int, c, b);
                    }
                    assert(same_occurrences(inner.0[d], done.0[d]));
                }
                lemma_block_sound_persists(g, init, outer.0, post, b);
            }
        }
    }
}

/// Renaming block `i` leaves every other block as it is.
pub proof fn lemma_renamed_frame(
    pre: Seq<BasicBlock>,
    i: int,
    env_pre: Environment,
    own: Seq<BasicBlock>,
    env_own: Environment,
    r: SSAResult<()>,
)
    requires
        block_renamed(pre, i, env_pre, own, env_own, r),
    ensures
        0 <= i < pre.len(),
        own.len() == pre.len(),
        forall|d: int| 0 <= d < pre.len() && d != i ==> own[d] == pre[d],
{
    reveal(block_renamed);
}

/// What is visible after block `i` was renamed is assigned in it or above
/// it.
pub proof fn lemma_visible_after_block(
    g: Seq<Seq<usize>>,
    init: EnvModel,
    i: int,
    pre: Seq<BasicBlock>,
    env_pre: Environment,
    own: Seq<BasicBlock>,
    env_own: Environment,
    patched: Seq<BasicBlock>,
)
    requires
        pre.len() == g.len(),
        patched.len() == pre.len(),
        env_pre@.scopes.len() > 0,
        block_renamed(pre, i, env_pre, own, env_own, Ok(())),
        forall|d: int| 0 <= d < pre.len() ==> #[trigger] same_occurrences(own[d], patched[d]),
        visible_sound(g, init, pre, env_pre@, i, false),
    ensures
        visible_sound(g, init, patched, env_own@, i, true),
        env_own@.scopes.len() == env_pre@.scopes.len(),
        env_own@.scopes.drop_last() == env_pre@.scopes.drop_last(),
{
    reveal(block_renamed);
    reveal(visible_sound);
    let m = env_pre@.entered(pre[i].index);
    let stmts = pre[i].stmts@;
    lemma_block_scopes(stmts, m, stmts.len());
    assert forall|x: VariableId, v: Version| env_own@.visible(x) == Some(v) implies init.visible(
        x,
    ) == Some(v) || #[trigger] assigned_above(g, patched, x, v, i) || assigned_in(
        patched[i],
        x,
        v,
    ) by {
        lemma_block_origin(stmts, m, stmts.len(), x, v);
        if m.visible(x) == Some(v) {
            if init.visible(x) != Some(v) {
                assert(assigned_above(g, pre, x, v, i));
                assert forall|d: int|
                    0 <= d < pre.len() && strictly_dominates(
                        g,
                        d,
                        i,
                    ) implies #[trigger] same_occurrences(pre[d], patched[d]) by {
                    assert(own[d] == pre[d]);
                    assert(same_occurrences(own[d], patched[d]));
                }
                lemma_assigned_above_persists(g, pre, patched, x, v, i);
            }
        } else {
            let t = choose|t: int|
                0 <= t < stmts.len() && statement_write(#[trigger] stmts[t]) == Some(x) && v == (
                block_run(stmts, m, t as nat).0.count(x) + 1) as usize;
            assert(statement_renamed(stmts[t], block_run(stmts, m, t as nat).0, own[i].stmts@[t]));
            lemma_statement_names(stmts[t], block_run(stmts, m, t as nat).0, own[i].stmts@[t]);
            assert(assigns(own[i].stmts@[t], x, v));
            assert(assigned_in(own[i], x, v));
            assert(same_occurrences(own[i], patched[i]));
            lemma_assigned_persists(own[i], patched[i], x, v, own[i].stmts@.len() as int);
        }
    }
}

/// Every read of block `i`, once it is renamed, names a version that
/// reaches it.
proof fn lemma_own_block_sound(
    g: Seq<Seq<usize>>,
    init: EnvModel,
    i: int,
    pre: Seq<BasicBlock>,
    env_pre: Environment,
    own: Seq<BasicBlock>,
    env_own: Environment,
    post: Seq<BasicBlock>,
)
    requires
        pre.len() == g.len(),
        post.len() == pre.len(),
        env_pre@.scopes.len() > 0,
        block_renamed(pre, i, env_pre, own, env_own, Ok(())),
        same_occurrences(own[i], post[i]),
        forall|d: int|
            0 <= d < pre.len() && strictly_dominates(g, d, i) ==> #[trigger] same_occurrences(
                pre[d],
                post[d],
            ),
        visible_sound(g, init, pre, env_pre@, i, false),
    ensures
        block_sound(g, init, post, i),
{
    reveal(block_renamed);
    reveal(visible_sound);
    reveal(block_sound);
    reveal(same_occurrences);
    let m = env_pre@.entered(pre[i].index);
    assert forall|s: int, n: int|
        0 <= s < post[i].stmts@.len() && 0 <= n < statement_names(
            post[i].stmts@[s],
        ).len() implies ({
        let name = #[trigger] statement_names(post[i].stmts@[s])[n];
        name.version matches Some(v) && reaches(g, init, post, name.id, v, i, s)
    }) by {
        assert(statement_names(post[i].stmts@[s]) == statement_names(own[i].stmts@[s]));
        lemma_renamed_block(pre[i], m, own[i], s, n);
        let name = statement_names(own[i].stmts@[s])[n];
        let x = name.id;
        let v = name.version->0;
        if m.visible(x) == Some(v) {
            if init.visible(x) != Some(v) {
                assert(assigned_above(g, pre, x, v, i));
                lemma_assigned_above_persists(g, pre, post, x, v, i);
            }
        } else {
            lemma_assigned_persists(own[i], post[i], x, v, s);
        }
    }
}

/// In the subtree of `i` in the dominator tree, once it is converted,
/// every read names a version that reaches it; outside of it, the
/// statements read and assign what they did.
pub proof fn lemma_subtree_sound(
    g: Seq<Seq<usize>>,
    init: EnvModel,
    i: int,
    pre: Seq<BasicBlock>,
    env_pre: Environment,
    post: Seq<BasicBlock>,
    env_post: Environment,
)
    requires
        pre.len() == g.len(),
        g.len() <= usize::MAX,
        dominates(g, i, i),
        env_pre@.scopes.len() > 0,
        subtree_converted(g, i, pre, env_pre, post, env_post, Ok(())),
        visible_sound(g, init, pre, env_pre@, i, false),
    ensures
        post.len() == pre.len(),
        forall|d: int|
            0 <= d < pre.len() && !dominates(g, i, d) ==> #[trigger] same_occurrences(
                pre[d],
                post[d],
            ),
        forall|b: int| dominates(g, i, b) ==> #[trigger] block_sound(g, init, post, b),
        env_post@.scopes.len() == env_pre@.scopes.len(),
        env_post@.scopes.drop_last() == env_pre@.scopes.drop_last(),
    decreases g.len() - dominator_depth(g, i), 1nat, 0nat,
{
    lemma_dominates_reachable(g, i, i);
    let (own, env_own, r_own) = choose|own: Seq<BasicBlock>, env_own: Environment, r_own: SSAResult<()>|
        {
            &&& #[trigger] block_renamed(pre, i, env_pre, own, env_own, r_own)
            &&& if r_own is Err {
                post == own && env_post == env_own && Ok::<(), SSAError>(()) == r_own
            } else {
                exists|patched: Seq<BasicBlock>, kids: Seq<usize>, k: nat|
                    {
                        &&& #[trigger] successors_patched(
                            own[i].successors_spec(),
                            own[i].successors_spec().len(),
                            own,
                            env_own,
                            patched,
                        )
                        &&& is_children_list(g, i, kids)
                        &&& #[trigger] children_ended(kids, k, Ok::<(), SSAError>(()))
                        &&& children_converted(
                            g,
                            i,
                            kids,
                            k,
                            patched,
                            env_own,
                            post,
                            env_post,
                            Ok(()),
                        )
                    }
            }
        };
    let (patched, kids, k) = choose|patched: Seq<BasicBlock>, kids: Seq<usize>, k: nat|
        {
            &&& #[trigger] successors_patched(
                own[i].successors_spec(),
                own[i].successors_spec().len(),
                own,
                env_own,
                patched,
            )
            &&& is_children_list(g, i, kids)
            &&& #[trigger] children_ended(kids, k, Ok::<(), SSAError>(()))
            &&& children_converted(g, i, kids, k, patched, env_own, post, env_post, Ok(()))
        };
    assert(r_own == Ok::<(), SSAError>(())) by {
        let u = r_own->Ok_0;
        assert(u == ());
    }
    lemma_renamed_frame(pre, i, env_pre, own, env_own, r_own);
    assert forall|d: int| 0 <= d < pre.len() implies #[trigger] same_occurrences(
        own[d],
        patched[d],
    ) by {
        lemma_patched_occurrences(
            own[i].successors_spec(),
            own[i].successors_spec().len(),
            own,
            env_own,
            patched,
            d,
        );
    }
    lemma_patched_occurrences(
        own[i].successors_spec(),
        own[i].successors_spec().len(),
        own,
        env_own,
        patched,
        i,
    );
    lemma_visible_after_block(g, init, i, pre, env_pre, own, env_own, patched);
    lemma_children_sound(g, init, i, kids, k, patched, env_own, post, env_post);
    lemma_subtree_frame(g, i, pre, own, patched, kids, k, post);
    assert forall|d: int|
        0 <= d < pre.len() && strictly_dominates(g, d, i) implies #[trigger] same_occurrences(
        pre[d],
        post[d],
    ) by {
        if dominates(g, i, d) {
            lemma_dominates_antisymmetric(g, i, d);
        }
    }
    lemma_own_block_sound(g, init, i, pre, env_pre, own, env_own, post);
    assert forall|b: int| dominates(g, i, b) implies #[trigger] block_sound(g, init, post, b) by {
        if b != i {
            let c = lemma_child_above(g, i, b);
            lemma_dominates_reachable(g, i, c);
            assert(kids.contains(c as usize));
            let j = choose|j: int| 0 <= j < kids.len() && kids[j] == c as usize;
            assert(dominates(g, kids[j] as int, b));
        }
    }
}

/// The conversion of the subtree of `i` leaves alone what lies outside of
/// it, and block `i` once that is renamed and its successors are patched.
pub proof fn lemma_subtree_frame(
    g: Seq<Seq<usize>>,
    i: int,
    pre: Seq<BasicBlock>,
    own: Seq<BasicBlock>,
    patched: Seq<BasicBlock>,
    kids: Seq<usize>,
    k: nat,
    post: Seq<BasicBlock>,
)
    requires
        pre.len() == g.len(),
        own.len() == pre.len(),
        patched.len() == pre.len(),
        post.len() == pre.len(),
        dominates(g, i, i),
        0 <= i < pre.len(),
        is_children_list(g, i, kids),
        k <= kids.len(),
        forall|d: int| 0 <= d < pre.len() && d != i ==> own[d] == pre[d],
        forall|d: int| 0 <= d < pre.len() ==> #[trigger] same_occurrences(own[d], patched[d]),
        forall|d: int|
            0 <= d < pre.len() && outside_subtrees(g, kids, k, d) ==> #[trigger] same_occurrences(
                patched[d],
                post[d],
            ),
    ensures
        same_occurrences(own[i], post[i]),
        forall|d: int|
            0 <= d < pre.len() && !dominates(g, i, d) ==> #[trigger] same_occurrences(
                pre[d],
                post[d],
            ),
{
    assert forall|d: int|
        0 <= d < pre.len() && !dominates(g, i, d) implies #[trigger] same_occurrences(
        pre[d],
        post[d],
    ) by {
        assert(own[d] == pre[d]);
        assert(same_occurrences(own[d], patched[d]));
        assert(outside_subtrees(g, kids, k, d)) by {
            assert forall|j: int| 0 <= j < k implies !dominates(g, #[trigger] kids[j] as int, d) by {
                assert(kids.contains(kids[j]));
                if dominates(g, kids[j] as int, d) {
                    lemma_dominates_transitive(g, i, kids[j] as int, d);
                }
            }
        }
        assert(same_occurrences(patched[d], post[d]));
        lemma_same_occurrences_twice(pre[d], patched[d], post[d]);
    }
    assert(outside_subtrees(g, kids, k, i)) by {
        assert forall|j: int| 0 <= j < k implies !dominates(g, #[trigger] kids[j] as int, i) by {
            assert(kids.contains(kids[j]));
            lemma_child_below(g, i, kids[j] as int, i);
        }
    }
    assert(same_occurrences(own[i], patched[i]));
    assert(same_occurrences(patched[i], post[i]));
    lemma_same_occurrences_twice(own[i], patched[i], post[i]);
}

} // verus!
