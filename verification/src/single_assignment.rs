//! Every version is assigned once: no two statements of a converted graph
//! assign the same version of a variable.
use crate::basic_block::{block_run, BasicBlock};
use crate::dominance::{
    dominates,
    dominator_depth,
    is_immediate_dominator,
    lemma_child_above,
    lemma_dominates_reachable,
    lemma_dominates_reflexive,
    lemma_subtrees_disjoint,
};
use crate::dominance_property::{
    assigns, lemma_children_sound, lemma_patched_occurrences, lemma_renamed_frame,
    lemma_subtree_frame, lemma_subtree_sound, outside_subtrees, same_occurrences, visible_sound,
};
use crate::environment::{lemma_minted_count, EnvModel, Environment};
use crate::errors::{SSAError, SSAResult};
use crate::ir::{Statement, VariableId, Version};
use crate::occurrences::{lemma_statement_names, statement_target};
use crate::renaming::{
    block_renamed, children_converted, children_ended, is_children_list, scope_entered,
    scope_left, subtree_converted, successors_patched,
};
use crate::traits::SSABasicBlock;
use crate::versioning::{statement_error, statement_renamed, statement_write};
use vstd::prelude::*;

verus! {

/// No variable has fewer versions in `hi` than in `lo`.
pub open spec fn counts_grow(lo: EnvModel, hi: EnvModel) -> bool {
    forall|x: VariableId| lo.count(x) <= #[trigger] hi.count(x)
}

/// Every version that a statement of `block` assigns was given out after
/// `lo` and by `hi`.
#[verifier::opaque]
pub open spec fn block_versions(block: BasicBlock, lo: EnvModel, hi: EnvModel) -> bool {
    forall|s: int, x: VariableId, v: Version|
        0 <= s < block.stmts@.len() && #[trigger] assigns(block.stmts@[s], x, v) ==> lo.count(x)
            < v <= hi.count(x)
}

/// No two statements of `block` assign the same version of a variable.
#[verifier::opaque]
pub open spec fn block_unique(block: BasicBlock) -> bool {
    forall|s: int, t: int, x: VariableId, v: Version|
        0 <= s < block.stmts@.len() && 0 <= t < block.stmts@.len() && #[trigger] assigns(
            block.stmts@[s],
            x,
            v,
        ) && #[trigger] assigns(block.stmts@[t], x, v) ==> s == t
}

/// Every version that a statement of `block` assigns was given out after
/// `lo`.
pub open spec fn block_newer(block: BasicBlock, lo: EnvModel) -> bool {
    forall|s: int, x: VariableId, v: Version|
        0 <= s < block.stmts@.len() && #[trigger] assigns(block.stmts@[s], x, v) ==> lo.count(x)
            < v
}

/// A block whose versions were given out after `lo` and by some count
/// assigns versions newer than those of `lo`.
pub proof fn lemma_block_newer(block: BasicBlock, lo: EnvModel, hi: EnvModel)
    requires
        block_versions(block, lo, hi),
    ensures
        block_newer(block, lo),
{
    reveal(block_versions);
}

/// The number of versions of a variable does not fall while the statements
/// of a block are renamed.
proof fn lemma_block_counts(stmts: Seq<Statement>, m: EnvModel, s: nat, t: nat, x: VariableId)
    requires
        s <= t <= stmts.len(),
        block_run(stmts, m, t).1 is None,
    ensures
        block_run(stmts, m, s).1 is None,
        block_run(stmts, m, s).0.count(x) <= block_run(stmts, m, t).0.count(x),
        s < t && statement_write(stmts[s as int]) == Some(x) ==> block_run(stmts, m, s).0.count(x)
            < block_run(stmts, m, t).0.count(x),
        s < t ==> statement_error(stmts[s as int], block_run(stmts, m, s).0) is None,
    decreases t - s,
{
    if s < t {
        lemma_block_counts(stmts, m, s + 1, t, x);
        let before = block_run(stmts, m, s).0;
        match statement_write(stmts[s as int]) {
            Some(y) => {
                lemma_minted_count(before, y, x);
            },
            None => {},
        }
    }
}

/// In a block that was renamed under `m`, each assigned version was given
/// out while the block was renamed, and none is assigned twice.
proof fn lemma_renamed_block_versions(pre: BasicBlock, m: EnvModel, post: BasicBlock)
    requires
        block_run(pre.stmts@, m, pre.stmts@.len()).1 is None,
        post.stmts@.len() == pre.stmts@.len(),
        forall|t: int|
            0 <= t < pre.stmts@.len() ==> statement_renamed(
                pre.stmts@[t],
                block_run(pre.stmts@, m, t as nat).0,
                #[trigger] post.stmts@[t],
            ),
    ensures
        block_versions(post, m, block_run(pre.stmts@, m, pre.stmts@.len()).0),
        block_unique(post),
        counts_grow(m, block_run(pre.stmts@, m, pre.stmts@.len()).0),
{
    reveal(block_versions);
    reveal(block_unique);
    let stmts = pre.stmts@;
    let n = stmts.len();
    let end = block_run(stmts, m, n).0;
    assert forall|x: VariableId| m.count(x) <= #[trigger] end.count(x) by {
        lemma_block_counts(stmts, m, 0, n, x);
    }
    assert forall|s: int, x: VariableId, v: Version|
        0 <= s < n && #[trigger] assigns(post.stmts@[s], x, v) implies m.count(x) < v
        <= end.count(x) && statement_write(stmts[s]) == Some(x) && v == block_run(
        stmts,
        m,
        s as nat,
    ).0.count(x) + 1 by {
        let here = block_run(stmts, m, s as nat).0;
        lemma_block_counts(stmts, m, s as nat, n, x);
        lemma_block_counts(stmts, m, 0, s as nat, x);
        assert(statement_renamed(stmts[s], here, post.stmts@[s]));
        lemma_statement_names(stmts[s], here, post.stmts@[s]);
    }
    assert forall|s: int, t: int, x: VariableId, v: Version|
        0 <= s < n && 0 <= t < n && #[trigger] assigns(post.stmts@[s], x, v) && #[trigger] assigns(
            post.stmts@[t],
            x,
            v,
        ) implies s == t by {
        lemma_block_counts(stmts, m, s as nat, n, x);
        lemma_block_counts(stmts, m, t as nat, n, x);
        if s < t {
            lemma_block_counts(stmts, m, s as nat, t as nat, x);
        }
        if t < s {
            lemma_block_counts(stmts, m, t as nat, s as nat, x);
        }
    }
}

/// No statement of `a` assigns a version that a statement of `b` assigns,
/// unless `same` holds and it is the same statement.
#[verifier::opaque]
pub open spec fn pair_unique(a: BasicBlock, b: BasicBlock, same: bool) -> bool {
    forall|s: int, t: int, x: VariableId, v: Version|
        0 <= s < a.stmts@.len() && 0 <= t < b.stmts@.len() && #[trigger] assigns(
            a.stmts@[s],
            x,
            v,
        ) && #[trigger] assigns(b.stmts@[t], x, v) ==> same && s == t
}

/// The bounds on the versions that a block assigns hold of every block
/// that assigns what that block does, and hold when they are widened.
proof fn lemma_versions_persist(
    a: BasicBlock,
    b: BasicBlock,
    lo: EnvModel,
    hi: EnvModel,
    lower: EnvModel,
    higher: EnvModel,
)
    requires
        same_occurrences(a, b),
        block_versions(a, lo, hi),
        counts_grow(lower, lo),
        counts_grow(hi, higher),
    ensures
        block_versions(b, lower, higher),
{
    reveal(block_versions);
    reveal(same_occurrences);
    assert forall|s: int, x: VariableId, v: Version|
        0 <= s < b.stmts@.len() && #[trigger] assigns(b.stmts@[s], x, v) implies lower.count(x) < v
        <= higher.count(x) by {
        assert(statement_target(b.stmts@[s]) == statement_target(a.stmts@[s]));
        assert(assigns(a.stmts@[s], x, v));
        assert(lower.count(x) <= lo.count(x));
        assert(hi.count(x) <= higher.count(x));
    }
}

/// Two blocks that share no assigned version share none once each is
/// replaced by a block that assigns what it does.
proof fn lemma_unique_persists(
    a: BasicBlock,
    b: BasicBlock,
    c: BasicBlock,
    d: BasicBlock,
    same: bool,
)
    requires
        same_occurrences(a, b),
        same_occurrences(c, d),
        pair_unique(a, c, same),
    ensures
        pair_unique(b, d, same),
{
    reveal(pair_unique);
    reveal(same_occurrences);
    assert forall|s: int, t: int, x: VariableId, v: Version|
        0 <= s < b.stmts@.len() && 0 <= t < d.stmts@.len() && #[trigger] assigns(b.stmts@[s], x, v)
            && #[trigger] assigns(d.stmts@[t], x, v) implies same && s == t by {
        assert(statement_target(b.stmts@[s]) == statement_target(a.stmts@[s]));
        assert(statement_target(d.stmts@[t]) == statement_target(c.stmts@[t]));
        assert(assigns(a.stmts@[s], x, v));
        assert(assigns(c.stmts@[t], x, v));
    }
}

/// Blocks whose versions were given out one after the other share no
/// assigned version.
proof fn lemma_apart(a: BasicBlock, b: BasicBlock, lo: EnvModel, mid: EnvModel, hi: EnvModel)
    requires
        block_versions(a, lo, mid),
        block_versions(b, mid, hi),
    ensures
        pair_unique(a, b, false),
        pair_unique(b, a, false),
{
    reveal(block_versions);
    reveal(pair_unique);
}

/// A block that assigns no version twice shares versions with itself only
/// in one and the same statement.
proof fn lemma_block_unique_pair(a: BasicBlock)
    requires
        block_unique(a),
    ensures
        pair_unique(a, a, true),
{
    reveal(block_unique);
    reveal(pair_unique);
}

/// A block reads and assigns what it reads and assigns.
proof fn lemma_same_occurrences_self(a: BasicBlock)
    ensures
        same_occurrences(a, a),
{
    reveal(same_occurrences);
}

/// Growth of the counts carries over from one environment to the next.
proof fn lemma_counts_grow_twice(a: EnvModel, b: EnvModel, c: EnvModel)
    requires
        counts_grow(a, b),
        counts_grow(b, c),
    ensures
        counts_grow(a, c),
{
    assert forall|x: VariableId| a.count(x) <= #[trigger] c.count(x) by {
        assert(a.count(x) <= b.count(x));
    }
}

/// Block `i`, once it is renamed, assigns versions that were given out
/// while it was renamed, and none of them twice.
proof fn lemma_own_block_versions(
    pre: Seq<BasicBlock>,
    i: int,
    env_pre: Environment,
    own: Seq<BasicBlock>,
    env_own: Environment,
)
    requires
        block_renamed(pre, i, env_pre, own, env_own, Ok(())),
    ensures
        block_versions(own[i], env_pre@, env_own@),
        block_unique(own[i]),
        counts_grow(env_pre@, env_own@),
{
    reveal(block_renamed);
    let m = env_pre@.entered(pre[i].index);
    lemma_renamed_block_versions(pre[i], m, own[i]);
    let end = block_run(pre[i].stmts@, m, pre[i].stmts@.len()).0;
    assert(counts_grow(env_pre@, m));
    assert(counts_grow(end, env_own@));
    lemma_same_occurrences_self(own[i]);
    lemma_versions_persist(own[i], own[i], m, end, env_pre@, env_own@);
    lemma_counts_grow_twice(env_pre@, m, env_own@);
}

/// Once the first `k` children of `i` in the dominator tree are converted,
/// each version assigned below them was given out during their conversion,
/// and none is assigned twice.
proof fn lemma_children_versions(
    g: Seq<Seq<usize>>,
    i: int,
    kids: Seq<usize>,
    k: nat,
    pre: Seq<BasicBlock>,
    env_pre: Environment,
    post: Seq<BasicBlock>,
    env_post: Environment,
)
    requires
        pre.len() == g.len(),
        g.len() <= usize::MAX,
        dominates(g, i, i),
        env_pre@.scopes.len() > 0,
        is_children_list(g, i, kids),
        k <= kids.len(),
        children_converted(g, i, kids, k, pre, env_pre, post, env_post, Ok(())),
    ensures
        post.len() == pre.len(),
        env_post@.scopes == env_pre@.scopes,
        counts_grow(env_pre@, env_post@),
        forall|d: int|
            0 <= d < pre.len() && outside_subtrees(g, kids, k, d) ==> #[trigger] same_occurrences(
                pre[d],
                post[d],
            ),
        forall|j: int, b: int|
            0 <= j < k && 0 <= b < pre.len() && #[trigger] dominates(g, kids[j] as int, b)
                ==> block_versions(post[b], env_pre@, env_post@),
        forall|j: int, b: int, l: int, c: int|
            0 <= j < k && 0 <= l < k && 0 <= b < pre.len() && 0 <= c < pre.len()
                && #[trigger] dominates(g, kids[j] as int, b) && #[trigger] dominates(
                g,
                kids[l] as int,
                c,
            ) ==> pair_unique(post[b], post[c], b == c),
    decreases g.len() - dominator_depth(g, i), 0nat, k,
{
    // The frame of the conversion, with what is visible taken as given.
    assert(visible_sound(g, env_pre@, pre, env_pre@, i, true)) by {
        reveal(visible_sound);
    }
    lemma_children_sound(g, env_pre@, i, kids, k, pre, env_pre, post, env_post);
    if k > 0 {
        let (outer, inner, done) = choose|
            outer: (Seq<BasicBlock>, Environment),
            inner: (Seq<BasicBlock>, Environment),
            done: (Seq<BasicBlock>, Environment),
        |
            {
                &&& children_converted(
                    g,
                    i,
                    kids,
                    (k - 1) as nat,
                    pre,
                    env_pre,
                    outer.0,
                    outer.1,
                    Ok(()),
                )
                &&& #[trigger] scope_entered(outer, inner)
                &&& dominator_depth(g, i) < dominator_depth(g, kids[k - 1] as int) <= g.len()
                &&& subtree_converted(
                    g,
                    kids[k - 1] as int,
                    inner.0,
                    inner.1,
                    done.0,
                    done.1,
                    Ok(()),
                )
                &&& #[trigger] scope_left(done, (post, env_post))
            };
        lemma_children_versions(g, i, kids, (k - 1) as nat, pre, env_pre, outer.0, outer.1);
        let c = kids[k - 1] as int;
        assert(kids.contains(kids[k - 1]));
        assert(is_immediate_dominator(g, i, c));
        lemma_dominates_reachable(g, i, c);
        lemma_dominates_reflexive(g, c);
        assert(inner.1@ == outer.1@.pushed());
        assert(env_post@ == done.1@.popped());
        lemma_subtree_versions(g, c, inner.0, inner.1, done.0, done.1);
        assert(visible_sound(g, inner.1@, inner.0, inner.1@, c, false)) by {
            reveal(visible_sound);
        }
        lemma_subtree_sound(g, inner.1@, c, inner.0, inner.1, done.0, done.1);
        assert(counts_grow(outer.1@, inner.1@));
        assert(counts_grow(done.1@, env_post@));
        assert(counts_grow(inner.1@, outer.1@));
        assert(counts_grow(env_post@, done.1@));
        lemma_counts_grow_twice(outer.1@, inner.1@, done.1@);
        lemma_counts_grow_twice(outer.1@, done.1@, env_post@);
        lemma_counts_grow_twice(env_pre@, outer.1@, env_post@);
        // Blocks below earlier children are left alone by this child.
        assert forall|j: int, b: int|
            0 <= j < k - 1 && 0 <= b < pre.len() && #[trigger] dominates(
                g,
                kids[j] as int,
                b,
            ) implies same_occurrences(outer.0[b], post[b]) by {
            if dominates(g, c, b) {
                assert(kids.contains(kids[j]));
                lemma_subtrees_disjoint(g, i, kids[j] as int, c, b);
            }
            assert(same_occurrences(inner.0[b], done.0[b]));
        }
        assert forall|j: int, b: int|
            0 <= j < k && 0 <= b < pre.len() && #[trigger] dominates(
                g,
                kids[j] as int,
                b,
            ) implies block_versions(post[b], env_pre@, env_post@) by {
            if j < k - 1 {
                lemma_versions_persist(
                    outer.0[b],
                    post[b],
                    env_pre@,
                    outer.1@,
                    env_pre@,
                    env_post@,
                );
            } else {
                lemma_same_occurrences_self(post[b]);
                lemma_versions_persist(post[b], post[b], inner.1@, done.1@, env_pre@, env_post@);
            }
        }
        assert forall|j: int, b: int, l: int, e: int|
            0 <= j < k && 0 <= l < k && 0 <= b < pre.len() && 0 <= e < pre.len()
                && #[trigger] dominates(g, kids[j] as int, b) && #[trigger] dominates(
                g,
                kids[l] as int,
                e,
            ) implies pair_unique(post[b], post[e], b == e) by {
            if j < k - 1 && l < k - 1 {
                assert(pair_unique(outer.0[b], outer.0[e], b == e));
                lemma_unique_persists(outer.0[b], post[b], outer.0[e], post[e], b == e);
            } else if j == k - 1 && l == k - 1 {
            } else {
                let (early, late) = if j < k - 1 {
                    (b, e)
                } else {
                    (e, b)
                };
                lemma_versions_persist(
                    outer.0[early],
                    post[early],
                    env_pre@,
                    outer.1@,
                    env_pre@,
                    outer.1@,
                );
                lemma_same_occurrences_self(post[late]);
                lemma_versions_persist(
                    post[late],
                    post[late],
                    inner.1@,
                    done.1@,
                    outer.1@,
                    env_post@,
                );
                lemma_apart(post[early], post[late], env_pre@, outer.1@, env_post@);
                if b == e {
                    if j < k - 1 {
                        assert(kids.contains(kids[j]));
                        lemma_subtrees_disjoint(g, i, kids[j] as int, c, b);
                    } else {
                        assert(kids.contains(kids[l]));
                        lemma_subtrees_disjoint(g, i, kids[l] as int, c, b);
                    }
                }
                lemma_pair_weaken(post[b], post[e], b == e);
            }
        }
    } else {
        assert(counts_grow(env_pre@, env_post@));
    }
}

/// Blocks that share no assigned version share none but in one and the
/// same statement.
proof fn lemma_pair_weaken(a: BasicBlock, b: BasicBlock, same: bool)
    requires
        pair_unique(a, b, false),
    ensures
        pair_unique(a, b, same),
{
    reveal(pair_unique);
}

/// In the subtree of `i` in the dominator tree, once it is converted, each
/// assigned version was given out during the conversion, and none is
/// assigned twice.
pub proof fn lemma_subtree_versions(
    g: Seq<Seq<usize>>,
    i: int,
    pre: Seq<BasicBlock>,
    env_pre: Environment,
    post: Seq<BasicBlock>,
    env_post: Environment,
)
    requires
        pre.len() == g.len(),
        g.len() <= usize::MAX,
        dominates(g, i, i),
        env_pre@.scopes.len() > 0,
        subtree_converted(g, i, pre, env_pre, post, env_post, Ok(())),
    ensures
        post.len() == pre.len(),
        counts_grow(env_pre@, env_post@),
        forall|b: int|
            0 <= b < pre.len() && #[trigger] dominates(g, i, b) ==> block_versions(
                post[b],
                env_pre@,
                env_post@,
            ),
        forall|b: int, c: int|
            0 <= b < pre.len() && 0 <= c < pre.len() && #[trigger] dominates(g, i, b)
                && #[trigger] dominates(g, i, c) ==> pair_unique(post[b], post[c], b == c),
    decreases g.len() - dominator_depth(g, i), 1nat, 0nat,
{
    lemma_dominates_reachable(g, i, i);
    let (own, env_own, r_own) = choose|own: Seq<BasicBlock>, env_own: Environment, r_own: SSAResult<()>|
        {
            &&& #[trigger] block_renamed(pre, i, env_pre, own, env_own, r_own)
            &&& if r_own is Err {
                post == own && env_post == env_own && Ok::<(), SSAError>(()) == r_own
            } else {
                exists|patched: Seq<BasicBlock>, kids: Seq<usize>, k: nat|
                    {
                        &&& #[trigger] successors_patched(
                            own[i].successors_spec(),
                            own[i].successors_spec().len(),
                            own,
                            env_own,
                            patched,
                        )
                        &&& is_children_list(g, i, kids)
                        &&& #[trigger] children_ended(kids, k, Ok::<(), SSAError>(()))
                        &&& children_converted(
                            g,
                            i,
                            kids,
                            k,
                            patched,
                            env_own,
                            post,
                            env_post,
                            Ok(()),
                        )
                    }
            }
        };
    let (patched, kids, k) = choose|patched: Seq<BasicBlock>, kids: Seq<usize>, k: nat|
        {
            &&& #[trigger] successors_patched(
                own[i].successors_spec(),
                own[i].successors_spec().len(),
                own,
                env_own,
                patched,
            )
            &&& is_children_list(g, i, kids)
            &&& #[trigger] children_ended(kids, k, Ok::<(), SSAError>(()))
            &&& children_converted(g, i, kids, k, patched, env_own, post, env_post, Ok(()))
        };
    assert(r_own == Ok::<(), SSAError>(())) by {
        let u = r_own->Ok_0;
        assert(u == ());
    }
    lemma_renamed_frame(pre, i, env_pre, own, env_own, r_own);
    assert forall|d: int| 0 <= d < pre.len() implies #[trigger] same_occurrences(
        own[d],
        patched[d],
    ) by {
        lemma_patched_occurrences(
            own[i].successors_spec(),
            own[i].successors_spec().len(),
            own,
            env_own,
            patched,
            d,
        );
    }
    lemma_patched_occurrences(
        own[i].successors_spec(),
        own[i].successors_spec().len(),
        own,
        env_own,
        patched,
        i,
    );
    lemma_own_block_versions(pre, i, env_pre, own, env_own);
    assert(env_own@.scopes.len() > 0) by {
        reveal(block_renamed);
        crate::dominance_property::lemma_block_scopes(
            pre[i].stmts@,
            env_pre@.entered(pre[i].index),
            pre[i].stmts@.len(),
        );
    }
    lemma_children_versions(g, i, kids, k, patched, env_own, post, env_post);
    lemma_subtree_frame(g, i, pre, own, patched, kids, k, post);
    lemma_counts_grow_twice(env_pre@, env_own@, env_post@);
    lemma_subtree_combine(g, i, own, env_pre@, env_own@, kids, k, post, env_post@);
}

/// What holds of block `i` and of the subtrees of its children holds of
/// the subtree of `i`.
proof fn lemma_subtree_combine(
    g: Seq<Seq<usize>>,
    i: int,
    own: Seq<BasicBlock>,
    lo: EnvModel,
    mid: EnvModel,
    kids: Seq<usize>,
    k: nat,
    post: Seq<BasicBlock>,
    hi: EnvModel,
)
    requires
        post.len() == g.len(),
        own.len() == g.len(),
        g.len() <= usize::MAX,
        dominates(g, i, i),
        0 <= i < g.len(),
        is_children_list(g, i, kids),
        k == kids.len(),
        counts_grow(lo, mid),
        counts_grow(mid, hi),
        block_versions(own[i], lo, mid),
        block_unique(own[i]),
        same_occurrences(own[i], post[i]),
        forall|j: int, b: int|
            0 <= j < k && 0 <= b < post.len() && #[trigger] dominates(g, kids[j] as int, b)
                ==> block_versions(post[b], mid, hi),
        forall|j: int, b: int, l: int, c: int|
            0 <= j < k && 0 <= l < k && 0 <= b < post.len() && 0 <= c < post.len()
                && #[trigger] dominates(g, kids[j] as int, b) && #[trigger] dominates(
                g,
                kids[l] as int,
                c,
            ) ==> pair_unique(post[b], post[c], b == c),
    ensures
        forall|b: int|
            0 <= b < post.len() && #[trigger] dominates(g, i, b) ==> block_versions(
                post[b],
                lo,
                hi,
            ),
        forall|b: int, c: int|
            0 <= b < post.len() && 0 <= c < post.len() && #[trigger] dominates(g, i, b)
                && #[trigger] dominates(g, i, c) ==> pair_unique(post[b], post[c], b == c),
{
    lemma_versions_persist(own[i], post[i], lo, mid, lo, mid);
    lemma_same_occurrences_self(post[i]);
    assert forall|b: int| 0 <= b < post.len() && #[trigger] dominates(g, i, b) implies block_versions(
        post[b],
        lo,
        hi,
    ) by {
        if b == i {
            lemma_versions_persist(post[i], post[i], lo, mid, lo, hi);
        } else {
            let j = lemma_child_index(g, i, kids, b);
            lemma_same_occurrences_self(post[b]);
            lemma_versions_persist(post[b], post[b], mid, hi, lo, hi);
        }
    }
    lemma_block_unique_pair(own[i]);
    lemma_unique_persists(own[i], post[i], own[i], post[i], true);
    assert forall|b: int, c: int|
        0 <= b < post.len() && 0 <= c < post.len() && #[trigger] dominates(g, i, b)
            && #[trigger] dominates(g, i, c) implies pair_unique(post[b], post[c], b == c) by {
        if b == i && c == i {
        } else if b != i && c != i {
            let j = lemma_child_index(g, i, kids, b);
            let l = lemma_child_index(g, i, kids, c);
        } else if b == i {
            let l = lemma_child_index(g, i, kids, c);
            lemma_apart(post[i], post[c], lo, mid, hi);
        } else {
            let j = lemma_child_index(g, i, kids, b);
            lemma_apart(post[i], post[b], lo, mid, hi);
        }
    }
}

/// A node that `i` strictly dominates lies below one of the children of
/// `i`.
proof fn lemma_child_index(g: Seq<Seq<usize>>, i: int, kids: Seq<usize>, b: int) -> (j: int)
    requires
        g.len() <= usize::MAX,
        is_children_list(g, i, kids),
        dominates(g, i, b),
        b != i,
    ensures
        0 <= j < kids.len(),
        dominates(g, kids[j] as int, b),
{
    let c = lemma_child_above(g, i, b);
    lemma_dominates_reachable(g, i, c);
    assert(kids.contains(c as usize));
    choose|j: int| 0 <= j < kids.len() && kids[j] == c as usize
}

} // verus!
