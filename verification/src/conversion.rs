//! What the conversion into static single assignment form makes of a
//! graph, and what holds of every converted graph.
use crate::basic_block::{
    has_argument_from, indexed, is_empty_phi, lemma_phis_lead, BasicBlock,
};
use crate::dominance::{
    lemma_dominates_reachable, lemma_dominates_reflexive, lemma_entry_dominates,
    lemma_entry_has_no_strict_dominator, lemma_entry_reachable, strictly_dominates,
};
use crate::dominance_property::{block_sound, lemma_subtree_sound, visible_sound};
use crate::environment::{EnvModel, Environment};
use crate::errors::SSAResult;
use crate::graph::{has_edge, reachable, well_formed};
use crate::ir::{PhiArgument, VariableId};
use crate::phi_arguments::{
    argument_sound, has_argument, lemma_argument_sound, lemma_placed_arguments,
    lemma_subtree_arguments, lemma_without_arguments, phi_arguments, same_frame,
    without_arguments,
};
use crate::phi_coverage::{
    distinct_arguments, edges_covered, has_version, lemma_subtree_covered, lemma_subtree_grows,
    phis_grow, visible_complete, written_above,
};
use crate::phi_placement::{extended_by_phis, is_phi_placement, phi_chain, phi_slots, phis_added};
use crate::renaming::{cfg_of, subtree_converted};
use crate::single_assignment::{block_newer, lemma_block_newer, lemma_subtree_versions, pair_unique};
use crate::versioning::statement_phi;
use vstd::prelude::*;

verus! {

/// The environment in which the first `k` of `parameters` have their first
/// versions.
pub open spec fn declared(parameters: Seq<VariableId>, k: nat) -> EnvModel
    decreases k,
{
    if k == 0 || k > parameters.len() {
        EnvModel { scopes: seq![Seq::empty()], counts: Seq::empty(), block: 0 }
    } else {
        declared(parameters, (k - 1) as nat).minted(parameters[k - 1])
    }
}

/// `end` and `r` are what the conversion into static single assignment form
/// makes of the blocks `start` with the given parameters: phi statements
/// are placed by the dominance frontiers of the graph of `start`, and the
/// variables are renamed along its dominator tree, in an environment that
/// holds the parameters.
pub open spec fn converted(
    parameters: Seq<VariableId>,
    start: Seq<BasicBlock>,
    end: Seq<BasicBlock>,
    r: SSAResult<()>,
) -> bool {
    exists|placed: Seq<BasicBlock>, env_start: Environment, env_end: Environment|
        {
            &&& #[trigger] phis_added(start, placed)
            &&& is_phi_placement(cfg_of(start), start, phi_slots(placed))
            &&& env_start@ == declared(parameters, parameters.len())
            &&& #[trigger] subtree_converted(cfg_of(start), 0, placed, env_start, end, env_end, r)
        }
}

/// The environment of the parameters has one scope, and has given out no
/// more versions of a variable than there are parameters.
pub proof fn lemma_declared_counts(parameters: Seq<VariableId>, k: nat, x: VariableId)
    requires
        k <= parameters.len(),
    ensures
        declared(parameters, k).count(x) <= k,
        declared(parameters, k).scopes.len() == 1,
    decreases k,
{
    if k > 0 {
        lemma_declared_counts(parameters, (k - 1) as nat, x);
        lemma_declared_counts(parameters, (k - 1) as nat, parameters[k - 1]);
        let before = declared(parameters, (k - 1) as nat);
        let after = before.minted(parameters[k - 1]);
        assert(after.counts.drop_last() =~= before.counts);
    }
}

/// After a conversion, every read in a block that can be reached names a
/// version, and that version is assigned on the way to the read: it is the
/// first version of a parameter, or it is assigned earlier in the block of
/// the read or in a block that strictly dominates it. As every version is
/// assigned once, no read names a version from a block that does not
/// dominate it.
pub proof fn lemma_reads_are_dominated(
    parameters: Seq<VariableId>,
    start: Seq<BasicBlock>,
    end: Seq<BasicBlock>,
    b: int,
)
    requires
        0 < start.len() <= usize::MAX,
        converted(parameters, start, end, Ok(())),
        reachable(cfg_of(start), b),
    ensures
        block_sound(cfg_of(start), declared(parameters, parameters.len()), end, b),
{
    let g = cfg_of(start);
    let init = declared(parameters, parameters.len());
    let (placed, env_start, env_end) = choose|
        placed: Seq<BasicBlock>,
        env_start: Environment,
        env_end: Environment,
    |
        {
            &&& #[trigger] phis_added(start, placed)
            &&& is_phi_placement(cfg_of(start), start, phi_slots(placed))
            &&& env_start@ == declared(parameters, parameters.len())
            &&& #[trigger] subtree_converted(
                cfg_of(start),
                0,
                placed,
                env_start,
                end,
                env_end,
                Ok(()),
            )
        };
    lemma_declared_counts(parameters, parameters.len(), 0);
    lemma_entry_reachable(g);
    lemma_dominates_reflexive(g, 0);
    assert(visible_sound(g, init, placed, env_start@, 0, false)) by {
        reveal(visible_sound);
    }
    lemma_subtree_sound(g, init, 0, placed, env_start, end, env_end);
    lemma_entry_dominates(g, b);
}

/// After a conversion, every version is assigned once: no two statements
/// in blocks that can be reached assign the same version of a variable, and
/// each assigned version is newer than the versions of the parameters.
pub proof fn lemma_versions_are_assigned_once(
    parameters: Seq<VariableId>,
    start: Seq<BasicBlock>,
    end: Seq<BasicBlock>,
    b: int,
    c: int,
)
    requires
        0 < start.len() <= usize::MAX,
        converted(parameters, start, end, Ok(())),
        reachable(cfg_of(start), b),
        reachable(cfg_of(start), c),
    ensures
        pair_unique(end[b], end[c], b == c),
        block_newer(end[b], declared(parameters, parameters.len())),
{
    let g = cfg_of(start);
    let (placed, env_start, env_end) = choose|
        placed: Seq<BasicBlock>,
        env_start: Environment,
        env_end: Environment,
    |
        {
            &&& #[trigger] phis_added(start, placed)
            &&& is_phi_placement(cfg_of(start), start, phi_slots(placed))
            &&& env_start@ == declared(parameters, parameters.len())
            &&& #[trigger] subtree_converted(
                cfg_of(start),
                0,
                placed,
                env_start,
                end,
                env_end,
                Ok(()),
            )
        };
    lemma_declared_counts(parameters, parameters.len(), 0);
    lemma_entry_reachable(g);
    lemma_dominates_reflexive(g, 0);
    lemma_subtree_versions(g, 0, placed, env_start, end, env_end);
    lemma_entry_dominates(g, b);
    lemma_entry_dominates(g, c);
    lemma_dominates_reachable(g, 0, b);
    lemma_dominates_reachable(g, 0, c);
    lemma_block_newer(end[b], env_start@, env_end@);
}

/// After the conversion of a graph whose phi statements had no arguments,
/// every argument of a phi statement arrives over an edge of the graph,
/// from a block that can be reached, and names a version that reaches the
/// end of that block: the first version of a parameter, or a version that
/// is assigned in that block or in a block that strictly dominates it.
pub proof fn lemma_phi_arguments_are_sound(
    parameters: Seq<VariableId>,
    start: Seq<BasicBlock>,
    end: Seq<BasicBlock>,
    j: int,
    x: VariableId,
    a: PhiArgument,
)
    requires
        0 < start.len() <= usize::MAX,
        well_formed(cfg_of(start)),
        indexed(start),
        without_arguments(start),
        converted(parameters, start, end, Ok(())),
        0 <= j < end.len(),
        has_argument(end[j], x, a),
    ensures
        argument_sound(cfg_of(start), declared(parameters, parameters.len()), end, j, x, a),
{
    let g = cfg_of(start);
    let init = declared(parameters, parameters.len());
    let (placed, env_start, env_end) = choose|
        placed: Seq<BasicBlock>,
        env_start: Environment,
        env_end: Environment,
    |
        {
            &&& #[trigger] phis_added(start, placed)
            &&& is_phi_placement(cfg_of(start), start, phi_slots(placed))
            &&& env_start@ == declared(parameters, parameters.len())
            &&& #[trigger] subtree_converted(
                cfg_of(start),
                0,
                placed,
                env_start,
                end,
                env_end,
                Ok(()),
            )
        };
    lemma_declared_counts(parameters, parameters.len(), 0);
    lemma_entry_reachable(g);
    lemma_dominates_reflexive(g, 0);
    lemma_placed_arguments(start, placed);
    assert(cfg_of(placed) =~= g) by {
        assert forall|d: int| 0 <= d < start.len() implies cfg_of(placed)[d] == g[d] by {
            assert(same_frame(start[d], placed[d]));
        }
    }
    assert(indexed(placed)) by {
        assert forall|d: int| 0 <= d < placed.len() implies (#[trigger] placed[d]).index == d by {
            assert(same_frame(start[d], placed[d]));
        }
    }
    lemma_without_arguments(g, init, placed, 0);
    assert(visible_sound(g, init, placed, env_start@, 0, false)) by {
        reveal(visible_sound);
    }
    lemma_subtree_arguments(g, init, 0, placed, env_start, end, env_end);
    lemma_argument_sound(g, init, end, j, x, a);
}

/// After a conversion, each phi statement has an argument for every edge
/// that enters its block from a block that can be reached, if the
/// variable of the phi statement has a version at the end of that block.
pub proof fn lemma_phi_arguments_are_complete(
    parameters: Seq<VariableId>,
    start: Seq<BasicBlock>,
    end: Seq<BasicBlock>,
    p: int,
    j: int,
    s: int,
)
    requires
        0 < start.len() <= usize::MAX,
        well_formed(cfg_of(start)),
        indexed(start),
        converted(parameters, start, end, Ok(())),
        reachable(cfg_of(start), p),
        has_edge(cfg_of(start), p, j),
        0 <= s < end[j].stmts@.len(),
        statement_phi(end[j].stmts@[s]) matches Some(x) && has_version(
            cfg_of(start),
            declared(parameters, parameters.len()),
            end,
            x,
            p,
        ),
    ensures
        has_argument_from(phi_arguments(end[j].stmts@[s]), p as usize),
{
    let g = cfg_of(start);
    let init = declared(parameters, parameters.len());
    let (placed, env_start, env_end) = choose|
        placed: Seq<BasicBlock>,
        env_start: Environment,
        env_end: Environment,
    |
        {
            &&& #[trigger] phis_added(start, placed)
            &&& is_phi_placement(cfg_of(start), start, phi_slots(placed))
            &&& env_start@ == declared(parameters, parameters.len())
            &&& #[trigger] subtree_converted(
                cfg_of(start),
                0,
                placed,
                env_start,
                end,
                env_end,
                Ok(()),
            )
        };
    lemma_declared_counts(parameters, parameters.len(), 0);
    lemma_entry_reachable(g);
    lemma_dominates_reflexive(g, 0);
    lemma_placed_frames(start, placed);
    assert(visible_complete(g, init, placed, env_start@, 0, false)) by {
        reveal(visible_complete);
        assert forall|x: VariableId| !written_above(g, placed, x, 0) by {
            assert forall|d: int| !strictly_dominates(g, d, 0) by {
                lemma_entry_has_no_strict_dominator(g, d);
            }
        }
    }
    lemma_subtree_covered(g, init, 0, placed, env_start, end, env_end);
    lemma_entry_dominates(g, p);
    lemma_dominates_reachable(g, 0, p);
    assert(edges_covered(g, init, end, p));
    reveal(edges_covered);
}

/// After a conversion, no two arguments of a phi statement arrive from one
/// block, if that held before.
pub proof fn lemma_phi_arguments_are_distinct(
    parameters: Seq<VariableId>,
    start: Seq<BasicBlock>,
    end: Seq<BasicBlock>,
    j: int,
    s: int,
)
    requires
        0 < start.len() <= usize::MAX,
        converted(parameters, start, end, Ok(())),
        forall|t: int|
            0 <= t < start[j].stmts@.len() ==> distinct_arguments(
                #[trigger] phi_arguments(start[j].stmts@[t]),
            ),
        0 <= j < end.len(),
        0 <= s < end[j].stmts@.len(),
    ensures
        distinct_arguments(phi_arguments(end[j].stmts@[s])),
{
    let g = cfg_of(start);
    let init = declared(parameters, parameters.len());
    let (placed, env_start, env_end) = choose|
        placed: Seq<BasicBlock>,
        env_start: Environment,
        env_end: Environment,
    |
        {
            &&& #[trigger] phis_added(start, placed)
            &&& is_phi_placement(cfg_of(start), start, phi_slots(placed))
            &&& env_start@ == declared(parameters, parameters.len())
            &&& #[trigger] subtree_converted(
                cfg_of(start),
                0,
                placed,
                env_start,
                end,
                env_end,
                Ok(()),
            )
        };
    lemma_declared_counts(parameters, parameters.len(), 0);
    lemma_entry_reachable(g);
    lemma_dominates_reflexive(g, 0);
    lemma_subtree_grows(g, 0, placed, env_start, end, env_end);
    assert(phis_grow(placed[j], end[j]));
    reveal(phis_grow);
    assert(extended_by_phis(start[j], placed[j]));
    let vars = choose|vars: Seq<VariableId>| phi_chain(start[j], vars, placed[j]);
    let added = lemma_phis_lead(start[j], vars, placed[j]);
    if s < added {
        let k = choose|k: int| 0 <= k < vars.len() && is_empty_phi(placed[j].stmts@[s], vars[k]);
        assert(phi_arguments(placed[j].stmts@[s]).len() == 0);
    } else {
        assert(placed[j].stmts@[added + (s - added)] == start[j].stmts@[s - added]);
    }
}

/// Blocks that got phi statements make the graph that they made, and hold
/// their places.
proof fn lemma_placed_frames(start: Seq<BasicBlock>, placed: Seq<BasicBlock>)
    requires
        phis_added(start, placed),
    ensures
        placed.len() == start.len(),
        cfg_of(placed) == cfg_of(start),
        indexed(start) ==> indexed(placed),
{
    assert forall|d: int| 0 <= d < start.len() implies (#[trigger] placed[d]).index
        == start[d].index && placed[d].successors == start[d].successors by {
        assert(extended_by_phis(start[d], placed[d]));
        let vars = choose|vars: Seq<VariableId>| phi_chain(start[d], vars, placed[d]);
        let added = lemma_phis_lead(start[d], vars, placed[d]);
    }
    assert(cfg_of(placed) =~= cfg_of(start));
}

} // verus!
