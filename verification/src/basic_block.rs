//! Basic blocks: straight-line runs of statements, with the indices of the
//! blocks that control comes from and goes to.
use crate::dominator_tree::{copy_of, Index};
use crate::environment::{EnvModel, Environment};
use crate::errors::{FileLocation, SSAError, SSAResult};
use crate::ir::{Expression, Meta, PhiArgument, Statement, VariableId, VariableName};
use crate::phi_placement::phi_chain;
use crate::traits::{SSABasicBlock, SSAEnvironment};
use crate::versioning::{
    rename_statement, statement_effect, statement_error, statement_phi, statement_renamed,
    statement_write,
};
use vstd::prelude::*;

verus! {

/// A basic block of a control-flow graph.
#[derive(Debug, PartialEq, Eq)]
pub struct BasicBlock {
    pub index: Index,
    pub stmts: Vec<Statement>,
    pub predecessors: Vec<Index>,
    pub successors: Vec<Index>,
}

impl BasicBlock {
    /// The block `index` with the given statements and neighbours.
    pub fn new(
        index: Index,
        stmts: Vec<Statement>,
        predecessors: Vec<Index>,
        successors: Vec<Index>,
    ) -> (block: BasicBlock)
        ensures
            block.index == index,
            block.stmts == stmts,
            block.predecessors == predecessors,
            block.successors == successors,
    {
        BasicBlock { index, stmts, predecessors, successors }
    }

    /// The index of the block in its graph.
    pub fn index(&self) -> (index: Index)
        ensures
            index == self.index,
    {
        self.index
    }

    /// The statements of the block.
    pub fn statements(&self) -> (stmts: &Vec<Statement>)
        ensures
            *stmts == self.stmts,
    {
        &self.stmts
    }

    /// The number of statements of the block.
    pub fn len(&self) -> (n: usize)
        ensures
            n == self.stmts@.len(),
    {
        self.stmts.len()
    }

    /// The indices of the blocks that control comes from.
    pub fn predecessors(&self) -> (predecessors: &Vec<Index>)
        ensures
            *predecessors == self.predecessors,
    {
        &self.predecessors
    }
}

/// Each block holds its place among `blocks` as its index.
pub open spec fn indexed(blocks: Seq<BasicBlock>) -> bool {
    forall|i: int| 0 <= i < blocks.len() ==> (#[trigger] blocks[i]).index == i
}

/// The variables that one of the first `k` statements of `stmts` writes.
pub open spec fn written_below(stmts: Seq<Statement>, k: int) -> Set<VariableId> {
    Set::new(|x: VariableId| exists|s: int| 0 <= s < k && s < stmts.len() && statement_write(#[trigger] stmts[s]) == Some(x))
}

/// The variables that `stmts` has a phi statement for.
pub open spec fn phi_variables(stmts: Seq<Statement>) -> Set<VariableId> {
    Set::new(|x: VariableId| exists|s: int| 0 <= s < stmts.len() && statement_phi(#[trigger] stmts[s]) == Some(x))
}

/// The environment after the first `k` statements of `stmts` were renamed,
/// one after the other, starting under `m`; or, if one of them cannot be
/// renamed, the environment that the first such statement met, and why it
/// cannot be renamed.
pub open spec fn block_run(stmts: Seq<Statement>, m: EnvModel, k: nat) -> (EnvModel, Option<SSAError>)
    decreases k,
{
    if k == 0 || k > stmts.len() {
        (m, None)
    } else {
        let before = block_run(stmts, m, (k - 1) as nat);
        if before.1 is Some {
            before
        } else {
            match statement_error(stmts[k - 1], before.0) {
                Some(error) => (before.0, Some(error)),
                None => (statement_effect(stmts[k - 1], before.0), None),
            }
        }
    }
}

/// Whether `args` holds the value that arrives from the block `predecessor`.
pub open spec fn has_argument_from(args: Seq<PhiArgument>, predecessor: Index) -> bool {
    exists|i: int| 0 <= i < args.len() && (#[trigger] args[i]).predecessor == predecessor
}

/// The arguments of a phi statement for `x` once the version that is
/// visible in `m` is entered as the value that arrives from the block of
/// `m`, unless there is no such version or a value from that block is there
/// already.
pub open spec fn patched_arguments(args: Seq<PhiArgument>, x: VariableId, m: EnvModel) -> Seq<
    PhiArgument,
> {
    match m.visible(x) {
        Some(version) => if has_argument_from(args, m.block) {
            args
        } else {
            args.push(PhiArgument { predecessor: m.block, version })
        },
        None => args,
    }
}

/// `post` is `pre`, with the arguments patched if it is a phi statement.
pub open spec fn statement_patched(pre: Statement, m: EnvModel, post: Statement) -> bool {
    match pre {
        Statement::Substitution { meta, var, rhe: Expression::Phi { meta: phi_meta, args } } => {
            &&& post matches Statement::Substitution {
                meta: meta2,
                var: var2,
                rhe: Expression::Phi { meta: phi_meta2, args: args2 },
            }
            &&& meta2 == meta
            &&& var2 == var
            &&& phi_meta2 == phi_meta
            &&& args2@ == patched_arguments(args@, var.id, m)
        },
        _ => post == pre,
    }
}

/// The meta data of a statement that comes from no source file.
pub open spec fn no_meta() -> Meta {
    Meta { file_id: None, file_location: FileLocation { start: 0, end: 0 } }
}

/// The phi statement for `x` without arguments.
pub open spec fn is_empty_phi(stmt: Statement, x: VariableId) -> bool {
    &&& stmt matches Statement::Substitution {
        meta,
        var,
        rhe: Expression::Phi { meta: phi_meta, args },
    }
    &&& meta == no_meta()
    &&& phi_meta == no_meta()
    &&& var == (VariableName { id: x, version: None })
    &&& args@.len() == 0
}

/// The first `k` statements write finitely many variables.
proof fn lemma_written_below_finite(stmts: Seq<Statement>, k: int)
    requires
        0 <= k <= stmts.len(),
    ensures
        written_below(stmts, k).finite(),
    decreases k,
{
    if k == 0 {
        assert(written_below(stmts, k) =~= Set::<VariableId>::empty());
    } else {
        lemma_written_below_finite(stmts, k - 1);
        match statement_write(stmts[k - 1]) {
            Some(x) => {
                assert(written_below(stmts, k) =~= written_below(stmts, k - 1).insert(x));
            },
            None => {
                assert(written_below(stmts, k) =~= written_below(stmts, k - 1));
            },
        }
    }
}

/// Renaming the statements of a block does not change the block that the
/// environment notes.
pub proof fn lemma_block_run_block(stmts: Seq<Statement>, m: EnvModel, s: nat)
    requires
        s <= stmts.len(),
    ensures
        block_run(stmts, m, s).0.block == m.block,
    decreases s,
{
    if s > 0 {
        lemma_block_run_block(stmts, m, (s - 1) as nat);
    }
}

/// Once a statement cannot be renamed, nothing more happens.
proof fn lemma_block_run_stays(stmts: Seq<Statement>, m: EnvModel, k: nat, l: nat)
    requires
        k <= l <= stmts.len(),
        block_run(stmts, m, k).1 is Some,
    ensures
        block_run(stmts, m, l) == block_run(stmts, m, k),
    decreases l,
{
    if k < l {
        lemma_block_run_stays(stmts, m, k, (l - 1) as nat);
    }
}

/// A block that got phi statements holds them, without arguments, before
/// the statements that it had, which are as they were.
pub proof fn lemma_phis_lead(pre: BasicBlock, vars: Seq<VariableId>, post: BasicBlock) -> (added: int)
    requires
        phi_chain(pre, vars, post),
    ensures
        0 <= added <= vars.len(),
        post.index == pre.index,
        post.predecessors == pre.predecessors,
        post.successors == pre.successors,
        post.stmts@.len() == added + pre.stmts@.len(),
        forall|s: int| 0 <= s < pre.stmts@.len() ==> post.stmts@[added + s] == pre.stmts@[s],
        forall|s: int|
            0 <= s < added ==> exists|k: int|
                0 <= k < vars.len() && is_empty_phi(#[trigger] post.stmts@[s], vars[k]),
    decreases vars.len(),
{
    if vars.len() == 0 {
        0
    } else {
        let mid = choose|mid: BasicBlock|
            phi_chain(pre, vars.drop_last(), mid) && #[trigger] BasicBlock::phi_inserted(
                &mid,
                vars.last(),
                &post,
            );
        let before = lemma_phis_lead(pre, vars.drop_last(), mid);
        if mid.phis().contains(vars.last()) {
            assert forall|s: int| 0 <= s < before implies exists|k: int|
                0 <= k < vars.len() && is_empty_phi(#[trigger] post.stmts@[s], vars[k]) by {
                let k = choose|k: int|
                    0 <= k < vars.drop_last().len() && is_empty_phi(
                        mid.stmts@[s],
                        vars.drop_last()[k],
                    );
                assert(is_empty_phi(post.stmts@[s], vars[k]));
            }
            before
        } else {
            assert forall|s: int| 0 <= s < pre.stmts@.len() implies post.stmts@[before + 1 + s]
                == pre.stmts@[s] by {
                assert(post.stmts@[(before + s) + 1] == mid.stmts@[before + s]);
            }
            assert forall|s: int| 0 <= s < before + 1 implies exists|k: int|
                0 <= k < vars.len() && is_empty_phi(#[trigger] post.stmts@[s], vars[k]) by {
                if s == 0 {
                    assert(is_empty_phi(post.stmts@[0], vars[vars.len() - 1]));
                } else {
                    assert(post.stmts@[(s - 1) + 1] == mid.stmts@[s - 1]);
                    let k = choose|k: int|
                        0 <= k < vars.drop_last().len() && is_empty_phi(
                            mid.stmts@[s - 1],
                            vars.drop_last()[k],
                        );
                    assert(is_empty_phi(post.stmts@[s], vars[k]));
                }
            }
            before + 1
        }
    }
}

impl BasicBlock {
    /// Enters the version visible in `env` into the phi statement at `s`,
    /// if there is one, as the value that arrives from the block of `env`.
    fn update_phi_statement(&mut self, s: usize, env: &Environment)
        requires
            s < old(self).stmts@.len(),
        ensures
            final(self).index == old(self).index,
            final(self).predecessors == old(self).predecessors,
            final(self).successors == old(self).successors,
            final(self).stmts@.len() == old(self).stmts@.len(),
            forall|k: int|
                0 <= k < old(self).stmts@.len() && k != s ==> final(self).stmts@[k] == old(
                    self,
                ).stmts@[k],
            statement_patched(old(self).stmts@[s as int], env@, final(self).stmts@[s as int]),
    {
        match &mut self.stmts[s] {
            Statement::Substitution { var, rhe: Expression::Phi { args, .. }, .. } => {
                match env.get_current_version(var.id) {
                    Some(version) => {
                        let predecessor = env.current_block();
                        let mut found = false;
                        let mut i: usize = 0;
                        while i < args.len()
                            invariant
                                i <= args@.len(),
                                found <==> has_argument_from(
                                    args@.subrange(0, i as int),
                                    predecessor,
                                ),
                            decreases args@.len() - i,
                        {
                            let ghost shorter = args@.subrange(0, i as int);
                            let ghost longer = args@.subrange(0, i + 1);
                            proof {
                                if has_argument_from(shorter, predecessor) {
                                    let j = choose|j: int|
                                        0 <= j < shorter.len() && (
                                        #[trigger] shorter[j]).predecessor == predecessor;
                                    assert(longer[j].predecessor == predecessor);
                                }
                                if has_argument_from(longer, predecessor) && args@[i as int].predecessor
                                    != predecessor {
                                    let j = choose|j: int|
                                        0 <= j < longer.len() && (
                                        #[trigger] longer[j]).predecessor == predecessor;
                                    assert(shorter[j].predecessor == predecessor);
                                }
                                if args@[i as int].predecessor == predecessor {
                                    assert(longer[i as int].predecessor == predecessor);
                                }
                            }
                            if args[i].predecessor == predecessor {
                                found = true;
                            }
                            i += 1;
                        }
                        proof {
                            assert(args@.subrange(0, args@.len() as int) =~= args@);
                        }
                        if !found {
                            args.push(PhiArgument { predecessor, version });
                        }
                    },
                    None => {},
                }
            },
            _ => {},
        }
    }
}

impl SSABasicBlock for BasicBlock {
    type Variable = VariableId;

    type Environment = Environment;

    open spec fn wf(&self) -> bool {
        true
    }

    open spec fn written(&self) -> Set<VariableId> {
        written_below(self.stmts@, self.stmts@.len() as int)
    }

    open spec fn phis(&self) -> Set<VariableId> {
        phi_variables(self.stmts@)
    }

    open spec fn successors_spec(&self) -> Seq<usize> {
        self.successors@
    }

    open spec fn renamed(
        pre: &Self,
        env_pre: &Environment,
        post: &Self,
        env_post: &Environment,
        r: SSAResult<()>,
    ) -> bool {
        let m = env_pre@.entered(pre.index);
        let end = block_run(pre.stmts@, m, pre.stmts@.len());
        &&& env_post@ == end.0
        &&& post.index == pre.index
        &&& post.predecessors@ == pre.predecessors@
        &&& post.successors@ == pre.successors@
        &&& match end.1 {
            Some(error) => r == Err::<(), SSAError>(error) && post.stmts@ == pre.stmts@,
            None => {
                &&& r is Ok
                &&& post.stmts@.len() == pre.stmts@.len()
                &&& forall|s: int|
                    0 <= s < pre.stmts@.len() ==> statement_renamed(
                        pre.stmts@[s],
                        block_run(pre.stmts@, m, s as nat).0,
                        #[trigger] post.stmts@[s],
                    )
            },
        }
    }

    open spec fn phi_inserted(pre: &Self, var: VariableId, post: &Self) -> bool {
        &&& post.index == pre.index
        &&& post.predecessors == pre.predecessors
        &&& post.successors == pre.successors
        &&& if pre.phis().contains(var) {
            post.stmts@ == pre.stmts@
        } else {
            &&& post.stmts@.len() == pre.stmts@.len() + 1
            &&& is_empty_phi(post.stmts@[0], var)
            &&& forall|s: int| 0 <= s < pre.stmts@.len() ==> post.stmts@[s + 1] == pre.stmts@[s]
        }
    }

    open spec fn phis_updated(pre: &Self, env: &Environment, post: &Self) -> bool {
        &&& post.index == pre.index
        &&& post.predecessors@ == pre.predecessors@
        &&& post.successors@ == pre.successors@
        &&& post.stmts@.len() == pre.stmts@.len()
        &&& forall|s: int|
            0 <= s < pre.stmts@.len() ==> statement_patched(
                pre.stmts@[s],
                env@,
                #[trigger] post.stmts@[s],
            )
    }

    proof fn lemma_written(&self) {
        lemma_written_below_finite(self.stmts@, self.stmts@.len() as int);
        assert forall|x: VariableId| self.phis().contains(x) implies self.written().contains(x) by {
            let s = choose|s: int|
                0 <= s < self.stmts@.len() && statement_phi(#[trigger] self.stmts@[s]) == Some(x);
            assert(statement_write(self.stmts@[s]) == Some(x));
        }
    }

    fn variables_written(&self) -> (vars: Vec<VariableId>) {
        let mut vars: Vec<VariableId> = Vec::new();
        let mut s: usize = 0;
        while s < self.stmts.len()
            invariant
                s <= self.stmts@.len(),
                forall|x: VariableId| vars@.contains(x) <==> written_below(self.stmts@, s as int).contains(x),
            decreases self.stmts@.len() - s,
        {
            let ghost before = vars@;
            if let Statement::Substitution { var, .. } = &self.stmts[s] {
                vars.push(var.id);
            }
            proof {
                let stmts = self.stmts@;
                assert forall|x: VariableId| vars@.contains(x) <==> written_below(
                    stmts,
                    s + 1,
                ).contains(x) by {
                    if written_below(stmts, s + 1).contains(x) {
                        let t = choose|t: int|
                            0 <= t < s + 1 && t < stmts.len() && statement_write(
                                #[trigger] stmts[t],
                            ) == Some(x);
                        if t < s {
                            assert(statement_write(stmts[t]) == Some(x));
                            assert(written_below(stmts, s as int).contains(x));
                            assert(before.contains(x));
                            let i = choose|i: int| 0 <= i < before.len() && before[i] == x;
                            assert(vars@[i] == x);
                        } else {
                            assert(vars@[vars@.len() - 1] == x);
                        }
                    }
                    if vars@.contains(x) {
                        let i = choose|i: int| 0 <= i < vars@.len() && vars@[i] == x;
                        if i < before.len() {
                            assert(before[i] == x);
                            assert(before.contains(x));
                            assert(written_below(stmts, s as int).contains(x));
                            let t = choose|t: int|
                                0 <= t < s && t < stmts.len() && statement_write(
                                    #[trigger] stmts[t],
                                ) == Some(x);
                            assert(statement_write(stmts[t]) == Some(x));
                        } else {
                            assert(statement_write(stmts[s as int]) == Some(x));
                        }
                    }
                }
            }
            s += 1;
        }
        proof {
            assert(vars@.to_set() =~= self.written());
        }
        vars
    }

    fn has_phi_statement(&self, var: &VariableId) -> (r: bool) {
        let mut s: usize = 0;
        while s < self.stmts.len()
            invariant
                s <= self.stmts@.len(),
                forall|t: int| 0 <= t < s ==> statement_phi(#[trigger] self.stmts@[t]) != Some(*var),
            decreases self.stmts@.len() - s,
        {
            if let Statement::Substitution { var: name, rhe: Expression::Phi { .. }, .. } =
                &self.stmts[s] {
                if name.id == *var {
                    assert(statement_phi(self.stmts@[s as int]) == Some(*var));
                    return true;
                }
            }
            s += 1;
        }
        false
    }

    fn insert_phi_statement(&mut self, var: &VariableId, env: &Environment)
    {
        if self.has_phi_statement(var) {
            proof {
                assert(self.phis() =~= self.phis().insert(*var));
                let s = choose|s: int|
                    0 <= s < self.stmts@.len() && statement_phi(#[trigger] self.stmts@[s]) == Some(
                        *var,
                    );
                assert(statement_write(self.stmts@[s]) == Some(*var));
                assert(self.written() =~= self.written().insert(*var));
            }
            return ;
        }
        let ghost before = self.stmts@;
        let meta = Meta::new(None, FileLocation { start: 0, end: 0 });
        let phi = Statement::Substitution {
            meta,
            var: VariableName::new(*var),
            rhe: Expression::Phi { meta, args: Vec::new() },
        };
        self.stmts.insert(0, phi);
        proof {
            let after = self.stmts@;
            assert(statement_phi(after[0]) == Some(*var));
            assert(statement_write(after[0]) == Some(*var));
            assert forall|s: int| 0 <= s < before.len() implies after[s + 1] == before[s] by {}
            assert forall|x: VariableId| phi_variables(after).contains(x) <==> phi_variables(
                before,
            ).insert(*var).contains(x) by {
                if phi_variables(after).contains(x) {
                    let s = choose|s: int|
                        0 <= s < after.len() && statement_phi(#[trigger] after[s]) == Some(x);
                    if s > 0 {
                        assert(after[s] == before[s - 1]);
                    }
                }
                if phi_variables(before).contains(x) {
                    let s = choose|s: int|
                        0 <= s < before.len() && statement_phi(#[trigger] before[s]) == Some(x);
                    assert(after[s + 1] == before[s]);
                }
            }
            assert(phi_variables(after) =~= phi_variables(before).insert(*var));
            assert forall|x: VariableId|
                written_below(after, after.len() as int).contains(x) <==> written_below(
                    before,
                    before.len() as int,
                ).insert(*var).contains(x) by {
                if written_below(after, after.len() as int).contains(x) {
                    let s = choose|s: int|
                        0 <= s < after.len() && s < after.len() && statement_write(
                            #[trigger] after[s],
                        ) == Some(x);
                    if s > 0 {
                        assert(after[s] == before[s - 1]);
                    }
                }
                if written_below(before, before.len() as int).contains(x) {
                    let s = choose|s: int|
                        0 <= s < before.len() && s < before.len() && statement_write(
                            #[trigger] before[s],
                        ) == Some(x);
                    assert(after[s + 1] == before[s]);
                }
            }
            assert(written_below(after, after.len() as int) =~= written_below(
                before,
                before.len() as int,
            ).insert(*var));
        }
    }

    fn successors(&self) -> (r: Vec<usize>) {
        copy_of(&self.successors)
    }

    fn insert_ssa_variables(&mut self, env: &mut Environment) -> (r: SSAResult<()>) {
        env.enter_block(self.index);
        let ghost m = env@;
        let ghost stmts = self.stmts@;
        let mut renamed: Vec<Statement> = Vec::new();
        let mut s: usize = 0;
        while s < self.stmts.len()
            invariant
                s <= stmts.len(),
                stmts == self.stmts@,
                *self == *old(self),
                m == old(env)@.entered(self.index),
                env.wf(),
                env.depth() == old(env).depth(),
                block_run(stmts, m, s as nat).1 is None,
                env@ == block_run(stmts, m, s as nat).0,
                renamed@.len() == s,
                forall|t: int|
                    0 <= t < s ==> statement_renamed(
                        stmts[t],
                        block_run(stmts, m, t as nat).0,
                        #[trigger] renamed@[t],
                    ),
            decreases stmts.len() - s,
        {
            match rename_statement(&self.stmts[s], env) {
                Ok(stmt) => {
                    renamed.push(stmt);
                },
                Err(error) => {
                    proof {
                        lemma_block_run_stays(stmts, m, (s + 1) as nat, stmts.len());
                    }
                    return Err(error);
                },
            }
            s += 1;
        }
        self.stmts = renamed;
        Ok(())
    }

    fn update_phi_statements(&mut self, env: &Environment) {
        let ghost before = self.stmts@;
        let mut s: usize = 0;
        while s < self.stmts.len()
            invariant
                s <= before.len(),
                self.stmts@.len() == before.len(),
                self.index == old(self).index,
                self.predecessors == old(self).predecessors,
                self.successors == old(self).successors,
                forall|t: int|
                    0 <= t < s ==> statement_patched(before[t], env@, #[trigger] self.stmts@[t]),
                forall|t: int| s <= t < before.len() ==> self.stmts@[t] == before[t],
            decreases before.len() - s,
        {
            self.update_phi_statement(s, env);
            s += 1;
        }
    }
}

} // verus!
