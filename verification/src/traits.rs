//! What the conversion asks of a basic block and of the environment that
//! tracks the visible version of each variable.
use crate::errors::SSAResult;
use vstd::prelude::*;

verus! {

/// A stack of scopes. Each scope maps the variables assigned in it to their
/// current versions.
pub trait SSAEnvironment: Sized {
    /// The invariant of the environment.
    spec fn wf(&self) -> bool;

    /// The number of scopes that were added and not removed again.
    spec fn depth(&self) -> nat;

    /// `post` is `pre` with one more, empty scope.
    spec fn scope_added(pre: &Self, post: &Self) -> bool;

    /// `post` is `pre` without its innermost scope.
    spec fn scope_removed(pre: &Self, post: &Self) -> bool;

    /// Opens a scope. Versions assigned from now on are visible until the
    /// scope is removed.
    fn add_variable_scope(&mut self)
        requires
            old(self).wf(),
        ensures
            final(self).wf(),
            Self::scope_added(old(self), final(self)),
            final(self).depth() == old(self).depth() + 1,
    ;

    /// Closes the innermost scope and forgets the versions assigned in it.
    fn remove_variable_scope(&mut self)
        requires
            old(self).wf(),
        ensures
            final(self).wf(),
            Self::scope_removed(old(self), final(self)),
            old(self).depth() > 0 ==> final(self).depth() == old(self).depth() - 1,
    ;
}

/// A basic block of a control-flow graph, as far as the conversion needs it.
pub trait SSABasicBlock: Sized {
    /// The name of a variable.
    type Variable;

    /// The environment that the block resolves versions in.
    type Environment: SSAEnvironment;

    /// The invariant of the block.
    spec fn wf(&self) -> bool;

    /// The variables that a statement of the block writes. A phi statement
    /// writes its variable.
    spec fn written(&self) -> Set<Self::Variable>;

    /// The variables that the block has a phi statement for.
    spec fn phis(&self) -> Set<Self::Variable>;

    /// The indices of the successors of the block in the control-flow graph.
    spec fn successors_spec(&self) -> Seq<usize>;

    /// `post` is `pre` with a phi statement for `var`, without arguments
    /// yet, or `pre` itself if that has one.
    spec fn phi_inserted(pre: &Self, var: Self::Variable, post: &Self) -> bool;

    /// `post` and `env_post` are what renaming the variables of `pre` under
    /// `env_pre` gives, with the result `r`.
    spec fn renamed(
        pre: &Self,
        env_pre: &Self::Environment,
        post: &Self,
        env_post: &Self::Environment,
        r: SSAResult<()>,
    ) -> bool;

    /// `post` is `pre` with the versions visible in `env` entered into its phi
    /// statements.
    spec fn phis_updated(pre: &Self, env: &Self::Environment, post: &Self) -> bool;

    /// A block writes finitely many variables, those of its phi statements
    /// among them.
    proof fn lemma_written(&self)
        requires
            self.wf(),
        ensures
            self.written().finite(),
            self.phis().subset_of(self.written()),
    ;

    /// The variables that the block writes.
    fn variables_written(&self) -> (vars: Vec<Self::Variable>)
        requires
            self.wf(),
        ensures
            vars@.to_set() == self.written(),
    ;

    /// Tells whether the block has a phi statement for `var`.
    fn has_phi_statement(&self, var: &Self::Variable) -> (r: bool)
        requires
            self.wf(),
        ensures
            r == self.phis().contains(*var),
    ;

    /// Gives the block a phi statement for `var`, without arguments yet,
    /// unless it has one.
    fn insert_phi_statement(&mut self, var: &Self::Variable, env: &Self::Environment)
        requires
            old(self).wf(),
            env.wf(),
        ensures
            final(self).wf(),
            Self::phi_inserted(old(self), *var, final(self)),
            final(self).phis() == old(self).phis().insert(*var),
            final(self).written() == old(self).written().insert(*var),
            final(self).successors_spec() == old(self).successors_spec(),
    ;

    /// The indices of the successors of the block.
    fn successors(&self) -> (r: Vec<usize>)
        requires
            self.wf(),
        ensures
            r@ == self.successors_spec(),
    ;

    /// Renames the variables of the block: each read becomes the version
    /// visible in `env`, and each write takes a new version, which `env`
    /// shows from then on.
    fn insert_ssa_variables(&mut self, env: &mut Self::Environment) -> (r: SSAResult<()>)
        requires
            old(self).wf(),
            old(env).wf(),
        ensures
            final(self).wf(),
            final(env).wf(),
            Self::renamed(old(self), old(env), final(self), final(env), r),
            final(self).successors_spec() == old(self).successors_spec(),
            final(env).depth() == old(env).depth(),
    ;

    /// Enters the versions visible in `env` into the phi statements of the
    /// block, as the values that arrive along one incoming edge.
    fn update_phi_statements(&mut self, env: &Self::Environment)
        requires
            old(self).wf(),
            env.wf(),
        ensures
            final(self).wf(),
            Self::phis_updated(old(self), env, final(self)),
            final(self).successors_spec() == old(self).successors_spec(),
    ;
}

/// The types that one conversion works on.
pub trait SSAConfig {
    /// The type of a basic block.
    type BasicBlock: SSABasicBlock;
}

} // verus!
