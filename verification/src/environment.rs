//! The environment of a conversion: which version of each variable is
//! visible, in scopes that open and close along the dominator tree.
use crate::dominator_tree::Index;
use crate::ir::{VariableId, Version};
use crate::traits::SSAEnvironment;
use vstd::prelude::*;

verus! {

/// The last value that `list` gives to `x`.
pub open spec fn assoc_get(list: Seq<(VariableId, Version)>, x: VariableId) -> Option<Version>
    decreases list.len(),
{
    if list.len() == 0 {
        None
    } else if list.last().0 == x {
        Some(list.last().1)
    } else {
        assoc_get(list.drop_last(), x)
    }
}

/// The value that the innermost scope with a value for `x` gives to it.
pub open spec fn scopes_get(scopes: Seq<Seq<(VariableId, Version)>>, x: VariableId) -> Option<
    Version,
>
    decreases scopes.len(),
{
    if scopes.len() == 0 {
        None
    } else {
        match assoc_get(scopes.last(), x) {
            Some(v) => Some(v),
            None => scopes_get(scopes.drop_last(), x),
        }
    }
}

/// What an environment holds.
pub struct EnvModel {
    /// The scopes, the innermost last. Each lists the versions assigned in
    /// it, the latest last.
    pub scopes: Seq<Seq<(VariableId, Version)>>,
    /// The versions given out, the latest last.
    pub counts: Seq<(VariableId, Version)>,
    /// The block that is being converted.
    pub block: Index,
}

impl EnvModel {
    /// The version of `x` that is visible.
    pub open spec fn visible(self, x: VariableId) -> Option<Version> {
        scopes_get(self.scopes, x)
    }

    /// The number of versions of `x` given out so far.
    pub open spec fn count(self, x: VariableId) -> nat {
        match assoc_get(self.counts, x) {
            Some(c) => c as nat,
            None => 0,
        }
    }

    /// The environment after `x` got its next version, which is visible in
    /// the innermost scope.
    pub open spec fn minted(self, x: VariableId) -> EnvModel {
        let version = (self.count(x) + 1) as usize;
        EnvModel {
            scopes: self.scopes.update(
                self.scopes.len() - 1,
                self.scopes.last().push((x, version)),
            ),
            counts: self.counts.push((x, version)),
            block: self.block,
        }
    }

    /// The environment at the start of the conversion of `block`.
    pub open spec fn entered(self, block: Index) -> EnvModel {
        EnvModel { scopes: self.scopes, counts: self.counts, block }
    }

    /// The environment with one more, empty scope.
    pub open spec fn pushed(self) -> EnvModel {
        EnvModel {
            scopes: self.scopes.push(Seq::empty()),
            counts: self.counts,
            block: self.block,
        }
    }

    /// The environment without its innermost scope. The outermost scope
    /// stays.
    pub open spec fn popped(self) -> EnvModel {
        if self.scopes.len() > 1 {
            EnvModel { scopes: self.scopes.drop_last(), counts: self.counts, block: self.block }
        } else {
            self
        }
    }
}

/// After `x` got its next version, that version is visible for `x`, and
/// every other variable shows what it showed before.
pub proof fn lemma_minted(m: EnvModel, x: VariableId, y: VariableId)
    requires
        m.scopes.len() > 0,
    ensures
        m.minted(x).visible(y) == if y == x {
            Some((m.count(x) + 1) as usize)
        } else {
            m.visible(y)
        },
        m.minted(x).scopes.len() == m.scopes.len(),
        m.minted(x).scopes.drop_last() == m.scopes.drop_last(),
{
    let after = m.minted(x);
    assert(after.scopes.drop_last() =~= m.scopes.drop_last());
    assert(after.scopes.last().drop_last() =~= m.scopes.last());
}

/// After `x` got its next version, one more version of `x` is given out,
/// and as many of every other variable as before.
pub proof fn lemma_minted_count(m: EnvModel, x: VariableId, y: VariableId)
    requires
        m.count(x) < usize::MAX,
    ensures
        m.minted(x).count(y) == if y == x {
            m.count(x) + 1
        } else {
            m.count(y)
        },
{
    let after = m.minted(x);
    assert(after.counts.drop_last() =~= m.counts);
}

/// A new scope hides nothing.
pub proof fn lemma_pushed(m: EnvModel, y: VariableId)
    ensures
        m.pushed().visible(y) == m.visible(y),
        m.pushed().scopes.drop_last() == m.scopes,
{
    let after = m.pushed();
    assert(after.scopes.drop_last() =~= m.scopes);
    assert(assoc_get(Seq::<(VariableId, Version)>::empty(), y) is None);
}

/// The environment of a conversion.
#[derive(Debug, PartialEq, Eq)]
pub struct Environment {
    pub scopes: Vec<Vec<(VariableId, Version)>>,
    pub counts: Vec<(VariableId, Version)>,
    pub block: Index,
}

impl View for Environment {
    type V = EnvModel;

    open spec fn view(&self) -> EnvModel {
        EnvModel {
            scopes: Seq::new(self.scopes@.len(), |i: int| self.scopes@[i]@),
            counts: self.counts@,
            block: self.block,
        }
    }
}

/// Looks `x` up in `list`, from the end.
fn find_last(list: &Vec<(VariableId, Version)>, x: VariableId) -> (r: Option<Version>)
    ensures
        r == assoc_get(list@, x),
{
    let mut i: usize = list.len();
    proof {
        assert(list@.subrange(0, list@.len() as int) =~= list@);
    }
    while i > 0
        invariant
            i <= list@.len(),
            assoc_get(list@, x) == assoc_get(list@.subrange(0, i as int), x),
        decreases i,
    {
        let ghost prefix = list@.subrange(0, i as int);
        i -= 1;
        proof {
            assert(prefix.drop_last() =~= list@.subrange(0, i as int));
            assert(prefix.last() == list@[i as int]);
        }
        if list[i].0 == x {
            return Some(list[i].1);
        }
    }
    None
}

impl Environment {
    /// An environment with one scope and no versions.
    pub fn new() -> (env: Environment)
        ensures
            env.wf(),
            env@.scopes == seq![Seq::<(VariableId, Version)>::empty()],
            env@.counts == Seq::<(VariableId, Version)>::empty(),
            env@.block == 0,
            env.depth() == 0,
    {
        let mut scopes: Vec<Vec<(VariableId, Version)>> = Vec::new();
        scopes.push(Vec::new());
        let env = Environment { scopes, counts: Vec::new(), block: 0 };
        assert(env@.scopes =~= seq![Seq::<(VariableId, Version)>::empty()]);
        env
    }

    /// The number of scopes besides the outermost.
    pub fn scope_depth(&self) -> (depth: usize)
        requires
            self.wf(),
        ensures
            depth == self.depth(),
    {
        self.scopes.len() - 1
    }

    /// The block that is being converted.
    pub fn current_block(&self) -> (block: Index)
        ensures
            block == self@.block,
    {
        self.block
    }

    /// Notes that the conversion of `block` starts.
    pub fn enter_block(&mut self, block: Index)
        requires
            old(self).wf(),
        ensures
            final(self).wf(),
            final(self)@ == old(self)@.entered(block),
            final(self).depth() == old(self).depth(),
    {
        self.block = block;
    }

    /// The version of `x` that is visible: the latest assigned in the
    /// innermost scope that has one.
    pub fn get_current_version(&self, x: VariableId) -> (r: Option<Version>)
        ensures
            r == self@.visible(x),
    {
        let ghost scopes = self@.scopes;
        let mut i: usize = self.scopes.len();
        proof {
            assert(scopes.subrange(0, scopes.len() as int) =~= scopes);
        }
        while i > 0
            invariant
                i <= self.scopes@.len(),
                scopes == self@.scopes,
                scopes_get(scopes, x) == scopes_get(scopes.subrange(0, i as int), x),
            decreases i,
        {
            let ghost prefix = scopes.subrange(0, i as int);
            i -= 1;
            proof {
                assert(prefix.drop_last() =~= scopes.subrange(0, i as int));
                assert(prefix.last() == self.scopes@[i as int]@);
            }
            let found = find_last(&self.scopes[i], x);
            if found.is_some() {
                return found;
            }
        }
        None
    }

    /// The number of versions of `x` given out so far.
    pub fn version_count(&self, x: VariableId) -> (r: Version)
        ensures
            r == self@.count(x),
    {
        match find_last(&self.counts, x) {
            Some(c) => c,
            None => 0,
        }
    }

    /// Gives `x` its next version and makes it visible in the innermost
    /// scope. Gives nothing where the versions have run out.
    pub fn get_next_version(&mut self, x: VariableId) -> (r: Option<Version>)
        requires
            old(self).wf(),
        ensures
            final(self).wf(),
            final(self).depth() == old(self).depth(),
            match r {
                Some(version) => version == old(self)@.count(x) + 1 && final(self)@ == old(
                    self,
                )@.minted(x),
                None => old(self)@.count(x) == usize::MAX && final(self)@ == old(self)@,
            },
    {
        let count = self.version_count(x);
        if count == usize::MAX {
            return None;
        }
        let version = count + 1;
        let ghost before = self@;
        let last = self.scopes.len() - 1;
        self.counts.push((x, version));
        self.scopes[last].push((x, version));
        proof {
            assert(self@.scopes =~= before.minted(x).scopes);
        }
        Some(version)
    }
}

impl SSAEnvironment for Environment {
    open spec fn wf(&self) -> bool {
        self.scopes@.len() > 0
    }

    open spec fn depth(&self) -> nat {
        (self.scopes@.len() - 1) as nat
    }

    open spec fn scope_added(pre: &Self, post: &Self) -> bool {
        post@ == pre@.pushed()
    }

    open spec fn scope_removed(pre: &Self, post: &Self) -> bool {
        post@ == pre@.popped()
    }

    fn add_variable_scope(&mut self) {
        let ghost before = self@;
        self.scopes.push(Vec::new());
        proof {
            assert(self@.scopes =~= before.pushed().scopes);
        }
    }

    fn remove_variable_scope(&mut self) {
        let ghost before = self@;
        if self.scopes.len() > 1 {
            self.scopes.pop();
            proof {
                assert(self@.scopes =~= before.popped().scopes);
            }
        }
    }
}

} // verus!
