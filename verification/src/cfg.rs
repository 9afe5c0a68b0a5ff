//! Control-flow graphs of basic blocks.
use crate::basic_block::{indexed, BasicBlock};
use crate::conversion::{
    converted, declared, lemma_declared_counts, lemma_phi_arguments_are_sound,
    lemma_reads_are_dominated, lemma_versions_are_assigned_once,
};
use crate::dominance_property::block_sound;
use crate::dominator_tree::{copy_of, DominatorTree};
use crate::environment::Environment;
use crate::errors::{SSAError, SSAResult};
use crate::graph::{edges_of, reachable, well_formed};
use crate::ir::{PhiArgument, VariableId};
use crate::phi_arguments::{argument_sound, has_argument, without_arguments};
use crate::phi_placement::{all_wf, insert_phi_statements, phis_added};
use crate::renaming::{cfg_of, insert_ssa_variables, subtree_converted};
use crate::single_assignment::pair_unique;
use crate::traits::{SSABasicBlock, SSAConfig, SSAEnvironment};
use vstd::prelude::*;

verus! {

/// The conversion of graphs of `BasicBlock`.
pub struct Config;

impl SSAConfig for Config {
    type BasicBlock = BasicBlock;
}

/// A control-flow graph. Its entry block is the block 0.
#[derive(Debug, PartialEq, Eq)]
pub struct Cfg {
    /// The variables that have a value when control enters the graph.
    pub parameters: Vec<VariableId>,
    pub basic_blocks: Vec<BasicBlock>,
}

impl Cfg {
    /// The graph has an entry block, and each successor of a block is a
    /// block of the graph.
    pub open spec fn wf(&self) -> bool {
        self.basic_blocks@.len() > 0 && well_formed(cfg_of(self.basic_blocks@))
    }

    /// The graph of the given blocks, if they make one: none if there is no
    /// block, if a block does not hold its place as its index, or if a
    /// block has a successor that is not among them.
    pub fn new(parameters: Vec<VariableId>, basic_blocks: Vec<BasicBlock>) -> (r: Option<Cfg>)
        ensures
            match r {
                Some(cfg) => cfg.wf() && indexed(basic_blocks@) && cfg.basic_blocks
                    == basic_blocks && cfg.parameters == parameters,
                None => basic_blocks@.len() == 0 || !indexed(basic_blocks@) || !well_formed(
                    cfg_of(basic_blocks@),
                ),
            },
    {
        let n = basic_blocks.len();
        if n == 0 {
            return None;
        }
        let ghost g = cfg_of(basic_blocks@);
        let mut i: usize = 0;
        while i < n
            invariant
                i <= n,
                n == basic_blocks@.len(),
                g == cfg_of(basic_blocks@),
                forall|u: int| 0 <= u < i ==> (#[trigger] basic_blocks@[u]).index == u,
                forall|u: int, k: int|
                    0 <= u < i && 0 <= k < g[u].len() ==> (#[trigger] g[u][k]) < n,
            decreases n - i,
        {
            let block = &basic_blocks[i];
            if block.index != i {
                return None;
            }
            let mut k: usize = 0;
            while k < block.successors.len()
                invariant
                    i < n,
                    n == basic_blocks@.len(),
                    g == cfg_of(basic_blocks@),
                    *block == basic_blocks@[i as int],
                    k <= block.successors@.len(),
                    forall|j: int| 0 <= j < k ==> (#[trigger] g[i as int][j]) < n,
                decreases block.successors@.len() - k,
            {
                if block.successors[k] >= n {
                    proof {
                        assert(g[i as int][k as int] >= n);
                    }
                    return None;
                }
                k += 1;
            }
            i += 1;
        }
        Some(Cfg { parameters, basic_blocks })
    }

    /// The successors of each block.
    pub fn successor_lists(&self) -> (succ: Vec<Vec<usize>>)
        ensures
            edges_of(&succ) == cfg_of(self.basic_blocks@),
    {
        let mut succ: Vec<Vec<usize>> = Vec::new();
        let mut i: usize = 0;
        while i < self.basic_blocks.len()
            invariant
                i <= self.basic_blocks@.len(),
                succ@.len() == i,
                forall|u: int| 0 <= u < i ==> (#[trigger] succ@[u])@ == self.basic_blocks@[u].successors@,
            decreases self.basic_blocks@.len() - i,
        {
            succ.push(copy_of(&self.basic_blocks[i].successors));
            i += 1;
        }
        proof {
            assert(edges_of(&succ) =~= cfg_of(self.basic_blocks@));
        }
        succ
    }

    /// The dominator tree of the graph.
    pub fn dominator_tree(&self) -> (tree: DominatorTree)
        requires
            self.wf(),
        ensures
            tree.wf(),
            tree.graph() == cfg_of(self.basic_blocks@),
    {
        let succ = self.successor_lists();
        DominatorTree::new(&succ)
    }

    /// Converts the graph into static single assignment form: each
    /// assignment gives its variable a version of its own, each read names
    /// the version that reaches it, and phi statements merge the versions
    /// that meet where paths join.
    pub fn into_ssa(self) -> (r: SSAResult<Cfg>)
        requires
            self.wf(),
        ensures
            match r {
                Ok(cfg) => {
                    &&& cfg.wf()
                    &&& cfg.parameters == self.parameters
                    &&& cfg_of(cfg.basic_blocks@) == cfg_of(self.basic_blocks@)
                    &&& forall|b: int|
                        reachable(cfg_of(self.basic_blocks@), b) ==> #[trigger] block_sound(
                            cfg_of(self.basic_blocks@),
                            declared(self.parameters@, self.parameters@.len()),
                            cfg.basic_blocks@,
                            b,
                        )
                    &&& forall|b: int, c: int|
                        #![trigger reachable(cfg_of(self.basic_blocks@), b), reachable(cfg_of(self.basic_blocks@), c)]
                        reachable(cfg_of(self.basic_blocks@), b) && reachable(
                            cfg_of(self.basic_blocks@),
                            c,
                        ) ==> pair_unique(cfg.basic_blocks@[b], cfg.basic_blocks@[c], b == c)
                    &&& indexed(self.basic_blocks@) && without_arguments(self.basic_blocks@)
                        ==> forall|j: int, x: VariableId, a: PhiArgument|
                        0 <= j < cfg.basic_blocks@.len() && #[trigger] has_argument(
                            cfg.basic_blocks@[j],
                            x,
                            a,
                        ) ==> argument_sound(
                            cfg_of(self.basic_blocks@),
                            declared(self.parameters@, self.parameters@.len()),
                            cfg.basic_blocks@,
                            j,
                            x,
                            a,
                        )
                    &&& converted(
                        self.parameters@,
                        self.basic_blocks@,
                        cfg.basic_blocks@,
                        Ok(()),
                    )
                },
                Err(error) => exists|end: Seq<BasicBlock>| #[trigger]
                    converted(
                        self.parameters@,
                        self.basic_blocks@,
                        end,
                        Err::<(), SSAError>(error),
                    ),
            },
    {
        let tree = self.dominator_tree();
        let ghost start = self.basic_blocks@;
        let ghost g = cfg_of(start);
        let Cfg { parameters, mut basic_blocks } = self;
        let mut env = Environment::new();
        let mut p: usize = 0;
        while p < parameters.len()
            invariant
                p <= parameters@.len(),
                env.wf(),
                env@ == declared(parameters@, p as nat),
            decreases parameters@.len() - p,
        {
            proof {
                lemma_declared_counts(parameters@, p as nat, parameters@[p as int]);
            }
            let version = env.get_next_version(parameters[p]);
            p += 1;
        }
        let ghost env_start = env;
        proof {
            assert(all_wf(start));
        }
        insert_phi_statements::<Config>(&mut basic_blocks, &tree, &mut env);
        let ghost placed = basic_blocks@;
        proof {
            assert(cfg_of(placed) =~= g);
            assert(env == env_start);
        }
        let r = insert_ssa_variables::<Config>(&mut basic_blocks, &tree, &mut env);
        let n = basic_blocks.len();
        proof {
            assert(start.len() == n);
            let end = basic_blocks@;
            assert(cfg_of(end) =~= g);
            assert(phis_added(start, placed));
            assert(subtree_converted(g, 0, placed, env_start, end, env, r));
            assert(converted(parameters@, start, end, r));
        }
        match r {
            Ok(unit) => {
                proof {
                    assert(unit == ());
                    assert(r == Ok::<(), SSAError>(()));
                    assert(well_formed(cfg_of(basic_blocks@)));
                    assert forall|b: int| reachable(g, b) implies #[trigger] block_sound(
                        g,
                        declared(parameters@, parameters@.len()),
                        basic_blocks@,
                        b,
                    ) by {
                        lemma_reads_are_dominated(parameters@, start, basic_blocks@, b);
                    }
                    assert forall|b: int, c: int|
                        #![trigger reachable(g, b), reachable(g, c)]
                        reachable(g, b) && reachable(g, c) implies pair_unique(
                        basic_blocks@[b],
                        basic_blocks@[c],
                        b == c,
                    ) by {
                        lemma_versions_are_assigned_once(parameters@, start, basic_blocks@, b, c);
                    }
                    if indexed(start) && without_arguments(start) {
                        assert forall|j: int, x: VariableId, a: PhiArgument|
                            0 <= j < basic_blocks@.len() && #[trigger] has_argument(
                                basic_blocks@[j],
                                x,
                                a,
                            ) implies argument_sound(
                            g,
                            declared(parameters@, parameters@.len()),
                            basic_blocks@,
                            j,
                            x,
                            a,
                        ) by {
                            lemma_phi_arguments_are_sound(
                                parameters@,
                                start,
                                basic_blocks@,
                                j,
                                x,
                                a,
                            );
                        }
                    }
                }
                Ok(Cfg { parameters, basic_blocks })
            },
            Err(error) => Err(error),
        }
    }
}

} // verus!
