//! The variables that occur in expressions and statements, with their
//! versions, and what renaming and patching make of them.
use crate::basic_block::statement_patched;
use crate::environment::EnvModel;
use crate::ir::{AccessType, Expression, LogArgument, Meta, Statement, VariableId, VariableName};
use crate::versioning::{
    access_reads, access_renamed, expression_reads, expression_renamed, list_reads, list_renamed,
    log_reads, log_renamed, statement_reads, statement_renamed, statement_write,
};
use vstd::prelude::*;

verus! {

/// The variables that `e` reads, as they are named in it, in the order of
/// the expression. The arguments of a phi expression are no reads.
pub open spec fn expression_names(e: Expression) -> Seq<VariableName>
    decreases e,
{
    match e {
        Expression::InfixOp { lhe, rhe, .. } => expression_names(*lhe) + expression_names(*rhe),
        Expression::PrefixOp { rhe, .. } => expression_names(*rhe),
        Expression::SwitchOp { cond, if_true, if_false, .. } => expression_names(*cond)
            + expression_names(*if_true) + expression_names(*if_false),
        Expression::Variable { name, .. } => seq![name],
        Expression::Number(..) => Seq::empty(),
        Expression::Call { args, .. } => list_names(args@, args@.len()),
        Expression::InlineArray { values, .. } => list_names(values@, values@.len()),
        Expression::Access { var, access, .. } => seq![var] + access_names(access@, access@.len()),
        Expression::Update { var, access, rhe, .. } => seq![var] + access_names(
            access@,
            access@.len(),
        ) + expression_names(*rhe),
        Expression::Phi { .. } => Seq::empty(),
    }
}

/// The names read in the first `k` expressions of `list`.
pub open spec fn list_names(list: Seq<Expression>, k: nat) -> Seq<VariableName>
    decreases list, k,
{
    if k == 0 || k > list.len() {
        Seq::empty()
    } else {
        list_names(list, (k - 1) as nat) + expression_names(list[k - 1])
    }
}

/// The names read in the indices among the first `k` steps of `access`.
pub open spec fn access_names(access: Seq<AccessType>, k: nat) -> Seq<VariableName>
    decreases access, k,
{
    if k == 0 || k > access.len() {
        Seq::empty()
    } else {
        access_names(access, (k - 1) as nat) + match access[k - 1] {
            AccessType::ArrayAccess(index) => expression_names(*index),
            AccessType::ComponentAccess(_) => Seq::empty(),
        }
    }
}

/// The names read in the expressions among the first `k` arguments of a
/// log statement.
pub open spec fn log_names(args: Seq<LogArgument>, k: nat) -> Seq<VariableName>
    decreases k,
{
    if k == 0 || k > args.len() {
        Seq::empty()
    } else {
        log_names(args, (k - 1) as nat) + match args[k - 1] {
            LogArgument::Expr(value) => expression_names(*value),
            LogArgument::String(_) => Seq::empty(),
        }
    }
}

/// The variables that `stmt` reads, as they are named in it.
pub open spec fn statement_names(stmt: Statement) -> Seq<VariableName> {
    match stmt {
        Statement::Declaration { dimensions, .. } => list_names(dimensions@, dimensions@.len()),
        Statement::LogCall { args, .. } => log_names(args@, args@.len()),
        Statement::IfThenElse { cond, .. } => expression_names(cond),
        Statement::Substitution { rhe, .. } => expression_names(rhe),
        Statement::Return { value, .. } => expression_names(value),
        Statement::Assert { arg, .. } => expression_names(arg),
        Statement::ConstraintEquality { lhe, rhe, .. } => expression_names(lhe) + expression_names(
            rhe,
        ),
    }
}

/// The variable that `stmt` assigns, as it is named in it.
pub open spec fn statement_target(stmt: Statement) -> Option<VariableName> {
    match stmt {
        Statement::Substitution { var, .. } => Some(var),
        _ => None,
    }
}

/// `names` are the variables of `reads`, each in the version visible in `m`.
pub open spec fn names_follow(
    reads: Seq<(VariableId, Meta)>,
    m: EnvModel,
    names: Seq<VariableName>,
) -> bool {
    &&& names.len() == reads.len()
    &&& forall|k: int|
        0 <= k < reads.len() ==> (#[trigger] names[k]) == (VariableName {
            id: reads[k].0,
            version: m.visible(reads[k].0),
        })
}

/// Names that follow two lists of reads follow the two lists joined.
proof fn lemma_names_follow_concat(
    r1: Seq<(VariableId, Meta)>,
    r2: Seq<(VariableId, Meta)>,
    m: EnvModel,
    n1: Seq<VariableName>,
    n2: Seq<VariableName>,
)
    requires
        names_follow(r1, m, n1),
        names_follow(r2, m, n2),
    ensures
        names_follow(r1 + r2, m, n1 + n2),
{
    assert forall|k: int| 0 <= k < (r1 + r2).len() implies (#[trigger] (n1 + n2)[k]) == (VariableName {
        id: (r1 + r2)[k].0,
        version: m.visible((r1 + r2)[k].0),
    }) by {
        if k < r1.len() {
            assert((n1 + n2)[k] == n1[k]);
        } else {
            assert((n1 + n2)[k] == n2[k - r1.len()]);
        }
    }
}

/// The reads of a renamed expression name the versions that were visible.
pub proof fn lemma_expression_names(pre: Expression, m: EnvModel, post: Expression)
    requires
        expression_renamed(pre, m, post),
    ensures
        names_follow(expression_reads(pre), m, expression_names(post)),
    decreases pre,
{
    match pre {
        Expression::InfixOp { lhe, rhe, .. } => {
            let lhe2 = post->InfixOp_lhe;
            let rhe2 = post->InfixOp_rhe;
            lemma_expression_names(*lhe, m, *lhe2);
            lemma_expression_names(*rhe, m, *rhe2);
            lemma_names_follow_concat(
                expression_reads(*lhe),
                expression_reads(*rhe),
                m,
                expression_names(*lhe2),
                expression_names(*rhe2),
            );
        },
        Expression::PrefixOp { rhe, .. } => {
            lemma_expression_names(*rhe, m, *post->PrefixOp_rhe);
        },
        Expression::SwitchOp { cond, if_true, if_false, .. } => {
            let cond2 = post->SwitchOp_cond;
            let if_true2 = post->SwitchOp_if_true;
            let if_false2 = post->SwitchOp_if_false;
            lemma_expression_names(*cond, m, *cond2);
            lemma_expression_names(*if_true, m, *if_true2);
            lemma_expression_names(*if_false, m, *if_false2);
            lemma_names_follow_concat(
                expression_reads(*cond),
                expression_reads(*if_true),
                m,
                expression_names(*cond2),
                expression_names(*if_true2),
            );
            lemma_names_follow_concat(
                expression_reads(*cond) + expression_reads(*if_true),
                expression_reads(*if_false),
                m,
                expression_names(*cond2) + expression_names(*if_true2),
                expression_names(*if_false2),
            );
        },
        Expression::Variable { .. } => {},
        Expression::Number(..) => {},
        Expression::Call { args, .. } => {
            lemma_list_names(args@, m, post->Call_args@, args@.len());
        },
        Expression::InlineArray { values, .. } => {
            lemma_list_names(values@, m, post->InlineArray_values@, values@.len());
        },
        Expression::Access { meta, var, access } => {
            let access2 = post->Access_access;
            lemma_access_names(access@, m, access2@, access@.len());
            let own = seq![(var.id, meta)];
            let own2 = seq![post->Access_var];
            assert(names_follow(own, m, own2));
            lemma_names_follow_concat(
                own,
                access_reads(access@, access@.len()),
                m,
                own2,
                access_names(access2@, access2@.len()),
            );
        },
        Expression::Update { meta, var, access, rhe } => {
            let access2 = post->Update_access;
            let rhe2 = post->Update_rhe;
            lemma_access_names(access@, m, access2@, access@.len());
            lemma_expression_names(*rhe, m, *rhe2);
            let own = seq![(var.id, meta)];
            let own2 = seq![post->Update_var];
            assert(names_follow(own, m, own2));
            lemma_names_follow_concat(
                own,
                access_reads(access@, access@.len()),
                m,
                own2,
                access_names(access2@, access2@.len()),
            );
            lemma_names_follow_concat(
                own + access_reads(access@, access@.len()),
                expression_reads(*rhe),
                m,
                own2 + access_names(access2@, access2@.len()),
                expression_names(*rhe2),
            );
        },
        Expression::Phi { .. } => {},
    }
}

/// The reads of renamed expressions name the versions that were visible.
proof fn lemma_list_names(pre: Seq<Expression>, m: EnvModel, post: Seq<Expression>, k: nat)
    requires
        list_renamed(pre, m, post),
        k <= pre.len(),
    ensures
        post.len() == pre.len(),
        names_follow(list_reads(pre, k), m, list_names(post, k)),
    decreases pre, k,
{
    if k > 0 {
        lemma_list_names(pre, m, post, (k - 1) as nat);
        assert(expression_renamed(pre[k - 1], m, post[k - 1]));
        lemma_expression_names(pre[k - 1], m, post[k - 1]);
        lemma_names_follow_concat(
            list_reads(pre, (k - 1) as nat),
            expression_reads(pre[k - 1]),
            m,
            list_names(post, (k - 1) as nat),
            expression_names(post[k - 1]),
        );
    }
}

/// The reads in the indices of a renamed access name the versions that
/// were visible.
proof fn lemma_access_names(pre: Seq<AccessType>, m: EnvModel, post: Seq<AccessType>, k: nat)
    requires
        access_renamed(pre, m, post),
        k <= pre.len(),
    ensures
        post.len() == pre.len(),
        names_follow(access_reads(pre, k), m, access_names(post, k)),
    decreases pre, k,
{
    if k > 0 {
        lemma_access_names(pre, m, post, (k - 1) as nat);
        let step = post[k - 1];
        match pre[k - 1] {
            AccessType::ArrayAccess(index) => {
                let index2 = step->ArrayAccess_0;
                lemma_expression_names(*index, m, *index2);
                lemma_names_follow_concat(
                    access_reads(pre, (k - 1) as nat),
                    expression_reads(*index),
                    m,
                    access_names(post, (k - 1) as nat),
                    expression_names(*index2),
                );
            },
            AccessType::ComponentAccess(_) => {
                lemma_names_follow_concat(
                    access_reads(pre, (k - 1) as nat),
                    Seq::empty(),
                    m,
                    access_names(post, (k - 1) as nat),
                    Seq::empty(),
                );
            },
        }
    }
}

/// The reads in renamed log arguments name the versions that were visible.
proof fn lemma_log_names(pre: Seq<LogArgument>, m: EnvModel, post: Seq<LogArgument>, k: nat)
    requires
        log_renamed(pre, m, post),
        k <= pre.len(),
    ensures
        names_follow(log_reads(pre, k), m, log_names(post, k)),
    decreases k,
{
    if k > 0 {
        lemma_log_names(pre, m, post, (k - 1) as nat);
        let arg = post[k - 1];
        match pre[k - 1] {
            LogArgument::Expr(value) => {
                let value2 = arg->Expr_0;
                lemma_expression_names(*value, m, *value2);
                lemma_names_follow_concat(
                    log_reads(pre, (k - 1) as nat),
                    expression_reads(*value),
                    m,
                    log_names(post, (k - 1) as nat),
                    expression_names(*value2),
                );
            },
            LogArgument::String(_) => {
                lemma_names_follow_concat(
                    log_reads(pre, (k - 1) as nat),
                    Seq::empty(),
                    m,
                    log_names(post, (k - 1) as nat),
                    Seq::empty(),
                );
            },
        }
    }
}

/// The reads of a renamed statement name the versions that were visible,
/// and its target names the next version of the variable that it writes.
pub proof fn lemma_statement_names(pre: Statement, m: EnvModel, post: Statement)
    requires
        statement_renamed(pre, m, post),
    ensures
        names_follow(statement_reads(pre), m, statement_names(post)),
        statement_target(post) == match statement_write(pre) {
            Some(x) => Some(VariableName { id: x, version: Some((m.count(x) + 1) as usize) }),
            None => None,
        },
{
    match pre {
        Statement::Declaration { dimensions, .. } => {
            lemma_list_names(dimensions@, m, post->Declaration_dimensions@, dimensions@.len());
        },
        Statement::LogCall { args, .. } => {
            lemma_log_names(args@, m, post->LogCall_args@, args@.len());
        },
        Statement::IfThenElse { cond, .. } => {
            lemma_expression_names(cond, m, post->IfThenElse_cond);
        },
        Statement::Substitution { rhe, .. } => {
            lemma_expression_names(rhe, m, post->Substitution_rhe);
        },
        Statement::Return { value, .. } => {
            lemma_expression_names(value, m, post->Return_value);
        },
        Statement::Assert { arg, .. } => {
            lemma_expression_names(arg, m, post->Assert_arg);
        },
        Statement::ConstraintEquality { lhe, rhe, .. } => {
            let lhe2 = post->ConstraintEquality_lhe;
            let rhe2 = post->ConstraintEquality_rhe;
            lemma_expression_names(lhe, m, lhe2);
            lemma_expression_names(rhe, m, rhe2);
            lemma_names_follow_concat(
                expression_reads(lhe),
                expression_reads(rhe),
                m,
                expression_names(lhe2),
                expression_names(rhe2),
            );
        },
    }
}

/// Patching the arguments of a phi statement changes neither what a
/// statement reads nor what it assigns.
pub proof fn lemma_statement_patched(pre: Statement, m: EnvModel, post: Statement)
    requires
        statement_patched(pre, m, post),
    ensures
        statement_names(post) == statement_names(pre),
        statement_target(post) == statement_target(pre),
{
}

} // verus!
