//! How expressions and statements take versions: which variables they
//! read, and what they are once each read names the visible version.
use crate::environment::{EnvModel, Environment};
use crate::errors::{SSAError, SSAResult};
use crate::traits::SSAEnvironment;
use crate::ir::{AccessType, Expression, LogArgument, Meta, PhiArgument, Statement, VariableId, VariableName};
use vstd::prelude::*;

verus! {

/// The variables that `e` reads, each with the place of the read, in the
/// order of the expression. The arguments of a phi expression are no reads.
pub open spec fn expression_reads(e: Expression) -> Seq<(VariableId, Meta)>
    decreases e,
{
    match e {
        Expression::InfixOp { lhe, rhe, .. } => expression_reads(*lhe) + expression_reads(*rhe),
        Expression::PrefixOp { rhe, .. } => expression_reads(*rhe),
        Expression::SwitchOp { cond, if_true, if_false, .. } => expression_reads(*cond)
            + expression_reads(*if_true) + expression_reads(*if_false),
        Expression::Variable { meta, name } => seq![(name.id, meta)],
        Expression::Number(..) => Seq::empty(),
        Expression::Call { args, .. } => list_reads(args@, args@.len()),
        Expression::InlineArray { values, .. } => list_reads(values@, values@.len()),
        Expression::Access { meta, var, access } => seq![(var.id, meta)] + access_reads(
            access@,
            access@.len(),
        ),
        Expression::Update { meta, var, access, rhe } => seq![(var.id, meta)] + access_reads(
            access@,
            access@.len(),
        ) + expression_reads(*rhe),
        Expression::Phi { .. } => Seq::empty(),
    }
}

/// The reads of the first `k` expressions of `list`.
pub open spec fn list_reads(list: Seq<Expression>, k: nat) -> Seq<(VariableId, Meta)>
    decreases list, k,
{
    if k == 0 || k > list.len() {
        Seq::empty()
    } else {
        list_reads(list, (k - 1) as nat) + expression_reads(list[k - 1])
    }
}

/// The reads in the indices among the first `k` steps of `access`.
pub open spec fn access_reads(access: Seq<AccessType>, k: nat) -> Seq<(VariableId, Meta)>
    decreases access, k,
{
    if k == 0 || k > access.len() {
        Seq::empty()
    } else {
        access_reads(access, (k - 1) as nat) + match access[k - 1] {
            AccessType::ArrayAccess(index) => expression_reads(*index),
            AccessType::ComponentAccess(_) => Seq::empty(),
        }
    }
}

/// The reads in the expressions among the first `k` arguments of a log
/// statement.
pub open spec fn log_reads(args: Seq<LogArgument>, k: nat) -> Seq<(VariableId, Meta)>
    decreases k,
{
    if k == 0 || k > args.len() {
        Seq::empty()
    } else {
        log_reads(args, (k - 1) as nat) + match args[k - 1] {
            LogArgument::Expr(value) => expression_reads(*value),
            LogArgument::String(_) => Seq::empty(),
        }
    }
}

/// The variables that `stmt` reads, in the order of the statement.
pub open spec fn statement_reads(stmt: Statement) -> Seq<(VariableId, Meta)> {
    match stmt {
        Statement::Declaration { dimensions, .. } => list_reads(dimensions@, dimensions@.len()),
        Statement::LogCall { args, .. } => log_reads(args@, args@.len()),
        Statement::IfThenElse { cond, .. } => expression_reads(cond),
        Statement::Substitution { rhe, .. } => expression_reads(rhe),
        Statement::Return { value, .. } => expression_reads(value),
        Statement::Assert { arg, .. } => expression_reads(arg),
        Statement::ConstraintEquality { lhe, rhe, .. } => expression_reads(lhe) + expression_reads(
            rhe,
        ),
    }
}

/// The variable that `stmt` writes, if it writes one.
pub open spec fn statement_write(stmt: Statement) -> Option<VariableId> {
    match stmt {
        Statement::Substitution { var, .. } => Some(var.id),
        _ => None,
    }
}

/// The variable that `stmt` is the phi statement of, if it is one.
pub open spec fn statement_phi(stmt: Statement) -> Option<VariableId> {
    match stmt {
        Statement::Substitution { var, rhe: Expression::Phi { .. }, .. } => Some(var.id),
        _ => None,
    }
}

/// `name` in the version visible in `m`.
pub open spec fn visible_name(name: VariableName, m: EnvModel) -> VariableName {
    VariableName { id: name.id, version: m.visible(name.id) }
}

/// `post` is `pre` with each variable that is read in the version visible
/// in `m`.
pub open spec fn expression_renamed(pre: Expression, m: EnvModel, post: Expression) -> bool
    decreases pre,
{
    match pre {
        Expression::InfixOp { meta, lhe, infix_op, rhe } => {
            &&& post matches Expression::InfixOp { meta: meta2, lhe: lhe2, infix_op: op2, rhe: rhe2 }
            &&& meta2 == meta
            &&& op2 == infix_op
            &&& expression_renamed(*lhe, m, *lhe2)
            &&& expression_renamed(*rhe, m, *rhe2)
        },
        Expression::PrefixOp { meta, prefix_op, rhe } => {
            &&& post matches Expression::PrefixOp { meta: meta2, prefix_op: op2, rhe: rhe2 }
            &&& meta2 == meta
            &&& op2 == prefix_op
            &&& expression_renamed(*rhe, m, *rhe2)
        },
        Expression::SwitchOp { meta, cond, if_true, if_false } => {
            &&& post matches Expression::SwitchOp {
                meta: meta2,
                cond: cond2,
                if_true: if_true2,
                if_false: if_false2,
            }
            &&& meta2 == meta
            &&& expression_renamed(*cond, m, *cond2)
            &&& expression_renamed(*if_true, m, *if_true2)
            &&& expression_renamed(*if_false, m, *if_false2)
        },
        Expression::Variable { meta, name } => {
            &&& post matches Expression::Variable { meta: meta2, name: name2 }
            &&& meta2 == meta
            &&& name2 == visible_name(name, m)
        },
        Expression::Number(meta, value) => {
            &&& post matches Expression::Number(meta2, value2)
            &&& meta2 == meta
            &&& value2 == value
        },
        Expression::Call { meta, name, args } => {
            &&& post matches Expression::Call { meta: meta2, name: name2, args: args2 }
            &&& meta2 == meta
            &&& name2 == name
            &&& list_renamed(args@, m, args2@)
        },
        Expression::InlineArray { meta, values } => {
            &&& post matches Expression::InlineArray { meta: meta2, values: values2 }
            &&& meta2 == meta
            &&& list_renamed(values@, m, values2@)
        },
        Expression::Access { meta, var, access } => {
            &&& post matches Expression::Access { meta: meta2, var: var2, access: access2 }
            &&& meta2 == meta
            &&& var2 == visible_name(var, m)
            &&& access_renamed(access@, m, access2@)
        },
        Expression::Update { meta, var, access, rhe } => {
            &&& post matches Expression::Update { meta: meta2, var: var2, access: access2, rhe: rhe2 }
            &&& meta2 == meta
            &&& var2 == visible_name(var, m)
            &&& access_renamed(access@, m, access2@)
            &&& expression_renamed(*rhe, m, *rhe2)
        },
        Expression::Phi { meta, args } => {
            &&& post matches Expression::Phi { meta: meta2, args: args2 }
            &&& meta2 == meta
            &&& args2@ == args@
        },
    }
}

/// `post` holds the expressions of `pre`, each with its reads in the
/// versions visible in `m`.
pub open spec fn list_renamed(pre: Seq<Expression>, m: EnvModel, post: Seq<Expression>) -> bool
    decreases pre,
{
    &&& post.len() == pre.len()
    &&& forall|i: int| 0 <= i < pre.len() ==> expression_renamed(pre[i], m, #[trigger] post[i])
}

/// `post` holds the steps of `pre`, each index with its reads in the
/// versions visible in `m`.
pub open spec fn access_renamed(pre: Seq<AccessType>, m: EnvModel, post: Seq<AccessType>) -> bool
    decreases pre,
{
    &&& post.len() == pre.len()
    &&& forall|i: int|
        0 <= i < pre.len() ==> match pre[i] {
            AccessType::ArrayAccess(index) => {
                &&& (#[trigger] post[i]) matches AccessType::ArrayAccess(index2)
                &&& expression_renamed(*index, m, *index2)
            },
            AccessType::ComponentAccess(name) => {
                &&& (#[trigger] post[i]) matches AccessType::ComponentAccess(name2)
                &&& name2 == name
            },
        }
}

/// Appends the reads of `expr` to `reads`.
fn collect_expression_reads(expr: &Expression, reads: &mut Vec<(VariableId, Meta)>)
    ensures
        final(reads)@ == old(reads)@ + expression_reads(*expr),
    decreases *expr,
{
    let ghost start = reads@;
    match expr {
        Expression::InfixOp { lhe, rhe, .. } => {
            collect_expression_reads(lhe, reads);
            collect_expression_reads(rhe, reads);
            assert(reads@ =~= start + expression_reads(*expr));
        },
        Expression::PrefixOp { rhe, .. } => {
            collect_expression_reads(rhe, reads);
        },
        Expression::SwitchOp { cond, if_true, if_false, .. } => {
            collect_expression_reads(cond, reads);
            collect_expression_reads(if_true, reads);
            collect_expression_reads(if_false, reads);
            assert(reads@ =~= start + expression_reads(*expr));
        },
        Expression::Variable { meta, name } => {
            reads.push((name.id, *meta));
            assert(reads@ =~= start + expression_reads(*expr));
        },
        Expression::Number(_, _) => {
            assert(reads@ =~= start + expression_reads(*expr));
        },
        Expression::Call { args, .. } => {
            proof {
                assert(expr->Call_args == *args);
                assert(decreases_to!(*expr => expr->Call_args));
            }
            collect_list_reads(args, reads, Ghost(*expr));
        },
        Expression::InlineArray { values, .. } => {
            proof {
                assert(expr->InlineArray_values == *values);
                assert(decreases_to!(*expr => expr->InlineArray_values));
            }
            collect_list_reads(values, reads, Ghost(*expr));
        },
        Expression::Access { meta, var, access } => {
            reads.push((var.id, *meta));
            proof {
                assert(expr->Access_access == *access);
                assert(decreases_to!(*expr => expr->Access_access));
            }
            collect_access_reads(access, reads, Ghost(*expr));
            assert(reads@ =~= start + expression_reads(*expr));
        },
        Expression::Update { meta, var, access, rhe } => {
            reads.push((var.id, *meta));
            proof {
                assert(expr->Update_access == *access);
                assert(decreases_to!(*expr => expr->Update_access));
            }
            collect_access_reads(access, reads, Ghost(*expr));
            collect_expression_reads(rhe, reads);
            assert(reads@ =~= start + expression_reads(*expr));
        },
        Expression::Phi { .. } => {
            assert(reads@ =~= start + expression_reads(*expr));
        },
    }
}

/// Appends the reads of the expressions of `list` to `reads`.
fn collect_list_reads(
    list: &Vec<Expression>,
    reads: &mut Vec<(VariableId, Meta)>,
    Ghost(parent): Ghost<Expression>,
)
    requires
        decreases_to!(parent => *list),
    ensures
        final(reads)@ == old(reads)@ + list_reads(list@, list@.len()),
    decreases parent, 0nat,
{
    let ghost start = reads@;
    let mut i: usize = 0;
    assert(reads@ =~= start + list_reads(list@, 0));
    while i < list.len()
        invariant
            i <= list@.len(),
            decreases_to!(parent => *list),
            reads@ == start + list_reads(list@, i as nat),
        decreases list@.len() - i,
    {
        proof {
            assert(decreases_to!(*list => list[i as int]));
        }
        collect_expression_reads(&list[i], reads);
        i += 1;
        assert(reads@ =~= start + list_reads(list@, i as nat));
    }
}

/// Appends the reads in the indices of `access` to `reads`.
fn collect_access_reads(
    access: &Vec<AccessType>,
    reads: &mut Vec<(VariableId, Meta)>,
    Ghost(parent): Ghost<Expression>,
)
    requires
        decreases_to!(parent => *access),
    ensures
        final(reads)@ == old(reads)@ + access_reads(access@, access@.len()),
    decreases parent, 0nat,
{
    let ghost start = reads@;
    let mut i: usize = 0;
    assert(reads@ =~= start + access_reads(access@, 0));
    while i < access.len()
        invariant
            i <= access@.len(),
            decreases_to!(parent => *access),
            reads@ == start + access_reads(access@, i as nat),
        decreases access@.len() - i,
    {
        proof {
            assert(decreases_to!(*access => access[i as int]));
        }
        if let AccessType::ArrayAccess(index) = &access[i] {
            proof {
                assert(access@[i as int]->ArrayAccess_0 == *index);
                assert(decreases_to!(access@[i as int] => access@[i as int]->ArrayAccess_0));
            }
            collect_expression_reads(index, reads);
        }
        i += 1;
        assert(reads@ =~= start + access_reads(access@, i as nat));
    }
}

/// The variables that `stmt` reads, each with the place of the read.
pub fn collect_statement_reads(stmt: &Statement) -> (reads: Vec<(VariableId, Meta)>)
    ensures
        reads@ == statement_reads(*stmt),
{
    let mut reads: Vec<(VariableId, Meta)> = Vec::new();
    match stmt {
        Statement::Declaration { dimensions, .. } => {
            let mut i: usize = 0;
            assert(reads@ =~= list_reads(dimensions@, 0));
            while i < dimensions.len()
                invariant
                    i <= dimensions@.len(),
                    reads@ == list_reads(dimensions@, i as nat),
                decreases dimensions@.len() - i,
            {
                collect_expression_reads(&dimensions[i], &mut reads);
                i += 1;
            }
        },
        Statement::LogCall { args, .. } => {
            let mut i: usize = 0;
            assert(reads@ =~= log_reads(args@, 0));
            while i < args.len()
                invariant
                    i <= args@.len(),
                    reads@ == log_reads(args@, i as nat),
                decreases args@.len() - i,
            {
                if let LogArgument::Expr(value) = &args[i] {
                    collect_expression_reads(value, &mut reads);
                }
                i += 1;
                assert(reads@ =~= log_reads(args@, i as nat));
            }
        },
        Statement::IfThenElse { cond, .. } => {
            collect_expression_reads(cond, &mut reads);
            assert(reads@ =~= statement_reads(*stmt));
        },
        Statement::Substitution { rhe, .. } => {
            collect_expression_reads(rhe, &mut reads);
            assert(reads@ =~= statement_reads(*stmt));
        },
        Statement::Return { value, .. } => {
            collect_expression_reads(value, &mut reads);
            assert(reads@ =~= statement_reads(*stmt));
        },
        Statement::Assert { arg, .. } => {
            collect_expression_reads(arg, &mut reads);
            assert(reads@ =~= statement_reads(*stmt));
        },
        Statement::ConstraintEquality { lhe, rhe, .. } => {
            collect_expression_reads(lhe, &mut reads);
            collect_expression_reads(rhe, &mut reads);
            assert(reads@ =~= statement_reads(*stmt));
        },
    }
    reads
}

/// A copy of the arguments of a phi expression.
pub fn copy_phi_arguments(args: &Vec<PhiArgument>) -> (copy: Vec<PhiArgument>)
    ensures
        copy@ == args@,
{
    let mut copy: Vec<PhiArgument> = Vec::new();
    let mut i: usize = 0;
    while i < args.len()
        invariant
            i <= args@.len(),
            copy@ == args@.subrange(0, i as int),
        decreases args@.len() - i,
    {
        copy.push(args[i]);
        i += 1;
        assert(copy@ =~= args@.subrange(0, i as int));
    }
    assert(args@.subrange(0, args@.len() as int) =~= args@);
    copy
}

/// `name` in the version visible in `env`.
fn rename_variable(name: &VariableName, env: &Environment) -> (renamed: VariableName)
    ensures
        renamed == visible_name(*name, env@),
{
    VariableName { id: name.id, version: env.get_current_version(name.id) }
}

/// A copy of `expr` in which each variable that is read has the version
/// visible in `env`.
pub fn rename_expression(expr: &Expression, env: &Environment) -> (renamed: Expression)
    ensures
        expression_renamed(*expr, env@, renamed),
    decreases *expr,
{
    match expr {
        Expression::InfixOp { meta, lhe, infix_op, rhe } => Expression::InfixOp {
            meta: *meta,
            lhe: Box::new(rename_expression(lhe, env)),
            infix_op: *infix_op,
            rhe: Box::new(rename_expression(rhe, env)),
        },
        Expression::PrefixOp { meta, prefix_op, rhe } => Expression::PrefixOp {
            meta: *meta,
            prefix_op: *prefix_op,
            rhe: Box::new(rename_expression(rhe, env)),
        },
        Expression::SwitchOp { meta, cond, if_true, if_false } => Expression::SwitchOp {
            meta: *meta,
            cond: Box::new(rename_expression(cond, env)),
            if_true: Box::new(rename_expression(if_true, env)),
            if_false: Box::new(rename_expression(if_false, env)),
        },
        Expression::Variable { meta, name } => Expression::Variable {
            meta: *meta,
            name: rename_variable(name, env),
        },
        Expression::Number(meta, value) => Expression::Number(*meta, *value),
        Expression::Call { meta, name, args } => {
            proof {
                assert(expr->Call_args == *args);
                assert(decreases_to!(*expr => expr->Call_args));
            }
            Expression::Call {
                meta: *meta,
                name: *name,
                args: rename_list(args, env, Ghost(*expr)),
            }
        },
        Expression::InlineArray { meta, values } => {
            proof {
                assert(expr->InlineArray_values == *values);
                assert(decreases_to!(*expr => expr->InlineArray_values));
            }
            Expression::InlineArray { meta: *meta, values: rename_list(values, env, Ghost(*expr)) }
        },
        Expression::Access { meta, var, access } => {
            proof {
                assert(expr->Access_access == *access);
                assert(decreases_to!(*expr => expr->Access_access));
            }
            Expression::Access {
                meta: *meta,
                var: rename_variable(var, env),
                access: rename_access(access, env, Ghost(*expr)),
            }
        },
        Expression::Update { meta, var, access, rhe } => {
            proof {
                assert(expr->Update_access == *access);
                assert(decreases_to!(*expr => expr->Update_access));
            }
            Expression::Update {
                meta: *meta,
                var: rename_variable(var, env),
                access: rename_access(access, env, Ghost(*expr)),
                rhe: Box::new(rename_expression(rhe, env)),
            }
        },
        Expression::Phi { meta, args } => Expression::Phi {
            meta: *meta,
            args: copy_phi_arguments(args),
        },
    }
}

/// Copies of the expressions of `list` with their reads in the versions
/// visible in `env`.
fn rename_list(list: &Vec<Expression>, env: &Environment, Ghost(parent): Ghost<Expression>) -> (renamed:
    Vec<Expression>)
    requires
        decreases_to!(parent => *list),
    ensures
        list_renamed(list@, env@, renamed@),
    decreases parent, 0nat,
{
    let mut renamed: Vec<Expression> = Vec::new();
    let mut i: usize = 0;
    while i < list.len()
        invariant
            i <= list@.len(),
            decreases_to!(parent => *list),
            renamed@.len() == i,
            forall|j: int|
                0 <= j < i ==> expression_renamed(list@[j], env@, #[trigger] renamed@[j]),
        decreases list@.len() - i,
    {
        proof {
            assert(decreases_to!(*list => list[i as int]));
        }
        let item = rename_expression(&list[i], env);
        renamed.push(item);
        i += 1;
    }
    renamed
}

/// A copy of `access` with the reads of its indices in the versions
/// visible in `env`.
fn rename_access(access: &Vec<AccessType>, env: &Environment, Ghost(parent): Ghost<Expression>) -> (renamed:
    Vec<AccessType>)
    requires
        decreases_to!(parent => *access),
    ensures
        access_renamed(access@, env@, renamed@),
    decreases parent, 0nat,
{
    let mut renamed: Vec<AccessType> = Vec::new();
    let mut i: usize = 0;
    while i < access.len()
        invariant
            i <= access@.len(),
            decreases_to!(parent => *access),
            renamed@.len() == i,
            access_renamed(access@.subrange(0, i as int), env@, renamed@),
        decreases access@.len() - i,
    {
        proof {
            assert(decreases_to!(*access => access[i as int]));
        }
        let ghost before = renamed@;
        match &access[i] {
            AccessType::ArrayAccess(index) => {
                proof {
                    assert(access@[i as int]->ArrayAccess_0 == *index);
                    assert(decreases_to!(access@[i as int] => access@[i as int]->ArrayAccess_0));
                }
                let item = rename_expression(index, env);
                renamed.push(AccessType::ArrayAccess(Box::new(item)));
            },
            AccessType::ComponentAccess(name) => {
                renamed.push(AccessType::ComponentAccess(*name));
            },
        }
        i += 1;
        proof {
            let pre = access@.subrange(0, i as int);
            assert forall|j: int| 0 <= j < pre.len() implies match pre[j] {
                AccessType::ArrayAccess(index) => {
                    &&& (#[trigger] renamed@[j]) matches AccessType::ArrayAccess(index2)
                    &&& expression_renamed(*index, env@, *index2)
                },
                AccessType::ComponentAccess(name) => {
                    &&& (#[trigger] renamed@[j]) matches AccessType::ComponentAccess(name2)
                    &&& name2 == name
                },
            } by {
                if j < i - 1 {
                    assert(access@.subrange(0, i - 1)[j] == pre[j]);
                    assert(before[j] == renamed@[j]);
                }
            }
        }
    }
    assert(access@.subrange(0, access@.len() as int) =~= access@);
    renamed
}

/// `post` holds the arguments of `pre`, each expression with its reads in
/// the versions visible in `m`.
pub open spec fn log_renamed(pre: Seq<LogArgument>, m: EnvModel, post: Seq<LogArgument>) -> bool {
    &&& post.len() == pre.len()
    &&& forall|i: int|
        0 <= i < pre.len() ==> match pre[i] {
            LogArgument::String(text) => {
                &&& (#[trigger] post[i]) matches LogArgument::String(text2)
                &&& text2 == text
            },
            LogArgument::Expr(value) => {
                &&& (#[trigger] post[i]) matches LogArgument::Expr(value2)
                &&& expression_renamed(*value, m, *value2)
            },
        }
}

/// `post` is `pre` with each variable that is read in the version visible
/// in `m`, and with the variable that is written in its next version.
pub open spec fn statement_renamed(pre: Statement, m: EnvModel, post: Statement) -> bool {
    match pre {
        Statement::Declaration { meta, names, dimensions } => {
            &&& post matches Statement::Declaration { meta: meta2, names: names2, dimensions: dimensions2 }
            &&& meta2 == meta
            &&& names2@ == names@
            &&& list_renamed(dimensions@, m, dimensions2@)
        },
        Statement::IfThenElse { meta, cond, true_index, false_index } => {
            &&& post matches Statement::IfThenElse {
                meta: meta2,
                cond: cond2,
                true_index: true2,
                false_index: false2,
            }
            &&& meta2 == meta
            &&& true2 == true_index
            &&& false2 == false_index
            &&& expression_renamed(cond, m, cond2)
        },
        Statement::Return { meta, value } => {
            &&& post matches Statement::Return { meta: meta2, value: value2 }
            &&& meta2 == meta
            &&& expression_renamed(value, m, value2)
        },
        Statement::Substitution { meta, var, rhe } => {
            &&& post matches Statement::Substitution { meta: meta2, var: var2, rhe: rhe2 }
            &&& meta2 == meta
            &&& var2 == (VariableName { id: var.id, version: Some((m.count(var.id) + 1) as usize) })
            &&& expression_renamed(rhe, m, rhe2)
        },
        Statement::ConstraintEquality { meta, lhe, rhe } => {
            &&& post matches Statement::ConstraintEquality { meta: meta2, lhe: lhe2, rhe: rhe2 }
            &&& meta2 == meta
            &&& expression_renamed(lhe, m, lhe2)
            &&& expression_renamed(rhe, m, rhe2)
        },
        Statement::LogCall { meta, args } => {
            &&& post matches Statement::LogCall { meta: meta2, args: args2 }
            &&& meta2 == meta
            &&& log_renamed(args@, m, args2@)
        },
        Statement::Assert { meta, arg } => {
            &&& post matches Statement::Assert { meta: meta2, arg: arg2 }
            &&& meta2 == meta
            &&& expression_renamed(arg, m, arg2)
        },
    }
}

/// The first of `reads` that has no visible version in `m`.
pub open spec fn first_undefined(reads: Seq<(VariableId, Meta)>, m: EnvModel) -> Option<
    (VariableId, Meta),
>
    decreases reads.len(),
{
    if reads.len() == 0 {
        None
    } else {
        match first_undefined(reads.drop_last(), m) {
            Some(read) => Some(read),
            None => if m.visible(reads.last().0) is None {
                Some(reads.last())
            } else {
                None
            },
        }
    }
}

/// Why `stmt` cannot be renamed under `m`, if it cannot: it reads a
/// variable without a visible version, or the versions of the variable that
/// it writes have run out.
pub open spec fn statement_error(stmt: Statement, m: EnvModel) -> Option<SSAError> {
    match first_undefined(statement_reads(stmt), m) {
        Some(read) => Some(
            SSAError::UndefinedVariableError {
                name: read.0,
                file_id: read.1.file_id,
                location: read.1.file_location,
            },
        ),
        None => match statement_write(stmt) {
            Some(x) => if m.count(x) >= usize::MAX {
                Some(SSAError::TooManyVersionsError { name: x })
            } else {
                None
            },
            None => None,
        },
    }
}

/// The environment after `stmt` was renamed under `m`.
pub open spec fn statement_effect(stmt: Statement, m: EnvModel) -> EnvModel {
    match statement_write(stmt) {
        Some(x) => m.minted(x),
        None => m,
    }
}

/// The first undefined read of a part of the reads is the first of all.
proof fn lemma_first_undefined_prefix(reads: Seq<(VariableId, Meta)>, m: EnvModel, k: int)
    requires
        0 <= k <= reads.len(),
        first_undefined(reads.subrange(0, k), m) is Some,
    ensures
        first_undefined(reads, m) == first_undefined(reads.subrange(0, k), m),
    decreases reads.len() - k,
{
    if k < reads.len() {
        let longer = reads.subrange(0, k + 1);
        assert(longer.drop_last() =~= reads.subrange(0, k));
        lemma_first_undefined_prefix(reads, m, k + 1);
    } else {
        assert(reads.subrange(0, k) =~= reads);
    }
}

/// The first of `reads` that has no visible version in `env`.
fn find_undefined(reads: &Vec<(VariableId, Meta)>, env: &Environment) -> (r: Option<
    (VariableId, Meta),
>)
    ensures
        r == first_undefined(reads@, env@),
{
    let mut i: usize = 0;
    while i < reads.len()
        invariant
            i <= reads@.len(),
            first_undefined(reads@.subrange(0, i as int), env@) is None,
        decreases reads@.len() - i,
    {
        let read = reads[i];
        proof {
            assert(reads@.subrange(0, i + 1).drop_last() =~= reads@.subrange(0, i as int));
        }
        if env.get_current_version(read.0).is_none() {
            proof {
                lemma_first_undefined_prefix(reads@, env@, i + 1);
            }
            return Some(read);
        }
        i += 1;
    }
    assert(reads@.subrange(0, reads@.len() as int) =~= reads@);
    None
}

/// A copy of `names`.
fn copy_names(names: &Vec<VariableName>) -> (copy: Vec<VariableName>)
    ensures
        copy@ == names@,
{
    let mut copy: Vec<VariableName> = Vec::new();
    let mut i: usize = 0;
    while i < names.len()
        invariant
            i <= names@.len(),
            copy@ == names@.subrange(0, i as int),
        decreases names@.len() - i,
    {
        copy.push(names[i]);
        i += 1;
        assert(copy@ =~= names@.subrange(0, i as int));
    }
    assert(names@.subrange(0, names@.len() as int) =~= names@);
    copy
}

/// Copies of the expressions of `list` with their reads in the versions
/// visible in `env`.
fn rename_plain_list(list: &Vec<Expression>, env: &Environment) -> (renamed: Vec<Expression>)
    ensures
        list_renamed(list@, env@, renamed@),
{
    let mut renamed: Vec<Expression> = Vec::new();
    let mut i: usize = 0;
    while i < list.len()
        invariant
            i <= list@.len(),
            renamed@.len() == i,
            forall|j: int|
                0 <= j < i ==> expression_renamed(list@[j], env@, #[trigger] renamed@[j]),
        decreases list@.len() - i,
    {
        let item = rename_expression(&list[i], env);
        renamed.push(item);
        i += 1;
    }
    renamed
}

/// A copy of `args` with the reads of each expression in the versions
/// visible in `env`.
fn rename_log_arguments(args: &Vec<LogArgument>, env: &Environment) -> (renamed: Vec<LogArgument>)
    ensures
        log_renamed(args@, env@, renamed@),
{
    let mut renamed: Vec<LogArgument> = Vec::new();
    let mut i: usize = 0;
    while i < args.len()
        invariant
            i <= args@.len(),
            renamed@.len() == i,
            log_renamed(args@.subrange(0, i as int), env@, renamed@),
        decreases args@.len() - i,
    {
        let ghost before = renamed@;
        match &args[i] {
            LogArgument::String(text) => {
                renamed.push(LogArgument::String(text.clone()));
            },
            LogArgument::Expr(value) => {
                let item = rename_expression(value, env);
                renamed.push(LogArgument::Expr(Box::new(item)));
            },
        }
        i += 1;
        proof {
            let pre = args@.subrange(0, i as int);
            assert forall|j: int| 0 <= j < pre.len() implies match pre[j] {
                LogArgument::String(text) => {
                    &&& (#[trigger] renamed@[j]) matches LogArgument::String(text2)
                    &&& text2 == text
                },
                LogArgument::Expr(value) => {
                    &&& (#[trigger] renamed@[j]) matches LogArgument::Expr(value2)
                    &&& expression_renamed(*value, env@, *value2)
                },
            } by {
                if j < i - 1 {
                    assert(args@.subrange(0, i - 1)[j] == pre[j]);
                    assert(before[j] == renamed@[j]);
                }
            }
        }
    }
    assert(args@.subrange(0, args@.len() as int) =~= args@);
    renamed
}

/// Renames the variables of `stmt`: each read takes the version visible in
/// `env`, and the variable that is written takes its next version, which
/// `env` shows from then on. Fails, and leaves `env` as it is, where a read
/// has no visible version or the versions have run out.
pub fn rename_statement(stmt: &Statement, env: &mut Environment) -> (r: SSAResult<Statement>)
    requires
        old(env).wf(),
    ensures
        final(env).wf(),
        final(env).depth() == old(env).depth(),
        match statement_error(*stmt, old(env)@) {
            Some(error) => r == Err::<Statement, SSAError>(error) && final(env)@ == old(env)@,
            None => {
                &&& r matches Ok(post)
                &&& statement_renamed(*stmt, old(env)@, post)
                &&& final(env)@ == statement_effect(*stmt, old(env)@)
            },
        },
{
    let reads = collect_statement_reads(stmt);
    if let Some(read) = find_undefined(&reads, env) {
        return Err(
            SSAError::UndefinedVariableError {
                name: read.0,
                file_id: read.1.file_id(),
                location: read.1.file_location(),
            },
        );
    }
    match stmt {
        Statement::Declaration { meta, names, dimensions } => Ok(
            Statement::Declaration {
                meta: *meta,
                names: copy_names(names),
                dimensions: rename_plain_list(dimensions, env),
            },
        ),
        Statement::IfThenElse { meta, cond, true_index, false_index } => Ok(
            Statement::IfThenElse {
                meta: *meta,
                cond: rename_expression(cond, env),
                true_index: *true_index,
                false_index: *false_index,
            },
        ),
        Statement::Return { meta, value } => Ok(
            Statement::Return { meta: *meta, value: rename_expression(value, env) },
        ),
        Statement::Substitution { meta, var, rhe } => {
            let renamed = rename_expression(rhe, env);
            match env.get_next_version(var.id) {
                Some(version) => Ok(
                    Statement::Substitution {
                        meta: *meta,
                        var: var.with_version(version),
                        rhe: renamed,
                    },
                ),
                None => Err(SSAError::TooManyVersionsError { name: var.id }),
            }
        },
        Statement::ConstraintEquality { meta, lhe, rhe } => Ok(
            Statement::ConstraintEquality {
                meta: *meta,
                lhe: rename_expression(lhe, env),
                rhe: rename_expression(rhe, env),
            },
        ),
        Statement::LogCall { meta, args } => Ok(
            Statement::LogCall { meta: *meta, args: rename_log_arguments(args, env) },
        ),
        Statement::Assert { meta, arg } => Ok(
            Statement::Assert { meta: *meta, arg: rename_expression(arg, env) },
        ),
    }
}

} // verus!
