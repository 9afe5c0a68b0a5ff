//! An analysis that finds the arithmetic on field elements that may
//! overflow.
use crate::basic_block::BasicBlock;
use crate::cfg::Cfg;
use crate::errors::{FileID, FileLocation};
use crate::ir::{AccessType, Expression, ExpressionInfixOpcode, LogArgument, Meta, Statement};
use crate::report::{MessageCategory, Report, ReportCode, ReportCollection};
use vstd::prelude::*;

verus! {

/// The message of a report on arithmetic that may overflow.
pub open spec fn warning_message() -> Seq<char> {
    "Field element arithmetic could overflow, which may produce unexpected results."@
}

/// The message at the place of arithmetic that may overflow.
pub open spec fn label_message() -> Seq<char> {
    "Field element arithmetic here."@
}

/// `report` is the report on arithmetic that may overflow at the node with
/// the meta data `meta`.
pub open spec fn is_report_for(report: Report, meta: Meta) -> bool {
    &&& report.category == MessageCategory::Info
    &&& report.message@ == warning_message()
    &&& report.code == ReportCode::FieldElementArithmetic
    &&& match meta.file_id {
        Some(file_id) => {
            &&& report.primary@.len() == 1
            &&& report.primary@[0].file_id == file_id
            &&& report.primary@[0].location == meta.file_location
            &&& report.primary@[0].message@ == label_message()
        },
        None => report.primary@.len() == 0,
    }
}

/// A finding of arithmetic on field elements that may overflow.
pub struct FieldElementArithmeticWarning {
    pub file_id: Option<FileID>,
    pub file_location: FileLocation,
}

impl FieldElementArithmeticWarning {
    /// The report on this finding. It has a label if the file is known.
    pub fn into_report(self) -> (report: Report)
        ensures
            is_report_for(
                report,
                Meta { file_id: self.file_id, file_location: self.file_location },
            ),
    {
        let mut report = Report::info(
            "Field element arithmetic could overflow, which may produce unexpected results.".to_owned(),
            ReportCode::FieldElementArithmetic,
        );
        if let Some(file_id) = self.file_id {
            report.add_primary(
                self.file_location,
                file_id,
                "Field element arithmetic here.".to_owned(),
            );
        }
        report
    }
}

/// The operator is one of arithmetic or of bits.
pub open spec fn is_arithmetic(op: ExpressionInfixOpcode) -> bool {
    op is Mul || op is Div || op is Add || op is Sub || op is Pow || op is IntDiv || op is Mod
        || op is ShiftL || op is ShiftR || op is BitOr || op is BitAnd || op is BitXor
}

/// The result of the operator may lie outside the field: it is one of
/// arithmetic, but neither integer division, remainder, nor one of bits
/// that cannot give more bits than its operands have.
pub open spec fn overflows(op: ExpressionInfixOpcode) -> bool {
    op is Mul || op is Div || op is Add || op is Sub || op is Pow || op is ShiftL || op is ShiftR
}

/// The places in `e` with arithmetic that may overflow, in the order of the
/// expression. Below such a place nothing more is looked for.
pub open spec fn expression_sites(e: Expression) -> Seq<Meta>
    decreases e,
{
    match e {
        Expression::InfixOp { meta, lhe, infix_op, rhe } => if overflows(infix_op) {
            seq![meta]
        } else {
            expression_sites(*lhe) + expression_sites(*rhe)
        },
        Expression::PrefixOp { rhe, .. } => expression_sites(*rhe),
        Expression::SwitchOp { cond, if_true, if_false, .. } => expression_sites(*cond)
            + expression_sites(*if_true) + expression_sites(*if_false),
        Expression::Call { args, .. } => list_sites(args@, args@.len()),
        Expression::InlineArray { values, .. } => list_sites(values@, values@.len()),
        Expression::Access { access, .. } => access_sites(access@, access@.len()),
        Expression::Update { access, rhe, .. } => access_sites(access@, access@.len())
            + expression_sites(*rhe),
        Expression::Number(..) => Seq::empty(),
        Expression::Variable { .. } => Seq::empty(),
        Expression::Phi { .. } => Seq::empty(),
    }
}

/// The places with arithmetic that may overflow in the first `k`
/// expressions of `list`.
pub open spec fn list_sites(list: Seq<Expression>, k: nat) -> Seq<Meta>
    decreases list, k,
{
    if k == 0 || k > list.len() {
        Seq::empty()
    } else {
        list_sites(list, (k - 1) as nat) + expression_sites(list[k - 1])
    }
}

/// The places with arithmetic that may overflow in the indices among the
/// first `k` steps of `access`.
pub open spec fn access_sites(access: Seq<AccessType>, k: nat) -> Seq<Meta>
    decreases access, k,
{
    if k == 0 || k > access.len() {
        Seq::empty()
    } else {
        access_sites(access, (k - 1) as nat) + match access[k - 1] {
            AccessType::ArrayAccess(index) => expression_sites(*index),
            AccessType::ComponentAccess(_) => Seq::empty(),
        }
    }
}

/// The places with arithmetic that may overflow in the expressions among
/// the first `k` arguments of a log statement.
pub open spec fn log_sites(args: Seq<LogArgument>, k: nat) -> Seq<Meta>
    decreases k,
{
    if k == 0 || k > args.len() {
        Seq::empty()
    } else {
        log_sites(args, (k - 1) as nat) + match args[k - 1] {
            LogArgument::Expr(value) => expression_sites(*value),
            LogArgument::String(_) => Seq::empty(),
        }
    }
}

/// The places in `stmt` with arithmetic that may overflow.
pub open spec fn statement_sites(stmt: Statement) -> Seq<Meta> {
    match stmt {
        Statement::Declaration { dimensions, .. } => list_sites(dimensions@, dimensions@.len()),
        Statement::LogCall { args, .. } => log_sites(args@, args@.len()),
        Statement::IfThenElse { cond, .. } => expression_sites(cond),
        Statement::Substitution { rhe, .. } => expression_sites(rhe),
        Statement::Return { value, .. } => expression_sites(value),
        Statement::Assert { arg, .. } => expression_sites(arg),
        Statement::ConstraintEquality { lhe, rhe, .. } => expression_sites(lhe) + expression_sites(
            rhe,
        ),
    }
}

/// The places with arithmetic that may overflow in the first `k` statements
/// of `stmts`.
pub open spec fn statements_sites(stmts: Seq<Statement>, k: nat) -> Seq<Meta>
    decreases k,
{
    if k == 0 || k > stmts.len() {
        Seq::empty()
    } else {
        statements_sites(stmts, (k - 1) as nat) + statement_sites(stmts[k - 1])
    }
}

/// The places with arithmetic that may overflow in the first `k` blocks of
/// `blocks`.
pub open spec fn blocks_sites(blocks: Seq<BasicBlock>, k: nat) -> Seq<Meta>
    decreases k,
{
    if k == 0 || k > blocks.len() {
        Seq::empty()
    } else {
        blocks_sites(blocks, (k - 1) as nat) + statements_sites(
            blocks[k - 1].stmts@,
            blocks[k - 1].stmts@.len(),
        )
    }
}

/// `post` is `pre` followed by one report for each place in `sites`.
pub open spec fn reports_extended(pre: Seq<Report>, post: Seq<Report>, sites: Seq<Meta>) -> bool {
    &&& post.len() == pre.len() + sites.len()
    &&& forall|i: int| 0 <= i < pre.len() ==> post[i] == pre[i]
    &&& forall|j: int| 0 <= j < sites.len() ==> is_report_for(#[trigger] post[pre.len() + j], sites[j])
}

/// Reports that were extended twice were extended by both lists of places.
proof fn lemma_extended_twice(
    pre: Seq<Report>,
    mid: Seq<Report>,
    post: Seq<Report>,
    a: Seq<Meta>,
    b: Seq<Meta>,
)
    requires
        reports_extended(pre, mid, a),
        reports_extended(mid, post, b),
    ensures
        reports_extended(pre, post, a + b),
{
    assert forall|j: int| 0 <= j < (a + b).len() implies is_report_for(
        #[trigger] post[pre.len() + j],
        (a + b)[j],
    ) by {
        if j < a.len() {
            assert(post[pre.len() + j] == mid[pre.len() + j]);
        } else {
            assert(is_report_for(post[mid.len() + (j - a.len())], b[j - a.len()]));
        }
    }
}

/// Tells whether the operator is one of arithmetic or of bits.
fn is_arithmetic_infix_op(op: &ExpressionInfixOpcode) -> (r: bool)
    ensures
        r == is_arithmetic(*op),
{
    matches!(
        op,
        ExpressionInfixOpcode::Mul | ExpressionInfixOpcode::Div | ExpressionInfixOpcode::Add
            | ExpressionInfixOpcode::Sub | ExpressionInfixOpcode::Pow
            | ExpressionInfixOpcode::IntDiv | ExpressionInfixOpcode::Mod
            | ExpressionInfixOpcode::ShiftL | ExpressionInfixOpcode::ShiftR
            | ExpressionInfixOpcode::BitOr | ExpressionInfixOpcode::BitAnd
            | ExpressionInfixOpcode::BitXor
    )
}

/// Tells whether the result of the operator may lie outside the field.
fn may_overflow(op: &ExpressionInfixOpcode) -> (r: bool)
    ensures
        r == overflows(*op),
{
    // Note that right-shift may overflow if the shift is less than 0.
    is_arithmetic_infix_op(op) && !matches!(
        op,
        ExpressionInfixOpcode::IntDiv | ExpressionInfixOpcode::Mod | ExpressionInfixOpcode::BitOr
            | ExpressionInfixOpcode::BitAnd | ExpressionInfixOpcode::BitXor
    )
}

/// The report on arithmetic that may overflow at the node with the meta
/// data `meta`.
pub fn build_report(meta: &Meta) -> (report: Report)
    ensures
        is_report_for(report, *meta),
{
    FieldElementArithmeticWarning {
        file_id: meta.file_id(),
        file_location: meta.file_location(),
    }.into_report()
}

/// Reports the places in `expr` with arithmetic that may overflow.
fn visit_expression(expr: &Expression, reports: &mut ReportCollection)
    ensures
        reports_extended(old(reports)@, final(reports)@, expression_sites(*expr)),
    decreases *expr,
{
    let ghost start = reports@;
    match expr {
        Expression::InfixOp { meta, lhe, infix_op, rhe } => {
            if may_overflow(infix_op) {
                reports.push(build_report(meta));
                proof {
                    assert(reports@[start.len() as int + 0] == reports@[start.len() as int]);
                }
            } else {
                visit_expression(lhe, reports);
                let ghost mid = reports@;
                visit_expression(rhe, reports);
                proof {
                    lemma_extended_twice(
                        start,
                        mid,
                        reports@,
                        expression_sites(**lhe),
                        expression_sites(**rhe),
                    );
                }
            }
        },
        Expression::PrefixOp { rhe, .. } => {
            visit_expression(rhe, reports);
        },
        Expression::SwitchOp { cond, if_true, if_false, .. } => {
            visit_expression(cond, reports);
            let ghost first = reports@;
            visit_expression(if_true, reports);
            let ghost second = reports@;
            visit_expression(if_false, reports);
            proof {
                lemma_extended_twice(
                    start,
                    first,
                    second,
                    expression_sites(**cond),
                    expression_sites(**if_true),
                );
                lemma_extended_twice(
                    start,
                    second,
                    reports@,
                    expression_sites(**cond) + expression_sites(**if_true),
                    expression_sites(**if_false),
                );
            }
        },
        Expression::Call { args, .. } => {
            proof {
                assert(expr->Call_args == *args);
                assert(decreases_to!(*expr => expr->Call_args));
            }
            visit_expressions(args, reports, Ghost(*expr));
        },
        Expression::InlineArray { values, .. } => {
            proof {
                assert(expr->InlineArray_values == *values);
                assert(decreases_to!(*expr => expr->InlineArray_values));
            }
            visit_expressions(values, reports, Ghost(*expr));
        },
        Expression::Access { access, .. } => {
            proof {
                assert(expr->Access_access == *access);
                assert(decreases_to!(*expr => expr->Access_access));
            }
            visit_access(access, reports, Ghost(*expr));
        },
        Expression::Update { access, rhe, .. } => {
            proof {
                assert(expr->Update_access == *access);
                assert(decreases_to!(*expr => expr->Update_access));
            }
            visit_access(access, reports, Ghost(*expr));
            let ghost mid = reports@;
            visit_expression(rhe, reports);
            proof {
                lemma_extended_twice(
                    start,
                    mid,
                    reports@,
                    access_sites(access@, access@.len()),
                    expression_sites(**rhe),
                );
            }
        },
        Expression::Number(_, _) => {},
        Expression::Variable { .. } => {},
        Expression::Phi { .. } => {},
    }
}

/// Reports the places in the expressions of `list`.
fn visit_expressions(
    list: &Vec<Expression>,
    reports: &mut ReportCollection,
    Ghost(parent): Ghost<Expression>,
)
    requires
        decreases_to!(parent => *list),
    ensures
        reports_extended(old(reports)@, final(reports)@, list_sites(list@, list@.len())),
    decreases parent, 0nat,
{
    let ghost start = reports@;
    let mut i: usize = 0;
    while i < list.len()
        invariant
            i <= list@.len(),
            decreases_to!(parent => *list),
            reports_extended(start, reports@, list_sites(list@, i as nat)),
        decreases list@.len() - i,
    {
        let ghost mid = reports@;
        proof {
            assert(decreases_to!(*list => list[i as int]));
        }
        visit_expression(&list[i], reports);
        proof {
            lemma_extended_twice(
                start,
                mid,
                reports@,
                list_sites(list@, i as nat),
                expression_sites(list@[i as int]),
            );
        }
        i += 1;
    }
}

/// Reports the places in the indices of `access`.
fn visit_access(
    access: &Vec<AccessType>,
    reports: &mut ReportCollection,
    Ghost(parent): Ghost<Expression>,
)
    requires
        decreases_to!(parent => *access),
    ensures
        reports_extended(old(reports)@, final(reports)@, access_sites(access@, access@.len())),
    decreases parent, 0nat,
{
    let ghost start = reports@;
    let mut i: usize = 0;
    while i < access.len()
        invariant
            i <= access@.len(),
            decreases_to!(parent => *access),
            reports_extended(start, reports@, access_sites(access@, i as nat)),
        decreases access@.len() - i,
    {
        let ghost mid = reports@;
        proof {
            assert(decreases_to!(*access => access[i as int]));
        }
        if let AccessType::ArrayAccess(index) = &access[i] {
            proof {
                assert(access@[i as int]->ArrayAccess_0 == *index);
                assert(decreases_to!(access@[i as int] => access@[i as int]->ArrayAccess_0));
            }
            visit_expression(index, reports);
            proof {
                lemma_extended_twice(
                    start,
                    mid,
                    reports@,
                    access_sites(access@, i as nat),
                    expression_sites(**index),
                );
            }
        } else {
            assert(access_sites(access@, (i + 1) as nat) =~= access_sites(access@, i as nat));
        }
        i += 1;
    }
}

/// Reports the places in `stmt` with arithmetic that may overflow.
fn visit_statement(stmt: &Statement, reports: &mut ReportCollection)
    ensures
        reports_extended(old(reports)@, final(reports)@, statement_sites(*stmt)),
{
    let ghost start = reports@;
    match stmt {
        Statement::Declaration { dimensions, .. } => {
            let mut i: usize = 0;
            while i < dimensions.len()
                invariant
                    i <= dimensions@.len(),
                    reports_extended(start, reports@, list_sites(dimensions@, i as nat)),
                decreases dimensions@.len() - i,
            {
                let ghost mid = reports@;
                visit_expression(&dimensions[i], reports);
                proof {
                    lemma_extended_twice(
                        start,
                        mid,
                        reports@,
                        list_sites(dimensions@, i as nat),
                        expression_sites(dimensions@[i as int]),
                    );
                }
                i += 1;
            }
        },
        Statement::LogCall { args, .. } => {
            let mut i: usize = 0;
            while i < args.len()
                invariant
                    i <= args@.len(),
                    reports_extended(start, reports@, log_sites(args@, i as nat)),
                decreases args@.len() - i,
            {
                let ghost mid = reports@;
                if let LogArgument::Expr(value) = &args[i] {
                    visit_expression(value, reports);
                    proof {
                        lemma_extended_twice(
                            start,
                            mid,
                            reports@,
                            log_sites(args@, i as nat),
                            expression_sites(**value),
                        );
                    }
                } else {
                    assert(log_sites(args@, (i + 1) as nat) =~= log_sites(args@, i as nat));
                }
                i += 1;
            }
        },
        Statement::IfThenElse { cond, .. } => visit_expression(cond, reports),
        Statement::Substitution { rhe, .. } => visit_expression(rhe, reports),
        Statement::Return { value, .. } => visit_expression(value, reports),
        Statement::Assert { arg, .. } => visit_expression(arg, reports),
        Statement::ConstraintEquality { lhe, rhe, .. } => {
            visit_expression(lhe, reports);
            let ghost mid = reports@;
            visit_expression(rhe, reports);
            proof {
                lemma_extended_twice(
                    start,
                    mid,
                    reports@,
                    expression_sites(*lhe),
                    expression_sites(*rhe),
                );
            }
        },
    }
}

/// Field element arithmetic in Circom may overflow, which could produce
/// unexpected results. Worst case, it may allow a malicious prover to forge
/// proofs.
///
/// Gives one report for each infix operation `*`, `/`, `+`, `-`, `**`, `<<`
/// or `>>` that does not stand below another one, block by block and
/// statement by statement.
pub fn find_field_element_arithmetic(cfg: &Cfg) -> (reports: ReportCollection)
    ensures
        reports_extended(
            Seq::empty(),
            reports@,
            blocks_sites(cfg.basic_blocks@, cfg.basic_blocks@.len()),
        ),
{
    let mut reports = ReportCollection::new();
    let mut b: usize = 0;
    while b < cfg.basic_blocks.len()
        invariant
            b <= cfg.basic_blocks@.len(),
            reports_extended(Seq::empty(), reports@, blocks_sites(cfg.basic_blocks@, b as nat)),
        decreases cfg.basic_blocks@.len() - b,
    {
        let basic_block = &cfg.basic_blocks[b];
        let ghost before = reports@;
        let mut s: usize = 0;
        while s < basic_block.stmts.len()
            invariant
                s <= basic_block.stmts@.len(),
                reports_extended(before, reports@, statements_sites(basic_block.stmts@, s as nat)),
            decreases basic_block.stmts@.len() - s,
        {
            let ghost mid = reports@;
            visit_statement(&basic_block.stmts[s], &mut reports);
            proof {
                lemma_extended_twice(
                    before,
                    mid,
                    reports@,
                    statements_sites(basic_block.stmts@, s as nat),
                    statement_sites(basic_block.stmts@[s as int]),
                );
            }
            s += 1;
        }
        proof {
            lemma_extended_twice(
                Seq::empty(),
                before,
                reports@,
                blocks_sites(cfg.basic_blocks@, b as nat),
                statements_sites(basic_block.stmts@, basic_block.stmts@.len()),
            );
        }
        b += 1;
    }
    reports
}

} // verus!
