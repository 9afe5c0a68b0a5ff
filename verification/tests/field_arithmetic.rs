use circom_ssa::basic_block::BasicBlock;
use circom_ssa::cfg::Cfg;
use circom_ssa::errors::FileLocation;
use circom_ssa::field_arithmetic::{
    build_report, find_field_element_arithmetic, FieldElementArithmeticWarning,
};
use circom_ssa::ir::{
    AccessType, Expression, ExpressionInfixOpcode, ExpressionPrefixOpcode, LogArgument, Meta,
    Statement, VariableName,
};
use circom_ssa::report::{MessageCategory, ReportCode};

fn at(start: usize, end: usize) -> Meta {
    Meta::new(Some(0), FileLocation { start, end })
}

fn var(id: usize) -> Expression {
    Expression::Variable { meta: at(0, 0), name: VariableName::new(id) }
}

fn num(value: u64) -> Expression {
    Expression::Number(at(0, 0), value)
}

fn infix(meta: Meta, lhe: Expression, infix_op: ExpressionInfixOpcode, rhe: Expression) -> Expression {
    Expression::InfixOp { meta, lhe: Box::new(lhe), infix_op, rhe: Box::new(rhe) }
}

fn index(var: usize, at_index: Expression) -> Expression {
    Expression::Access {
        meta: at(0, 0),
        var: VariableName::new(var),
        access: vec![AccessType::ArrayAccess(Box::new(at_index))],
    }
}

fn single_block(stmts: Vec<Statement>) -> Cfg {
    Cfg::new(Vec::new(), vec![BasicBlock::new(0, stmts, Vec::new(), Vec::new())]).unwrap()
}

fn count(stmts: Vec<Statement>) -> usize {
    find_field_element_arithmetic(&single_block(stmts)).len()
}

fn validate_reports(cfg: Cfg, expected_len: usize) {
    let cfg = cfg.into_ssa().unwrap();
    let reports = find_field_element_arithmetic(&cfg);
    assert_eq!(reports.len(), expected_len);
}

#[test]
fn test_field_arithmetic() {
    // function f(a) {
    //     var b[2] = [0, 1];
    //     var c = b[a + 1];
    //     return a + b[1] + c;
    // }
    let (a, b, c) = (0, 1, 2);
    let stmts = vec![
        Statement::Declaration {
            meta: at(30, 47),
            names: vec![VariableName::new(b)],
            dimensions: vec![num(2)],
        },
        Statement::Substitution {
            meta: at(30, 47),
            var: VariableName::new(b),
            rhe: Expression::InlineArray { meta: at(41, 47), values: vec![num(0), num(1)] },
        },
        Statement::Declaration { meta: at(53, 69), names: vec![VariableName::new(c)], dimensions: vec![] },
        Statement::Substitution {
            meta: at(53, 69),
            var: VariableName::new(c),
            rhe: index(b, infix(at(63, 68), var(a), ExpressionInfixOpcode::Add, num(1))),
        },
        Statement::Return {
            meta: at(75, 95),
            value: infix(
                at(82, 94),
                infix(at(82, 90), var(a), ExpressionInfixOpcode::Add, index(b, num(1))),
                ExpressionInfixOpcode::Add,
                var(c),
            ),
        },
    ];
    let cfg = Cfg::new(vec![a], vec![BasicBlock::new(0, stmts, Vec::new(), Vec::new())]).unwrap();
    validate_reports(cfg, 2);
}

#[test]
fn reports_name_the_places_in_order() {
    let stmts = vec![
        Statement::Assert { meta: at(0, 9), arg: infix(at(1, 2), num(1), ExpressionInfixOpcode::Mul, num(2)) },
        Statement::ConstraintEquality {
            meta: at(10, 19),
            lhe: infix(at(11, 12), num(1), ExpressionInfixOpcode::Sub, num(2)),
            rhe: infix(at(13, 14), num(1), ExpressionInfixOpcode::ShiftL, num(2)),
        },
    ];
    let reports = find_field_element_arithmetic(&single_block(stmts));
    assert_eq!(reports.len(), 3);
    let places: Vec<(usize, usize)> =
        reports.iter().map(|r| (r.primary[0].location.start, r.primary[0].location.end)).collect();
    assert_eq!(places, vec![(1, 2), (11, 12), (13, 14)]);
    for report in &reports {
        assert_eq!(report.category, MessageCategory::Info);
        assert_eq!(report.code, ReportCode::FieldElementArithmetic);
        assert_eq!(
            report.message,
            "Field element arithmetic could overflow, which may produce unexpected results."
        );
        assert_eq!(report.primary.len(), 1);
        assert_eq!(report.primary[0].file_id, 0);
        assert_eq!(report.primary[0].message, "Field element arithmetic here.");
    }
}

#[test]
fn which_operators_may_overflow() {
    let overflowing = [
        ExpressionInfixOpcode::Mul,
        ExpressionInfixOpcode::Div,
        ExpressionInfixOpcode::Add,
        ExpressionInfixOpcode::Sub,
        ExpressionInfixOpcode::Pow,
        ExpressionInfixOpcode::ShiftL,
        ExpressionInfixOpcode::ShiftR,
    ];
    let safe = [
        ExpressionInfixOpcode::IntDiv,
        ExpressionInfixOpcode::Mod,
        ExpressionInfixOpcode::BitOr,
        ExpressionInfixOpcode::BitAnd,
        ExpressionInfixOpcode::BitXor,
        ExpressionInfixOpcode::LesserEq,
        ExpressionInfixOpcode::GreaterEq,
        ExpressionInfixOpcode::Lesser,
        ExpressionInfixOpcode::Greater,
        ExpressionInfixOpcode::Eq,
        ExpressionInfixOpcode::NotEq,
        ExpressionInfixOpcode::BoolOr,
        ExpressionInfixOpcode::BoolAnd,
    ];
    for op in overflowing {
        let stmt = Statement::Return { meta: at(0, 1), value: infix(at(0, 1), num(1), op, num(2)) };
        assert_eq!(count(vec![stmt]), 1, "{:?}", op);
    }
    for op in safe {
        let stmt = Statement::Return { meta: at(0, 1), value: infix(at(0, 1), num(1), op, num(2)) };
        assert_eq!(count(vec![stmt]), 0, "{:?}", op);
    }
}

#[test]
fn nothing_is_reported_below_a_report() {
    let inner = infix(at(2, 3), num(1), ExpressionInfixOpcode::Add, num(2));
    let outer = infix(at(1, 4), inner, ExpressionInfixOpcode::Mul, num(3));
    assert_eq!(count(vec![Statement::Return { meta: at(0, 5), value: outer }]), 1);
}

#[test]
fn operands_of_a_safe_operator_are_searched() {
    let lhe = infix(at(2, 3), num(1), ExpressionInfixOpcode::Add, num(2));
    let rhe = infix(at(4, 5), num(1), ExpressionInfixOpcode::Pow, num(2));
    let outer = infix(at(1, 6), lhe, ExpressionInfixOpcode::Eq, rhe);
    assert_eq!(count(vec![Statement::Return { meta: at(0, 7), value: outer }]), 2);
}

#[test]
fn every_kind_of_expression_is_searched() {
    let add = |n: usize| infix(at(n, n + 1), num(1), ExpressionInfixOpcode::Add, num(2));
    let prefix = Expression::PrefixOp {
        meta: at(0, 0),
        prefix_op: ExpressionPrefixOpcode::Sub,
        rhe: Box::new(add(1)),
    };
    let switch = Expression::SwitchOp {
        meta: at(0, 0),
        cond: Box::new(add(2)),
        if_true: Box::new(add(3)),
        if_false: Box::new(add(4)),
    };
    let call = Expression::Call { meta: at(0, 0), name: 9, args: vec![add(5), num(0), add(6)] };
    let array = Expression::InlineArray { meta: at(0, 0), values: vec![add(7)] };
    let access = Expression::Access {
        meta: at(0, 0),
        var: VariableName::new(0),
        access: vec![
            AccessType::ComponentAccess(4),
            AccessType::ArrayAccess(Box::new(add(8))),
            AccessType::ArrayAccess(Box::new(add(9))),
        ],
    };
    let update = Expression::Update {
        meta: at(0, 0),
        var: VariableName::new(0),
        access: vec![AccessType::ArrayAccess(Box::new(add(10)))],
        rhe: Box::new(add(11)),
    };
    let phi = Expression::Phi { meta: at(0, 0), args: vec![] };
    let stmts = vec![
        Statement::Return { meta: at(0, 0), value: prefix },
        Statement::IfThenElse { meta: at(0, 0), cond: switch, true_index: 0, false_index: None },
        Statement::Substitution { meta: at(0, 0), var: VariableName::new(0), rhe: call },
        Statement::Assert { meta: at(0, 0), arg: array },
        Statement::ConstraintEquality { meta: at(0, 0), lhe: access, rhe: update },
        Statement::Substitution { meta: at(0, 0), var: VariableName::new(1), rhe: phi },
        Statement::Return { meta: at(0, 0), value: var(0) },
    ];
    let reports = find_field_element_arithmetic(&single_block(stmts));
    let places: Vec<usize> = reports.iter().map(|r| r.primary[0].location.start).collect();
    assert_eq!(places, vec![1, 2, 3, 4, 5, 6, 7, 8, 9, 10, 11]);
}

#[test]
fn declarations_and_logs_are_searched() {
    let add = |n: usize| infix(at(n, n + 1), num(1), ExpressionInfixOpcode::Add, num(2));
    let stmts = vec![
        Statement::Declaration {
            meta: at(0, 0),
            names: vec![VariableName::new(0)],
            dimensions: vec![add(1), add(2)],
        },
        Statement::LogCall {
            meta: at(0, 0),
            args: vec![
                LogArgument::String("value".to_string()),
                LogArgument::Expr(Box::new(add(3))),
            ],
        },
    ];
    assert_eq!(count(stmts), 3);
}

#[test]
fn all_blocks_are_searched() {
    let add = |n: usize| infix(at(n, n + 1), num(1), ExpressionInfixOpcode::Add, num(2));
    let blocks = vec![
        BasicBlock::new(0, vec![Statement::Assert { meta: at(0, 0), arg: add(1) }], vec![], vec![1]),
        BasicBlock::new(1, vec![Statement::Assert { meta: at(0, 0), arg: add(2) }], vec![0], vec![]),
    ];
    let cfg = Cfg::new(Vec::new(), blocks).unwrap();
    assert_eq!(find_field_element_arithmetic(&cfg).len(), 2);
}

#[test]
fn graph_without_arithmetic_has_no_report() {
    assert_eq!(count(vec![Statement::Return { meta: at(0, 0), value: num(1) }]), 0);
    assert_eq!(count(Vec::new()), 0);
}

#[test]
fn report_without_file_has_no_label() {
    let warning = FieldElementArithmeticWarning {
        file_id: None,
        file_location: FileLocation { start: 3, end: 4 },
    };
    let report = warning.into_report();
    assert_eq!(report.category, MessageCategory::Info);
    assert_eq!(report.code, ReportCode::FieldElementArithmetic);
    assert!(report.primary.is_empty());
}

#[test]
fn report_with_file_has_one_label() {
    let report = build_report(&Meta::new(Some(5), FileLocation { start: 3, end: 4 }));
    assert_eq!(report.primary.len(), 1);
    assert_eq!(report.primary[0].file_id, 5);
    assert_eq!(report.primary[0].location, FileLocation { start: 3, end: 4 });
}
