use circom_ssa::basic_block::BasicBlock;
use circom_ssa::cfg::{Cfg, Config};
use circom_ssa::environment::Environment;
use circom_ssa::errors::{FileLocation, SSAError};
use circom_ssa::ir::{
    AccessType, Expression, ExpressionInfixOpcode, Meta, PhiArgument, Statement, VariableName,
};
use circom_ssa::phi_placement::insert_phi_statements;
use circom_ssa::renaming::insert_ssa_variables;
use circom_ssa::traits::{SSABasicBlock, SSAEnvironment};

const X: usize = 0;
const Y: usize = 1;

fn at(start: usize) -> Meta {
    Meta::new(Some(0), FileLocation { start, end: start + 1 })
}

fn none() -> Meta {
    Meta::new(None, FileLocation { start: 0, end: 0 })
}

fn name(id: usize, version: Option<usize>) -> VariableName {
    VariableName { id, version }
}

fn read(id: usize, version: Option<usize>, start: usize) -> Expression {
    Expression::Variable { meta: at(start), name: name(id, version) }
}

fn assign(id: usize, version: Option<usize>, rhe: Expression) -> Statement {
    Statement::Substitution { meta: at(0), var: name(id, version), rhe }
}

fn num(value: u64) -> Expression {
    Expression::Number(at(0), value)
}

fn ret(value: Expression) -> Statement {
    Statement::Return { meta: at(0), value }
}

fn phi(id: usize, version: Option<usize>, args: Vec<(usize, usize)>) -> Statement {
    Statement::Substitution {
        meta: none(),
        var: name(id, version),
        rhe: Expression::Phi {
            meta: none(),
            args: args
                .into_iter()
                .map(|(predecessor, version)| PhiArgument { predecessor, version })
                .collect(),
        },
    }
}

fn block(index: usize, stmts: Vec<Statement>, successors: Vec<usize>) -> BasicBlock {
    BasicBlock::new(index, stmts, Vec::new(), successors)
}

fn diamond(join: Vec<Statement>) -> Vec<BasicBlock> {
    vec![
        block(0, vec![], vec![1, 2]),
        block(1, vec![assign(X, None, num(1))], vec![3]),
        block(2, vec![assign(X, None, num(2))], vec![3]),
        block(3, join, vec![]),
    ]
}

#[test]
fn end_to_end_diamond() {
    let cfg = Cfg::new(Vec::new(), diamond(vec![ret(read(X, None, 7))])).unwrap();
    let cfg = cfg.into_ssa().unwrap();
    let blocks = &cfg.basic_blocks;
    assert_eq!(blocks[0].statements(), &Vec::<Statement>::new());
    assert_eq!(blocks[1].statements(), &vec![assign(X, Some(1), num(1))]);
    assert_eq!(blocks[2].statements(), &vec![assign(X, Some(2), num(2))]);
    assert_eq!(
        blocks[3].statements(),
        &vec![phi(X, Some(3), vec![(1, 1), (2, 2)]), ret(read(X, Some(3), 7))]
    );
}

#[test]
fn read_takes_the_version_of_the_dominating_write() {
    // Block 0 writes x, the branches only read it: no phi statement, and
    // every read names the version of block 0.
    let blocks = vec![
        block(0, vec![assign(X, None, num(0))], vec![1, 2]),
        block(1, vec![ret(read(X, None, 1))], vec![3]),
        block(2, vec![ret(read(X, None, 2))], vec![3]),
        block(3, vec![ret(read(X, None, 3))], vec![]),
    ];
    let cfg = Cfg::new(Vec::new(), blocks).unwrap().into_ssa().unwrap();
    for index in 1..4 {
        assert_eq!(cfg.basic_blocks[index].statements(), &vec![ret(read(X, Some(1), index))]);
    }
}

#[test]
fn version_of_a_sibling_is_not_visible() {
    // Block 1 writes y, block 2 reads it: block 1 does not dominate block 2.
    let blocks = vec![
        block(0, vec![], vec![1, 2]),
        block(1, vec![assign(Y, None, num(1))], vec![3]),
        block(2, vec![ret(read(Y, None, 5))], vec![3]),
        block(3, vec![], vec![]),
    ];
    let r = Cfg::new(Vec::new(), blocks).unwrap().into_ssa();
    assert_eq!(
        r,
        Err(SSAError::UndefinedVariableError {
            name: Y,
            file_id: Some(0),
            location: FileLocation { start: 5, end: 6 },
        })
    );
}

#[test]
fn statements_of_a_block_see_earlier_writes() {
    let stmts = vec![
        assign(X, None, num(1)),
        assign(
            X,
            None,
            Expression::InfixOp {
                meta: at(2),
                lhe: Box::new(read(X, None, 3)),
                infix_op: ExpressionInfixOpcode::Add,
                rhe: Box::new(num(1)),
            },
        ),
        ret(read(X, None, 4)),
    ];
    let cfg = Cfg::new(Vec::new(), vec![block(0, stmts, vec![])]).unwrap().into_ssa().unwrap();
    assert_eq!(
        cfg.basic_blocks[0].statements(),
        &vec![
            assign(X, Some(1), num(1)),
            assign(
                X,
                Some(2),
                Expression::InfixOp {
                    meta: at(2),
                    lhe: Box::new(read(X, Some(1), 3)),
                    infix_op: ExpressionInfixOpcode::Add,
                    rhe: Box::new(num(1)),
                },
            ),
            ret(read(X, Some(2), 4)),
        ]
    );
}

#[test]
fn parameters_have_their_first_version() {
    let stmts = vec![assign(Y, None, read(X, None, 1)), assign(X, None, read(Y, None, 2))];
    let cfg = Cfg::new(vec![X], vec![block(0, stmts, vec![])]).unwrap().into_ssa().unwrap();
    assert_eq!(cfg.parameters, vec![X]);
    assert_eq!(
        cfg.basic_blocks[0].statements(),
        &vec![assign(Y, Some(1), read(X, Some(1), 1)), assign(X, Some(2), read(Y, Some(1), 2))]
    );
}

#[test]
fn loop_back_edge_patches_the_header() {
    // 0 -> 1 -> 2 -> {1, 3}: the header 1 is a successor of 2 but not its
    // child in the dominator tree.
    let blocks = vec![
        block(0, vec![assign(X, None, num(0))], vec![1]),
        block(1, vec![], vec![2]),
        block(2, vec![assign(X, None, read(X, None, 1))], vec![1, 3]),
        block(3, vec![ret(read(X, None, 2))], vec![]),
    ];
    let cfg = Cfg::new(Vec::new(), blocks).unwrap().into_ssa().unwrap();
    assert_eq!(cfg.basic_blocks[0].statements(), &vec![assign(X, Some(1), num(0))]);
    assert_eq!(cfg.basic_blocks[1].statements(), &vec![phi(X, Some(2), vec![(0, 1), (2, 3)])]);
    assert_eq!(
        cfg.basic_blocks[2].statements(),
        &vec![assign(X, Some(3), read(X, Some(2), 1))]
    );
    assert_eq!(cfg.basic_blocks[3].statements(), &vec![ret(read(X, Some(3), 2))]);
}

#[test]
fn array_update_reads_the_old_version() {
    let update = Expression::Update {
        meta: at(1),
        var: name(X, None),
        access: vec![AccessType::ArrayAccess(Box::new(read(Y, None, 2)))],
        rhe: Box::new(num(5)),
    };
    let stmts = vec![assign(X, None, update)];
    let cfg = Cfg::new(vec![X, Y], vec![block(0, stmts, vec![])]).unwrap().into_ssa().unwrap();
    let expected = Expression::Update {
        meta: at(1),
        var: name(X, Some(1)),
        access: vec![AccessType::ArrayAccess(Box::new(read(Y, Some(1), 2)))],
        rhe: Box::new(num(5)),
    };
    assert_eq!(cfg.basic_blocks[0].statements(), &vec![assign(X, Some(2), expected)]);
}

#[test]
fn unreachable_block_is_left_alone() {
    let blocks = vec![
        block(0, vec![assign(X, None, num(0))], vec![1]),
        block(1, vec![ret(read(X, None, 1))], vec![]),
        block(2, vec![ret(read(Y, None, 2))], vec![1]),
    ];
    let cfg = Cfg::new(Vec::new(), blocks).unwrap().into_ssa().unwrap();
    assert_eq!(cfg.basic_blocks[1].statements(), &vec![ret(read(X, Some(1), 1))]);
    assert_eq!(cfg.basic_blocks[2].statements(), &vec![ret(read(Y, None, 2))]);
}

#[test]
fn scopes_are_closed_after_success() {
    let mut blocks = diamond(vec![ret(read(X, None, 7))]);
    let tree = Cfg::new(Vec::new(), diamond(vec![])).unwrap().dominator_tree();
    let mut env = Environment::new();
    env.add_variable_scope();
    env.add_variable_scope();
    insert_phi_statements::<Config>(&mut blocks, &tree, &mut env);
    assert_eq!(env.scope_depth(), 2);
    assert_eq!(insert_ssa_variables::<Config>(&mut blocks, &tree, &mut env), Ok(()));
    assert_eq!(env.scope_depth(), 2);
}

#[test]
fn scopes_are_closed_after_failure() {
    // 0 -> 1 -> 2 -> 3: the innermost block reads a variable without a
    // version, three scopes deep.
    let mut blocks = vec![
        block(0, vec![], vec![1]),
        block(1, vec![], vec![2]),
        block(2, vec![], vec![3]),
        block(3, vec![ret(read(Y, None, 9))], vec![]),
    ];
    let tree = Cfg::new(
        Vec::new(),
        vec![
            block(0, vec![], vec![1]),
            block(1, vec![], vec![2]),
            block(2, vec![], vec![3]),
            block(3, vec![], vec![]),
        ],
    )
    .unwrap()
    .dominator_tree();
    let mut env = Environment::new();
    env.add_variable_scope();
    let r = insert_ssa_variables::<Config>(&mut blocks, &tree, &mut env);
    assert_eq!(
        r,
        Err(SSAError::UndefinedVariableError {
            name: Y,
            file_id: Some(0),
            location: FileLocation { start: 9, end: 10 },
        })
    );
    assert_eq!(env.scope_depth(), 1);
}

#[test]
fn failure_stops_before_the_next_sibling() {
    // Block 1 fails; block 2, its sibling, keeps its statement as it was.
    let mut blocks = vec![
        block(0, vec![assign(X, None, num(0))], vec![1, 2]),
        block(1, vec![ret(read(Y, None, 4))], vec![]),
        block(2, vec![ret(read(X, None, 5))], vec![]),
    ];
    let tree = Cfg::new(
        Vec::new(),
        vec![block(0, vec![], vec![1, 2]), block(1, vec![], vec![]), block(2, vec![], vec![])],
    )
    .unwrap()
    .dominator_tree();
    let mut env = Environment::new();
    let r = insert_ssa_variables::<Config>(&mut blocks, &tree, &mut env);
    assert!(matches!(r, Err(SSAError::UndefinedVariableError { name: Y, .. })));
    assert_eq!(blocks[0].statements(), &vec![assign(X, Some(1), num(0))]);
    assert_eq!(blocks[1].statements(), &vec![ret(read(Y, None, 4))]);
    assert_eq!(blocks[2].statements(), &vec![ret(read(X, None, 5))]);
    assert_eq!(env.scope_depth(), 0);
}

#[test]
fn first_undefined_read_is_reported() {
    let stmts = vec![ret(Expression::InfixOp {
        meta: at(0),
        lhe: Box::new(read(X, None, 3)),
        infix_op: ExpressionInfixOpcode::Add,
        rhe: Box::new(read(Y, None, 5)),
    })];
    let r = Cfg::new(vec![X], vec![block(0, stmts, vec![])]).unwrap().into_ssa();
    assert_eq!(
        r,
        Err(SSAError::UndefinedVariableError {
            name: Y,
            file_id: Some(0),
            location: FileLocation { start: 5, end: 6 },
        })
    );
}

#[test]
fn versions_running_out_is_an_error() {
    let mut b = block(0, vec![assign(X, None, num(0))], vec![]);
    let mut env = Environment::new();
    env.counts.push((X, usize::MAX));
    assert_eq!(b.insert_ssa_variables(&mut env), Err(SSAError::TooManyVersionsError { name: X }));
    assert_eq!(b.statements(), &vec![assign(X, None, num(0))]);
}

#[test]
fn phi_statement_takes_one_value_from_each_predecessor() {
    let mut b = block(3, vec![phi(X, None, vec![]), phi(Y, None, vec![]), ret(read(X, None, 1))], vec![]);
    let mut env = Environment::new();
    assert_eq!(env.get_next_version(X), Some(1));
    env.enter_block(1);
    b.update_phi_statements(&env);
    b.update_phi_statements(&env);
    assert_eq!(env.get_next_version(X), Some(2));
    assert_eq!(env.get_next_version(Y), Some(1));
    env.enter_block(2);
    b.update_phi_statements(&env);
    assert_eq!(
        b.statements(),
        &vec![
            phi(X, None, vec![(1, 1), (2, 2)]),
            phi(Y, None, vec![(2, 1)]),
            ret(read(X, None, 1)),
        ]
    );
}

#[test]
fn graph_needs_an_entry_block_and_successors_in_range() {
    assert!(Cfg::new(Vec::new(), Vec::new()).is_none());
    assert!(Cfg::new(Vec::new(), vec![block(0, vec![], vec![1])]).is_none());
    assert!(Cfg::new(Vec::new(), vec![block(0, vec![], vec![0])]).is_some());
    assert!(Cfg::new(Vec::new(), vec![block(1, vec![], vec![])]).is_none());
    assert!(Cfg::new(Vec::new(), vec![block(0, vec![], vec![1]), block(0, vec![], vec![])]).is_none());
    let cfg = Cfg::new(Vec::new(), diamond(vec![])).unwrap();
    assert_eq!(cfg.successor_lists(), vec![vec![1, 2], vec![3], vec![3], vec![]]);
}

fn targets(blocks: &[BasicBlock]) -> Vec<(usize, usize)> {
    let mut found = Vec::new();
    for block in blocks {
        for stmt in block.statements() {
            if let Statement::Substitution { var, .. } = stmt {
                found.push((var.id, var.version.unwrap()));
            }
        }
    }
    found
}

#[test]
fn every_version_is_assigned_once() {
    // 0 -> {1, 2}; 1 -> {3, 4}; 3 -> 5; 4 -> 5; 5 -> 6; 2 -> 6; 6 -> 1.
    let blocks = vec![
        block(0, vec![assign(X, None, num(0)), assign(Y, None, num(0))], vec![1, 2]),
        block(1, vec![assign(X, None, read(Y, None, 1))], vec![3, 4]),
        block(2, vec![assign(Y, None, read(X, None, 2))], vec![6]),
        block(3, vec![assign(X, None, read(X, None, 3)), assign(X, None, read(X, None, 4))], vec![5]),
        block(4, vec![assign(Y, None, read(X, None, 5))], vec![5]),
        block(5, vec![ret(read(X, None, 6))], vec![6]),
        block(6, vec![ret(read(Y, None, 7))], vec![1]),
    ];
    let cfg = Cfg::new(vec![X], blocks).unwrap().into_ssa().unwrap();
    let mut found = targets(&cfg.basic_blocks);
    let count = found.len();
    found.sort();
    found.dedup();
    assert_eq!(found.len(), count);
    // No assigned version is the version of the parameter.
    assert!(!found.contains(&(X, 1)));
}

#[test]
fn phi_statements_have_one_argument_for_each_edge() {
    // The graph of `every_version_is_assigned_once`: the blocks 1, 5 and 6
    // are where paths join.
    let blocks = vec![
        block(0, vec![assign(X, None, num(0)), assign(Y, None, num(0))], vec![1, 2]),
        block(1, vec![assign(X, None, read(Y, None, 1))], vec![3, 4]),
        block(2, vec![assign(Y, None, read(X, None, 2))], vec![6]),
        block(3, vec![assign(X, None, read(X, None, 3))], vec![5]),
        block(4, vec![assign(Y, None, read(X, None, 5))], vec![5]),
        block(5, vec![ret(read(X, None, 6))], vec![6]),
        block(6, vec![ret(read(Y, None, 7))], vec![1]),
    ];
    let predecessors: Vec<Vec<usize>> =
        vec![vec![], vec![0, 6], vec![0], vec![1], vec![1], vec![3, 4], vec![2, 5]];
    let cfg = Cfg::new(Vec::new(), blocks).unwrap().into_ssa().unwrap();
    let mut phis = 0;
    for (j, b) in cfg.basic_blocks.iter().enumerate() {
        for stmt in b.statements() {
            if let Statement::Substitution { rhe: Expression::Phi { args, .. }, .. } = stmt {
                let mut from: Vec<usize> = args.iter().map(|a| a.predecessor).collect();
                from.sort();
                assert_eq!(from, predecessors[j]);
                phis += 1;
            }
        }
    }
    // x and y in each of the blocks 1, 5 and 6.
    assert_eq!(phis, 6);
}
