use circom_ssa::basic_block::BasicBlock;
use circom_ssa::cfg::{Cfg, Config};
use circom_ssa::environment::Environment;
use circom_ssa::errors::FileLocation;
use circom_ssa::ir::{Expression, Meta, Statement, VariableName};
use circom_ssa::phi_placement::insert_phi_statements;
use circom_ssa::traits::SSABasicBlock;

fn meta() -> Meta {
    Meta::new(Some(0), FileLocation { start: 0, end: 0 })
}

fn assign(var: usize, value: u64) -> Statement {
    Statement::Substitution {
        meta: meta(),
        var: VariableName::new(var),
        rhe: Expression::Number(meta(), value),
    }
}

fn ret(var: usize) -> Statement {
    Statement::Return {
        meta: meta(),
        value: Expression::Variable { meta: meta(), name: VariableName::new(var) },
    }
}

fn block(index: usize, stmts: Vec<Statement>, successors: Vec<usize>) -> BasicBlock {
    BasicBlock::new(index, stmts, Vec::new(), successors)
}

fn place(blocks: Vec<BasicBlock>) -> Vec<BasicBlock> {
    let cfg = Cfg::new(Vec::new(), blocks).unwrap();
    let tree = cfg.dominator_tree();
    let mut blocks = cfg.basic_blocks;
    let mut env = Environment::new();
    insert_phi_statements::<Config>(&mut blocks, &tree, &mut env);
    assert_eq!(env, Environment::new());
    blocks
}

fn phis(block: &BasicBlock) -> Vec<usize> {
    let mut vars = Vec::new();
    for stmt in block.statements() {
        if let Statement::Substitution { var, rhe: Expression::Phi { .. }, .. } = stmt {
            vars.push(var.id);
        }
    }
    vars.sort();
    vars
}

const X: usize = 0;
const Y: usize = 1;

#[test]
fn no_writes_no_phis() {
    let blocks = place(vec![
        block(0, vec![], vec![1, 2]),
        block(1, vec![ret(X)], vec![3]),
        block(2, vec![], vec![3]),
        block(3, vec![ret(X)], vec![]),
    ]);
    for (index, block) in blocks.iter().enumerate() {
        assert_eq!(phis(block), Vec::<usize>::new());
        assert_eq!(block.index(), index);
    }
    assert_eq!(blocks[1].len(), 1);
    assert_eq!(blocks[3].len(), 1);
}

#[test]
fn diamond_join_gets_one_phi() {
    let blocks = place(vec![
        block(0, vec![], vec![1, 2]),
        block(1, vec![assign(X, 1)], vec![3]),
        block(2, vec![assign(X, 2)], vec![3]),
        block(3, vec![ret(X)], vec![]),
    ]);
    assert_eq!(phis(&blocks[0]), Vec::<usize>::new());
    assert_eq!(phis(&blocks[1]), Vec::<usize>::new());
    assert_eq!(phis(&blocks[2]), Vec::<usize>::new());
    assert_eq!(phis(&blocks[3]), vec![X]);
    assert_eq!(blocks[3].len(), 2);
    assert_eq!(
        blocks[3].statements()[0],
        Statement::Substitution {
            meta: Meta::new(None, FileLocation { start: 0, end: 0 }),
            var: VariableName::new(X),
            rhe: Expression::Phi {
                meta: Meta::new(None, FileLocation { start: 0, end: 0 }),
                args: vec![],
            },
        }
    );
    assert_eq!(blocks[3].statements()[1], ret(X));
    assert_eq!(blocks[1].statements(), &vec![assign(X, 1)]);
}

#[test]
fn write_on_one_side_still_needs_a_phi() {
    let blocks = place(vec![
        block(0, vec![assign(X, 0)], vec![1, 2]),
        block(1, vec![assign(X, 1)], vec![3]),
        block(2, vec![], vec![3]),
        block(3, vec![ret(X)], vec![]),
    ]);
    assert_eq!(phis(&blocks[3]), vec![X]);
    assert_eq!(phis(&blocks[1]), Vec::<usize>::new());
    assert_eq!(phis(&blocks[2]), Vec::<usize>::new());
}

#[test]
fn phi_statements_spread_through_frontiers() {
    // 0 -> {1, 2}; 1 -> {3, 4}; 3 -> 5; 4 -> 5; 5 -> 6; 2 -> 6.
    // A write in 3 needs a phi statement in 5, which in turn needs one in 6.
    let blocks = place(vec![
        block(0, vec![], vec![1, 2]),
        block(1, vec![], vec![3, 4]),
        block(2, vec![], vec![6]),
        block(3, vec![assign(X, 1)], vec![5]),
        block(4, vec![], vec![5]),
        block(5, vec![], vec![6]),
        block(6, vec![ret(X)], vec![]),
    ]);
    let placed: Vec<Vec<usize>> = blocks.iter().map(phis).collect();
    assert_eq!(placed, vec![vec![], vec![], vec![], vec![], vec![], vec![X], vec![X]]);
}

#[test]
fn each_variable_is_placed_on_its_own() {
    let blocks = place(vec![
        block(0, vec![], vec![1, 2]),
        block(1, vec![assign(X, 1), assign(Y, 1)], vec![3]),
        block(2, vec![assign(Y, 2)], vec![3]),
        block(3, vec![ret(X)], vec![]),
    ]);
    assert_eq!(phis(&blocks[3]), vec![X, Y]);
    assert_eq!(blocks[3].len(), 3);
}

#[test]
fn loop_header_gets_a_phi_for_a_write_in_the_loop() {
    // 0 -> 1 -> 2 -> {1, 3}
    let blocks = place(vec![
        block(0, vec![assign(X, 0)], vec![1]),
        block(1, vec![], vec![2]),
        block(2, vec![assign(X, 1)], vec![1, 3]),
        block(3, vec![ret(X)], vec![]),
    ]);
    let placed: Vec<Vec<usize>> = blocks.iter().map(phis).collect();
    assert_eq!(placed, vec![vec![], vec![X], vec![], vec![]]);
}

#[test]
fn placement_does_not_depend_on_the_numbering_of_the_branches() {
    // The diamond of `phi_statements_spread_through_frontiers` with the
    // blocks numbered the other way round below the entry block: the work
    // list takes the blocks up in another order.
    let blocks = place(vec![
        block(0, vec![], vec![6, 5]),
        block(1, vec![], vec![2]),
        block(2, vec![ret(X)], vec![]),
        block(3, vec![], vec![1]),
        block(4, vec![assign(X, 1)], vec![1]),
        block(5, vec![], vec![2]),
        block(6, vec![], vec![4, 3]),
    ]);
    let placed: Vec<Vec<usize>> = blocks.iter().map(phis).collect();
    assert_eq!(placed, vec![vec![], vec![X], vec![X], vec![], vec![], vec![], vec![]]);
}

#[test]
fn placing_again_changes_nothing() {
    let once = place(vec![
        block(0, vec![], vec![1, 2]),
        block(1, vec![assign(X, 1)], vec![3]),
        block(2, vec![assign(X, 2)], vec![3]),
        block(3, vec![ret(X)], vec![]),
    ]);
    let cfg = Cfg::new(Vec::new(), once).unwrap();
    let tree = cfg.dominator_tree();
    let mut twice = cfg.basic_blocks;
    let lengths: Vec<usize> = twice.iter().map(|b| b.len()).collect();
    let mut env = Environment::new();
    insert_phi_statements::<Config>(&mut twice, &tree, &mut env);
    assert_eq!(twice.iter().map(|b| b.len()).collect::<Vec<usize>>(), lengths);
}

#[test]
fn unreachable_writer_places_nothing() {
    let blocks = place(vec![
        block(0, vec![], vec![1]),
        block(1, vec![ret(X)], vec![]),
        block(2, vec![assign(X, 1)], vec![1]),
    ]);
    let placed: Vec<Vec<usize>> = blocks.iter().map(phis).collect();
    assert_eq!(placed, vec![vec![], vec![], vec![]]);
}

#[test]
fn block_capabilities() {
    let mut b = block(0, vec![assign(X, 1), ret(Y), assign(Y, 2)], vec![4, 2]);
    let mut written = b.variables_written();
    written.sort();
    assert_eq!(written, vec![X, Y]);
    assert_eq!(b.successors(), vec![4, 2]);
    assert!(!b.has_phi_statement(&X));
    let env = Environment::new();
    b.insert_phi_statement(&X, &env);
    assert!(b.has_phi_statement(&X));
    assert!(!b.has_phi_statement(&Y));
    assert_eq!(b.len(), 4);
    b.insert_phi_statement(&X, &env);
    assert_eq!(b.len(), 4);
}
