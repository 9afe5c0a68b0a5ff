use circom_ssa::environment::Environment;
use circom_ssa::traits::SSAEnvironment;

#[test]
fn new_environment_shows_nothing() {
    let env = Environment::new();
    assert_eq!(env.scope_depth(), 0);
    assert_eq!(env.get_current_version(0), None);
    assert_eq!(env.version_count(0), 0);
    assert_eq!(env.current_block(), 0);
}

#[test]
fn versions_count_up_from_one_for_each_variable() {
    let mut env = Environment::new();
    assert_eq!(env.get_next_version(7), Some(1));
    assert_eq!(env.get_next_version(7), Some(2));
    assert_eq!(env.get_next_version(3), Some(1));
    assert_eq!(env.get_current_version(7), Some(2));
    assert_eq!(env.get_current_version(3), Some(1));
    assert_eq!(env.version_count(7), 2);
    assert_eq!(env.get_current_version(4), None);
}

#[test]
fn removed_scope_takes_its_versions_but_not_the_count() {
    let mut env = Environment::new();
    assert_eq!(env.get_next_version(0), Some(1));
    env.add_variable_scope();
    assert_eq!(env.scope_depth(), 1);
    assert_eq!(env.get_current_version(0), Some(1));
    assert_eq!(env.get_next_version(0), Some(2));
    assert_eq!(env.get_next_version(1), Some(1));
    assert_eq!(env.get_current_version(0), Some(2));
    env.remove_variable_scope();
    assert_eq!(env.scope_depth(), 0);
    assert_eq!(env.get_current_version(0), Some(1));
    assert_eq!(env.get_current_version(1), None);
    assert_eq!(env.get_next_version(0), Some(3));
    assert_eq!(env.get_next_version(1), Some(2));
}

#[test]
fn outermost_scope_stays() {
    let mut env = Environment::new();
    assert_eq!(env.get_next_version(0), Some(1));
    env.remove_variable_scope();
    assert_eq!(env.scope_depth(), 0);
    assert_eq!(env.get_current_version(0), Some(1));
}

#[test]
fn versions_run_out_at_the_largest_count() {
    let mut env = Environment::new();
    env.counts.push((5, usize::MAX));
    assert_eq!(env.version_count(5), usize::MAX);
    assert_eq!(env.get_next_version(5), None);
    assert_eq!(env.get_current_version(5), None);
    assert_eq!(env.get_next_version(6), Some(1));
}

#[test]
fn entering_a_block_changes_only_the_block() {
    let mut env = Environment::new();
    assert_eq!(env.get_next_version(2), Some(1));
    env.enter_block(9);
    assert_eq!(env.current_block(), 9);
    assert_eq!(env.get_current_version(2), Some(1));
    assert_eq!(env.scope_depth(), 0);
}
