use deuterium_orm::migration::order::{reversed, sorted_rows, sorted_versions};
use deuterium_orm::migration::plan::{
    first_undefined, pending_versions, position_of, rollback_targets,
};

#[test]
fn sorted_versions_sorts_ascending() {
    assert_eq!(sorted_versions(&vec![3, 1, 2]), vec![1, 2, 3]);
    assert_eq!(sorted_versions(&vec![1, 2, 3]), vec![1, 2, 3]);
    assert_eq!(sorted_versions(&vec![9, 8, 7, 6]), vec![6, 7, 8, 9]);
}

#[test]
fn sorted_versions_keeps_each_value_once() {
    assert_eq!(sorted_versions(&vec![2, 2, 1, 2, 1]), vec![1, 2]);
}

#[test]
fn sorted_versions_of_nothing_is_nothing() {
    assert_eq!(sorted_versions(&Vec::new()), Vec::<i64>::new());
}

#[test]
fn sorted_rows_sorts_largest_first() {
    assert_eq!(sorted_rows(&vec![1, 3, 2]), vec![3, 2, 1]);
    assert_eq!(sorted_rows(&vec![3, 2, 1]), vec![3, 2, 1]);
    assert_eq!(sorted_rows(&vec![-5, 0, 5]), vec![5, 0, -5]);
}

#[test]
fn sorted_rows_keeps_each_value_as_often_as_it_occurs() {
    assert_eq!(sorted_rows(&vec![2, 2, 1, 2, 1]), vec![2, 2, 2, 1, 1]);
    assert_eq!(sorted_rows(&vec![4]), vec![4]);
    assert_eq!(sorted_rows(&Vec::new()), Vec::<i64>::new());
}

#[test]
fn reversed_turns_the_order_round() {
    assert_eq!(reversed(&vec![1, 2, 3]), vec![3, 2, 1]);
    assert_eq!(reversed(&vec![5]), vec![5]);
    assert_eq!(reversed(&Vec::new()), Vec::<i64>::new());
}

#[test]
fn position_of_finds_the_first_index() {
    assert_eq!(position_of(&vec![30, 10, 20], 10), Some(1));
    assert_eq!(position_of(&vec![30, 10, 20], 30), Some(0));
    assert_eq!(position_of(&vec![30, 10, 20, 10], 10), Some(1));
    assert_eq!(position_of(&vec![30, 10, 20], 40), None);
    assert_eq!(position_of(&Vec::new(), 1), None);
}

#[test]
fn pending_versions_are_ascending_whatever_the_registry_order() {
    assert_eq!(pending_versions(&vec![3, 1, 2], &Vec::new()), vec![1, 2, 3]);
    assert_eq!(pending_versions(&vec![2, 3, 1], &Vec::new()), vec![1, 2, 3]);
    assert_eq!(pending_versions(&vec![1, 2, 3], &Vec::new()), vec![1, 2, 3]);
}

#[test]
fn pending_versions_leave_out_what_the_ledger_holds() {
    assert_eq!(pending_versions(&vec![4, 1, 3, 2], &vec![3, 1]), vec![2, 4]);
    assert_eq!(pending_versions(&vec![1, 2], &vec![2, 1]), Vec::<i64>::new());
}

#[test]
fn pending_versions_ignore_ledger_rows_without_a_record() {
    assert_eq!(pending_versions(&vec![5, 6], &vec![99, 5, -1]), vec![6]);
}

#[test]
fn rollback_targets_are_the_most_recent_first() {
    assert_eq!(rollback_targets(&vec![3, 2, 1], 2), vec![3, 2]);
    assert_eq!(rollback_targets(&vec![1, 3, 2], 1), vec![3]);
}

#[test]
fn rollback_targets_of_zero_steps_are_none() {
    assert_eq!(rollback_targets(&vec![3, 2, 1], 0), Vec::<i64>::new());
}

#[test]
fn rollback_targets_stop_at_the_size_of_the_ledger() {
    assert_eq!(rollback_targets(&vec![3, 2, 1], 3), vec![3, 2, 1]);
    assert_eq!(rollback_targets(&vec![3, 2, 1], 4), vec![3, 2, 1]);
    assert_eq!(rollback_targets(&vec![3, 2, 1], usize::MAX), vec![3, 2, 1]);
    assert_eq!(rollback_targets(&Vec::new(), 5), Vec::<i64>::new());
}

#[test]
fn rollback_targets_count_versions_not_rows() {
    assert_eq!(rollback_targets(&vec![3, 3, 2, 1], 2), vec![3, 2]);
    assert_eq!(rollback_targets(&vec![1, 3, 2, 3, 1], 5), vec![3, 2, 1]);
    assert_eq!(rollback_targets(&vec![4, 4, 4], 1), vec![4]);
}

#[test]
fn first_undefined_names_the_first_target_without_a_record() {
    assert_eq!(first_undefined(&vec![5, 4, 3], &vec![3, 5]), Some(4));
    assert_eq!(first_undefined(&vec![5, 4, 3], &vec![1]), Some(5));
    assert_eq!(first_undefined(&vec![5, 4, 3], &vec![3, 4, 5, 6]), None);
    assert_eq!(first_undefined(&Vec::new(), &Vec::new()), None);
}
