use deuterium_orm::adapter::postgres::PostgresAdapter;

#[test]
fn prepare_params_puts_explicit_parameters_first() {
    let params = PostgresAdapter::prepare_params(&[1, 2], &[3, 4, 5]);
    assert_eq!(params, vec![1, 2, 3, 4, 5]);
}

#[test]
fn prepare_params_of_one_empty_list_is_the_other() {
    assert_eq!(PostgresAdapter::prepare_params(&[], &[7, 8]), vec![7, 8]);
    assert_eq!(PostgresAdapter::prepare_params(&[7, 8], &[]), vec![7, 8]);
    assert_eq!(PostgresAdapter::prepare_params::<u8>(&[], &[]), Vec::<u8>::new());
}

#[test]
fn prepare_params_keeps_references_as_they_are() {
    let (a, b, c) = ("a".to_string(), "b".to_string(), "c".to_string());
    let params: Vec<&String> = PostgresAdapter::prepare_params(&[&a], &[&b, &c]);
    assert_eq!(params, vec![&a, &b, &c]);
}
