use deuterium_orm::migration::ledger::{
    delete_version, ensure_schema_migrations, get_versions_as_hash, get_versions_as_vec,
    insert_version, select_versions, Statement,
};

#[test]
fn ensure_schema_statement_creates_the_relation_if_absent() {
    let statement = ensure_schema_migrations();
    assert_eq!(statement, Statement::EnsureSchema);
    assert_eq!(
        statement.sql(),
        "CREATE TABLE IF NOT EXISTS schema_migrations (version BIGINT NOT NULL);"
    );
    assert_eq!(statement.params(), Vec::<i64>::new());
    assert!(!statement.returns_rows());
}

#[test]
fn insert_statement_binds_the_version() {
    let statement = insert_version(&150101120000);
    assert_eq!(statement, Statement::Insert(150101120000));
    assert_eq!(statement.sql(), "INSERT INTO schema_migrations VALUES ($1);");
    assert_eq!(statement.params(), vec![150101120000]);
    assert!(!statement.returns_rows());
}

#[test]
fn delete_statement_binds_the_version() {
    let statement = delete_version(&7);
    assert_eq!(statement, Statement::Delete(7));
    assert_eq!(
        statement.sql(),
        "DELETE FROM schema_migrations WHERE version = $1;"
    );
    assert_eq!(statement.params(), vec![7]);
    assert!(!statement.returns_rows());
}

#[test]
fn select_statement_reads_versions_largest_first() {
    let statement = select_versions();
    assert_eq!(statement, Statement::SelectVersions);
    assert_eq!(
        statement.sql(),
        "SELECT version FROM schema_migrations ORDER BY version desc;"
    );
    assert_eq!(statement.params(), Vec::<i64>::new());
    assert!(statement.returns_rows());
}

#[test]
fn statements_differ_by_kind_and_version() {
    assert_ne!(insert_version(&1), delete_version(&1));
    assert_ne!(insert_version(&1), insert_version(&2));
    assert_ne!(ensure_schema_migrations(), select_versions());
}

#[test]
fn versions_as_hash_holds_every_row_once() {
    let applied = get_versions_as_hash(&vec![3, 1, 2, 3]);
    assert_eq!(applied.len(), 3);
    assert_eq!(applied.get(&1), Some(&true));
    assert_eq!(applied.get(&2), Some(&true));
    assert_eq!(applied.get(&3), Some(&true));
    assert!(!applied.contains_key(&4));
}

#[test]
fn versions_as_hash_of_empty_ledger_is_empty() {
    let applied = get_versions_as_hash(&Vec::new());
    assert!(applied.is_empty());
}

#[test]
fn versions_as_vec_is_descending() {
    assert_eq!(get_versions_as_vec(&vec![3, 2, 1]), vec![3, 2, 1]);
    assert_eq!(get_versions_as_vec(&vec![1, 3, 2]), vec![3, 2, 1]);
}

#[test]
fn versions_as_vec_keeps_repeated_rows() {
    assert_eq!(
        get_versions_as_vec(&vec![2, 5, 2, 5, 1]),
        vec![5, 5, 2, 2, 1]
    );
    assert_eq!(get_versions_as_vec(&vec![3, 3, 3]), vec![3, 3, 3]);
}

#[test]
fn versions_as_vec_has_one_element_for_each_row() {
    let rows = vec![7, -1, 7, 0, 7, i64::MAX, -1];
    let ordered = get_versions_as_vec(&rows);
    assert_eq!(ordered.len(), rows.len());
    assert_eq!(ordered, vec![i64::MAX, 7, 7, 7, 0, -1, -1]);
}

#[test]
fn versions_as_vec_orders_negative_rows_last() {
    assert_eq!(
        get_versions_as_vec(&vec![-4, 9, 0, i64::MIN, i64::MAX]),
        vec![i64::MAX, 9, 0, -4, i64::MIN]
    );
}

#[test]
fn versions_as_vec_of_empty_ledger_is_empty() {
    assert_eq!(get_versions_as_vec(&Vec::new()), Vec::<i64>::new());
}
