use deuterium_orm::migration::{
    advance, notice, rollback, run, Action, Direction, Migration, MigrationError, Migrations,
    RawMigration, Reply, Statement, Step,
};

/// A database that keeps its ledger in memory and notes what is done to it.
struct Database {
    ledger: Vec<i64>,
    calls: Vec<String>,
    notices: Vec<String>,
    statements: Vec<Statement>,
    failing_action: Option<u64>,
    failing_write: Option<i64>,
    schema_fails: bool,
    read_fails: bool,
}

impl Database {
    fn with_ledger(ledger: &[i64]) -> Database {
        Database {
            ledger: ledger.to_vec(),
            calls: Vec::new(),
            notices: Vec::new(),
            statements: Vec::new(),
            failing_action: None,
            failing_write: None,
            schema_fails: false,
            read_fails: false,
        }
    }

    fn execute(&mut self, statement: Statement) -> Reply {
        self.statements.push(statement);
        match statement {
            Statement::EnsureSchema => {
                if self.schema_fails {
                    Reply::Failed
                } else {
                    Reply::Done
                }
            }
            Statement::SelectVersions => {
                if self.read_fails {
                    Reply::Failed
                } else {
                    let mut rows = self.ledger.clone();
                    rows.sort();
                    rows.reverse();
                    Reply::Rows(rows)
                }
            }
            Statement::Insert(version) => {
                if self.failing_write == Some(version) {
                    Reply::Failed
                } else {
                    self.ledger.push(version);
                    Reply::Done
                }
            }
            Statement::Delete(version) => {
                if self.failing_write == Some(version) {
                    Reply::Failed
                } else {
                    self.ledger.retain(|row| *row != version);
                    Reply::Done
                }
            }
        }
    }

    fn sorted_ledger(&self) -> Vec<i64> {
        let mut rows = self.ledger.clone();
        rows.sort();
        rows
    }
}

struct Probe {
    version: u64,
}

impl RawMigration<Database> for Probe {
    fn up(&self, cn: &mut Database) -> Result<(), String> {
        cn.calls.push(format!("apply {}", self.version));
        if cn.failing_action == Some(self.version) {
            Err(format!("apply {} failed", self.version))
        } else {
            Ok(())
        }
    }

    fn down(&self, cn: &mut Database) -> Result<(), String> {
        cn.calls.push(format!("revert {}", self.version));
        if cn.failing_action == Some(self.version) {
            Err(format!("revert {} failed", self.version))
        } else {
            Ok(())
        }
    }
}

fn registry(records: &[(u64, &str)]) -> Migrations<Database> {
    let mut migrations: Migrations<Database> = Vec::new();
    for (version, name) in records {
        migrations.push(Migration::new(
            *version,
            name,
            Box::new(Probe { version: *version }),
        ));
    }
    migrations
}

fn reply_of(outcome: Result<(), String>) -> Reply {
    match outcome {
        Ok(()) => Reply::Done,
        Err(_) => Reply::Failed,
    }
}

fn drive(
    first: Step,
    migrations: &Migrations<Database>,
    db: &mut Database,
) -> Result<(), MigrationError> {
    let mut step = first;
    loop {
        match step {
            Step::Finished(outcome) => return outcome,
            Step::Next(progress, action) => {
                let reply = match action {
                    Action::Execute(statement) => db.execute(statement),
                    Action::Apply(index) => reply_of(migrations[index].raw().up(db)),
                    Action::Revert(index) => reply_of(migrations[index].raw().down(db)),
                    Action::Completed(index) => {
                        db.notices.push(notice(Direction::Up, &migrations[index]));
                        Reply::Done
                    }
                    Action::Reverted(index) => {
                        db.notices.push(notice(Direction::Down, &migrations[index]));
                        Reply::Done
                    }
                };
                step = advance(progress, reply);
            }
        }
    }
}

fn run_all(migrations: &Migrations<Database>, db: &mut Database) -> Result<(), MigrationError> {
    drive(run(migrations), migrations, db)
}

fn roll_back(
    steps: usize,
    migrations: &Migrations<Database>,
    db: &mut Database,
) -> Result<(), MigrationError> {
    drive(rollback(steps, migrations), migrations, db)
}

#[test]
fn run_applies_pending_migrations_and_records_them() {
    let migrations = registry(&[(1, "init"), (2, "add_index")]);
    let mut db = Database::with_ledger(&[]);
    assert_eq!(run_all(&migrations, &mut db), Ok(()));
    assert_eq!(db.calls, vec!["apply 1", "apply 2"]);
    assert_eq!(db.sorted_ledger(), vec![1, 2]);
    assert_eq!(
        db.notices,
        vec![
            "Migration completed: 1 init",
            "Migration completed: 2 add_index"
        ]
    );
}

#[test]
fn rollback_of_one_step_reverts_the_latest_only() {
    let migrations = registry(&[(1, "init"), (2, "add_index")]);
    let mut db = Database::with_ledger(&[]);
    assert_eq!(run_all(&migrations, &mut db), Ok(()));
    db.calls.clear();
    db.notices.clear();
    assert_eq!(roll_back(1, &migrations, &mut db), Ok(()));
    assert_eq!(db.calls, vec!["revert 2"]);
    assert_eq!(db.sorted_ledger(), vec![1]);
    assert_eq!(db.notices, vec!["Migration reverted: 2 add_index"]);
}

#[test]
fn run_asks_for_each_statement_in_turn() {
    let migrations = registry(&[(2, "b"), (1, "a")]);
    let mut db = Database::with_ledger(&[]);
    assert_eq!(run_all(&migrations, &mut db), Ok(()));
    assert_eq!(
        db.statements,
        vec![
            Statement::EnsureSchema,
            Statement::SelectVersions,
            Statement::Insert(1),
            Statement::Insert(2),
        ]
    );
}

#[test]
fn run_twice_applies_nothing_the_second_time() {
    let migrations = registry(&[(2, "b"), (1, "a"), (3, "c")]);
    let mut db = Database::with_ledger(&[]);
    assert_eq!(run_all(&migrations, &mut db), Ok(()));
    let ledger = db.sorted_ledger();
    db.calls.clear();
    db.notices.clear();
    db.statements.clear();
    assert_eq!(run_all(&migrations, &mut db), Ok(()));
    assert_eq!(db.calls, Vec::<String>::new());
    assert_eq!(db.notices, Vec::<String>::new());
    assert_eq!(db.sorted_ledger(), ledger);
    assert_eq!(
        db.statements,
        vec![Statement::EnsureSchema, Statement::SelectVersions]
    );
}

#[test]
fn run_applies_in_ascending_order_of_version() {
    let migrations = registry(&[(3, "c"), (1, "a"), (2, "b")]);
    let mut db = Database::with_ledger(&[]);
    assert_eq!(run_all(&migrations, &mut db), Ok(()));
    assert_eq!(db.calls, vec!["apply 1", "apply 2", "apply 3"]);
    assert_eq!(db.sorted_ledger(), vec![1, 2, 3]);
}

#[test]
fn run_names_records_by_their_place_in_the_registry() {
    let migrations = registry(&[(3, "c"), (1, "a"), (2, "b")]);
    let mut db = Database::with_ledger(&[]);
    assert_eq!(run_all(&migrations, &mut db), Ok(()));
    assert_eq!(
        db.notices,
        vec![
            "Migration completed: 1 a",
            "Migration completed: 2 b",
            "Migration completed: 3 c"
        ]
    );
}

#[test]
fn rollback_reverts_in_descending_order_of_version() {
    let migrations = registry(&[(1, "a"), (2, "b"), (3, "c")]);
    let mut db = Database::with_ledger(&[1, 2, 3]);
    assert_eq!(roll_back(2, &migrations, &mut db), Ok(()));
    assert_eq!(db.calls, vec!["revert 3", "revert 2"]);
    assert_eq!(db.sorted_ledger(), vec![1]);
    assert_eq!(
        db.statements,
        vec![
            Statement::EnsureSchema,
            Statement::SelectVersions,
            Statement::Delete(3),
            Statement::Delete(2),
        ]
    );
}

#[test]
fn rollback_beyond_the_ledger_reverts_everything() {
    let migrations = registry(&[(2, "b"), (3, "c"), (1, "a")]);
    let mut db = Database::with_ledger(&[2, 1, 3]);
    assert_eq!(roll_back(10, &migrations, &mut db), Ok(()));
    assert_eq!(db.calls, vec!["revert 3", "revert 2", "revert 1"]);
    assert_eq!(db.sorted_ledger(), Vec::<i64>::new());
    assert_eq!(
        db.notices,
        vec![
            "Migration reverted: 3 c",
            "Migration reverted: 2 b",
            "Migration reverted: 1 a"
        ]
    );
}

#[test]
fn rollback_of_exactly_the_ledger_reverts_everything() {
    let migrations = registry(&[(1, "a"), (2, "b")]);
    let mut db = Database::with_ledger(&[1, 2]);
    assert_eq!(roll_back(2, &migrations, &mut db), Ok(()));
    assert_eq!(db.calls, vec!["revert 2", "revert 1"]);
    assert_eq!(db.sorted_ledger(), Vec::<i64>::new());
}

#[test]
fn failing_action_halts_the_batch() {
    let migrations = registry(&[(1, "a"), (2, "b"), (3, "c")]);
    let mut db = Database::with_ledger(&[]);
    db.failing_action = Some(2);
    assert_eq!(
        run_all(&migrations, &mut db),
        Err(MigrationError::ActionFailed(2))
    );
    assert_eq!(db.calls, vec!["apply 1", "apply 2"]);
    assert_eq!(db.sorted_ledger(), vec![1]);
    assert_eq!(db.notices, vec!["Migration completed: 1 a"]);
}

#[test]
fn run_after_a_repaired_failure_takes_up_where_it_halted() {
    let migrations = registry(&[(1, "a"), (2, "b"), (3, "c")]);
    let mut db = Database::with_ledger(&[]);
    db.failing_action = Some(2);
    assert_eq!(
        run_all(&migrations, &mut db),
        Err(MigrationError::ActionFailed(2))
    );
    db.failing_action = None;
    db.calls.clear();
    assert_eq!(run_all(&migrations, &mut db), Ok(()));
    assert_eq!(db.calls, vec!["apply 2", "apply 3"]);
    assert_eq!(db.sorted_ledger(), vec![1, 2, 3]);
}

#[test]
fn failing_revert_halts_the_rollback() {
    let migrations = registry(&[(1, "a"), (2, "b"), (3, "c")]);
    let mut db = Database::with_ledger(&[1, 2, 3]);
    db.failing_action = Some(2);
    assert_eq!(
        roll_back(3, &migrations, &mut db),
        Err(MigrationError::ActionFailed(2))
    );
    assert_eq!(db.calls, vec!["revert 3", "revert 2"]);
    assert_eq!(db.sorted_ledger(), vec![1, 2]);
    assert_eq!(db.notices, vec!["Migration reverted: 3 c"]);
}

#[test]
fn failing_ledger_write_halts_after_the_action() {
    let migrations = registry(&[(1, "a"), (2, "b"), (3, "c")]);
    let mut db = Database::with_ledger(&[]);
    db.failing_write = Some(2);
    assert_eq!(
        run_all(&migrations, &mut db),
        Err(MigrationError::LedgerWriteFailed(2))
    );
    assert_eq!(db.calls, vec!["apply 1", "apply 2"]);
    assert_eq!(db.sorted_ledger(), vec![1]);
    assert_eq!(db.notices, vec!["Migration completed: 1 a"]);
}

#[test]
fn failing_ledger_delete_halts_the_rollback() {
    let migrations = registry(&[(1, "a"), (2, "b")]);
    let mut db = Database::with_ledger(&[1, 2]);
    db.failing_write = Some(2);
    assert_eq!(
        roll_back(2, &migrations, &mut db),
        Err(MigrationError::LedgerWriteFailed(2))
    );
    assert_eq!(db.calls, vec!["revert 2"]);
    assert_eq!(db.sorted_ledger(), vec![1, 2]);
    assert_eq!(db.notices, Vec::<String>::new());
}

#[test]
fn run_skips_what_the_ledger_holds() {
    let migrations = registry(&[(1, "a"), (2, "b"), (3, "c"), (4, "d")]);
    let mut db = Database::with_ledger(&[1, 3]);
    assert_eq!(run_all(&migrations, &mut db), Ok(()));
    assert_eq!(db.calls, vec!["apply 2", "apply 4"]);
    assert_eq!(db.sorted_ledger(), vec![1, 2, 3, 4]);
}

#[test]
fn run_ignores_ledger_rows_without_a_record() {
    let migrations = registry(&[(2, "b")]);
    let mut db = Database::with_ledger(&[1, -7]);
    assert_eq!(run_all(&migrations, &mut db), Ok(()));
    assert_eq!(db.calls, vec!["apply 2"]);
    assert_eq!(db.sorted_ledger(), vec![-7, 1, 2]);
}

#[test]
fn run_with_nothing_pending_is_no_error() {
    let migrations = registry(&[(1, "a")]);
    let mut db = Database::with_ledger(&[1]);
    assert_eq!(run_all(&migrations, &mut db), Ok(()));
    assert_eq!(db.calls, Vec::<String>::new());
    assert_eq!(db.sorted_ledger(), vec![1]);
}

#[test]
fn run_of_an_empty_registry_only_prepares_the_ledger() {
    let migrations = registry(&[]);
    let mut db = Database::with_ledger(&[5]);
    assert_eq!(run_all(&migrations, &mut db), Ok(()));
    assert_eq!(
        db.statements,
        vec![Statement::EnsureSchema, Statement::SelectVersions]
    );
    assert_eq!(db.sorted_ledger(), vec![5]);
}

#[test]
fn rollback_of_zero_steps_reverts_nothing() {
    let migrations = registry(&[(1, "a"), (2, "b")]);
    let mut db = Database::with_ledger(&[1, 2]);
    assert_eq!(roll_back(0, &migrations, &mut db), Ok(()));
    assert_eq!(db.calls, Vec::<String>::new());
    assert_eq!(db.sorted_ledger(), vec![1, 2]);
    assert_eq!(
        db.statements,
        vec![Statement::EnsureSchema, Statement::SelectVersions]
    );
}

#[test]
fn rollback_of_an_empty_ledger_reverts_nothing() {
    let migrations = registry(&[(1, "a")]);
    let mut db = Database::with_ledger(&[]);
    assert_eq!(roll_back(3, &migrations, &mut db), Ok(()));
    assert_eq!(db.calls, Vec::<String>::new());
}

#[test]
fn rollback_without_a_definition_is_an_error_and_reverts_nothing() {
    let migrations = registry(&[(1, "a"), (3, "c")]);
    let mut db = Database::with_ledger(&[1, 2, 3]);
    assert_eq!(
        roll_back(2, &migrations, &mut db),
        Err(MigrationError::MissingDefinition(2))
    );
    assert_eq!(db.calls, Vec::<String>::new());
    assert_eq!(db.sorted_ledger(), vec![1, 2, 3]);
}

#[test]
fn rollback_names_the_most_recent_version_without_a_definition() {
    let migrations = registry(&[(1, "a")]);
    let mut db = Database::with_ledger(&[1, 2, 3]);
    assert_eq!(
        roll_back(3, &migrations, &mut db),
        Err(MigrationError::MissingDefinition(3))
    );
}

#[test]
fn rollback_does_not_miss_definitions_that_it_does_not_need() {
    let migrations = registry(&[(3, "c")]);
    let mut db = Database::with_ledger(&[1, 2, 3]);
    assert_eq!(roll_back(1, &migrations, &mut db), Ok(()));
    assert_eq!(db.calls, vec!["revert 3"]);
    assert_eq!(db.sorted_ledger(), vec![1, 2]);
}

#[test]
fn duplicate_versions_are_rejected_before_anything_is_sent() {
    let migrations = registry(&[(1, "a"), (2, "b"), (1, "again")]);
    let mut db = Database::with_ledger(&[]);
    assert_eq!(
        run_all(&migrations, &mut db),
        Err(MigrationError::DuplicateVersion(1))
    );
    assert_eq!(
        roll_back(1, &migrations, &mut db),
        Err(MigrationError::DuplicateVersion(1))
    );
    assert_eq!(db.statements, Vec::<Statement>::new());
    assert_eq!(db.calls, Vec::<String>::new());
}

#[test]
fn versions_beyond_the_ledger_column_are_rejected() {
    let too_large = i64::MAX as u64 + 1;
    let migrations = registry(&[(1, "a"), (too_large, "late")]);
    let mut db = Database::with_ledger(&[]);
    assert_eq!(
        run_all(&migrations, &mut db),
        Err(MigrationError::VersionOutOfRange(too_large))
    );
    assert_eq!(db.statements, Vec::<Statement>::new());
}

#[test]
fn largest_storable_version_is_accepted() {
    let largest = i64::MAX as u64;
    let migrations = registry(&[(largest, "last")]);
    let mut db = Database::with_ledger(&[]);
    assert_eq!(run_all(&migrations, &mut db), Ok(()));
    assert_eq!(db.sorted_ledger(), vec![i64::MAX]);
}

#[test]
fn the_first_faulty_record_decides_the_complaint() {
    let migrations = registry(&[(4, "a"), (u64::MAX, "b"), (4, "c")]);
    assert!(matches!(
        run(&migrations),
        Step::Finished(Err(MigrationError::VersionOutOfRange(u64::MAX)))
    ));
    let migrations = registry(&[(4, "a"), (4, "c"), (u64::MAX, "b")]);
    assert!(matches!(
        run(&migrations),
        Step::Finished(Err(MigrationError::DuplicateVersion(4)))
    ));
}

#[test]
fn failing_schema_statement_ends_the_invocation() {
    let migrations = registry(&[(1, "a")]);
    let mut db = Database::with_ledger(&[]);
    db.schema_fails = true;
    assert_eq!(
        run_all(&migrations, &mut db),
        Err(MigrationError::SchemaFailed)
    );
    assert_eq!(db.statements, vec![Statement::EnsureSchema]);
    assert_eq!(db.calls, Vec::<String>::new());
}

#[test]
fn failing_ledger_read_ends_the_invocation() {
    let migrations = registry(&[(1, "a")]);
    let mut db = Database::with_ledger(&[]);
    db.read_fails = true;
    assert_eq!(
        roll_back(1, &migrations, &mut db),
        Err(MigrationError::LedgerReadFailed)
    );
    assert_eq!(db.calls, Vec::<String>::new());
}

#[test]
fn a_read_that_brings_no_rows_value_counts_as_failed() {
    let migrations = registry(&[(1, "a")]);
    let progress = match run(&migrations) {
        Step::Next(progress, Action::Execute(Statement::EnsureSchema)) => progress,
        _ => panic!("a sound registry begins with the schema"),
    };
    let progress = match advance(progress, Reply::Done) {
        Step::Next(progress, Action::Execute(Statement::SelectVersions)) => progress,
        _ => panic!("the ledger is read after the schema"),
    };
    assert!(matches!(
        advance(progress, Reply::Done),
        Step::Finished(Err(MigrationError::LedgerReadFailed))
    ));
}

#[test]
fn advance_walks_one_migration_through_three_actions() {
    let migrations = registry(&[(8, "b"), (5, "a")]);
    let progress = match run(&migrations) {
        Step::Next(progress, Action::Execute(Statement::EnsureSchema)) => progress,
        _ => panic!("a sound registry begins with the schema"),
    };
    let progress = match advance(progress, Reply::Rows(vec![1, 2])) {
        Step::Next(progress, Action::Execute(Statement::SelectVersions)) => progress,
        _ => panic!("rows in reply to the schema statement do no harm"),
    };
    let progress = match advance(progress, Reply::Rows(vec![8])) {
        Step::Next(progress, Action::Apply(1)) => progress,
        _ => panic!("the record at index 1 is the one pending"),
    };
    let progress = match advance(progress, Reply::Done) {
        Step::Next(progress, Action::Execute(Statement::Insert(5))) => progress,
        _ => panic!("the ledger write follows the action"),
    };
    let progress = match advance(progress, Reply::Done) {
        Step::Next(progress, Action::Completed(1)) => progress,
        _ => panic!("the announcement follows the ledger write"),
    };
    assert!(matches!(
        advance(progress, Reply::Failed),
        Step::Finished(Ok(()))
    ));
}

#[test]
fn rollback_walks_one_migration_through_three_actions() {
    let migrations = registry(&[(8, "b"), (5, "a")]);
    let progress = match rollback(1, &migrations) {
        Step::Next(progress, Action::Execute(Statement::EnsureSchema)) => progress,
        _ => panic!("a sound registry begins with the schema"),
    };
    let progress = match advance(progress, Reply::Done) {
        Step::Next(progress, Action::Execute(Statement::SelectVersions)) => progress,
        _ => panic!("the ledger is read after the schema"),
    };
    let progress = match advance(progress, Reply::Rows(vec![5, 8, 5])) {
        Step::Next(progress, Action::Revert(0)) => progress,
        _ => panic!("the record at index 0 is the latest applied"),
    };
    let progress = match advance(progress, Reply::Done) {
        Step::Next(progress, Action::Execute(Statement::Delete(8))) => progress,
        _ => panic!("the ledger write follows the action"),
    };
    let progress = match advance(progress, Reply::Done) {
        Step::Next(progress, Action::Reverted(0)) => progress,
        _ => panic!("the announcement follows the ledger write"),
    };
    assert!(matches!(
        advance(progress, Reply::Done),
        Step::Finished(Ok(()))
    ));
}
