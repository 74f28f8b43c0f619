//! The migration engine: records, the ledger, the selection of work and the
//! runner.

pub mod ledger;
pub mod notice;
pub mod order;
pub mod plan;
pub mod record;
pub mod runner;
pub mod scaffold;
pub mod theory;

pub use self::ledger::{
    delete_version, ensure_schema_migrations, get_versions_as_hash, get_versions_as_vec,
    insert_version, select_versions, Statement,
};
pub use self::notice::{decimal_text, notice};
pub use self::record::{Migration, Migrations, RawMigration};
pub use self::runner::{
    advance, rollback, run, Action, Direction, MigrationError, Progress, Reply, Step,
};
pub use self::scaffold::{file_name_of, full_name_from, gen_full_name, gen_timecode};
