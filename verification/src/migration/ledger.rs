//! The version ledger: one relation in the target database that holds the
//! versions already applied, one row each.
//!
//! ```text
//! schema_migrations(version BIGINT NOT NULL)
//! ```
//!
//! The names of the relation and of its column are part of the stored
//! format. The relation has no key: nothing in the database keeps a version
//! from standing in two rows. What reads the rows here keeps each of them;
//! the runner goes by the set of versions that they hold.
//!
//! This module fixes the statements that the engine sends and what it makes
//! of the rows that come back; sending them is the embedding program's part.

use crate::migration::order::{non_increasing, sorted_rows};
use std::collections::HashMap;
use vstd::prelude::*;

verus! {

broadcast use vstd::std_specs::hash::group_hash_axioms;

/// The statements that the engine issues against the ledger, and no others.
#[derive(Clone, Copy, Debug, PartialEq, Eq)]
pub enum Statement {
    /// Creates the relation unless it is there already.
    EnsureSchema,
    /// Reads every recorded version, largest first.
    SelectVersions,
    /// Records a version as applied.
    Insert(i64),
    /// Removes the record of a version.
    Delete(i64),
}

impl Statement {
    /// The SQL text of the statement; `$1` stands for its one parameter.
    pub open spec fn sql_text(self) -> Seq<char> {
        match self {
            Statement::EnsureSchema =>
                "CREATE TABLE IF NOT EXISTS schema_migrations (version BIGINT NOT NULL);"@,
            Statement::SelectVersions =>
                "SELECT version FROM schema_migrations ORDER BY version desc;"@,
            Statement::Insert(_) => "INSERT INTO schema_migrations VALUES ($1);"@,
            Statement::Delete(_) => "DELETE FROM schema_migrations WHERE version = $1;"@,
        }
    }

    /// The values bound to the statement's positional parameters.
    pub open spec fn bound(self) -> Seq<i64> {
        match self {
            Statement::Insert(version) => seq![version],
            Statement::Delete(version) => seq![version],
            _ => Seq::empty(),
        }
    }

    /// The set of recorded versions after the statement has run on a ledger
    /// that held `ledger`.
    pub open spec fn effect(self, ledger: Set<i64>) -> Set<i64> {
        match self {
            Statement::Insert(version) => ledger.insert(version),
            Statement::Delete(version) => ledger.remove(version),
            _ => ledger,
        }
    }

    /// The SQL text to send.
    pub fn sql(&self) -> (text: &'static str)
        ensures
            text@ == self.sql_text(),
    {
        match self {
            Statement::EnsureSchema =>
                "CREATE TABLE IF NOT EXISTS schema_migrations (version BIGINT NOT NULL);",
            Statement::SelectVersions =>
                "SELECT version FROM schema_migrations ORDER BY version desc;",
            Statement::Insert(_) => "INSERT INTO schema_migrations VALUES ($1);",
            Statement::Delete(_) => "DELETE FROM schema_migrations WHERE version = $1;",
        }
    }

    /// The positional parameters to send with the text.
    pub fn params(&self) -> (values: Vec<i64>)
        ensures
            values@ == self.bound(),
    {
        let mut values: Vec<i64> = Vec::new();
        match self {
            Statement::Insert(version) => {
                values.push(*version);
            },
            Statement::Delete(version) => {
                values.push(*version);
            },
            _ => {},
        }
        values
    }

    /// Whether the statement answers with rows rather than with a count.
    pub fn returns_rows(&self) -> (rows: bool)
        ensures
            rows == (*self == Statement::SelectVersions),
    {
        match self {
            Statement::SelectVersions => true,
            _ => false,
        }
    }
}

/// The statement that makes sure the ledger relation exists. It may be sent
/// on every invocation: where the relation exists it changes nothing.
pub fn ensure_schema_migrations() -> (statement: Statement)
    ensures
        statement == Statement::EnsureSchema,
{
    Statement::EnsureSchema
}

/// The statement that records `version` as applied.
pub fn insert_version(version: &i64) -> (statement: Statement)
    ensures
        statement == Statement::Insert(*version),
{
    Statement::Insert(*version)
}

/// The statement that removes the record of `version`.
pub fn delete_version(version: &i64) -> (statement: Statement)
    ensures
        statement == Statement::Delete(*version),
{
    Statement::Delete(*version)
}

/// The statement that reads the recorded versions.
pub fn select_versions() -> (statement: Statement)
    ensures
        statement == Statement::SelectVersions,
{
    Statement::SelectVersions
}

/// The applied versions as a set with constant-time membership, from the
/// rows that [`Statement::SelectVersions`] brought. Every recorded version
/// is a key, and every key maps to `true`.
pub fn get_versions_as_hash(rows: &Vec<i64>) -> (applied: HashMap<i64, bool>)
    ensures
        applied@.dom() == rows@.to_set(),
        forall|version: i64| applied@.contains_key(version) ==> applied@[version],
{
    let mut applied: HashMap<i64, bool> = HashMap::new();
    let mut i: usize = 0;
    while i < rows.len()
        invariant
            i <= rows.len(),
            applied@.dom() =~= rows@.take(i as int).to_set(),
            forall|version: i64| applied@.contains_key(version) ==> applied@[version],
        decreases rows.len() - i,
    {
        let ghost seen = rows@.take(i as int);
        let ghost seen_next = rows@.take(i + 1);
        assert(seen_next =~= seen.push(rows@[i as int]));
        applied.insert(rows[i], true);
        assert forall|v: i64| seen_next.to_set().contains(v) <==> applied@.dom().contains(v) by {
            if seen_next.contains(v) {
                let k = choose|k: int| 0 <= k < seen_next.len() && seen_next[k] == v;
                if k < seen.len() {
                    assert(seen[k] == v);
                    assert(seen.to_set().contains(v));
                }
            }
            if seen.to_set().contains(v) {
                let k = choose|k: int| 0 <= k < seen.len() && seen[k] == v;
                assert(seen_next[k] == v);
            }
            assert(seen_next[i as int] == rows@[i as int]);
        }
        i += 1;
    }
    assert(rows@.take(i as int) =~= rows@);
    applied
}

/// The applied versions, largest (most recently applied) first, from the
/// rows that [`Statement::SelectVersions`] brought: one element for each row,
/// whatever the order of the rows. A version that several rows hold occurs
/// as often as they hold it, side by side.
pub fn get_versions_as_vec(rows: &Vec<i64>) -> (ordered: Vec<i64>)
    ensures
        ordered@.to_multiset() == rows@.to_multiset(),
        non_increasing(ordered@),
        ordered@.len() == rows@.len(),
        forall|version: i64| ordered@.contains(version) <==> rows@.contains(version),
{
    let ordered = sorted_rows(rows);
    proof {
        ordered@.to_multiset_ensures();
        rows@.to_multiset_ensures();
        assert forall|version: i64| ordered@.contains(version) <==> rows@.contains(version) by {
            assert(ordered@.contains(version) <==> ordered@.to_multiset().count(version) > 0);
            assert(rows@.contains(version) <==> rows@.to_multiset().count(version) > 0);
        }
    }
    ordered
}

} // verus!
