//! Migration records: one versioned, named, reversible change each.

use vstd::prelude::*;

verus! {

/// The two directional actions of a migration, written by the embedding
/// program against its own connection type.
///
/// Each action reports a failure as `Err` with the connection's message. The
/// runner never calls them itself: it names the record whose action is due,
/// the embedding program invokes it and reports how it went.
pub trait RawMigration<Conn> {
    /// Applies the change.
    fn up(&self, cn: &mut Conn) -> Result<(), String>;

    /// Undoes the change.
    fn down(&self, cn: &mut Conn) -> Result<(), String>;
}

/// A registry whose records carry boxed actions against `Conn`.
pub type Migrations<Conn> = Vec<Migration<Box<dyn RawMigration<Conn>>>>;

/// What a migration record is: its identity, its display name and the
/// actions it carries.
pub struct MigrationView<A> {
    /// The sole identity and sort key.
    pub version: u64,
    /// Informational only.
    pub name: Seq<char>,
    /// The pair of directional actions.
    pub raw: A,
}

/// One schema change: a version, a display name and its actions `A`
/// (usually a boxed [`RawMigration`]).
///
/// A record is never changed after it is built.
pub struct Migration<A> {
    version: u64,
    name: String,
    raw: A,
}

impl<A> View for Migration<A> {
    type V = MigrationView<A>;

    closed spec fn view(&self) -> MigrationView<A> {
        MigrationView { version: self.version, name: self.name@, raw: self.raw }
    }
}

impl<A> Migration<A> {
    pub fn new(version: u64, name: &str, raw: A) -> (m: Migration<A>)
        ensures
            m@ == (MigrationView { version, name: name@, raw }),
    {
        Migration { version, name: name.to_owned(), raw }
    }

    pub fn version(&self) -> (v: &u64)
        ensures
            *v == self@.version,
    {
        &self.version
    }

    pub fn name(&self) -> (n: &str)
        ensures
            n@ == self@.name,
    {
        self.name.as_str()
    }

    pub fn raw(&self) -> (r: &A)
        ensures
            *r == self@.raw,
    {
        &self.raw
    }
}

/// The versions of a registry, in the order in which it lists its records.
pub open spec fn versions_of<A>(migrations: Seq<Migration<A>>) -> Seq<u64> {
    Seq::new(migrations.len(), |i: int| migrations[i]@.version)
}

} // verus!
