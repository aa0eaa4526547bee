//! The schema migrator: brings the embedded database to the current schema
//! version by applying the pending versioned migrations in increasing order
//! at store-open time.

use vstd::prelude::*;

use crate::db::{db_execute_batch, db_read_schema_version, db_set_schema_version};
use crate::model::MigrationError;

verus! {

/// The schema version this build of the library writes.
pub const SCHEMA_VERSION: u32 = 2;

/// The migrations still to apply on a database at version `v`: exactly the
/// versions above `v` up to [`SCHEMA_VERSION`], in increasing order.
pub open spec fn spec_pending(v: u32) -> Seq<u32>
    decreases SCHEMA_VERSION - v,

{
    if v >= SCHEMA_VERSION {
        Seq::empty()
    } else {
        seq![(v + 1) as u32] + spec_pending((v + 1) as u32)
    }
}

/// The version recorded after a successful run of the migrator.
pub open spec fn version_after_migration(v: u32) -> u32 {
    if v >= SCHEMA_VERSION {
        v
    } else {
        SCHEMA_VERSION
    }
}

/// Idempotence law: one successful run brings the recorded version to the
/// current schema; a second run finds nothing pending, applies nothing, and
/// therefore leaves the schema state identical.
pub proof fn lemma_migration_idempotent(v: u32)
    ensures
        version_after_migration(version_after_migration(v)) == version_after_migration(v),
        spec_pending(version_after_migration(v)) == Seq::<u32>::empty(),
{
    assert(spec_pending(version_after_migration(v)) =~= Seq::<u32>::empty());
}

/// The plan for a database found at version `current`.
fn pending_migrations(current: u32) -> (r: Vec<u32>)
    ensures
        r@ == spec_pending(current),
{
    let mut r: Vec<u32> = Vec::new();
    let mut v = current;
    while v < SCHEMA_VERSION
        invariant
            r@ + spec_pending(v) == spec_pending(current),
        decreases SCHEMA_VERSION as int - v as int,
    {
        let ghost r0 = r@;
        let nv = v + 1;
        r.push(nv);
        proof {
            assert(r@ =~= r0.push(nv));
            assert(r0.push(nv) + spec_pending(nv) =~= r0 + (seq![nv] + spec_pending(nv)));
            assert(seq![nv] + spec_pending(nv) == spec_pending(v));
        }
        v = nv;
    }
    proof {
        assert(spec_pending(v) =~= Seq::<u32>::empty());
        assert(r@ + spec_pending(v) =~= r@);
    }
    r
}

/// The DDL applied by one migration step. Each script is itself guarded, so
/// re-running a step cannot fail or change an already-current schema.
fn migration_batch(v: u32) -> (sql: &'static str)
    ensures
        v == 1 ==> sql@
            == "CREATE TABLE IF NOT EXISTS groups (id INTEGER PRIMARY KEY, name TEXT NOT NULL, url TEXT);"@,
        v == 2 ==> sql@
            == "CREATE TABLE IF NOT EXISTS accounts (id INTEGER PRIMARY KEY, group_id INTEGER NOT NULL REFERENCES groups (id), label TEXT NOT NULL, secret TEXT NOT NULL, ordering INTEGER NOT NULL DEFAULT 0);"@,
        v != 1 && v != 2 ==> sql@.len() == 0,
{
    if v == 1 {
        "CREATE TABLE IF NOT EXISTS groups (id INTEGER PRIMARY KEY, name TEXT NOT NULL, url TEXT);"
    } else if v == 2 {
        "CREATE TABLE IF NOT EXISTS accounts (id INTEGER PRIMARY KEY, group_id INTEGER NOT NULL REFERENCES groups (id), label TEXT NOT NULL, secret TEXT NOT NULL, ordering INTEGER NOT NULL DEFAULT 0);"
    } else {
        proof {
            reveal_strlit("");
        }
        ""
    }
}

/// Applies all not-yet-applied migrations in increasing order and records
/// the new version. A database already at the current version gets an empty
/// plan, so a second run applies nothing and succeeds. Every failure of the
/// embedded database is surfaced, never swallowed.
pub fn run(conn: &mut rusqlite::Connection) -> (r: Result<(), MigrationError>) {
    let v0 = match db_read_schema_version(conn) {
        Result::Ok(v) => v,
        Result::Err(_) => {
            return Result::Err(MigrationError::Database);
        },
    };
    let plan = pending_migrations(v0);
    let mut i: usize = 0;
    while i < plan.len()
        decreases plan@.len() - i,
    {
        let sql = migration_batch(plan[i]);
        match db_execute_batch(conn, sql) {
            Result::Ok(()) => {},
            Result::Err(_) => {
                return Result::Err(MigrationError::Database);
            },
        }
        i = i + 1;
    }
    if v0 < SCHEMA_VERSION {
        match db_set_schema_version(conn, SCHEMA_VERSION) {
            Result::Ok(()) => {},
            Result::Err(_) => {
                return Result::Err(MigrationError::Database);
            },
        }
    }
    Result::Ok(())
}

} // verus!
