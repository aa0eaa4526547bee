//! The trusted boundary to the embedded SQLite database, through rusqlite.
//!
//! Every function here only moves plain values across the boundary; nothing
//! about the database's state is assumed beyond what rusqlite's signatures
//! give. The verified layers treat the in-memory [`crate::store::Store`] as
//! authoritative and mirror each mutation through these calls.

use vstd::prelude::*;

verus! {

#[verifier::external_type_specification]
#[verifier::external_body]
pub struct ExConnection(rusqlite::Connection);

#[verifier::external_type_specification]
#[verifier::external_body]
pub struct ExRusqliteError(rusqlite::Error);

/// Relies on rusqlite::Connection::execute_batch: runs the given SQL
/// statements in order, stopping at the first error.
#[verifier::external_body]
pub(crate) fn db_execute_batch(conn: &mut rusqlite::Connection, sql: &str) -> (r: Result<
    (),
    rusqlite::Error,
>)
{
    conn.execute_batch(sql)
}

/// Relies on rusqlite::Connection::query_row: reads the schema version the
/// database reports (`PRAGMA user_version`).
#[verifier::external_body]
pub(crate) fn db_read_schema_version(conn: &rusqlite::Connection) -> (r: Result<
    u32,
    rusqlite::Error,
>)
{
    conn.query_row("SELECT user_version FROM pragma_user_version", [], |row| row.get(0))
}

/// Relies on rusqlite::Connection::pragma_update: records the schema version
/// (`PRAGMA user_version`).
#[verifier::external_body]
pub(crate) fn db_set_schema_version(conn: &mut rusqlite::Connection, v: u32) -> (r: Result<
    (),
    rusqlite::Error,
>)
{
    conn.pragma_update(None, "user_version", v)
}

/// Relies on rusqlite::Connection::execute with an INSERT statement on the
/// groups table.
#[verifier::external_body]
pub(crate) fn db_insert_group(
    conn: &mut rusqlite::Connection,
    id: u32,
    name: &str,
    url: Option<&str>,
) -> (r: Result<(), rusqlite::Error>)
{
    conn.execute("INSERT INTO groups (id, name, url) VALUES (?1, ?2, ?3)", (id, name, url)).map(
        |_| (),
    )
}

/// Relies on rusqlite::Connection::execute with an UPDATE statement on the
/// groups table.
#[verifier::external_body]
pub(crate) fn db_update_group(
    conn: &mut rusqlite::Connection,
    id: u32,
    name: &str,
    url: Option<&str>,
) -> (r: Result<(), rusqlite::Error>)
{
    conn.execute("UPDATE groups SET name = ?2, url = ?3 WHERE id = ?1", (id, name, url)).map(
        |_| (),
    )
}

/// Relies on rusqlite::Connection::execute with a DELETE statement on the
/// groups table.
#[verifier::external_body]
pub(crate) fn db_delete_group(conn: &mut rusqlite::Connection, id: u32) -> (r: Result<
    (),
    rusqlite::Error,
>)
{
    conn.execute("DELETE FROM groups WHERE id = ?1", (id,)).map(|_| ())
}

/// Relies on rusqlite::Connection::execute with an INSERT statement on the
/// accounts table.
#[verifier::external_body]
pub(crate) fn db_insert_account(
    conn: &mut rusqlite::Connection,
    id: u32,
    group_id: u32,
    label: &str,
    secret: &str,
    ordering: u32,
) -> (r: Result<(), rusqlite::Error>)
{
    conn.execute(
        "INSERT INTO accounts (id, group_id, label, secret, ordering) VALUES (?1, ?2, ?3, ?4, ?5)",
        (id, group_id, label, secret, ordering),
    ).map(|_| ())
}

/// Relies on rusqlite::Connection::execute with an UPDATE statement on the
/// accounts table.
#[verifier::external_body]
pub(crate) fn db_update_account(
    conn: &mut rusqlite::Connection,
    id: u32,
    label: &str,
    secret: &str,
) -> (r: Result<(), rusqlite::Error>)
{
    conn.execute("UPDATE accounts SET label = ?2, secret = ?3 WHERE id = ?1", (id, label, secret))
        .map(|_| ())
}

/// Relies on rusqlite::Connection::execute with a DELETE statement on the
/// accounts table.
#[verifier::external_body]
pub(crate) fn db_delete_account(conn: &mut rusqlite::Connection, id: u32) -> (r: Result<
    (),
    rusqlite::Error,
>)
{
    conn.execute("DELETE FROM accounts WHERE id = ?1", (id,)).map(|_| ())
}

/// Relies on rusqlite::Connection::prepare and Statement::query_map: reads
/// all group rows (id, name, url) in id order. What comes back depends on
/// the database file, so nothing is assumed of the values.
#[verifier::external_body]
pub(crate) fn db_query_group_rows(conn: &rusqlite::Connection) -> (r: Result<
    Vec<(u32, String, Option<String>)>,
    rusqlite::Error,
>)
{
    let mut stmt = conn.prepare("SELECT id, name, url FROM groups ORDER BY id")?;
    let rows = stmt.query_map([], |row| Ok((row.get(0)?, row.get(1)?, row.get(2)?)))?;
    rows.collect()
}

/// Relies on rusqlite::Connection::prepare and Statement::query_map: reads
/// all account rows (id, group_id, label, secret) in (ordering, id) order.
/// What comes back depends on the database file, so nothing is assumed of it.
#[verifier::external_body]
pub(crate) fn db_query_account_rows(conn: &rusqlite::Connection) -> (r: Result<
    Vec<(u32, u32, String, String)>,
    rusqlite::Error,
>)
{
    let mut stmt = conn.prepare(
        "SELECT id, group_id, label, secret FROM accounts ORDER BY ordering, id",
    )?;
    let rows = stmt.query_map(
        [],
        |row| Ok((row.get(0)?, row.get(1)?, row.get(2)?, row.get(3)?)),
    )?;
    rows.collect()
}

} // verus!
