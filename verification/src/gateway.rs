//! The persistence gateway: owns the embedded database connection, loads the
//! store wholesale at open time, and mirrors every mutation of the in-memory
//! store to the database.
//!
//! The in-memory [`Store`] is authoritative; the database rows pass through
//! the trusted boundary in [`crate::db`] as plain values, and a verified
//! function assembles whatever came back into a well-formed store, whatever
//! the database file held. Identifiers are kept exactly as persisted, so
//! they stay stable across reopening.

use vstd::prelude::*;

use crate::codec::{spec_parse_backup, spec_ser_backup};
use crate::db::{db_delete_account, db_delete_group, db_execute_batch, db_insert_account,
    db_insert_group, db_query_account_rows, db_query_group_rows, db_update_account,
    db_update_group};
use crate::model::{Account, AccountGroup, StoreError, opt_view, tree_data};
use crate::store::{Store, account_pos, backup_fits, copy_opt_string, group_index, groups_like,
    has_account, has_group, store_wf};

verus! {

/// One group row as read back: (id, name, url).
pub open spec fn group_rows_valid(grs: Seq<(u32, String, Option<String>)>) -> bool {
    &&& grs.len() < 0xffff_ffff
    &&& forall|i: int|
        0 <= i < grs.len() ==> (#[trigger] grs[i]).1@.len() > 0 && grs[i].0 < u32::MAX
    &&& forall|i: int, j: int|
        0 <= i < grs.len() && 0 <= j < grs.len() && i != j ==> (#[trigger] grs[i]).0 != (
        #[trigger] grs[j]).0
}

/// One account row as read back: (id, group id, label, secret).
pub open spec fn account_rows_valid(
    ars: Seq<(u32, u32, String, String)>,
    grs: Seq<(u32, String, Option<String>)>,
) -> bool {
    &&& ars.len() < 0xffff_ffff
    &&& forall|k: int|
        0 <= k < ars.len() ==> (#[trigger] ars[k]).3@.len() > 0 && ars[k].0 < u32::MAX && (
        exists|i: int| 0 <= i < grs.len() && (#[trigger] grs[i]).0 == ars[k].1)
    &&& forall|k: int, l: int|
        0 <= k < ars.len() && 0 <= l < ars.len() && k != l ==> (#[trigger] ars[k]).0 != (
        #[trigger] ars[l]).0
}

pub open spec fn arow_view(t: (u32, u32, String, String)) -> (u32, u32, Seq<char>, Seq<char>) {
    (t.0, t.1, t.2@, t.3@)
}

pub open spec fn entry_of_account(a: Account) -> (u32, Seq<char>, Seq<char>) {
    (a.id, a.label@, a.secret@)
}

pub open spec fn strip_gid(t: (u32, u32, Seq<char>, Seq<char>)) -> (u32, Seq<char>, Seq<char>) {
    (t.0, t.2, t.3)
}

/// The entries a group with row id `gid` gets on load: the account rows that
/// reference it, in row order, identifiers included.
pub open spec fn rows_for_group(ars: Seq<(u32, u32, String, String)>, gid: u32) -> Seq<
    (u32, Seq<char>, Seq<char>),
> {
    ars.map_values(|t: (u32, u32, String, String)| arow_view(t)).filter(
        |t: (u32, u32, Seq<char>, Seq<char>)| t.1 == gid,
    ).map_values(|t: (u32, u32, Seq<char>, Seq<char>)| strip_gid(t))
}

/// Assembles the rows read back from the database into a well-formed store,
/// keeping every row's identifier (identifiers are assigned on first insert
/// and stay stable across reopening); the next-free counters end up above
/// every identifier kept. Entries are the account rows referencing their
/// group's id, in row order. Succeeds exactly on rows with non-empty names
/// and secrets, unique group and account ids below the maximum, and no
/// dangling group reference.
#[verifier::rlimit(100)]
pub fn from_rows(
    group_rows: &Vec<(u32, String, Option<String>)>,
    account_rows: &Vec<(u32, u32, String, String)>,
) -> (r: Result<Store, StoreError>)
    ensures
        match r {
            Result::Ok(s) => {
                &&& group_rows_valid(group_rows@)
                &&& account_rows_valid(account_rows@, group_rows@)
                &&& store_wf(s)
                &&& s.groups@.len() == group_rows@.len()
                &&& forall|i: int|
                    0 <= i < group_rows@.len() ==> {
                        &&& (#[trigger] s.groups@[i]).id == group_rows@[i].0
                        &&& s.groups@[i].name@ == group_rows@[i].1@
                        &&& s.groups@[i].icon is None
                        &&& opt_view(s.groups@[i].url) == opt_view(group_rows@[i].2)
                        &&& s.groups@[i].entries@.map_values(
                            |a: Account| entry_of_account(a),
                        ) == rows_for_group(account_rows@, group_rows@[i].0)
                    }
            },
            Result::Err(e) => {
                &&& e == StoreError::CorruptRows
                &&& !(group_rows_valid(group_rows@) && account_rows_valid(
                    account_rows@,
                    group_rows@,
                ))
            },
        },
{
    let ng = group_rows.len();
    let na = account_rows.len();
    if ng as u64 >= 0xffff_ffffu64 || na as u64 >= 0xffff_ffffu64 {
        return Result::Err(StoreError::CorruptRows);
    }
    // validate group rows
    let mut i: usize = 0;
    while i < ng
        invariant
            ng == group_rows@.len(),
            i <= ng,
            forall|x: int|
                0 <= x < i ==> (#[trigger] group_rows@[x]).1@.len() > 0 && group_rows@[x].0
                    < u32::MAX,
            forall|x: int, y: int|
                0 <= x < i && 0 <= y < i && x != y ==> (#[trigger] group_rows@[x]).0 != (
                #[trigger] group_rows@[y]).0,
        decreases ng - i,
    {
        if group_rows[i].1.as_str().is_empty() || group_rows[i].0 == u32::MAX {
            return Result::Err(StoreError::CorruptRows);
        }
        let mut j: usize = 0;
        while j < i
            invariant
                ng == group_rows@.len(),
                i < ng,
                j <= i,
                forall|y: int| 0 <= y < j ==> (#[trigger] group_rows@[y]).0 != group_rows@[
                    i as int
                ].0,
        decreases i - j,
        {
            if group_rows[j].0 == group_rows[i].0 {
                return Result::Err(StoreError::CorruptRows);
            }
            j = j + 1;
        }
        i = i + 1;
    }
    // validate account rows
    let mut k: usize = 0;
    while k < na
        invariant
            ng == group_rows@.len(),
            na == account_rows@.len(),
            k <= na,
            forall|x: int|
                0 <= x < k ==> (#[trigger] account_rows@[x]).3@.len() > 0 && account_rows@[x].0
                    < u32::MAX && (exists|y: int|
                    0 <= y < ng && (#[trigger] group_rows@[y]).0 == account_rows@[x].1),
            forall|x: int, y: int|
                0 <= x < k && 0 <= y < k && x != y ==> (#[trigger] account_rows@[x]).0 != (
                #[trigger] account_rows@[y]).0,
        decreases na - k,
    {
        if account_rows[k].3.as_str().is_empty() || account_rows[k].0 == u32::MAX {
            return Result::Err(StoreError::CorruptRows);
        }
        let mut j: usize = 0;
        while j < k
            invariant
                na == account_rows@.len(),
                k < na,
                j <= k,
                forall|y: int| 0 <= y < j ==> (#[trigger] account_rows@[y]).0 != account_rows@[
                    k as int
                ].0,
        decreases k - j,
        {
            if account_rows[j].0 == account_rows[k].0 {
                return Result::Err(StoreError::CorruptRows);
            }
            j = j + 1;
        }
        let mut j: usize = 0;
        let mut found = false;
        while j < ng && !found
            invariant
                ng == group_rows@.len(),
                na == account_rows@.len(),
                k < na,
                j <= ng,
                !found ==> forall|y: int| 0 <= y < j ==> (#[trigger] group_rows@[y]).0
                    != account_rows@[k as int].1,
                found ==> exists|y: int| 0 <= y < ng && (#[trigger] group_rows@[y]).0
                    == account_rows@[k as int].1,
            decreases ng - j, (if found { 0int } else { 1int }),
        {
            if group_rows[j].0 == account_rows[k].1 {
                found = true;
            } else {
                j = j + 1;
            }
        }
        if !found {
            proof {
                assert(!account_rows_valid(account_rows@, group_rows@)) by {
                    assert(!(exists|y: int|
                        0 <= y < group_rows@.len() && (#[trigger] group_rows@[y]).0
                            == account_rows@[k as int].1));
                }
            }
            return Result::Err(StoreError::CorruptRows);
        }
        k = k + 1;
    }
    // replay the groups in row order, keeping their identifiers
    let mut s = Store::new();
    let mut i: usize = 0;
    while i < ng
        invariant
            ng == group_rows@.len(),
            group_rows_valid(group_rows@),
            store_wf(s),
            s.groups@.len() == i,
            i <= ng,
            s.next_account_id == 1,
            forall|x: int|
                0 <= x < i ==> {
                    &&& (#[trigger] s.groups@[x]).id == group_rows@[x].0
                    &&& s.groups@[x].name@ == group_rows@[x].1@
                    &&& s.groups@[x].icon is None
                    &&& opt_view(s.groups@[x].url) == opt_view(group_rows@[x].2)
                    &&& s.groups@[x].entries@.len() == 0
                },
        decreases ng - i,
    {
        let rid = group_rows[i].0;
        let name = group_rows[i].1.clone();
        let url = copy_opt_string(&group_rows[i].2);
        proof {
            assert(!has_group(s.groups@, rid)) by {
                if has_group(s.groups@, rid) {
                    let x = choose|x: int|
                        0 <= x < s.groups@.len() && (#[trigger] s.groups@[x]).id == rid;
                    assert(s.groups@[x].id == group_rows@[x].0);
                    assert(group_rows@[x].0 != group_rows@[i as int].0);
                }
            }
        }
        let ghost olds = s;
        s.add_group_with_id(rid, name, Option::None, url);
        proof {
            assert forall|x: int| 0 <= x < i + 1 implies {
                &&& (#[trigger] s.groups@[x]).id == group_rows@[x].0
                &&& s.groups@[x].name@ == group_rows@[x].1@
                &&& s.groups@[x].icon is None
                &&& opt_view(s.groups@[x].url) == opt_view(group_rows@[x].2)
                &&& s.groups@[x].entries@.len() == 0
            } by {
                if x < i {
                    assert(s.groups@.subrange(0, olds.groups@.len() as int)[x] == s.groups@[x]);
                    assert(s.groups@[x] == olds.groups@[x]);
                } else {
                    assert(s.groups@[x] == s.groups@.last());
                }
            }
        }
        i = i + 1;
    }
    // replay the account rows in row order, keeping their identifiers
    let ghost arsv = account_rows@.map_values(|t: (u32, u32, String, String)| arow_view(t));
    let mut k: usize = 0;
    while k < na
        invariant
            ng == group_rows@.len(),
            na == account_rows@.len(),
            group_rows_valid(group_rows@),
            account_rows_valid(account_rows@, group_rows@),
            arsv == account_rows@.map_values(|t: (u32, u32, String, String)| arow_view(t)),
            store_wf(s),
            s.groups@.len() == ng,
            k <= na,
            forall|x: int|
                0 <= x < ng ==> {
                    &&& (#[trigger] s.groups@[x]).id == group_rows@[x].0
                    &&& s.groups@[x].name@ == group_rows@[x].1@
                    &&& s.groups@[x].icon is None
                    &&& opt_view(s.groups@[x].url) == opt_view(group_rows@[x].2)
                    &&& s.groups@[x].entries@.map_values(|a: Account| entry_of_account(a))
                        == arsv.take(k as int).filter(
                        |t: (u32, u32, Seq<char>, Seq<char>)| t.1 == group_rows@[x].0,
                    ).map_values(|t: (u32, u32, Seq<char>, Seq<char>)| strip_gid(t))
                },
            forall|x: int, c: int|
                0 <= x < ng && 0 <= c < s.groups@[x].entries@.len() ==> (exists|y: int|
                    0 <= y < k && (#[trigger] account_rows@[y]).0 == (
                    #[trigger] s.groups@[x].entries@[c]).id),
        decreases na - k,
    {
        // find the (unique) group row this account row references
        let mut j: usize = 0;
        let mut target: usize = 0;
        let mut found = false;
        while j < ng && !found
            invariant
                ng == group_rows@.len(),
                na == account_rows@.len(),
                k < na,
                j <= ng,
                !found ==> forall|y: int| 0 <= y < j ==> (#[trigger] group_rows@[y]).0
                    != account_rows@[k as int].1,
                found ==> target < ng && group_rows@[target as int].0 == account_rows@[
                    k as int
                ].1,
            decreases ng - j, (if found { 0int } else { 1int }),
        {
            if group_rows[j].0 == account_rows[k].1 {
                target = j;
                found = true;
            } else {
                j = j + 1;
            }
        }
        if !found {
            proof {
                assert(account_rows@[k as int].3@.len() > 0);
                assert(false);
            }
            return Result::Err(StoreError::CorruptRows);
        }
        let gid = account_rows[k].1;
        let aid = account_rows[k].0;
        proof {
            assert(s.groups@[target as int].id == gid);
            assert(has_group(s.groups@, gid));
            let gi = group_index(s.groups@, gid);
            assert(0 <= gi < s.groups@.len() && s.groups@[gi].id == gid);
            assert(gi == target as int);
            assert(!has_account(s.groups@, aid)) by {
                if has_account(s.groups@, aid) {
                    let (x, c) = choose|x: int, c: int|
                        0 <= x < s.groups@.len() && 0 <= c < s.groups@[x].entries@.len() && (
                        #[trigger] s.groups@[x].entries@[c]).id == aid;
                    assert(0 <= x < ng && 0 <= c < s.groups@[x].entries@.len());
                    let y = choose|y: int|
                        0 <= y < k && (#[trigger] account_rows@[y]).0 == s.groups@[
                            x
                        ].entries@[c].id;
                    assert(account_rows@[y].0 == account_rows@[k as int].0);
                    assert(account_rows@[y].0 != account_rows@[k as int].0);
                }
            }
            assert(account_rows@[k as int].3@.len() > 0);
            assert(aid < u32::MAX);
        }
        let ghost olds = s;
        let label = account_rows[k].2.clone();
        let secret = account_rows[k].3.clone();
        s.add_account_with_id(gid, aid, label, secret);
        proof {
            let rowv = arsv[k as int];
            assert(rowv == arow_view(account_rows@[k as int]));
            assert(arsv.take(k as int + 1) =~= arsv.take(k as int).push(rowv));
            assert forall|x: int| 0 <= x < ng implies {
                &&& (#[trigger] s.groups@[x]).id == group_rows@[x].0
                &&& s.groups@[x].name@ == group_rows@[x].1@
                &&& s.groups@[x].icon is None
                &&& opt_view(s.groups@[x].url) == opt_view(group_rows@[x].2)
                &&& s.groups@[x].entries@.map_values(|a: Account| entry_of_account(a))
                    == arsv.take(k as int + 1).filter(
                    |t: (u32, u32, Seq<char>, Seq<char>)| t.1 == group_rows@[x].0,
                ).map_values(|t: (u32, u32, Seq<char>, Seq<char>)| strip_gid(t))
            } by {
                let p = |t: (u32, u32, Seq<char>, Seq<char>)| t.1 == group_rows@[x].0;
                reveal(Seq::filter);
                assert(arsv.take(k as int).push(rowv).drop_last() =~= arsv.take(k as int));
                assert(arsv.take(k as int).push(rowv).last() == rowv);
                if x == target as int {
                    assert(p(rowv));
                    assert(arsv.take(k as int + 1).filter(p) =~= arsv.take(k as int).filter(
                        p,
                    ).push(rowv));
                    assert(s.groups@[x].entries@ =~= olds.groups@[x].entries@.push(
                        s.groups@[x].entries@.last(),
                    ));
                    assert(entry_of_account(s.groups@[x].entries@.last()) == strip_gid(rowv));
                    assert(s.groups@[x].entries@.map_values(|a: Account| entry_of_account(a))
                        =~= olds.groups@[x].entries@.map_values(
                        |a: Account| entry_of_account(a),
                    ).push(strip_gid(rowv)));
                    assert(arsv.take(k as int).filter(p).push(rowv).map_values(
                        |t: (u32, u32, Seq<char>, Seq<char>)| strip_gid(t),
                    ) =~= arsv.take(k as int).filter(p).map_values(
                        |t: (u32, u32, Seq<char>, Seq<char>)| strip_gid(t),
                    ).push(strip_gid(rowv)));
                } else {
                    assert(group_rows@[x].0 != group_rows@[target as int].0);
                    assert(!p(rowv));
                    assert(arsv.take(k as int + 1).filter(p) =~= arsv.take(k as int).filter(p));
                    assert(s.groups@[x] == olds.groups@[x]);
                }
            }
            assert forall|x: int, c: int|
                0 <= x < ng && 0 <= c < s.groups@[x].entries@.len() implies (exists|y: int|
                    0 <= y < k + 1 && (#[trigger] account_rows@[y]).0 == (
                    #[trigger] s.groups@[x].entries@[c]).id) by {
                if x == target as int && c == s.groups@[x].entries@.len() - 1 {
                    assert(account_rows@[k as int].0 == s.groups@[x].entries@[c].id);
                } else {
                    assert(s.groups@[x].entries@[c] == olds.groups@[x].entries@[c]);
                    let y = choose|y: int|
                        0 <= y < k && (#[trigger] account_rows@[y]).0 == olds.groups@[
                            x
                        ].entries@[c].id;
                    assert(0 <= y < k + 1 && account_rows@[y].0 == s.groups@[x].entries@[c].id);
                }
            }
        }
        k = k + 1;
    }
    proof {
        assert(arsv.take(na as int) =~= arsv);
    }
    Result::Ok(s)
}

/// Rewrites the database to hold exactly the given store's tree. The
/// database's answers are not assumed; the store is left untouched.
fn rebuild_mirror(conn: &mut rusqlite::Connection, store: &Store) -> (r: Result<(), StoreError>)
    ensures
        r matches Err(e) ==> e == StoreError::Database,
{
    // one transaction around the whole rewrite: either the new tree becomes
    // durable or the previous rows stay — never a partial mirror
    match db_execute_batch(conn, "BEGIN IMMEDIATE; DELETE FROM accounts; DELETE FROM groups;") {
        Result::Ok(()) => {},
        Result::Err(_) => {
            let _ = db_execute_batch(conn, "ROLLBACK;");
            return Result::Err(StoreError::Database);
        },
    }
    let mut i: usize = 0;
    while i < store.groups.len()
        decreases store.groups@.len() - i,
    {
        let gid = store.groups[i].id;
        let name = store.groups[i].name.clone();
        let url = copy_opt_string(&store.groups[i].url);
        let urlref = match &url {
            Option::Some(u) => Option::Some(u.as_str()),
            Option::None => Option::None,
        };
        match db_insert_group(conn, gid, name.as_str(), urlref) {
            Result::Ok(()) => {},
            Result::Err(_) => {
                let _ = db_execute_batch(conn, "ROLLBACK;");
                return Result::Err(StoreError::Database);
            },
        }
        let mut k: usize = 0;
        while k < store.groups[i].entries.len()
            invariant
                i < store.groups@.len(),
            decreases store.groups@[i as int].entries@.len() - k,
        {
            let a = &store.groups[i].entries[k];
            // the identifier doubles as the ordering value: it increases in
            // insertion order within a group and survives reopening
            match db_insert_account(
                conn,
                a.id,
                a.group_id,
                a.label.as_str(),
                a.secret.as_str(),
                a.id,
            ) {
                Result::Ok(()) => {},
                Result::Err(_) => {
                    let _ = db_execute_batch(conn, "ROLLBACK;");
                    return Result::Err(StoreError::Database);
                },
            }
            k = k + 1;
        }
        i = i + 1;
    }
    match db_execute_batch(conn, "COMMIT;") {
        Result::Ok(()) => Result::Ok(()),
        Result::Err(_) => {
            let _ = db_execute_batch(conn, "ROLLBACK;");
            Result::Err(StoreError::Database)
        },
    }
}

/// The persistence gateway: the in-memory store plus the one shared
/// connection to the embedded database. Callers that share it across
/// threads wrap it in a mutual-exclusion primitive and hold the guard for
/// one whole operation; every method here returns on every path, so the
/// guard is always released.
pub struct ConfigManager {
    pub store: Store,
    pub conn: rusqlite::Connection,
}

impl ConfigManager {
    /// Opens the gateway on a connection: migrates the schema and loads the
    /// whole tree, keeping every persisted identifier. Whatever the database
    /// held, an `Ok` gateway holds a well-formed store; every database
    /// failure is surfaced.
    pub fn open(conn: rusqlite::Connection) -> (r: Result<ConfigManager, StoreError>)
        ensures
            r matches Ok(m) ==> {
                &&& store_wf(m.store)
                &&& forall|i: int|
                    0 <= i < m.store.groups@.len() ==> (#[trigger] m.store.groups@[i]).icon
                        is None
            },
            r matches Err(e) ==> (e == StoreError::Database || e == StoreError::CorruptRows),
    {
        let mut conn = conn;
        match crate::migrate::run(&mut conn) {
            Result::Ok(()) => {},
            Result::Err(_) => {
                return Result::Err(StoreError::Database);
            },
        }
        let grs = match db_query_group_rows(&conn) {
            Result::Ok(v) => v,
            Result::Err(_) => {
                return Result::Err(StoreError::Database);
            },
        };
        let ars = match db_query_account_rows(&conn) {
            Result::Ok(v) => v,
            Result::Err(_) => {
                return Result::Err(StoreError::Database);
            },
        };
        let store = match from_rows(&grs, &ars) {
            Result::Ok(s) => s,
            Result::Err(e) => {
                return Result::Err(e);
            },
        };
        Result::Ok(ConfigManager { store, conn })
    }

    /// Adds a group: validates, mirrors the insert to the database first,
    /// then extends the store, so a database failure leaves the store
    /// exactly as it was.
    pub fn add_group(&mut self, name: String, icon: Option<String>, url: Option<String>) -> (r:
        Result<u32, StoreError>)
        requires
            store_wf(old(self).store),
        ensures
            store_wf(final(self).store),
            r matches Err(e) ==> {
                &&& final(self).store == old(self).store
                &&& (e == StoreError::EmptyName <==> name@.len() == 0)
                &&& (e == StoreError::IdsExhausted <==> name@.len() > 0 && old(
                    self,
                ).store.next_group_id == u32::MAX)
                &&& (e == StoreError::EmptyName || e == StoreError::IdsExhausted || e
                    == StoreError::Database)
            },
            r matches Ok(id) ==> {
                &&& id == old(self).store.next_group_id
                &&& final(self).store.next_group_id == id + 1
                &&& final(self).store.next_account_id == old(self).store.next_account_id
                &&& final(self).store.groups@.len() == old(self).store.groups@.len() + 1
                &&& final(self).store.groups@.subrange(0, old(self).store.groups@.len() as int)
                    == old(self).store.groups@
                &&& final(self).store.groups@.last().id == id
                &&& final(self).store.groups@.last().name == name
                &&& final(self).store.groups@.last().icon == icon
                &&& final(self).store.groups@.last().url == url
                &&& final(self).store.groups@.last().entries@.len() == 0
            },
    {
        if name.as_str().is_empty() {
            return Result::Err(StoreError::EmptyName);
        }
        if self.store.next_group_id == u32::MAX {
            return Result::Err(StoreError::IdsExhausted);
        }
        let id = self.store.next_group_id;
        let urlref = match &url {
            Option::Some(u) => Option::Some(u.as_str()),
            Option::None => Option::None,
        };
        match db_insert_group(&mut self.conn, id, name.as_str(), urlref) {
            Result::Ok(()) => {},
            Result::Err(_) => {
                return Result::Err(StoreError::Database);
            },
        }
        match self.store.add_group(name, icon, url) {
            Result::Ok(i2) => Result::Ok(i2),
            Result::Err(_) => {
                proof {
                    assert(false);
                }
                Result::Err(StoreError::Database)
            },
        }
    }

    /// Deletes a group: an empty group always deletes; a non-empty one is
    /// refused with `GroupNotEmpty`, never cascaded. The database delete
    /// runs first; on its failure the store is untouched.
    pub fn delete_group(&mut self, id: u32) -> (r: Result<(), StoreError>)
        requires
            store_wf(old(self).store),
        ensures
            store_wf(final(self).store),
            r matches Err(e) ==> {
                &&& final(self).store == old(self).store
                &&& (e == StoreError::GroupNotFound <==> !has_group(old(self).store.groups@, id))
                &&& (e == StoreError::GroupNotEmpty <==> has_group(old(self).store.groups@, id)
                    && old(self).store.groups@[group_index(old(self).store.groups@, id)].entries@
                    .len() > 0)
                &&& (e == StoreError::GroupNotFound || e == StoreError::GroupNotEmpty || e
                    == StoreError::Database)
            },
            r is Ok ==> {
                &&& has_group(old(self).store.groups@, id)
                &&& old(self).store.groups@[group_index(old(self).store.groups@, id)].entries@
                    .len() == 0
                &&& final(self).store.groups@ == old(self).store.groups@.remove(group_index(
                    old(self).store.groups@,
                    id,
                ))
                &&& final(self).store.next_group_id == old(self).store.next_group_id
                &&& final(self).store.next_account_id == old(self).store.next_account_id
            },
    {
        let found = self.store.find_group_entry_count(id);
        match found {
            Option::None => {
                return Result::Err(StoreError::GroupNotFound);
            },
            Option::Some(count) => {
                if count > 0 {
                    return Result::Err(StoreError::GroupNotEmpty);
                }
            },
        }
        match db_delete_group(&mut self.conn, id) {
            Result::Ok(()) => {},
            Result::Err(_) => {
                return Result::Err(StoreError::Database);
            },
        }
        match self.store.delete_group(id) {
            Result::Ok(()) => Result::Ok(()),
            Result::Err(_) => {
                proof {
                    assert(false);
                }
                Result::Err(StoreError::Database)
            },
        }
    }

    /// Adds an account to a group: validates against the store, mirrors the
    /// insert first, then extends the store.
    pub fn add_account(&mut self, group_id: u32, label: String, secret: String) -> (r: Result<
        u32,
        StoreError,
    >)
        requires
            store_wf(old(self).store),
        ensures
            store_wf(final(self).store),
            r matches Err(e) ==> {
                &&& final(self).store == old(self).store
                &&& (e == StoreError::GroupNotFound <==> !has_group(
                    old(self).store.groups@,
                    group_id,
                ))
                &&& (e == StoreError::EmptySecret <==> has_group(old(self).store.groups@, group_id)
                    && secret@.len() == 0)
                &&& (e == StoreError::IdsExhausted <==> has_group(
                    old(self).store.groups@,
                    group_id,
                ) && secret@.len() > 0 && old(self).store.next_account_id == u32::MAX)
                &&& (e == StoreError::GroupNotFound || e == StoreError::EmptySecret || e
                    == StoreError::IdsExhausted || e == StoreError::Database)
            },
            r matches Ok(id) ==> {
                &&& id == old(self).store.next_account_id
                &&& final(self).store.next_account_id == id + 1
                &&& final(self).store.next_group_id == old(self).store.next_group_id
                &&& final(self).store.groups@.len() == old(self).store.groups@.len()
                &&& forall|j: int|
                    0 <= j < old(self).store.groups@.len() && j != group_index(
                        old(self).store.groups@,
                        group_id,
                    ) ==> final(self).store.groups@[j] == old(self).store.groups@[j]
                &&& final(self).store.groups@[group_index(old(self).store.groups@, group_id)]
                    .entries@ == old(self).store.groups@[group_index(
                    old(self).store.groups@,
                    group_id,
                )].entries@.push(
                    (Account { id: id, group_id: group_id, label: label, secret: secret }),
                )
                &&& {
                    let gi = group_index(old(self).store.groups@, group_id);
                    &&& final(self).store.groups@[gi].id == group_id
                    &&& final(self).store.groups@[gi].name == old(self).store.groups@[gi].name
                    &&& final(self).store.groups@[gi].icon == old(self).store.groups@[gi].icon
                    &&& final(self).store.groups@[gi].url == old(self).store.groups@[gi].url
                }
            },
    {
        let found = self.store.find_group_entry_count(group_id);
        match found {
            Option::None => {
                return Result::Err(StoreError::GroupNotFound);
            },
            Option::Some(_) => {},
        }
        if secret.as_str().is_empty() {
            return Result::Err(StoreError::EmptySecret);
        }
        if self.store.next_account_id == u32::MAX {
            return Result::Err(StoreError::IdsExhausted);
        }
        let id = self.store.next_account_id;
        // the identifier doubles as the ordering value: it increases in
        // insertion order within a group and survives reopening
        match db_insert_account(
            &mut self.conn,
            id,
            group_id,
            label.as_str(),
            secret.as_str(),
            id,
        ) {
            Result::Ok(()) => {},
            Result::Err(_) => {
                return Result::Err(StoreError::Database);
            },
        }
        match self.store.add_account(group_id, label, secret) {
            Result::Ok(i2) => Result::Ok(i2),
            Result::Err(_) => {
                proof {
                    assert(false);
                }
                Result::Err(StoreError::Database)
            },
        }
    }

    /// Replaces name, icon and url of a group, keeping its entries; the
    /// database update runs first.
    pub fn update_group(&mut self, id: u32, name: String, icon: Option<String>, url: Option<
        String,
    >) -> (r: Result<(), StoreError>)
        requires
            store_wf(old(self).store),
        ensures
            store_wf(final(self).store),
            r matches Err(e) ==> {
                &&& final(self).store == old(self).store
                &&& (e == StoreError::GroupNotFound <==> !has_group(old(self).store.groups@, id))
                &&& (e == StoreError::EmptyName <==> has_group(old(self).store.groups@, id)
                    && name@.len() == 0)
                &&& (e == StoreError::GroupNotFound || e == StoreError::EmptyName || e
                    == StoreError::Database)
            },
            r is Ok ==> {
                &&& has_group(old(self).store.groups@, id)
                &&& final(self).store.groups@.len() == old(self).store.groups@.len()
                &&& forall|j: int|
                    0 <= j < old(self).store.groups@.len() && j != group_index(
                        old(self).store.groups@,
                        id,
                    ) ==> final(self).store.groups@[j] == old(self).store.groups@[j]
                &&& final(self).store.groups@[group_index(old(self).store.groups@, id)].id
                    == id
                &&& final(self).store.groups@[group_index(old(self).store.groups@, id)].name
                    == name
                &&& final(self).store.groups@[group_index(old(self).store.groups@, id)].icon
                    == icon
                &&& final(self).store.groups@[group_index(old(self).store.groups@, id)].url == url
                &&& final(self).store.groups@[group_index(old(self).store.groups@, id)].entries
                    == old(self).store.groups@[group_index(old(self).store.groups@, id)].entries
            },
    {
        match self.store.find_group_entry_count(id) {
            Option::None => {
                return Result::Err(StoreError::GroupNotFound);
            },
            Option::Some(_) => {},
        }
        if name.as_str().is_empty() {
            return Result::Err(StoreError::EmptyName);
        }
        let urlref = match &url {
            Option::Some(u) => Option::Some(u.as_str()),
            Option::None => Option::None,
        };
        match db_update_group(&mut self.conn, id, name.as_str(), urlref) {
            Result::Ok(()) => {},
            Result::Err(_) => {
                return Result::Err(StoreError::Database);
            },
        }
        match self.store.update_group(id, name, icon, url) {
            Result::Ok(()) => Result::Ok(()),
            Result::Err(_) => {
                proof {
                    assert(false);
                }
                Result::Err(StoreError::Database)
            },
        }
    }

    /// Replaces label and secret of an account, keeping its identity and
    /// position; the database update runs first.
    pub fn update_account(&mut self, id: u32, label: String, secret: String) -> (r: Result<
        (),
        StoreError,
    >)
        requires
            store_wf(old(self).store),
        ensures
            store_wf(final(self).store),
            r matches Err(e) ==> {
                &&& final(self).store == old(self).store
                &&& (e == StoreError::AccountNotFound <==> !has_account(
                    old(self).store.groups@,
                    id,
                ))
                &&& (e == StoreError::EmptySecret <==> has_account(old(self).store.groups@, id)
                    && secret@.len() == 0)
                &&& (e == StoreError::AccountNotFound || e == StoreError::EmptySecret || e
                    == StoreError::Database)
            },
            r is Ok ==> {
                &&& has_account(old(self).store.groups@, id)
                &&& final(self).store.groups@.len() == old(self).store.groups@.len()
                &&& forall|j: int|
                    0 <= j < old(self).store.groups@.len() && j != account_pos(
                        old(self).store.groups@,
                        id,
                    ).0 ==> final(self).store.groups@[j] == old(self).store.groups@[j]
                &&& {
                    let p = account_pos(old(self).store.groups@, id);
                    let oldg = old(self).store.groups@[p.0];
                    let newg = final(self).store.groups@[p.0];
                    &&& newg.id == oldg.id
                    &&& newg.name == oldg.name
                    &&& newg.icon == oldg.icon
                    &&& newg.url == oldg.url
                    &&& newg.entries@.len() == oldg.entries@.len()
                    &&& forall|l: int|
                        0 <= l < oldg.entries@.len() && l != p.1 ==> newg.entries@[l]
                            == oldg.entries@[l]
                    &&& newg.entries@[p.1].id == id
                    &&& newg.entries@[p.1].group_id == oldg.entries@[p.1].group_id
                    &&& newg.entries@[p.1].label == label
                    &&& newg.entries@[p.1].secret == secret
                }
            },
    {
        if !self.store.has_account_with_id(id) {
            return Result::Err(StoreError::AccountNotFound);
        }
        if secret.as_str().is_empty() {
            return Result::Err(StoreError::EmptySecret);
        }
        match db_update_account(&mut self.conn, id, label.as_str(), secret.as_str()) {
            Result::Ok(()) => {},
            Result::Err(_) => {
                return Result::Err(StoreError::Database);
            },
        }
        match self.store.update_account(id, label, secret) {
            Result::Ok(()) => Result::Ok(()),
            Result::Err(_) => {
                proof {
                    assert(false);
                }
                Result::Err(StoreError::Database)
            },
        }
    }

    /// Deletes an account by identifier; the database delete runs first.
    pub fn delete_account(&mut self, id: u32) -> (r: Result<(), StoreError>)
        requires
            store_wf(old(self).store),
        ensures
            store_wf(final(self).store),
            r matches Err(e) ==> {
                &&& final(self).store == old(self).store
                &&& (e == StoreError::AccountNotFound <==> !has_account(
                    old(self).store.groups@,
                    id,
                ))
                &&& (e == StoreError::AccountNotFound || e == StoreError::Database)
            },
            r is Ok ==> {
                &&& has_account(old(self).store.groups@, id)
                &&& final(self).store.groups@.len() == old(self).store.groups@.len()
                &&& forall|j: int|
                    0 <= j < old(self).store.groups@.len() && j != account_pos(
                        old(self).store.groups@,
                        id,
                    ).0 ==> final(self).store.groups@[j] == old(self).store.groups@[j]
                &&& {
                    let p = account_pos(old(self).store.groups@, id);
                    let oldg = old(self).store.groups@[p.0];
                    let newg = final(self).store.groups@[p.0];
                    &&& newg.id == oldg.id
                    &&& newg.name == oldg.name
                    &&& newg.icon == oldg.icon
                    &&& newg.url == oldg.url
                    &&& newg.entries@ == oldg.entries@.remove(p.1)
                }
            },
    {
        if !self.store.has_account_with_id(id) {
            return Result::Err(StoreError::AccountNotFound);
        }
        match db_delete_account(&mut self.conn, id) {
            Result::Ok(()) => {},
            Result::Err(_) => {
                return Result::Err(StoreError::Database);
            },
        }
        match self.store.delete_account(id) {
            Result::Ok(()) => Result::Ok(()),
            Result::Err(_) => {
                proof {
                    assert(false);
                }
                Result::Err(StoreError::Database)
            },
        }
    }

    /// The whole tree, exported as backup bytes: the compute half of the
    /// asynchronous export; the caller writes the bytes to the destination
    /// atomically (write to a temporary file, then move into place).
    pub fn save_accounts(&self) -> (out: Vec<u8>)
        ensures
            out@ == spec_ser_backup(tree_data(self.store.groups@)),
    {
        self.store.export_bytes()
    }

    /// Replaces the whole store from backup bytes as one logical step and
    /// mirrors the new tree to the database. On malformed bytes — or a
    /// database failure — the in-memory store is left exactly as it was and
    /// failure is reported.
    pub fn restore_accounts(&mut self, data: &[u8]) -> (ok: bool)
        requires
            store_wf(old(self).store),
        ensures
            store_wf(final(self).store),
            ok ==> spec_parse_backup(data@) == Option::Some(tree_data(final(self).store.groups@)),
            !ok ==> final(self).store == old(self).store,
            (match spec_parse_backup(data@) {
                Option::Some(gs) => !backup_fits(gs),
                Option::None => true,
            }) ==> !ok,
    {
        match Store::from_backup(data) {
            Option::None => false,
            Option::Some(new_store) => {
                match rebuild_mirror(&mut self.conn, &new_store) {
                    Result::Ok(()) => {
                        self.store = new_store;
                        true
                    },
                    Result::Err(_) => false,
                }
            },
        }
    }

    /// Reads all groups and their entries, preserving order: a deep copy of
    /// the store's tree.
    pub fn load_account_groups(&self) -> (r: Vec<AccountGroup>)
        ensures
            groups_like(r@, self.store.groups@),
    {
        self.store.load_account_groups()
    }
}

} // verus!
