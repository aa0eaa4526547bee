//! Data model: accounts, account groups, and the error kinds of the store.

use vstd::prelude::*;

verus! {

/// One TOTP credential. Belongs to exactly one [`AccountGroup`]; the secret
/// is never empty.
#[derive(Debug, Clone)]
pub struct Account {
    pub id: u32,
    pub group_id: u32,
    pub label: String,
    pub secret: String,
}

/// A named, ordered collection of accounts. `icon` is runtime-only state and
/// is neither serialized into backups nor persisted to the database.
#[derive(Debug, Clone)]
pub struct AccountGroup {
    pub id: u32,
    pub name: String,
    pub icon: Option<String>,
    pub url: Option<String>,
    pub entries: Vec<Account>,
}

/// Validation and database errors of the persistence layer.
#[derive(Debug, Clone, Copy, PartialEq, Eq, Structural)]
pub enum StoreError {
    /// A group name was empty.
    EmptyName,
    /// An account secret was empty.
    EmptySecret,
    /// The named group does not exist.
    GroupNotFound,
    /// The named account does not exist.
    AccountNotFound,
    /// The group still holds entries, and deletion does not cascade.
    GroupNotEmpty,
    /// No further identifiers can be assigned.
    IdsExhausted,
    /// Rows read back from the database were not a well-formed store.
    CorruptRows,
    /// The embedded database refused an operation.
    Database,
}

/// A schema migration could not be applied; fatal to store initialization.
#[derive(Debug, Clone, Copy, PartialEq, Eq, Structural)]
pub enum MigrationError {
    /// The embedded database refused a migration step.
    Database,
}

/// The logical content of one account as far as backups are concerned.
#[verifier::ext_equal]
pub struct EntryData {
    pub label: Seq<char>,
    pub secret: Seq<char>,
}

/// The logical content of one group as far as backups are concerned:
/// identifiers and icons are runtime-only and are left out.
#[verifier::ext_equal]
pub struct GroupData {
    pub name: Seq<char>,
    pub url: Option<Seq<char>>,
    pub entries: Seq<EntryData>,
}

pub open spec fn opt_view(o: Option<String>) -> Option<Seq<char>> {
    match o {
        Option::Some(s) => Option::Some(s@),
        Option::None => Option::None,
    }
}

pub open spec fn account_data(a: Account) -> EntryData {
    EntryData { label: a.label@, secret: a.secret@ }
}

pub open spec fn group_data(g: AccountGroup) -> GroupData {
    GroupData {
        name: g.name@,
        url: opt_view(g.url),
        entries: g.entries@.map_values(|a: Account| account_data(a)),
    }
}

/// The whole group/account tree reduced to its logical content.
pub open spec fn tree_data(gs: Seq<AccountGroup>) -> Seq<GroupData> {
    gs.map_values(|g: AccountGroup| group_data(g))
}

pub open spec fn entry_data_wf(e: EntryData) -> bool {
    e.secret.len() > 0
}

pub open spec fn group_data_wf(g: GroupData) -> bool {
    &&& g.name.len() > 0
    &&& forall|k: int| 0 <= k < g.entries.len() ==> entry_data_wf(#[trigger] g.entries[k])
}

/// Every group has a name and every secret is non-empty.
pub open spec fn backup_wf(gs: Seq<GroupData>) -> bool {
    forall|i: int| 0 <= i < gs.len() ==> group_data_wf(#[trigger] gs[i])
}

impl AccountGroup {
    /// Builds a group value; identifiers are ordinarily assigned by the store.
    pub fn new(
        id: u32,
        name: &str,
        icon: Option<&str>,
        url: Option<&str>,
        entries: Vec<Account>,
    ) -> (g: AccountGroup)
        ensures
            g.id == id,
            g.name@ == name@,
            opt_view(g.icon) == (match icon {
                Option::Some(s) => Option::Some(s@),
                Option::None => Option::None,
            }),
            opt_view(g.url) == (match url {
                Option::Some(s) => Option::Some(s@),
                Option::None => Option::None,
            }),
            g.entries == entries,
    {
        AccountGroup {
            id,
            name: name.to_owned(),
            icon: match icon {
                Option::Some(s) => Option::Some(s.to_owned()),
                Option::None => Option::None,
            },
            url: match url {
                Option::Some(s) => Option::Some(s.to_owned()),
                Option::None => Option::None,
            },
            entries,
        }
    }
}

impl Account {
    /// Builds an account value; identifiers are ordinarily assigned by the store.
    pub fn new(id: u32, group_id: u32, label: &str, secret: &str) -> (a: Account)
        ensures
            a.id == id,
            a.group_id == group_id,
            a.label@ == label@,
            a.secret@ == secret@,
    {
        Account { id, group_id, label: label.to_owned(), secret: secret.to_owned() }
    }
}

} // verus!
