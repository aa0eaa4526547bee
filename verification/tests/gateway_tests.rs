use authenticator_store::gateway::ConfigManager;
use authenticator_store::migrate;
use authenticator_store::model::StoreError;

fn fresh_gateway() -> ConfigManager {
    let conn = rusqlite::Connection::open_in_memory().unwrap();
    ConfigManager::open(conn).unwrap()
}

#[test]
fn open_on_a_fresh_database_yields_an_empty_store() {
    let m = fresh_gateway();
    assert_eq!(m.load_account_groups().len(), 0);
}

#[test]
fn migration_runs_twice_without_error_and_keeps_the_version() {
    let mut conn = rusqlite::Connection::open_in_memory().unwrap();
    assert_eq!(migrate::run(&mut conn), Ok(()));
    let v1: u32 = conn
        .query_row("SELECT user_version FROM pragma_user_version", [], |r| r.get(0))
        .unwrap();
    assert_eq!(v1, migrate::SCHEMA_VERSION);
    let tables1: u32 = conn
        .query_row(
            "SELECT count(*) FROM sqlite_master WHERE type = 'table' AND name IN ('groups', 'accounts')",
            [],
            |r| r.get(0),
        )
        .unwrap();
    assert_eq!(tables1, 2);

    // second run: identical schema state, no error
    assert_eq!(migrate::run(&mut conn), Ok(()));
    let v2: u32 = conn
        .query_row("SELECT user_version FROM pragma_user_version", [], |r| r.get(0))
        .unwrap();
    assert_eq!(v2, v1);
    let tables2: u32 = conn
        .query_row(
            "SELECT count(*) FROM sqlite_master WHERE type = 'table' AND name IN ('groups', 'accounts')",
            [],
            |r| r.get(0),
        )
        .unwrap();
    assert_eq!(tables2, tables1);
}

#[test]
fn gateway_mirrors_the_scenario_through_the_database() {
    let mut m = fresh_gateway();
    let gid = m.add_group(String::from("Work"), None, None).unwrap();
    m.add_account(gid, String::from("GitHub"), String::from("JBSWY3DPEHPK3PXP")).unwrap();
    let groups = m.load_account_groups();
    assert_eq!(groups.len(), 1);
    assert_eq!(groups[0].name, "Work");
    assert_eq!(groups[0].entries[0].label, "GitHub");
    assert_eq!(groups[0].entries[0].secret, "JBSWY3DPEHPK3PXP");

    // the mirror holds the same rows
    let n: u32 = m
        .conn
        .query_row("SELECT count(*) FROM accounts", [], |r| r.get(0))
        .unwrap();
    assert_eq!(n, 1);
}

#[test]
fn gateway_validation_errors_match_the_store() {
    let mut m = fresh_gateway();
    assert_eq!(m.add_group(String::new(), None, None), Err(StoreError::EmptyName));
    assert_eq!(
        m.add_account(9, String::from("X"), String::from("Y")),
        Err(StoreError::GroupNotFound)
    );
    let gid = m.add_group(String::from("Work"), None, None).unwrap();
    assert_eq!(
        m.add_account(gid, String::from("X"), String::new()),
        Err(StoreError::EmptySecret)
    );
    m.add_account(gid, String::from("X"), String::from("Y")).unwrap();
    assert_eq!(m.delete_group(gid), Err(StoreError::GroupNotEmpty));
}

#[test]
fn export_clear_import_reproduces_the_tree() {
    let mut m = fresh_gateway();
    let gid = m.add_group(String::from("Work"), None, None).unwrap();
    let aid = m.add_account(gid, String::from("GitHub"), String::from("JBSWY3DPEHPK3PXP")).unwrap();
    let bytes = m.save_accounts();

    // clear the store
    m.delete_account(aid).unwrap();
    m.delete_group(gid).unwrap();
    assert_eq!(m.load_account_groups().len(), 0);

    // import from the saved backup
    assert!(m.restore_accounts(&bytes));
    let groups = m.load_account_groups();
    assert_eq!(groups.len(), 1);
    assert_eq!(groups[0].name, "Work");
    assert_eq!(groups[0].entries.len(), 1);
    assert_eq!(groups[0].entries[0].label, "GitHub");
}

#[test]
fn restore_from_malformed_bytes_keeps_the_store() {
    let mut m = fresh_gateway();
    let gid = m.add_group(String::from("Work"), None, None).unwrap();
    m.add_account(gid, String::from("GitHub"), String::from("JBSWY3DPEHPK3PXP")).unwrap();
    assert!(!m.restore_accounts(b"version:1\ng:Broken"));
    let groups = m.load_account_groups();
    assert_eq!(groups.len(), 1);
    assert_eq!(groups[0].name, "Work");
    assert_eq!(groups[0].entries.len(), 1);
}

#[test]
fn reopening_the_same_database_reloads_the_tree() {
    let conn = rusqlite::Connection::open_in_memory().unwrap();
    let mut m = ConfigManager::open(conn).unwrap();
    let gid = m.add_group(String::from("Work"), None, Some(String::from("https://w.example")))
        .unwrap();
    m.add_account(gid, String::from("GitHub"), String::from("JBSWY3DPEHPK3PXP")).unwrap();
    m.add_account(gid, String::from("Mail"), String::from("AAAABBBB")).unwrap();

    let before = m.load_account_groups();

    // hand the same connection to a second gateway: it loads wholesale
    let m2 = ConfigManager::open(m.conn).unwrap();
    let groups = m2.load_account_groups();
    assert_eq!(groups.len(), 1);
    assert_eq!(groups[0].name, "Work");
    assert_eq!(groups[0].url.as_deref(), Some("https://w.example"));
    assert_eq!(groups[0].entries.len(), 2);
    assert_eq!(groups[0].entries[0].label, "GitHub");
    assert_eq!(groups[0].entries[1].label, "Mail");
    // identifiers are stable across reopening
    assert_eq!(groups[0].id, before[0].id);
    assert_eq!(groups[0].entries[0].id, before[0].entries[0].id);
    assert_eq!(groups[0].entries[1].id, before[0].entries[1].id);
}

#[test]
fn identifiers_survive_reopen_after_deletions() {
    let conn = rusqlite::Connection::open_in_memory().unwrap();
    let mut m = ConfigManager::open(conn).unwrap();
    let g1 = m.add_group(String::from("One"), None, None).unwrap();
    let g2 = m.add_group(String::from("Two"), None, None).unwrap();
    m.delete_group(g1).unwrap();
    let a = m.add_account(g2, String::from("X"), String::from("S1")).unwrap();

    let m2 = ConfigManager::open(m.conn).unwrap();
    let groups = m2.load_account_groups();
    assert_eq!(groups.len(), 1);
    assert_eq!(groups[0].id, g2);
    assert_eq!(groups[0].entries[0].id, a);
    assert_eq!(groups[0].entries[0].group_id, g2);
}

#[test]
fn entry_order_survives_reopen_after_deletions() {
    let conn = rusqlite::Connection::open_in_memory().unwrap();
    let mut m = ConfigManager::open(conn).unwrap();
    let gid = m.add_group(String::from("Work"), None, None).unwrap();
    let a1 = m.add_account(gid, String::from("one"), String::from("S1")).unwrap();
    let a2 = m.add_account(gid, String::from("two"), String::from("S2")).unwrap();
    m.add_account(gid, String::from("three"), String::from("S3")).unwrap();
    m.delete_account(a1).unwrap();
    m.delete_account(a2).unwrap();
    m.add_account(gid, String::from("four"), String::from("S4")).unwrap();
    let before: Vec<String> =
        m.load_account_groups()[0].entries.iter().map(|a| a.label.clone()).collect();
    assert_eq!(before, vec!["three".to_string(), "four".to_string()]);

    let m2 = ConfigManager::open(m.conn).unwrap();
    let after: Vec<String> =
        m2.load_account_groups()[0].entries.iter().map(|a| a.label.clone()).collect();
    assert_eq!(after, before);
}

#[test]
fn restored_tree_survives_reopen() {
    let conn = rusqlite::Connection::open_in_memory().unwrap();
    let mut m = ConfigManager::open(conn).unwrap();
    let gid = m.add_group(String::from("Work"), None, None).unwrap();
    m.add_account(gid, String::from("GitHub"), String::from("JBSWY3DPEHPK3PXP")).unwrap();
    let bytes = m.save_accounts();

    let conn2 = rusqlite::Connection::open_in_memory().unwrap();
    let mut n = ConfigManager::open(conn2).unwrap();
    assert!(n.restore_accounts(&bytes));

    // the transactional mirror rewrite left a loadable database behind
    let n2 = ConfigManager::open(n.conn).unwrap();
    let groups = n2.load_account_groups();
    assert_eq!(groups.len(), 1);
    assert_eq!(groups[0].name, "Work");
    assert_eq!(groups[0].entries[0].label, "GitHub");
    assert_eq!(groups[0].entries[0].secret, "JBSWY3DPEHPK3PXP");
}
