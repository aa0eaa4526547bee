use authenticator_store::model::{Account, AccountGroup, StoreError};
use authenticator_store::store::Store;

#[test]
fn empty_store_add_group_and_account_then_load() {
    let mut s = Store::new();
    let gid = s.add_group(String::from("Work"), None, None).unwrap();
    let aid = s
        .add_account(gid, String::from("GitHub"), String::from("JBSWY3DPEHPK3PXP"))
        .unwrap();
    let groups = s.load_account_groups();
    assert_eq!(groups.len(), 1);
    assert_eq!(groups[0].name, "Work");
    assert_eq!(groups[0].url, None);
    assert_eq!(groups[0].entries.len(), 1);
    assert_eq!(groups[0].entries[0].label, "GitHub");
    assert_eq!(groups[0].entries[0].secret, "JBSWY3DPEHPK3PXP");
    assert_eq!(groups[0].entries[0].id, aid);
    assert_eq!(groups[0].entries[0].group_id, gid);
}

#[test]
fn add_group_empty_name_is_refused() {
    let mut s = Store::new();
    assert_eq!(s.add_group(String::new(), None, None), Err(StoreError::EmptyName));
    assert_eq!(s.load_account_groups().len(), 0);
}

#[test]
fn add_account_empty_secret_is_refused() {
    let mut s = Store::new();
    let gid = s.add_group(String::from("Work"), None, None).unwrap();
    assert_eq!(
        s.add_account(gid, String::from("GitHub"), String::new()),
        Err(StoreError::EmptySecret)
    );
    assert_eq!(s.load_account_groups()[0].entries.len(), 0);
}

#[test]
fn add_account_to_missing_group_is_refused() {
    let mut s = Store::new();
    assert_eq!(
        s.add_account(7, String::from("GitHub"), String::from("SECRET-REDACTED")),
        Err(StoreError::GroupNotFound)
    );
}

#[test]
fn delete_empty_group_always_succeeds() {
    let mut s = Store::new();
    let gid = s.add_group(String::from("Work"), None, None).unwrap();
    assert_eq!(s.delete_group(gid), Ok(()));
    assert_eq!(s.load_account_groups().len(), 0);
}

#[test]
fn delete_group_with_entries_always_fails_and_never_cascades() {
    let mut s = Store::new();
    let gid = s.add_group(String::from("Work"), None, None).unwrap();
    let aid = s
        .add_account(gid, String::from("GitHub"), String::from("JBSWY3DPEHPK3PXP"))
        .unwrap();
    assert_eq!(s.delete_group(gid), Err(StoreError::GroupNotEmpty));
    let groups = s.load_account_groups();
    assert_eq!(groups.len(), 1);
    assert_eq!(groups[0].entries.len(), 1);
    // once the entry is gone, the delete goes through
    assert_eq!(s.delete_account(aid), Ok(()));
    assert_eq!(s.delete_group(gid), Ok(()));
    assert_eq!(s.load_account_groups().len(), 0);
}

#[test]
fn delete_missing_group_reports_not_found() {
    let mut s = Store::new();
    assert_eq!(s.delete_group(3), Err(StoreError::GroupNotFound));
}

#[test]
fn update_group_replaces_name_and_url() {
    let mut s = Store::new();
    let gid = s.add_group(String::from("Work"), None, None).unwrap();
    s.update_group(gid, String::from("Personal"), None, Some(String::from("https://example.org")))
        .unwrap();
    let groups = s.load_account_groups();
    assert_eq!(groups[0].name, "Personal");
    assert_eq!(groups[0].url.as_deref(), Some("https://example.org"));
    assert_eq!(
        s.update_group(99, String::from("X"), None, None),
        Err(StoreError::GroupNotFound)
    );
    assert_eq!(
        s.update_group(gid, String::new(), None, None),
        Err(StoreError::EmptyName)
    );
}

#[test]
fn update_account_replaces_label_and_secret() {
    let mut s = Store::new();
    let gid = s.add_group(String::from("Work"), None, None).unwrap();
    let aid = s
        .add_account(gid, String::from("GitHub"), String::from("JBSWY3DPEHPK3PXP"))
        .unwrap();
    s.update_account(aid, String::from("GitLab"), String::from("AAAABBBBCCCCDDDD")).unwrap();
    let groups = s.load_account_groups();
    assert_eq!(groups[0].entries[0].label, "GitLab");
    assert_eq!(groups[0].entries[0].secret, "AAAABBBBCCCCDDDD");
    assert_eq!(groups[0].entries[0].id, aid);
    assert_eq!(
        s.update_account(aid, String::from("X"), String::new()),
        Err(StoreError::EmptySecret)
    );
    assert_eq!(
        s.update_account(999, String::from("X"), String::from("Y")),
        Err(StoreError::AccountNotFound)
    );
}

#[test]
fn delete_account_keeps_order_of_the_rest() {
    let mut s = Store::new();
    let gid = s.add_group(String::from("Work"), None, None).unwrap();
    let a1 = s.add_account(gid, String::from("one"), String::from("S1")).unwrap();
    let a2 = s.add_account(gid, String::from("two"), String::from("S2")).unwrap();
    let a3 = s.add_account(gid, String::from("three"), String::from("S3")).unwrap();
    assert!(a1 < a2 && a2 < a3);
    s.delete_account(a2).unwrap();
    let groups = s.load_account_groups();
    assert_eq!(groups[0].entries.len(), 2);
    assert_eq!(groups[0].entries[0].label, "one");
    assert_eq!(groups[0].entries[1].label, "three");
    assert_eq!(s.delete_account(a2), Err(StoreError::AccountNotFound));
}

#[test]
fn export_then_import_reproduces_the_tree() {
    let mut s = Store::new();
    let g1 = s.add_group(String::from("Work"), Some(String::from("work.png")), None).unwrap();
    s.add_account(g1, String::from("GitHub"), String::from("JBSWY3DPEHPK3PXP")).unwrap();
    s.add_account(g1, String::from("Mail"), String::from("AAAABBBB")).unwrap();
    let g2 = s
        .add_group(String::from("Home"), None, Some(String::from("https://example.com")))
        .unwrap();
    s.add_account(g2, String::from("Bank"), String::from("CCCCDDDD")).unwrap();
    let bytes = s.export_bytes();

    let mut t = Store::new();
    assert!(t.import_bytes(&bytes));
    let groups = t.load_account_groups();
    assert_eq!(groups.len(), 2);
    assert_eq!(groups[0].name, "Work");
    // the icon is runtime-only and is not serialized
    assert_eq!(groups[0].icon, None);
    assert_eq!(groups[0].url, None);
    assert_eq!(groups[0].entries.len(), 2);
    assert_eq!(groups[0].entries[0].label, "GitHub");
    assert_eq!(groups[0].entries[0].secret, "JBSWY3DPEHPK3PXP");
    assert_eq!(groups[0].entries[1].label, "Mail");
    assert_eq!(groups[1].name, "Home");
    assert_eq!(groups[1].url.as_deref(), Some("https://example.com"));
    assert_eq!(groups[1].entries[0].label, "Bank");
}

#[test]
fn import_of_malformed_bytes_leaves_the_store_untouched() {
    let mut s = Store::new();
    let gid = s.add_group(String::from("Work"), None, None).unwrap();
    s.add_account(gid, String::from("GitHub"), String::from("JBSWY3DPEHPK3PXP")).unwrap();
    let before = s.load_account_groups();

    assert!(!s.import_bytes(b"not a backup at all"));
    assert!(!s.import_bytes(b"version:1\ng:Work"));
    assert!(!s.import_bytes(b"version:1\na:orphan:SECRET-REDACTED\n"));
    assert!(!s.import_bytes(b""));

    let after = s.load_account_groups();
    assert_eq!(before.len(), after.len());
    assert_eq!(before[0].name, after[0].name);
    assert_eq!(before[0].entries.len(), after[0].entries.len());
    assert_eq!(before[0].entries[0].label, after[0].entries[0].label);
    assert_eq!(before[0].entries[0].secret, after[0].entries[0].secret);
}

#[test]
fn account_group_new_builds_the_value() {
    let a = Account::new(5, 2, "GitHub", "JBSWY3DPEHPK3PXP");
    let g = AccountGroup::new(2, "Work", Some("work.png"), None, vec![a]);
    assert_eq!(g.id, 2);
    assert_eq!(g.name, "Work");
    assert_eq!(g.icon.as_deref(), Some("work.png"));
    assert_eq!(g.url, None);
    assert_eq!(g.entries.len(), 1);
    assert_eq!(g.entries[0].label, "GitHub");
    assert_eq!(g.entries[0].group_id, 2);
}
