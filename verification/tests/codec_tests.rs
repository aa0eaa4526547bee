use authenticator_store::store::Store;

#[test]
fn backup_bytes_have_the_documented_shape() {
    let mut s = Store::new();
    let gid = s.add_group(String::from("Work"), None, None).unwrap();
    s.add_account(gid, String::from("GitHub"), String::from("JBSWY3DPEHPK3PXP")).unwrap();
    let bytes = s.export_bytes();
    assert_eq!(bytes, b"version:1\ng:Work\na:GitHub:JBSWY3DPEHPK3PXP\n".to_vec());
}

#[test]
fn empty_store_exports_just_the_header() {
    let s = Store::new();
    assert_eq!(s.export_bytes(), b"version:1\n".to_vec());
}

#[test]
fn url_line_appears_only_when_present() {
    let mut s = Store::new();
    s.add_group(String::from("Home"), None, Some(String::from("https://example.com"))).unwrap();
    let bytes = s.export_bytes();
    // the colon inside the field is escaped as `\c`
    assert_eq!(bytes, b"version:1\ng:Home\nu:https\\c//example.com\n".to_vec());

    let mut t = Store::new();
    assert!(t.import_bytes(&bytes));
    assert_eq!(t.load_account_groups()[0].url.as_deref(), Some("https://example.com"));
}

#[test]
fn separators_in_fields_are_escaped_and_round_trip() {
    let mut s = Store::new();
    let gid = s.add_group(String::from("a:b\nc\\d"), None, None).unwrap();
    s.add_account(gid, String::from("l:l\\l\nl"), String::from("s:s")).unwrap();
    let bytes = s.export_bytes();
    // one header line, one group line, one account line: raw newlines only
    // ever end a line
    assert_eq!(bytes.iter().filter(|&&b| b == b'\n').count(), 3);

    let mut t = Store::new();
    assert!(t.import_bytes(&bytes));
    let groups = t.load_account_groups();
    assert_eq!(groups[0].name, "a:b\nc\\d");
    assert_eq!(groups[0].entries[0].label, "l:l\\l\nl");
    assert_eq!(groups[0].entries[0].secret, "s:s");
}

#[test]
fn non_ascii_fields_round_trip() {
    let mut s = Store::new();
    let gid = s.add_group(String::from("Büro"), None, None).unwrap();
    s.add_account(gid, String::from("メール"), String::from("SÉCRET")).unwrap();
    let bytes = s.export_bytes();
    let mut t = Store::new();
    assert!(t.import_bytes(&bytes));
    let groups = t.load_account_groups();
    assert_eq!(groups[0].name, "Büro");
    assert_eq!(groups[0].entries[0].label, "メール");
    assert_eq!(groups[0].entries[0].secret, "SÉCRET");
}

#[test]
fn malformed_backups_are_rejected() {
    let mut s = Store::new();
    // wrong header
    assert!(!s.import_bytes(b"version:2\n"));
    // truncated: record without its final newline
    assert!(!s.import_bytes(b"version:1\ng:Work"));
    // bad escape
    assert!(!s.import_bytes(b"version:1\ng:Wo\\xrk\n"));
    // empty group name
    assert!(!s.import_bytes(b"version:1\ng:\n"));
    // empty secret
    assert!(!s.import_bytes(b"version:1\ng:Work\na:GitHub:\n"));
    // account line before any group
    assert!(!s.import_bytes(b"version:1\na:GitHub:JBSWY3DPEHPK3PXP\n"));
    // invalid UTF-8 in a field
    assert!(!s.import_bytes(b"version:1\ng:W\xffork\n"));
    assert_eq!(s.load_account_groups().len(), 0);
}

#[test]
fn url_may_be_empty_but_name_may_not() {
    let mut s = Store::new();
    assert!(s.import_bytes(b"version:1\ng:Work\nu:\n"));
    let groups = s.load_account_groups();
    assert_eq!(groups[0].url.as_deref(), Some(""));
}
