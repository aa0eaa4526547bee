use authenticator_store::store::Store;
use authenticator_store::tasks::{CompletionSlot, TaskEvent, finish_export, import_task,
    process_tasks};

#[test]
fn completion_slot_carries_one_value() {
    let mut slot = CompletionSlot::new();
    assert_eq!(slot.try_take(), None);
    slot.send(true);
    assert_eq!(slot.try_take(), Some(true));
    assert_eq!(slot.try_take(), None);
}

#[test]
fn finish_export_signals_the_write_outcome() {
    let mut slot = CompletionSlot::new();
    finish_export(false, &mut slot);
    assert_eq!(slot.try_take(), Some(false));
    let mut slot = CompletionSlot::new();
    finish_export(true, &mut slot);
    assert_eq!(slot.try_take(), Some(true));
}

#[test]
fn import_from_unreadable_file_signals_false_and_keeps_the_store() {
    let mut s = Store::new();
    let gid = s.add_group(String::from("Work"), None, None).unwrap();
    s.add_account(gid, String::from("GitHub"), String::from("JBSWY3DPEHPK3PXP")).unwrap();

    let mut slot = CompletionSlot::new();
    import_task(&mut s, None, &mut slot);
    assert_eq!(slot.try_take(), Some(false));

    let groups = s.load_account_groups();
    assert_eq!(groups.len(), 1);
    assert_eq!(groups[0].name, "Work");
    assert_eq!(groups[0].entries[0].label, "GitHub");
}

#[test]
fn import_task_applies_a_good_backup_and_signals_true() {
    let mut src = Store::new();
    let gid = src.add_group(String::from("Work"), None, None).unwrap();
    src.add_account(gid, String::from("GitHub"), String::from("JBSWY3DPEHPK3PXP")).unwrap();
    let bytes = src.export_bytes();

    let mut dst = Store::new();
    let mut slot = CompletionSlot::new();
    import_task(&mut dst, Some(bytes), &mut slot);
    assert_eq!(slot.try_take(), Some(true));
    let groups = dst.load_account_groups();
    assert_eq!(groups.len(), 1);
    assert_eq!(groups[0].name, "Work");
    assert_eq!(groups[0].entries[0].secret, "JBSWY3DPEHPK3PXP");
}

#[test]
fn every_submitted_task_yields_exactly_one_signal_in_order() {
    let mut src = Store::new();
    let gid = src.add_group(String::from("Work"), None, None).unwrap();
    src.add_account(gid, String::from("GitHub"), String::from("JBSWY3DPEHPK3PXP")).unwrap();
    let good = src.export_bytes();

    let mut s = Store::new();
    let tasks = vec![
        TaskEvent::Export { write_ok: true },
        TaskEvent::Import { file: None },
        TaskEvent::Import { file: Some(b"garbage".to_vec()) },
        TaskEvent::Import { file: Some(good) },
        TaskEvent::Export { write_ok: false },
    ];
    let signals = process_tasks(&mut s, tasks);
    assert_eq!(signals, vec![true, false, false, true, false]);
    // the one successful import is what the store now holds
    let groups = s.load_account_groups();
    assert_eq!(groups.len(), 1);
    assert_eq!(groups[0].name, "Work");
}
