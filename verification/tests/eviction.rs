use dirkeep::EntryKind;
use dirkeep::Evictor;
use dirkeep::FileInfo;
use dirkeep::get_size;
use dirkeep::paths_of;
use dirkeep::plan_eviction;
use dirkeep::sort_entries;

fn fi(name: &str, kind: EntryKind, mtime: u64, size: u64) -> FileInfo {
    FileInfo {
        file_name: name.to_string(),
        file_type: kind,
        file_path: format!("/d/{}", name),
        created_time: 0,
        modified_time: mtime,
        size,
    }
}

fn abc() -> Vec<FileInfo> {
    vec![
        fi("a", EntryKind::File, 1, 100),
        fi("b", EntryKind::File, 2, 100),
        fi("c", EntryKind::File, 3, 100),
    ]
}

#[test]
fn evict_over_budget_removes_oldest_two() {
    let removed = plan_eviction(abc(), 150);
    let paths = paths_of(&removed);
    assert_eq!(paths, vec!["/d/a".to_string(), "/d/b".to_string()]);
}

#[test]
fn evict_under_budget_removes_nothing() {
    let removed = plan_eviction(abc(), 350);
    assert!(removed.is_empty());
}

#[test]
fn evict_at_exact_size_removes_nothing() {
    let removed = plan_eviction(abc(), 300);
    assert!(removed.is_empty());
}

#[test]
fn no_op_under_budget() {
    let removed = plan_eviction(abc(), 1000);
    assert!(removed.is_empty());
}

#[test]
fn size_drops_by_exactly_what_was_removed() {
    let entries = abc();
    let before = get_size(&entries);
    let removed = plan_eviction(abc(), 120);
    let removed_total: u64 = removed.iter().map(|e| e.size).sum();
    let remaining: Vec<FileInfo> = entries
        .into_iter()
        .filter(|e| !removed.iter().any(|r| r.file_path == e.file_path))
        .collect();
    let after = get_size(&remaining);
    assert_eq!(after, before - removed_total);
    assert!(after <= before);
    assert!(after <= 120);
}

#[test]
fn removal_order_is_strictly_oldest_first() {
    let entries = vec![
        fi("new", EntryKind::File, 30, 10),
        fi("old", EntryKind::File, 10, 10),
        fi("mid", EntryKind::File, 20, 10),
    ];
    let removed = plan_eviction(entries, 0);
    assert_eq!(removed.len(), 3);
    assert!(removed[0].modified_time < removed[1].modified_time);
    assert!(removed[1].modified_time < removed[2].modified_time);
    assert_eq!(removed[0].file_name, "old");
}

#[test]
fn symlinks_count_zero_and_are_never_evicted() {
    let entries = vec![
        fi("l1", EntryKind::Symlink, 1, 5_000_000),
        fi("l2", EntryKind::Symlink, 2, 5_000_000),
    ];
    assert_eq!(get_size(&entries), 0);
    let removed = plan_eviction(entries, 1);
    assert!(removed.is_empty());
}

#[test]
fn only_files_are_counted_or_evicted() {
    let entries = vec![
        fi("f", EntryKind::File, 1, 100),
        fi("link", EntryKind::Symlink, 0, 900),
        fi("sub", EntryKind::Directory, 0, 4096),
        fi("sock", EntryKind::Unknown, 0, 700),
    ];
    assert_eq!(get_size(&entries), 100);
    let removed = plan_eviction(entries, 0);
    assert_eq!(removed.len(), 1);
    assert_eq!(removed[0].file_name, "f");
}

#[test]
fn failed_deletion_is_skipped_and_rest_proceeds() {
    let mut ev = Evictor::new(abc(), 100);
    // the caller could not delete "a": the pass goes on with "b", "c"
    let first = ev.next_path().unwrap();
    assert_eq!(first, "/d/a");
    ev.mark_failed();
    let second = ev.next_path().unwrap();
    assert_eq!(second, "/d/b");
    ev.mark_removed();
    let third = ev.next_path().unwrap();
    assert_eq!(third, "/d/c");
    ev.mark_removed();
    assert!(ev.done());
    assert_eq!(ev.removed_paths(), vec!["/d/b".to_string(), "/d/c".to_string()]);
}

#[test]
fn evictor_under_budget_is_done_at_once() {
    let ev = Evictor::new(abc(), 301);
    assert!(ev.done());
    assert!(ev.next_path().is_none());
    assert!(ev.removed_paths().is_empty());
}

#[test]
fn evictor_stops_once_budget_is_met() {
    let mut ev = Evictor::new(abc(), 150);
    assert_eq!(ev.next_path().unwrap(), "/d/a");
    ev.mark_removed();
    assert_eq!(ev.next_path().unwrap(), "/d/b");
    ev.mark_removed();
    assert!(ev.done());
    assert!(ev.next_path().is_none());
    assert_eq!(ev.removed_paths(), vec!["/d/a".to_string(), "/d/b".to_string()]);
}

#[test]
fn equal_times_tie_break_by_path() {
    let entries = vec![
        fi("b", EntryKind::File, 7, 10),
        fi("a", EntryKind::File, 7, 10),
        fi("c", EntryKind::File, 7, 10),
    ];
    let sorted = sort_entries(entries);
    assert_eq!(sorted[0].file_name, "a");
    assert_eq!(sorted[1].file_name, "b");
    assert_eq!(sorted[2].file_name, "c");
}

#[test]
fn sort_orders_by_modification_time() {
    let entries = vec![
        fi("x", EntryKind::File, 9, 1),
        fi("y", EntryKind::File, 3, 2),
        fi("z", EntryKind::File, 6, 3),
    ];
    let sorted = sort_entries(entries);
    assert_eq!(sorted[0].file_name, "y");
    assert_eq!(sorted[1].file_name, "z");
    assert_eq!(sorted[2].file_name, "x");
}

#[test]
fn evictor_exhausts_candidates_when_every_deletion_fails() {
    let mut ev = Evictor::new(abc(), 0);
    while let Some(_path) = ev.next_path() {
        ev.mark_failed();
    }
    assert!(ev.done());
    assert!(ev.removed_paths().is_empty());
}
