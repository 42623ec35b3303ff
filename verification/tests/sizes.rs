use dirkeep::EntryKind;
use dirkeep::FileInfo;
use dirkeep::classify_entry;
use dirkeep::get_size;

fn entry(name: &str, kind: EntryKind, size: u64) -> FileInfo {
    FileInfo {
        file_name: name.to_string(),
        file_type: kind,
        file_path: format!("/Users/mojih/Downloads/{}", name),
        created_time: 0,
        modified_time: 0,
        size,
    }
}

fn downloads_snapshot() -> Vec<FileInfo> {
    vec![
        entry("movie.mkv", EntryKind::File, 700 * 1024 * 1024),
        entry("setup.dmg", EntryKind::File, 300 * 1024 * 1024),
        entry("notes.txt", EntryKind::File, 4096),
        entry("alias", EntryKind::Symlink, 1024 * 1024),
        entry("test", EntryKind::Directory, 4096),
    ]
}

#[test]
fn info_test_get_size() {
    let dir = "/Users/mojih/Downloads";
    let size = get_size(&downloads_snapshot());
    assert_eq!(size, 1000 * 1024 * 1024 + 4096);
    println!("Total size of {} is {} bytes", dir, size);
    // print MB
    println!("Total size of {} is {} MB", dir, size / 1024 / 1024);
}

#[test]
fn lib_test_get_size() {
    let dir = "/Users/mojih/Downloads";
    let size = get_size(&downloads_snapshot());
    assert_eq!(size / 1024 / 1024, 1000);
    println!("Total size of {} is {} bytes", dir, size);
    // print MB
    println!("Total size of {} is {} MB", dir, size / 1024 / 1024);
}

#[test]
fn test_get_size_by_path() {
    let entries = vec![
        entry("test/one.log", EntryKind::File, 2 * 1024 * 1024),
        entry("test/two.log", EntryKind::File, 1024 * 1024),
    ];
    let size = get_size(&entries);
    println!("size: {:?}", size);
    // mb
    println!("size: {:?}", size / 1024 / 1024);
    assert_eq!(size / 1024 / 1024, 3);
}

#[test]
fn get_size_of_empty_snapshot_is_zero() {
    let entries: Vec<FileInfo> = vec![];
    assert_eq!(get_size(&entries), 0);
}

#[test]
fn classification_prefers_symlink_over_everything() {
    assert_eq!(classify_entry(true, true, false), EntryKind::Symlink);
    assert_eq!(classify_entry(true, false, true), EntryKind::Symlink);
    assert_eq!(classify_entry(false, true, false), EntryKind::File);
    assert_eq!(classify_entry(false, false, true), EntryKind::Directory);
    assert_eq!(classify_entry(false, false, false), EntryKind::Unknown);
}
