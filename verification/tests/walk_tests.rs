use dropbox_cp::walk::{folders_to_create, plan_dir_copy, DirAction, EntryKind, RelPath, WalkEntry};

fn rel(text: &str) -> Option<RelPath> {
    Some(RelPath { text: text.to_string(), bytes: text.as_bytes().to_vec() })
}

fn entry(depth: usize, text: &str, kind: EntryKind) -> WalkEntry {
    WalkEntry { depth, rel: rel(text), kind }
}

fn root() -> WalkEntry {
    WalkEntry { depth: 0, rel: rel(""), kind: EntryKind::Directory }
}

fn folder_paths(acts: &[DirAction]) -> Vec<String> {
    acts.iter()
        .filter_map(|a| match a {
            DirAction::CreateFolder { dropbox_path } => Some(dropbox_path.clone()),
            _ => None,
        })
        .collect()
}

#[test]
fn files_then_folders_shallow_first() {
    let entries = vec![
        root(),
        entry(1, "b", EntryKind::Directory),
        entry(2, "b/x", EntryKind::Directory),
        entry(3, "b/x/f.txt", EntryKind::File),
        entry(1, "a", EntryKind::Directory),
        entry(1, "top.txt", EntryKind::File),
    ];
    let acts = plan_dir_copy("/dest/", &entries);
    assert_eq!(acts.len(), 5);
    assert!(matches!(&acts[0], DirAction::Upload { entry: 3, dropbox_path } if dropbox_path == "/dest/b/x/f.txt"));
    assert!(matches!(&acts[1], DirAction::Upload { entry: 5, dropbox_path } if dropbox_path == "/dest/top.txt"));
    assert_eq!(folder_paths(&acts), vec!["/dest/a", "/dest/b", "/dest/b/x"]);
}

#[test]
fn folder_order_is_component_wise() {
    // "a/b" has two components and comes after "a-b", which has one.
    // Among same-depth paths, "a/b" comes before "a-b/c" since "a" < "a-b".
    let entries = vec![
        root(),
        entry(1, "a-b", EntryKind::Directory),
        entry(2, "a-b/c", EntryKind::Directory),
        entry(1, "a", EntryKind::Directory),
        entry(2, "a/b", EntryKind::Directory),
    ];
    let f = folders_to_create(&entries);
    assert_eq!(f, vec![3, 1, 4, 2]);
}

#[test]
fn duplicate_directories_are_created_once() {
    let entries = vec![
        root(),
        entry(1, "d", EntryKind::Directory),
        entry(1, "d/", EntryKind::Directory),
        entry(1, "d", EntryKind::Directory),
    ];
    assert_eq!(folders_to_create(&entries), vec![1]);
}

#[test]
fn empty_tree_creates_the_destination() {
    let acts = plan_dir_copy("/dest", &vec![root()]);
    assert_eq!(acts.len(), 1);
    assert!(matches!(acts[0], DirAction::CreateDestination));
}

#[test]
fn unreadable_entries_are_reported_in_walk_order() {
    let entries = vec![
        root(),
        entry(1, "x", EntryKind::Unreadable),
        entry(1, "y.txt", EntryKind::File),
        entry(1, "fifo", EntryKind::Other),
        WalkEntry { depth: 1, rel: None, kind: EntryKind::File },
    ];
    let acts = plan_dir_copy("/d", &entries);
    assert_eq!(acts.len(), 2);
    assert!(matches!(acts[0], DirAction::ReportUnreadable { entry: 1 }));
    assert!(matches!(&acts[1], DirAction::Upload { entry: 2, dropbox_path } if dropbox_path == "/d/y.txt"));
}

#[test]
fn other_entries_alone_still_create_the_destination() {
    let entries = vec![root(), entry(1, "fifo", EntryKind::Other)];
    let acts = plan_dir_copy("/d", &entries);
    assert_eq!(acts.len(), 1);
    assert!(matches!(acts[0], DirAction::CreateDestination));
}

#[test]
fn a_lone_subfolder_does_not_create_the_destination() {
    let entries = vec![root(), entry(1, "sub", EntryKind::Directory)];
    let acts = plan_dir_copy("/d", &entries);
    assert_eq!(folder_paths(&acts), vec!["/d/sub"]);
    assert_eq!(acts.len(), 1);
}

#[test]
fn walk_failures_are_reported_as_errors() {
    let entries = vec![
        root(),
        WalkEntry { depth: 1, rel: rel("locked"), kind: EntryKind::WalkFailed },
        entry(1, "a.txt", EntryKind::File),
        WalkEntry { depth: 0, rel: None, kind: EntryKind::WalkFailed },
    ];
    let acts = plan_dir_copy("/d", &entries);
    assert_eq!(acts.len(), 3);
    assert!(matches!(acts[0], DirAction::ReportWalkFailure { entry: 1 }));
    assert!(matches!(&acts[1], DirAction::Upload { entry: 2, dropbox_path } if dropbox_path == "/d/a.txt"));
    assert!(matches!(acts[2], DirAction::ReportWalkFailure { entry: 3 }));
}

#[test]
fn walk_failure_alone_still_creates_the_destination() {
    let entries = vec![
        root(),
        WalkEntry { depth: 1, rel: rel("locked"), kind: EntryKind::WalkFailed },
    ];
    let acts = plan_dir_copy("/d", &entries);
    assert_eq!(acts.len(), 2);
    assert!(matches!(acts[0], DirAction::ReportWalkFailure { entry: 1 }));
    assert!(matches!(acts[1], DirAction::CreateDestination));
}

#[test]
fn folders_are_told_apart_and_ordered_by_bytes() {
    // Two names that are not valid UTF-8 have the same lossy text but are
    // different directories; they are ordered by their bytes.
    let lossy = String::from_utf8_lossy(&[0xff]).into_owned();
    let entries = vec![
        root(),
        WalkEntry {
            depth: 1,
            rel: Some(RelPath { text: lossy.clone(), bytes: vec![0xff] }),
            kind: EntryKind::Directory,
        },
        WalkEntry {
            depth: 1,
            rel: Some(RelPath { text: lossy.clone(), bytes: vec![0xfe] }),
            kind: EntryKind::Directory,
        },
        // U+00E9 is 0xC3 0xA9 in UTF-8, after 0x7A ('z') by bytes.
        entry(1, "\u{e9}", EntryKind::Directory),
        entry(1, "z", EntryKind::Directory),
    ];
    assert_eq!(folders_to_create(&entries), vec![4, 3, 2, 1]);
    let acts = plan_dir_copy("/d", &entries);
    assert_eq!(acts.len(), 4);
    let expected = format!("/d/{lossy}");
    assert_eq!(folder_paths(&acts), vec!["/d/z".to_string(), "/d/\u{e9}".to_string(), expected.clone(), expected]);
}
