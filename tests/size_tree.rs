use rdu::registry::{FileIdentity, IdentityRegistry};
use rdu::rows::{band_of, tree_rows, Band};
use rdu::tree::{build, compute_size_tree, logical_size, Entry, EntryKind, SizeTree, TraversalError};

fn file(name: &str, dev: u64, ino: u64, len: u64) -> Entry {
    Entry {
        name: name.to_string(),
        kind: EntryKind::File { identity: Some(FileIdentity { dev, ino }), len },
    }
}

fn dir(name: &str, entries: Vec<Entry>) -> Entry {
    Entry { name: name.to_string(), kind: EntryKind::Dir { listing: Ok(entries) } }
}

fn unreadable(name: &str) -> Entry {
    Entry {
        name: name.to_string(),
        kind: EntryKind::Dir { listing: Err(TraversalError::PermissionDenied) },
    }
}

fn compute(root: &Entry) -> Result<SizeTree, TraversalError> {
    assert!(logical_size(root).is_some());
    compute_size_tree(root)
}

fn names(t: &SizeTree) -> Vec<String> {
    t.children.iter().map(|c| c.name.clone()).collect()
}

fn sizes(t: &SizeTree) -> Vec<u64> {
    t.children.iter().map(|c| c.size).collect()
}

fn same(a: &SizeTree, b: &SizeTree) -> bool {
    a.name == b.name
        && a.size == b.size
        && a.children.len() == b.children.len()
        && a.children.iter().zip(b.children.iter()).all(|(x, y)| same(x, y))
}

#[test]
fn two_distinct_files_add_up() {
    let d = dir("D", vec![file("a", 1, 10, 100), file("b", 1, 11, 200)]);
    let t = compute(&d).unwrap();
    assert_eq!(t.name, "D");
    assert_eq!(t.size, 300);
    assert_eq!(names(&t), vec!["a", "b"]);
    assert_eq!(sizes(&t), vec![100, 200]);
}

#[test]
fn hard_link_counted_once() {
    let d = dir("D", vec![file("a", 1, 10, 100), file("a_link", 1, 10, 100)]);
    let t = compute(&d).unwrap();
    assert_eq!(t.size, 100);
    assert_eq!(names(&t), vec!["a", "a_link"]);
    assert_eq!(sizes(&t), vec![100, 0]);
}

#[test]
fn hard_link_listed_first_takes_the_size() {
    let d = dir("D", vec![file("a_link", 1, 10, 100), file("a", 1, 10, 100)]);
    let t = compute(&d).unwrap();
    assert_eq!(t.size, 100);
    assert_eq!(sizes(&t), vec![100, 0]);
}

#[test]
fn many_links_across_subdirectories_count_once() {
    let d = dir(
        "D",
        vec![
            dir("x", vec![file("a", 2, 5, 70), file("b", 2, 6, 30)]),
            dir("y", vec![file("a2", 2, 5, 70), dir("z", vec![file("a3", 2, 5, 70)])]),
            file("a4", 2, 5, 70),
        ],
    );
    let t = compute(&d).unwrap();
    assert_eq!(t.size, 100);
    assert_eq!(sizes(&t), vec![100, 0, 0]);
    assert_eq!(logical_size(&d), Some(310));
}

#[test]
fn same_inode_on_other_device_is_distinct() {
    let d = dir("D", vec![file("a", 1, 10, 100), file("b", 2, 10, 100)]);
    assert_eq!(compute(&d).unwrap().size, 200);
}

#[test]
fn empty_directory_is_zero() {
    let t = compute(&dir("D", vec![])).unwrap();
    assert_eq!(t.size, 0);
    assert!(t.children.is_empty());
}

#[test]
fn nested_directory_sizes() {
    let d = dir("D", vec![dir("sub", vec![file("c", 1, 3, 50)])]);
    let t = compute(&d).unwrap();
    assert_eq!(t.size, 50);
    assert_eq!(names(&t), vec!["sub"]);
    let sub = &t.children[0];
    assert_eq!(sub.size, 50);
    assert_eq!(names(sub), vec!["c"]);
    assert_eq!(sub.children[0].size, 50);
    assert!(sub.children[0].children.is_empty());
}

#[test]
fn missing_root_is_not_found() {
    let root = Entry { name: "nowhere".to_string(), kind: EntryKind::Missing };
    assert!(matches!(compute(&root), Err(TraversalError::NotFound)));
}

#[test]
fn unreadable_root_fails() {
    assert!(matches!(compute(&unreadable("D")), Err(TraversalError::PermissionDenied)));
    let other = Entry { name: "D".to_string(), kind: EntryKind::Dir { listing: Err(TraversalError::Other) } };
    assert!(matches!(compute(&other), Err(TraversalError::Other)));
}

#[test]
fn unreadable_subdirectory_degrades() {
    let d = dir("D", vec![unreadable("locked"), file("f", 1, 4, 30)]);
    let t = compute(&d).unwrap();
    assert_eq!(t.size, 30);
    assert_eq!(names(&t), vec!["locked", "f"]);
    assert_eq!(t.children[0].size, 0);
    assert!(t.children[0].children.is_empty());
    assert_eq!(t.children[1].size, 30);
}

#[test]
fn unresolved_identity_and_special_entries_are_zero() {
    let d = dir(
        "D",
        vec![
            Entry { name: "u".to_string(), kind: EntryKind::File { identity: None, len: 40 } },
            Entry { name: "dev".to_string(), kind: EntryKind::Special },
            Entry { name: "gone".to_string(), kind: EntryKind::Missing },
            file("f", 1, 4, 5),
        ],
    );
    let t = compute(&d).unwrap();
    assert_eq!(t.size, 5);
    assert_eq!(sizes(&t), vec![0, 0, 0, 5]);
}

#[test]
fn single_file_root() {
    let t = compute(&file("only", 9, 9, 12)).unwrap();
    assert_eq!(t.name, "only");
    assert_eq!(t.size, 12);
    assert!(t.children.is_empty());
}

#[test]
fn computing_twice_gives_the_same_tree() {
    let d = dir(
        "D",
        vec![dir("s", vec![file("a", 1, 1, 8), file("l", 1, 1, 8)]), file("b", 1, 2, 3), unreadable("x")],
    );
    let t1 = compute(&d).unwrap();
    let t2 = compute(&d).unwrap();
    assert!(same(&t1, &t2));
    assert_eq!(t1.size, 11);
}

#[test]
fn swapping_neighbouring_files_keeps_total() {
    let d1 = dir("D", vec![file("a", 1, 1, 8), file("l", 1, 1, 8), file("b", 1, 2, 3)]);
    let d2 = dir("D", vec![file("l", 1, 1, 8), file("a", 1, 1, 8), file("b", 1, 2, 3)]);
    let t1 = compute(&d1).unwrap();
    let t2 = compute(&d2).unwrap();
    assert_eq!(t1.size, t2.size);
    assert_eq!(names(&t2), vec!["l", "a", "b"]);
    assert_eq!(sizes(&t2), vec![8, 0, 3]);
}

#[test]
fn build_shares_one_registry() {
    let mut reg = IdentityRegistry::new();
    let first = build(&dir("A", vec![file("a", 1, 1, 8)]), &mut reg);
    let second = build(&dir("B", vec![file("b", 1, 1, 8), file("c", 1, 2, 2)]), &mut reg);
    assert_eq!(first.size, 8);
    assert_eq!(second.size, 2);
    assert!(reg.is_claimed(FileIdentity { dev: 1, ino: 2 }));
}

#[test]
fn registry_claims_once() {
    let mut reg = IdentityRegistry::new();
    let id = FileIdentity { dev: 3, ino: 4 };
    assert!(!reg.is_claimed(id));
    assert!(reg.claim(id));
    assert!(!reg.claim(id));
    assert!(reg.is_claimed(id));
    assert!(!reg.is_claimed(FileIdentity { dev: 4, ino: 3 }));
    assert!(reg.claim(FileIdentity { dev: u64::MAX, ino: u64::MAX }));
    assert!(reg.claim(FileIdentity { dev: 0, ino: u64::MAX }));
    assert!(!reg.claim(FileIdentity { dev: u64::MAX, ino: u64::MAX }));
}

#[test]
fn logical_size_detects_overflow() {
    let d = dir("D", vec![file("a", 1, 1, u64::MAX), file("b", 1, 2, 1)]);
    assert_eq!(logical_size(&d), None);
    let d = dir("D", vec![file("a", 1, 1, u64::MAX - 1), file("b", 1, 2, 1)]);
    assert_eq!(logical_size(&d), Some(u64::MAX));
    assert_eq!(compute(&d).unwrap().size, u64::MAX);
    assert_eq!(logical_size(&unreadable("x")), Some(0));
}

#[test]
fn bands_follow_thresholds() {
    assert_eq!(band_of(0, 100_000_000), Band::Root);
    assert_eq!(band_of(1, 50_000_001), Band::Large);
    assert_eq!(band_of(1, 50_000_000), Band::Medium);
    assert_eq!(band_of(2, 10_000_001), Band::Medium);
    assert_eq!(band_of(2, 10_000_000), Band::Small);
    assert_eq!(band_of(3, 0), Band::Small);
}

#[test]
fn rows_are_in_pre_order() {
    let d = dir("D", vec![dir("sub", vec![file("c", 1, 3, 60_000_000)]), file("e", 1, 4, 20_000_000)]);
    let t = compute(&d).unwrap();
    let rows = tree_rows(&t);
    let got: Vec<(usize, String, u64, Band)> =
        rows.iter().map(|r| (r.level, r.name.clone(), r.size, r.band)).collect();
    assert_eq!(
        got,
        vec![
            (0, "D".to_string(), 80_000_000, Band::Root),
            (1, "sub".to_string(), 60_000_000, Band::Large),
            (2, "c".to_string(), 60_000_000, Band::Large),
            (1, "e".to_string(), 20_000_000, Band::Medium),
        ]
    );
}

#[test]
fn distinct_files_in_nested_tree_add_up() {
    let d = dir(
        "D",
        vec![file("a", 1, 1, 7), dir("s", vec![file("b", 1, 2, 11), dir("t", vec![file("c", 1, 3, 13)])])],
    );
    let t = compute(&d).unwrap();
    assert_eq!(t.size, 31);
    assert_eq!(Some(t.size), logical_size(&d));
    assert_eq!(t.children[1].size, 24);
}
