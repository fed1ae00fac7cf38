use fotos::b3sum::hash_chunks;
use fotos::db::{Database, FileB3Sum, FileB3SumRow, FileEntry};
use fotos::scan::{find_duplicates, reconcile, scan_dir};
use fotos::walk::{build_dir_batch, EntryKind, RawEntry, RawMeta, Walker, WalkStep};

fn meta(size: u64) -> Option<RawMeta> {
    Some(RawMeta { size, created_at: Some(100), modified_at: Some(200) })
}

fn file_entry(path: &str, rel: &str, size: u64) -> RawEntry {
    RawEntry {
        path: path.to_string(),
        rel_path: Some(rel.to_string()),
        kind: EntryKind::File,
        meta: meta(size),
    }
}

fn dir_entry(path: &str) -> RawEntry {
    RawEntry {
        path: path.to_string(),
        rel_path: None,
        kind: EntryKind::Directory,
        meta: None,
    }
}

fn new_file(path: &str, size: u64) -> FileEntry {
    FileEntry {
        id: None,
        path: path.to_string(),
        size,
        created_at: 100,
        modified_at: 200,
    }
}

fn digest_of(content: &[u8]) -> String {
    hash_chunks(&vec![content.to_vec()])
}

/// Drives a walk over a synthetic tree given as (directory path, listing) pairs.
fn run_walk(db: &mut Database, root: &str, tree: &[(&str, Vec<RawEntry>)]) {
    let mut w = Walker::new(root.to_string());
    loop {
        match w.next_step() {
            WalkStep::Read(d) => {
                let listing = tree
                    .iter()
                    .find(|(p, _)| *p == d.as_str())
                    .map(|(_, l)| l.clone())
                    .unwrap_or_else(|| panic!("walk asked for unknown directory {}", d));
                w.on_listing(&listing);
            }
            WalkStep::Commit => {
                w.commit_top(db).unwrap();
            }
            WalkStep::Done => break,
        }
    }
}

/// A hashing callback that maps each relative path to fixed content and
/// never fails.
fn content_hasher(
    contents: Vec<(&'static str, &'static [u8])>,
) -> impl Fn(Vec<FileB3SumRow>) -> Vec<FileB3Sum> {
    move |batch: Vec<FileB3SumRow>| {
        let mut out = Vec::new();
        for row in &batch {
            if let Some((_, c)) = contents.iter().find(|(p, _)| *p == row.path.as_str()) {
                out.push(FileB3Sum { file_id: row.file_id.unwrap(), b3sum: digest_of(c) });
            }
        }
        out
    }
}

#[test]
fn scenario_two_copies_one_unique() {
    // a.txt and b/c.txt share content "hello"; d.txt is unique
    let mut db = Database::new();
    let tree = [
        (
            "root",
            vec![
                file_entry("root/a.txt", "a.txt", 5),
                dir_entry("root/b"),
                file_entry("root/d.txt", "d.txt", 5),
            ],
        ),
        ("root/b", vec![file_entry("root/b/c.txt", "b/c.txt", 5)]),
    ];
    run_walk(&mut db, "root", &tree);
    assert_eq!(db.get_files().len(), 3);

    let failed = scan_dir(
        &mut db,
        content_hasher(vec![
            ("a.txt", b"hello"),
            ("b/c.txt", b"hello"),
            ("d.txt", b"world"),
        ]),
    );
    assert!(failed.is_empty());

    let report = find_duplicates(&db);
    assert_eq!(report.files.len(), 2);
    let paths: Vec<&str> = report.files.iter().map(|f| f.path.as_str()).collect();
    assert!(paths.contains(&"a.txt"));
    assert!(paths.contains(&"b/c.txt"));
    assert!(!paths.contains(&"d.txt"));
    assert_eq!(report.files[0].b3sum, report.files[1].b3sum);
    assert_eq!(report.files[0].b3sum.as_deref(), Some(digest_of(b"hello").as_str()));
    assert_eq!(report.total_saved, 5);
}

#[test]
fn scenario_empty_tree() {
    let mut db = Database::new();
    let tree = [("root", Vec::new())];
    run_walk(&mut db, "root", &tree);
    assert_eq!(db.get_files().len(), 0);
    let failed = scan_dir(&mut db, content_hasher(vec![]));
    assert!(failed.is_empty());
    let report = find_duplicates(&db);
    assert_eq!(report.files.len(), 0);
    assert_eq!(report.total_saved, 0);
}

#[test]
fn scenario_unreadable_file() {
    // locked.txt's metadata is recorded by the walk, but hashing it fails;
    // the fill loop must still terminate, never fingerprint it, and keep
    // it out of the duplicate report.
    let mut db = Database::new();
    let tree = [(
        "root",
        vec![
            file_entry("root/a.txt", "a.txt", 5),
            file_entry("root/b.txt", "b.txt", 5),
            file_entry("root/locked.txt", "locked.txt", 9),
        ],
    )];
    run_walk(&mut db, "root", &tree);
    assert_eq!(db.get_files().len(), 3);

    let failed = scan_dir(
        &mut db,
        content_hasher(vec![("a.txt", b"hello"), ("b.txt", b"hello")]),
    );
    assert_eq!(failed.len(), 1);
    let locked = db
        .get_files()
        .into_iter()
        .find(|f| f.path == "locked.txt")
        .unwrap();
    assert_eq!(failed[0], locked.id.unwrap());
    assert_eq!(locked.size, 9);

    let report = find_duplicates(&db);
    let paths: Vec<&str> = report.files.iter().map(|f| f.path.as_str()).collect();
    assert!(!paths.contains(&"locked.txt"));
    assert_eq!(report.files.len(), 2);
}

#[test]
fn walk_twice_is_idempotent() {
    let mut db = Database::new();
    let tree = [
        ("root", vec![file_entry("root/a.txt", "a.txt", 3), dir_entry("root/b")]),
        ("root/b", vec![file_entry("root/b/c.txt", "b/c.txt", 4)]),
    ];
    run_walk(&mut db, "root", &tree);
    let first: Vec<(Option<u64>, String, u64)> = db
        .get_files()
        .into_iter()
        .map(|f| (f.id, f.path, f.size))
        .collect();
    run_walk(&mut db, "root", &tree);
    let second: Vec<(Option<u64>, String, u64)> = db
        .get_files()
        .into_iter()
        .map(|f| (f.id, f.path, f.size))
        .collect();
    assert_eq!(first, second);
    assert_eq!(first.len(), 2);
}

#[test]
fn fingerprint_never_recomputed() {
    let mut db = Database::new();
    db.add_files(&[new_file("a.txt", 5)]).unwrap();
    let failed = scan_dir(&mut db, content_hasher(vec![("a.txt", b"hello")]));
    assert!(failed.is_empty());
    let first = db.rows[0].b3sum.clone();
    assert_eq!(first.as_deref(), Some(digest_of(b"hello").as_str()));

    // a second pass with different content must not touch the stored sum
    let failed = scan_dir(&mut db, content_hasher(vec![("a.txt", b"changed")]));
    assert!(failed.is_empty());
    assert_eq!(db.rows[0].b3sum, first);
}

#[test]
fn fill_loop_covers_many_batches() {
    // 70 files: more than two batches of 30
    let mut db = Database::new();
    let mut batch = Vec::new();
    for i in 0..70u64 {
        batch.push(new_file(&format!("f{}.bin", i), i));
    }
    db.add_files(&batch).unwrap();
    assert_eq!(db.get_files_for_b3sum().len(), 30);

    let failed = scan_dir(&mut db, |batch: Vec<FileB3SumRow>| {
        batch
            .iter()
            .map(|row| FileB3Sum {
                file_id: row.file_id.unwrap(),
                b3sum: digest_of(row.path.as_bytes()),
            })
            .collect()
    });
    assert!(failed.is_empty());
    assert!(db.get_files_for_b3sum().is_empty());
    assert!(db.rows.iter().all(|r| r.b3sum.is_some()));
}

#[test]
fn savings_counts_all_but_one_copy() {
    // a cluster of three files of size 7 saves 14; a unique file saves nothing
    let mut db = Database::new();
    db.add_files(&[
        new_file("x1", 7),
        new_file("x2", 7),
        new_file("x3", 7),
        new_file("y", 11),
    ])
    .unwrap();
    let failed = scan_dir(
        &mut db,
        content_hasher(vec![
            ("x1", b"same"),
            ("x2", b"same"),
            ("x3", b"same"),
            ("y", b"other"),
        ]),
    );
    assert!(failed.is_empty());
    let report = find_duplicates(&db);
    assert_eq!(report.files.len(), 3);
    assert!(report.files.iter().all(|f| f.path.starts_with('x')));
    assert_eq!(report.total_saved, 14);
}

#[test]
fn duplicates_ordered_by_size() {
    let mut db = Database::new();
    db.add_files(&[new_file("big1", 50), new_file("big2", 50), new_file("small1", 2), new_file("small2", 2)])
        .unwrap();
    let failed = scan_dir(
        &mut db,
        content_hasher(vec![
            ("big1", b"bbbb"),
            ("big2", b"bbbb"),
            ("small1", b"ss"),
            ("small2", b"ss"),
        ]),
    );
    assert!(failed.is_empty());
    let report = find_duplicates(&db);
    let sizes: Vec<u64> = report.files.iter().map(|f| f.size).collect();
    assert_eq!(sizes, vec![2, 2, 50, 50]);
}

#[test]
fn reconcile_removes_exactly_the_missing() {
    let mut db = Database::new();
    db.add_files(&[new_file("keep1", 1), new_file("gone", 2), new_file("keep2", 3)])
        .unwrap();
    let present = vec![true, false, true];
    reconcile(&mut db, &present).unwrap();
    let paths: Vec<String> = db.get_files().into_iter().map(|f| f.path).collect();
    assert_eq!(paths, vec!["keep1".to_string(), "keep2".to_string()]);
}

#[test]
fn hasher_matches_blake3_and_chunking_is_irrelevant() {
    let whole = hash_chunks(&vec![b"hello".to_vec()]);
    let split = hash_chunks(&vec![b"hel".to_vec(), b"lo".to_vec()]);
    assert_eq!(whole, split);
    assert_eq!(whole, blake3::hash(b"hello").to_hex().as_str());
    assert_eq!(whole.len(), 64);

    let empty = hash_chunks(&Vec::new());
    assert_eq!(empty, blake3::hash(b"").to_hex().as_str());

    let other = hash_chunks(&vec![b"world".to_vec()]);
    assert_ne!(whole, other);
}

#[test]
fn first_insertion_wins() {
    let mut db = Database::new();
    db.add_files(&[new_file("a.txt", 5)]).unwrap();
    db.add_files(&[new_file("a.txt", 999)]).unwrap();
    let files = db.get_files();
    assert_eq!(files.len(), 1);
    assert_eq!(files[0].size, 5);
}

#[test]
fn fill_batch_is_bounded_and_respects_exclusions() {
    let mut db = Database::new();
    let mut batch = Vec::new();
    for i in 0..35u64 {
        batch.push(new_file(&format!("f{}", i), i));
    }
    db.add_files(&batch).unwrap();
    assert_eq!(db.get_files_for_b3sum().len(), 30);

    let all_ids: Vec<u64> = db.get_files().iter().map(|f| f.id.unwrap()).collect();
    let excluded: Vec<u64> = all_ids[..32].to_vec();
    let rest = db.get_files_for_b3sum_excluding(&excluded);
    assert_eq!(rest.len(), 3);
    for row in &rest {
        assert!(!excluded.contains(&(row.file_id.unwrap() as u64)));
    }
}

#[test]
fn walk_skips_hidden_and_partial_entries() {
    let listing = vec![
        file_entry("root/good.txt", "good.txt", 4),
        file_entry("root/.secret", ".secret", 4),
        RawEntry {
            path: "root/no_meta.txt".to_string(),
            rel_path: Some("no_meta.txt".to_string()),
            kind: EntryKind::File,
            meta: None,
        },
        RawEntry {
            path: "root/bad_time.txt".to_string(),
            rel_path: Some("bad_time.txt".to_string()),
            kind: EntryKind::File,
            meta: Some(RawMeta { size: 1, created_at: None, modified_at: Some(1) }),
        },
        RawEntry {
            path: "root/outside.txt".to_string(),
            rel_path: None,
            kind: EntryKind::File,
            meta: meta(4),
        },
        RawEntry {
            path: "root/strange".to_string(),
            rel_path: Some("strange".to_string()),
            kind: EntryKind::Other,
            meta: meta(4),
        },
    ];
    let batch = build_dir_batch(&listing);
    assert_eq!(batch.len(), 1);
    assert_eq!(batch[0].path, "good.txt");
    assert_eq!(batch[0].size, 4);
    assert_eq!(batch[0].created_at, 100);
    assert_eq!(batch[0].modified_at, 200);
    assert!(batch[0].id.is_none());
}

#[test]
fn walk_commits_children_before_parent() {
    // ids are assigned in commit order, so the child's file must get the
    // smaller id although the parent directory was listed first
    let mut db = Database::new();
    let tree = [
        ("root", vec![file_entry("root/top.txt", "top.txt", 1), dir_entry("root/sub")]),
        ("root/sub", vec![file_entry("root/sub/leaf.txt", "sub/leaf.txt", 1)]),
    ];
    run_walk(&mut db, "root", &tree);
    let files = db.get_files();
    assert_eq!(files.len(), 2);
    let leaf = files.iter().find(|f| f.path == "sub/leaf.txt").unwrap();
    let top = files.iter().find(|f| f.path == "top.txt").unwrap();
    assert!(leaf.id.unwrap() < top.id.unwrap());
}

#[test]
fn delete_files_removes_by_id() {
    let mut db = Database::new();
    db.add_files(&[new_file("a", 1), new_file("b", 2), new_file("c", 3)]).unwrap();
    let b_id = db
        .get_files()
        .into_iter()
        .find(|f| f.path == "b")
        .unwrap()
        .id
        .unwrap();
    db.delete_files(&[b_id]).unwrap();
    let paths: Vec<String> = db.get_files().into_iter().map(|f| f.path).collect();
    assert_eq!(paths, vec!["a".to_string(), "c".to_string()]);
}

#[test]
fn exhausted_id_space_fails_and_rolls_back() {
    // a store whose next id is already past the signed range refuses the
    // batch whole, as a rolled-back transaction would
    let mut db = Database::new();
    db.next_id = (i64::MAX as u64) + 1;
    let r = db.add_files(&[new_file("a", 1)]);
    assert_eq!(r, Err(fotos::FotosError::Sqlite));
    assert_eq!(db.get_files().len(), 0);
}

#[test]
fn cluster_counts_per_fingerprint() {
    let mut db = Database::new();
    db.add_files(&[
        new_file("p1", 4),
        new_file("p2", 4),
        new_file("p3", 4),
        new_file("q1", 9),
        new_file("q2", 9),
        new_file("solo", 1),
    ])
    .unwrap();
    let failed = scan_dir(
        &mut db,
        content_hasher(vec![
            ("p1", b"ppp"),
            ("p2", b"ppp"),
            ("p3", b"ppp"),
            ("q1", b"qq"),
            ("q2", b"qq"),
            ("solo", b"s"),
        ]),
    );
    assert!(failed.is_empty());
    let report = find_duplicates(&db);
    let counts = fotos::db::cluster_counts(&report.files);
    assert_eq!(counts.len(), 2);
    let p = counts
        .iter()
        .find(|c| c.b3sum == digest_of(b"ppp"))
        .unwrap();
    assert_eq!(p.count, 3);
    let q = counts
        .iter()
        .find(|c| c.b3sum == digest_of(b"qq"))
        .unwrap();
    assert_eq!(q.count, 2);
}

#[test]
fn fill_step_rounds_are_durable_units() {
    let mut db = Database::new();
    let mut batch = Vec::new();
    for i in 0..35u64 {
        batch.push(new_file(&format!("f{}", i), i));
    }
    db.add_files(&batch).unwrap();

    let hasher = |batch: Vec<FileB3SumRow>| -> Vec<FileB3Sum> {
        batch
            .iter()
            .map(|row| FileB3Sum {
                file_id: row.file_id.unwrap(),
                b3sum: digest_of(row.path.as_bytes()),
            })
            .collect()
    };
    let mut failed: Vec<u64> = Vec::new();

    // first round: one full batch of 30 fingerprints, durable on its own
    assert!(!fotos::scan::fill_step(&mut db, &hasher, &mut failed));
    assert_eq!(db.rows.iter().filter(|r| r.b3sum.is_some()).count(), 30);

    // second round: the remaining 5
    assert!(!fotos::scan::fill_step(&mut db, &hasher, &mut failed));
    assert_eq!(db.rows.iter().filter(|r| r.b3sum.is_some()).count(), 35);

    // third round: nothing left, nothing changed
    assert!(fotos::scan::fill_step(&mut db, &hasher, &mut failed));
    assert!(failed.is_empty());
}

#[test]
fn check_inv_accepts_sound_tables_and_rejects_duplicates() {
    let mut db = Database::new();
    db.add_files(&[new_file("a", 1), new_file("b", 2)]).unwrap();
    assert!(db.check_inv());

    // a foreign table carrying the same path twice is refused
    let mut bad = Database::new();
    bad.add_files(&[new_file("a", 1)]).unwrap();
    let copy = fotos::db::Row {
        id: 7,
        path: "a".to_string(),
        size: 1,
        created_at: 100,
        modified_at: 200,
        b3sum: None,
    };
    bad.rows.push(copy);
    bad.next_id = 8;
    assert!(!bad.check_inv());
}
