use totalrecall::index::{
    bucket_files, indexed_file, invalidate, snapshot_with, split_lines, BucketFile, DirEntryInfo,
    Fingerprint, Memo, Query, Scope, Snapshot, FORMAT_VERSION,
};

fn entry(name: &str, regular: bool) -> DirEntryInfo {
    DirEntryInfo { name: name.to_string(), regular }
}

fn stat(path: &str, mtime: i64) -> Fingerprint {
    Fingerprint {
        path: path.to_string(),
        mtime,
        size: 10,
        inode: 1,
        line_count: 0,
        format_version: FORMAT_VERSION,
    }
}

#[test]
fn split_lines_drops_only_the_final_empty_piece() {
    assert_eq!(split_lines("a\nb\n"), vec!["a".to_string(), "b".to_string()]);
    assert_eq!(split_lines("a\nb"), vec!["a".to_string(), "b".to_string()]);
    assert_eq!(split_lines("a\n\nb"), vec!["a".to_string(), "".to_string(), "b".to_string()]);
    assert_eq!(split_lines(""), Vec::<String>::new());
}

#[test]
fn buckets_are_enumerated_in_order() {
    let root = vec![
        entry("2026-09-13.md", true),
        entry("wiki", false),
        entry("2026-09-01.md", true),
        entry("2026-02-30.md", true),
        entry("notes.md", true),
        entry("2026-09-02.md", false),
    ];
    let briefs = Some(vec![entry("w.md", true), entry(".hidden.md", true), entry("a.md", true), entry("x.txt", true)]);
    assert_eq!(
        bucket_files(Scope::All, true, &root, &briefs),
        vec!["signoff.md", "2026-02-30.md", "2026-09-01.md", "2026-09-13.md", "briefs/a.md", "briefs/w.md"]
    );
    assert_eq!(
        bucket_files(Scope::Dayfile, true, &root, &briefs),
        vec!["2026-02-30.md", "2026-09-01.md", "2026-09-13.md"]
    );
    assert_eq!(bucket_files(Scope::Signoff, false, &root, &briefs), Vec::<String>::new());
    assert_eq!(bucket_files(Scope::Briefs, true, &root, &None), Vec::<String>::new());
}

#[test]
fn snapshots_keep_one_entry_per_path_in_order() {
    let snap = Snapshot::build(vec![
        indexed_file(&stat("b.md", 1), "old\n"),
        indexed_file(&stat("a.md", 1), "x\ny\n"),
        indexed_file(&stat("b.md", 2), "new milk\n"),
    ]);
    let paths: Vec<&str> = snap.files.iter().map(|f| f.fingerprint.path.as_str()).collect();
    assert_eq!(paths, vec!["a.md", "b.md"]);
    assert_eq!(snap.files[1].lines, vec!["new milk".to_string()]);
    assert_eq!(snap.files[0].fingerprint.line_count, 2);
}

#[test]
fn candidates_narrow_to_hit_lines() {
    let snap = Snapshot::build(vec![
        indexed_file(&stat("a.md", 1), "milk\nbread\nMILK shake\n"),
        indexed_file(&stat("b.md", 1), "nothing\n"),
    ]);
    let files = vec![
        BucketFile { rel: "b.md".to_string(), abs: "/r/b.md".to_string() },
        BucketFile { rel: "a.md".to_string(), abs: "/r/a.md".to_string() },
        BucketFile { rel: "c.md".to_string(), abs: "/r/c.md".to_string() },
    ];
    let q = Query::compile("milk").unwrap();
    let c = snap.candidates(&files, &q).unwrap();
    assert_eq!(c.len(), 1);
    assert_eq!(c[0].file.rel, "a.md");
    assert_eq!(c[0].lines, vec![0, 2]);
}

#[test]
fn the_memo_serves_only_a_snapshot_that_still_matches() {
    let mut memo = Memo::new();
    let root = "/r".to_string();
    memo.remember(&root, Snapshot::build(vec![indexed_file(&stat("a.md", 5), "x\n")]));
    let live = vec![stat("a.md", 5)];
    assert!(snapshot_with(true, &memo, &root, &live).is_some());
    assert!(snapshot_with(false, &memo, &root, &live).is_none());
    assert!(snapshot_with(true, &memo, &root, &vec![stat("a.md", 6)]).is_none());
    assert!(snapshot_with(true, &memo, &root, &vec![stat("a.md", 5), stat("b.md", 5)]).is_none());
    invalidate(&mut memo, &root);
    assert!(snapshot_with(true, &memo, &root, &live).is_none());
}
