use find_empty_folders::counts::CountTable;
use find_empty_folders::digest::{
    bytes_2uint256, is_le_order, is_system_le, uint256_text_with, Sha256Stream, BYTE_ORDER_PROBE,
};
use find_empty_folders::filetype::FileTypes;
use find_empty_folders::groups::FileEntry;
use find_empty_folders::jsontypes::Jsontypes;
use find_empty_folders::order::sort_order;
use find_empty_folders::reclaim::{dir_entry, EntryKind, ReclaimStorage, WalkEntry};
use find_empty_folders::script::{
    default_ext, gen_delete_empty_dir_statement, gen_delete_statement, ScriptStyle,
};

fn entry(path: &str, ext: Option<&str>) -> FileEntry {
    FileEntry { path: path.to_string(), ext: ext.map(|e| e.to_string()) }
}

fn file(path: &str, ext: Option<&str>, size: Option<u64>) -> Result<WalkEntry, String> {
    Ok(WalkEntry { file: entry(path, ext), kind: EntryKind::File { size } })
}

fn dir(path: &str, empty: Option<bool>) -> Result<WalkEntry, String> {
    Ok(WalkEntry { file: entry(path, None), kind: EntryKind::Dir { empty } })
}

/// A SHA-256 computation fed `bytes`.
fn stream(bytes: &[u8]) -> Sha256Stream {
    let mut s = Sha256Stream::new();
    assert!(s.update(bytes));
    s
}

fn sha256_digest(bytes: &[u8]) -> Vec<u8> {
    stream(bytes).finish()
}

fn stats() -> FileTypes {
    let ft = CountTable::from_pairs(vec![("txt".to_string(), 0)]);
    FileTypes::new(Jsontypes::new(Some(ft)))
}

#[test]
fn new_storage_starts_possible_duplicates_at_one() {
    let r = ReclaimStorage::new();
    assert_eq!(r.possible_dup_files, 1);
    assert_eq!(r.files_processed, 0);
    assert_eq!(r.confirmed_dups, 0);
    assert_eq!(r.total_reclaim, 0);
    assert_eq!(r.duplicate_files.len(), 0);
    assert!(r.unique_files0.is_empty());
    assert!(r.empty_folders.is_empty());
}

#[test]
fn dir_entry_drops_errors() {
    assert!(dir_entry::<String>(Err("denied".to_string())).is_none());
    let e = dir_entry::<String>(file("a", None, Some(1))).unwrap();
    assert_eq!(e.file.path, "a");
}

#[test]
fn first_pass_buckets_large_files_by_size() {
    let mut r = ReclaimStorage::new();
    let results = vec![
        file("d/a.txt", Some("txt"), Some(10)),
        file("d/b.txt", Some("txt"), Some(10)),
        file("d/small", None, Some(5)),
        file("d/c.bin", Some("bin"), Some(20)),
        file("d/nometa", None, None),
        dir("d", Some(false)),
        Err("denied".to_string()),
    ];
    r.find_duplicates(&results, 5, true);
    assert_eq!(r.files_processed, 6);
    assert_eq!(r.unique_files0.len(), 2);
    let b10: Vec<&str> = r.unique_files0[&10].iter().map(|f| f.path.as_str()).collect();
    assert_eq!(b10, vec!["d/a.txt", "d/b.txt"]);
    assert_eq!(r.unique_files0[&20].len(), 1);
    let mut keys = r.size_keys();
    keys.sort();
    assert_eq!(keys, vec![10, 20]);
    let bucket = r.take_candidates(10);
    assert_eq!(bucket.len(), 2);
    assert!(!r.unique_files0.contains_key(&10));
    assert_eq!(r.take_candidates(20).len(), 0);
    assert!(!r.unique_files0.contains_key(&20));
    assert_eq!(r.take_candidates(99).len(), 0);
    assert!(r.unique_files0.is_empty());
}

#[test]
fn first_pass_without_dupfiles_only_counts() {
    let mut r = ReclaimStorage::new();
    let results = vec![file("a", None, Some(100)), file("b", None, Some(100))];
    r.find_duplicates(&results, 0, false);
    assert_eq!(r.files_processed, 2);
    assert!(r.unique_files0.is_empty());
}

#[test]
fn empty_folders_are_recorded_and_counted() {
    let mut r = ReclaimStorage::new();
    let results = vec![
        dir("top", Some(false)),
        dir("top/empty1", Some(true)),
        dir("top/unreadable", None),
        file("top/f", None, Some(1)),
        Err("loop".to_string()),
        dir("top/empty2", Some(true)),
    ];
    r.find_emptyfolders(&results, true);
    assert_eq!(r.empty_folders, vec!["top/empty1".to_string(), "top/empty2".to_string()]);
    assert_eq!(r.confirmed_dups, 2);
    assert_eq!(r.files_processed, 5);
    let script = r.gen_delempty_batch();
    assert_eq!(script, vec!["rmdir \"top/empty1\"\r\n".to_string(), "rmdir \"top/empty2\"\r\n".to_string()]);
}

#[test]
fn empty_folders_ignored_without_flag() {
    let mut r = ReclaimStorage::new();
    r.find_emptyfolders(&vec![dir("e", Some(true))], false);
    assert!(r.empty_folders.is_empty());
    assert_eq!(r.confirmed_dups, 0);
    assert_eq!(r.files_processed, 1);
}

#[test]
fn second_pass_groups_identical_contents() {
    let mut r = ReclaimStorage::new();
    let mut s = stats();
    let mut singles: Vec<Vec<u8>> = Vec::new();
    assert!(r.process_candidate(10, entry("a.txt", Some("txt")), stream(b"same"), &mut s, &mut singles));
    assert!(r.process_candidate(10, entry("b.txt", Some("txt")), stream(b"same"), &mut s, &mut singles));
    assert!(r.process_candidate(10, entry("c", None), stream(b"other"), &mut s, &mut singles));
    assert!(r.process_candidate(10, entry("d.zip", Some("zip")), stream(b"same"), &mut s, &mut singles));
    assert_eq!(singles.len(), 2);
    assert_eq!(r.confirmed_dups, 2);
    assert_eq!(r.total_reclaim, 20);
    assert_eq!(r.duplicate_files.len(), 2);
    assert_eq!(s.ft.get(&"txt".to_string()), Some(1));
    assert_eq!(s.uft.get(&"zip".to_string()), Some(1));
    assert_eq!(s.others, 1);
    assert!(r.can_remove_single_entries(&singles));
    r.remove_single_entries(singles);
    assert_eq!(r.duplicate_files.len(), 1);
    let g = &r.duplicate_files.as_vec()[0];
    assert_eq!(g.key, sha256_digest(b"same"));
    let paths: Vec<&str> = g.files.iter().map(|f| f.path.as_str()).collect();
    assert_eq!(paths, vec!["a.txt", "b.txt", "d.zip"]);
    // one group of 3 (gain 3) and one single (loses 1, gains 1)
    assert_eq!(r.possible_dup_files, 4);
}

#[test]
fn singles_removal_checks() {
    let mut r = ReclaimStorage::new();
    let mut s = stats();
    let mut singles: Vec<Vec<u8>> = Vec::new();
    assert!(r.process_candidate(3, entry("x", None), stream(b"x"), &mut s, &mut singles));
    let missing = vec![sha256_digest(b"nothing")];
    assert!(!r.can_remove_single_entries(&missing));
    let twice = vec![singles[0].clone(), singles[0].clone()];
    assert!(!r.can_remove_single_entries(&twice));
    r.possible_dup_files = 0;
    assert!(!r.can_remove_single_entries(&singles));
    r.possible_dup_files = 1;
    assert!(r.can_remove_single_entries(&singles));
    r.remove_single_entries(singles);
    assert_eq!(r.duplicate_files.len(), 0);
    assert_eq!(r.possible_dup_files, 1);
}

#[test]
fn repeated_digest_of_a_larger_group_counts_twice() {
    let mut r = ReclaimStorage::new();
    let mut s = stats();
    let mut singles: Vec<Vec<u8>> = Vec::new();
    assert!(r.process_candidate(4, entry("a", None), stream(b"dup"), &mut s, &mut singles));
    assert!(r.process_candidate(4, entry("b", None), stream(b"dup"), &mut s, &mut singles));
    let twice = vec![singles[0].clone(), singles[0].clone()];
    assert!(r.can_remove_single_entries(&twice));
    r.remove_single_entries(twice);
    assert_eq!(r.duplicate_files.len(), 1);
    assert_eq!(r.possible_dup_files, 1 + 2 + 2);
}

#[test]
fn second_pass_refuses_overflow() {
    let mut r = ReclaimStorage::new();
    let mut s = stats();
    let mut singles: Vec<Vec<u8>> = Vec::new();
    assert!(r.process_candidate(10, entry("a", None), stream(b"same"), &mut s, &mut singles));
    r.total_reclaim = u64::MAX - 5;
    assert!(!r.process_candidate(10, entry("b", None), stream(b"same"), &mut s, &mut singles));
    assert_eq!(r.confirmed_dups, 0);
    assert_eq!(r.duplicate_files.as_vec()[0].files.len(), 1);
}

#[test]
fn sha256_of_abc() {
    let d = sha256_digest(b"abc");
    let hex: String = d.iter().map(|b| format!("{:02x}", b)).collect();
    assert_eq!(hex, "ba7816bf8f01cfea414140de5dae2223b00361a396177a9cb410ff61f20015ad");
}

#[test]
fn sha256_fed_in_pieces() {
    let mut s = Sha256Stream::new();
    assert_eq!(s.len(), 0);
    assert!(s.update(b"a"));
    assert!(s.update(b""));
    assert!(s.update(b"bc"));
    assert_eq!(s.len(), 3);
    assert_eq!(s.finish(), sha256_digest(b"abc"));
    let empty: String = Sha256Stream::new().finish().iter().map(|b| format!("{:02x}", b)).collect();
    assert_eq!(empty, "e3b0c44298fc1c149afbf4c8996fb92427ae41e4649b934ca495991b7852b855");
}

#[test]
fn digest_number_text() {
    assert_eq!(uint256_text_with(&[1, 0], true), "1");
    assert_eq!(uint256_text_with(&[1, 0], false), "256");
    assert_eq!(uint256_text_with(&[0, 0], true), "0");
    assert_eq!(uint256_text_with(&[0x10, 0x27], true), "10000");
    let d = sha256_digest(b"abc");
    let t = bytes_2uint256(&d);
    assert!(t == uint256_text_with(&d, true) || t == uint256_text_with(&d, false));
    assert_eq!(t, uint256_text_with(&d, is_system_le()));
}

#[test]
fn byte_order_of_the_machine() {
    assert_eq!(is_system_le(), 1u16.to_ne_bytes()[0] == 1);
    assert_eq!(bytes_2uint256(&[1, 0]), if is_system_le() { "1" } else { "256" });
}

#[test]
fn delete_statements_per_style() {
    assert_eq!(gen_delete_statement(ScriptStyle::Unix, "a b/c", false), "rm \"a b/c\"\r\n");
    assert_eq!(gen_delete_statement(ScriptStyle::Unix, "x", true), "# rm \"x\"\r\n");
    assert_eq!(gen_delete_statement(ScriptStyle::Windows, "C:\\x", false), "del \"C:\\x\"\r\n");
    assert_eq!(gen_delete_statement(ScriptStyle::Windows, "C:\\x", true), "REM del \"C:\\x\"\r\n");
    assert_eq!(gen_delete_empty_dir_statement("d"), "rmdir \"d\"\r\n");
    assert_eq!(default_ext(ScriptStyle::Unix), "sh");
    assert_eq!(default_ext(ScriptStyle::Windows), "cmd");
}

#[test]
fn stable_sort_order_by_age() {
    assert_eq!(sort_order(&vec![30, 10, 20, 10]), vec![1, 3, 2, 0]);
    assert_eq!(sort_order(&vec![]), Vec::<usize>::new());
    assert_eq!(sort_order(&vec![5, 5, 5]), vec![0, 1, 2]);
}

#[test]
fn stable_order_lists_each_index_once_least_first() {
    let keys = vec![9, 3, 3, 7, 1, 9];
    let p = sort_order(&keys);
    let mut seen = p.clone();
    seen.sort();
    assert_eq!(seen, (0..keys.len()).collect::<Vec<usize>>());
    assert!(keys.iter().all(|k| keys[p[0]] <= *k));
    assert_eq!(p, vec![4, 1, 2, 3, 0, 5]);
}

#[test]
fn duplicate_script_keeps_most_recent_and_deletes_the_rest() {
    let mut r = ReclaimStorage::new();
    let mut s = stats();
    let mut singles: Vec<Vec<u8>> = Vec::new();
    for (p, c) in [("old", "A"), ("new", "A"), ("mid", "A"), ("solo", "B"), ("x1", "C"), ("x2", "C")] {
        assert!(r.process_candidate(1, entry(p, None), stream(c.as_bytes()), &mut s, &mut singles));
    }
    assert_eq!(r.confirmed_dups, 3);
    // ages in seconds since last access, one list per group
    let ages = vec![vec![300, 5, 60], vec![0], vec![7, 7]];
    let st = r.gen_deldup_batch(ScriptStyle::Unix, &ages);
    assert_eq!(
        st,
        vec![
            "# rm \"new\"\r\n".to_string(),
            "rm \"mid\"\r\n".to_string(),
            "rm \"old\"\r\n".to_string(),
            "# rm \"x1\"\r\n".to_string(),
            "rm \"x2\"\r\n".to_string(),
        ]
    );
    let deleted = st.iter().filter(|l| !l.starts_with("# ")).count() as u64;
    assert_eq!(deleted, r.confirmed_dups);
    let order: Vec<&str> = r.duplicate_files.as_vec()[0].files.iter().map(|f| f.path.as_str()).collect();
    assert_eq!(order, vec!["new", "mid", "old"]);
}

#[test]
fn duplicates_report_text() {
    let mut r = ReclaimStorage::new();
    assert_eq!(r.show_duplicates_with(true), "No duplicate found.\n");
    let mut s = stats();
    let mut singles: Vec<Vec<u8>> = Vec::new();
    assert!(r.process_candidate(1, entry("p1", None), stream(b"z"), &mut s, &mut singles));
    assert_eq!(r.show_duplicates_with(true), "");
    assert!(r.process_candidate(1, entry("p2", None), stream(b"z"), &mut s, &mut singles));
    let key = uint256_text_with(&sha256_digest(b"z"), true);
    assert_eq!(r.show_duplicates_with(true), format!("KEY: {}\n File names:\np1\np2\n\n", key));
    let t = r.show_duplicates();
    assert!(t == r.show_duplicates_with(true) || t == r.show_duplicates_with(false));
}

#[test]
fn summary_texts() {
    let mut r = ReclaimStorage::new();
    r.files_processed = 552636;
    r.confirmed_dups = 33;
    r.total_reclaim = 1244 * 1024 * 1024 + 5;
    assert_eq!(
        r.dup_stats_text(ScriptStyle::Windows),
        "Total no. of files processes: 552636\nTotal no. of duplicate files: 33\n\
         Total amount of disk space can be reclaimed: 1244MB\n\
         To reclaimed the disk space run this generated script file \"deleteduplicates.cmd\"\n. \
         You may review the script before before running it\n"
    );
    assert_eq!(
        r.empty_stats_text(ScriptStyle::Unix),
        "Total no. of folders processes: 552636\nTotal no. of empty folders found: 33\n\
         To remove the empty folders run this generated script file \"delemptyfolders.sh\"\n. \
         You may review the script before before running it\n"
    );
}

#[test]
fn whole_bucket_groups_and_drops_singles() {
    let mut r = ReclaimStorage::new();
    let mut s = stats();
    let bucket = vec![
        (entry("a.txt", Some("txt")), stream(b"same")),
        (entry("solo", None), stream(b"other")),
        (entry("b.txt", Some("txt")), stream(b"same")),
        (entry("c.zip", Some("zip")), stream(b"same")),
    ];
    assert!(r.process_bucket(10, bucket, &mut s));
    assert_eq!(r.duplicate_files.len(), 1);
    let g = &r.duplicate_files.as_vec()[0];
    assert_eq!(g.key, sha256_digest(b"same"));
    let paths: Vec<&str> = g.files.iter().map(|f| f.path.as_str()).collect();
    assert_eq!(paths, vec!["a.txt", "b.txt", "c.zip"]);
    assert_eq!(r.confirmed_dups, 2);
    assert_eq!(r.total_reclaim, 20);
    assert_eq!(r.possible_dup_files, 1 + 3);
    assert_eq!(s.ft.get(&"txt".to_string()), Some(1));
    assert_eq!(s.uft.get(&"zip".to_string()), Some(1));
    // a later bucket: a file joins the group from before, new singles go
    let later = vec![(entry("d", None), stream(b"same")), (entry("e", None), stream(b"new"))];
    assert!(r.process_bucket(10, later, &mut s));
    assert_eq!(r.duplicate_files.len(), 1);
    assert_eq!(r.duplicate_files.as_vec()[0].files.len(), 4);
    assert_eq!(r.confirmed_dups, 3);
    assert_eq!(r.total_reclaim, 30);
    assert!(r.duplicate_files.as_vec().iter().all(|g| g.files.len() >= 2));
    assert!(r.process_bucket(7, vec![], &mut s));
    assert_eq!(r.confirmed_dups, 3);
}

#[test]
fn whole_bucket_refuses_overflow() {
    let mut r = ReclaimStorage::new();
    let mut s = stats();
    r.total_reclaim = u64::MAX - 5;
    let bucket = vec![(entry("a", None), stream(b"x")), (entry("b", None), stream(b"x"))];
    assert!(!r.process_bucket(10, bucket, &mut s));
    assert_eq!(r.confirmed_dups, 0);
}

#[test]
fn key_text_tells_digests_apart() {
    let a = sha256_digest(b"a");
    let b = sha256_digest(b"b");
    for le in [true, false] {
        assert_ne!(uint256_text_with(&a, le), uint256_text_with(&b, le));
        assert_eq!(uint256_text_with(&a, le), uint256_text_with(&sha256_digest(b"a"), le));
    }
}

#[test]
fn whole_second_pass_empties_buckets_and_keeps_only_duplicates() {
    let mut r = ReclaimStorage::new();
    let mut s = stats();
    let results = vec![
        file("a1", Some("txt"), Some(10)),
        file("a2", Some("txt"), Some(10)),
        file("a3", None, Some(10)),
        file("b1", None, Some(20)),
        file("c1", None, Some(30)),
        file("c2", None, Some(30)),
    ];
    r.find_duplicates(&results, 5, true);
    let mut buckets = r.take_all_candidates();
    assert!(r.unique_files0.is_empty());
    buckets.sort_by_key(|b| b.0);
    let sizes: Vec<u64> = buckets.iter().map(|b| b.0).collect();
    assert_eq!(sizes, vec![10, 30]);
    let contents = |p: &str| -> &'static [u8] {
        match p {
            "a1" | "a2" => b"A",
            "a3" => b"other",
            _ => b"C",
        }
    };
    let hashed: Vec<(u64, Vec<(FileEntry, Sha256Stream)>)> = buckets
        .into_iter()
        .map(|(size, fs)| (size, fs.into_iter().map(|f| { let c = contents(&f.path); (f, stream(c)) }).collect()))
        .collect();
    assert!(r.process_buckets(hashed, &mut s));
    assert!(r.unique_files0.is_empty());
    assert_eq!(r.duplicate_files.len(), 2);
    assert!(r.duplicate_files.as_vec().iter().all(|g| g.files.len() >= 2));
    assert_eq!(r.confirmed_dups, 2);
    assert_eq!(r.total_reclaim, 10 + 30);
    assert_eq!(r.possible_dup_files, 1 + 2 + 2);
}

#[test]
fn whole_second_pass_refuses_overflow() {
    let mut r = ReclaimStorage::new();
    let mut s = stats();
    r.confirmed_dups = u64::MAX;
    let hashed = vec![(4, vec![(entry("a", None), stream(b"q")), (entry("b", None), stream(b"q"))])];
    assert!(!r.process_buckets(hashed, &mut s));
}

#[test]
fn byte_order_decision() {
    assert!(is_le_order([0xff, 0x00]));
    assert!(!is_le_order([0x00, 0xff]));
    assert_eq!(is_system_le(), is_le_order(BYTE_ORDER_PROBE.to_ne_bytes()));
}
