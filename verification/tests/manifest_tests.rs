use rust_solo_all_db::engine::manifest::{decode_manifest, encode_manifest, find_file, select_files};
use rust_solo_all_db::engine::{LSMConfig, LSMTree};
use rust_solo_all_db::DbError;

fn manifest_config() -> LSMConfig {
    LSMConfig {
        memtable_size_limit: 100,
        data_dir: "db".to_string(),
        background_compaction: false,
        background_compaction_interval: 10_000,
        enable_wal: true,
        l0_file_limit: 4,
        level_size_multiplier: 10,
        max_sst_bytes: 64 * 1024 * 1024,
    }
}

fn names_of(files: &Vec<(String, Vec<u8>)>) -> Vec<String> {
    files.iter().map(|f| f.0.clone()).collect()
}

#[test]
fn test_manifest_bytes_are_framed_names() {
    let names = vec!["sstable_000001.sst".to_string(), "b".to_string(), String::new()];
    let bytes = encode_manifest(&names).unwrap();
    let mut expected: Vec<u8> = vec![18, 0, 0, 0];
    expected.extend_from_slice(b"sstable_000001.sst");
    expected.extend_from_slice(&[1, 0, 0, 0, b'b']);
    expected.extend_from_slice(&[0, 0, 0, 0]);
    assert_eq!(bytes, expected);
    assert_eq!(decode_manifest(&bytes), Some(names));
    assert_eq!(encode_manifest(&Vec::new()), Some(Vec::new()));
    assert_eq!(decode_manifest(&[]), Some(Vec::new()));
}

#[test]
fn test_manifest_that_cannot_be_read() {
    assert_eq!(decode_manifest(&[1, 0, 0]), None);
    assert_eq!(decode_manifest(&[2, 0, 0, 0, b'a']), None);
    assert_eq!(decode_manifest(&[1, 0, 0, 0, 0xff]), None);
    assert_eq!(decode_manifest(&[1, 0, 0, 0, b'a', 9]), None);
}

#[test]
fn test_files_are_picked_in_the_order_of_the_names() {
    let files = vec![
        ("a".to_string(), vec![1u8]),
        ("b".to_string(), vec![2u8]),
        ("a".to_string(), vec![3u8]),
        ("c".to_string(), vec![4u8]),
    ];
    assert_eq!(find_file(&files, "a"), Some(0));
    assert_eq!(find_file(&files, "c"), Some(3));
    assert_eq!(find_file(&files, "d"), None);
    let picked = select_files(&files, &vec!["c".to_string(), "a".to_string()]).unwrap();
    assert_eq!(picked, vec![("c".to_string(), vec![4u8]), ("a".to_string(), vec![1u8])]);
    assert_eq!(select_files(&files, &Vec::new()), Some(Vec::new()));
    assert_eq!(select_files(&files, &vec!["a".to_string(), "x".to_string()]), None);
}

#[test]
fn test_manifest_lists_the_tables_of_the_tree() {
    let mut lsm = LSMTree::with_config(manifest_config(), &Vec::new(), None).unwrap();
    assert_eq!(lsm.manifest(), Some(Vec::new()));
    lsm.insert("a".to_string(), "1".to_string()).unwrap();
    lsm.flush().unwrap();
    lsm.insert("b".to_string(), "2".to_string()).unwrap();
    lsm.flush().unwrap();
    let listed = decode_manifest(&lsm.manifest().unwrap()).unwrap();
    assert_eq!(listed, vec!["sstable_000001.sst".to_string(), "sstable_000000.sst".to_string()]);
    assert_eq!(listed, names_of(&lsm.table_files()));
}

#[test]
fn test_open_without_a_manifest_takes_all_files() {
    let mut lsm = LSMTree::with_config(manifest_config(), &Vec::new(), None).unwrap();
    lsm.insert("a".to_string(), "1".to_string()).unwrap();
    lsm.flush().unwrap();
    let files = lsm.table_files();
    let reopened = LSMTree::open(manifest_config(), &files, None, None).unwrap();
    assert_eq!(reopened.get("a").unwrap(), Some("1".to_string()));
    assert_eq!(reopened.stats().sstable_count, 1);
}

#[test]
fn test_open_leaves_aside_what_a_crash_left_behind() {
    let mut lsm = LSMTree::with_config(manifest_config(), &Vec::new(), None).unwrap();
    lsm.insert("a".to_string(), "1".to_string()).unwrap();
    lsm.insert("c".to_string(), "1".to_string()).unwrap();
    lsm.compact().unwrap();
    lsm.insert("b".to_string(), "2".to_string()).unwrap();
    lsm.delete("c").unwrap();
    lsm.flush().unwrap();

    // before the compaction: one table at level 1, one at level 0
    let before_files = lsm.table_files();
    let before_manifest = lsm.manifest().unwrap();
    assert_eq!(names_of(&before_files), vec!["sstable_000001.sst".to_string(), "sstable_L01_000000.sst".to_string()]);

    lsm.compact().unwrap();
    let after_files = lsm.table_files();
    let after_manifest = lsm.manifest().unwrap();
    assert_eq!(names_of(&after_files), vec!["sstable_L01_000001.sst".to_string()]);

    // the directory as a crash in the middle leaves it: old and new tables
    let mut all = before_files.clone();
    all.extend(after_files.iter().cloned());

    // without a manifest the two tables of level 1 overlap
    assert!(matches!(
        LSMTree::with_config(manifest_config(), &all, None),
        Err(DbError::Corrupt(_))
    ));
    assert!(matches!(LSMTree::open(manifest_config(), &all, None, None), Err(DbError::Corrupt(_))));

    // the manifest from before the compaction: the new table is left aside
    let old = LSMTree::open(manifest_config(), &all, Some(&before_manifest), None).unwrap();
    assert_eq!(names_of(&old.table_files()), names_of(&before_files));
    assert_eq!(old.get("a").unwrap(), Some("1".to_string()));
    assert_eq!(old.get("b").unwrap(), Some("2".to_string()));
    assert_eq!(old.get("c").unwrap(), None);

    // the manifest from after the compaction: the merged tables are left aside
    let new = LSMTree::open(manifest_config(), &all, Some(&after_manifest), None).unwrap();
    assert_eq!(names_of(&new.table_files()), names_of(&after_files));
    assert_eq!(new.get("a").unwrap(), Some("1".to_string()));
    assert_eq!(new.get("b").unwrap(), Some("2".to_string()));
    assert_eq!(new.get("c").unwrap(), None);
    assert_eq!(new.stats().total_sstable_entries, 2);
}

#[test]
fn test_open_refuses_a_manifest_that_does_not_fit_the_directory() {
    let mut lsm = LSMTree::with_config(manifest_config(), &Vec::new(), None).unwrap();
    lsm.insert("a".to_string(), "1".to_string()).unwrap();
    lsm.flush().unwrap();
    let files = lsm.table_files();
    let manifest = lsm.manifest().unwrap();

    assert!(matches!(
        LSMTree::open(manifest_config(), &Vec::new(), Some(&manifest), None),
        Err(DbError::Corrupt(_))
    ));
    assert!(matches!(
        LSMTree::open(manifest_config(), &files, Some(&manifest[..manifest.len() - 1]), None),
        Err(DbError::Corrupt(_))
    ));
    let empty = encode_manifest(&Vec::new()).unwrap();
    let none = LSMTree::open(manifest_config(), &files, Some(&empty), None).unwrap();
    assert_eq!(none.stats().sstable_count, 0);
    assert_eq!(none.get("a").unwrap(), None);
}

#[test]
fn test_flushed_table_and_log_after_a_crash_before_the_log_was_emptied() {
    let mut lsm = LSMTree::with_config(manifest_config(), &Vec::new(), None).unwrap();
    lsm.insert("k".to_string(), "v".to_string()).unwrap();
    let log = lsm.wal_bytes().unwrap().clone();
    lsm.flush().unwrap();
    let files = lsm.table_files();
    let manifest = lsm.manifest().unwrap();
    let reopened = LSMTree::open(manifest_config(), &files, Some(&manifest), Some(log)).unwrap();
    assert_eq!(reopened.get("k").unwrap(), Some("v".to_string()));
    assert_eq!(reopened.memtable_size(), 1);
    assert_eq!(reopened.stats().sstable_count, 1);
}
