use rust_solo_all_db::engine::leveled_compaction::{drop_tombstones, merge_runs, merge_tables, newest_first, split_run};
use rust_solo_all_db::engine::{Compactor, LevelManager, LeveledCompactor, SSTable};
use rust_solo_all_db::{Record, Value};

fn rec(key: &str, value: Option<&str>) -> Record {
    Record {
        key: key.to_string(),
        value: match value {
            Some(v) => Value::Data(v.to_string()),
            None => Value::Tombstone,
        },
    }
}

fn create_test_sstable_with_data(level: usize, name: &str, data: Vec<Record>) -> SSTable {
    SSTable::create_with_level(name, &data, level).unwrap()
}

#[test]
fn test_sstable_merging() {
    let mut compactor = LeveledCompactor::new("data".to_string(), 1);

    let data1 = vec![rec("key1", Some("value1")), rec("key2", Some("value2"))];
    let data2 = vec![rec("key2", Some("value2_updated")), rec("key3", Some("value3"))];

    let sstable1 = create_test_sstable_with_data(0, "test_level_0_0.sst", data1);
    let sstable2 = create_test_sstable_with_data(0, "test_level_0_1.sst", data2);

    let sstables = vec![sstable1, sstable2];
    let merged = compactor.merge_sstables(sstables, 1, true).unwrap();

    assert!(!merged.is_empty());

    let mut found_keys = std::collections::HashSet::new();
    for merged_sstable in merged {
        let records = merged_sstable.load_records().unwrap();
        for record in records {
            found_keys.insert(record.key.clone());
            match record.key.as_str() {
                "key1" => assert_eq!(record.value, Value::Data("value1".to_string())),
                "key2" => assert_eq!(record.value, Value::Data("value2_updated".to_string())),
                "key3" => assert_eq!(record.value, Value::Data("value3".to_string())),
                _ => panic!("Unexpected key: {}", record.key),
            }
        }
    }

    assert!(found_keys.contains("key1"));
    assert!(found_keys.contains("key2"));
    assert!(found_keys.contains("key3"));
}

#[test]
fn test_tombstone_removal() {
    let mut compactor = LeveledCompactor::new("data".to_string(), 1);

    let data = vec![rec("key1", Some("value1")), rec("key2", None)];

    let sstable = create_test_sstable_with_data(0, "test_level_0_2.sst", data);
    let merged = compactor.merge_sstables(vec![sstable], 1, true).unwrap();

    let mut total_records = 0;
    let mut found_key1 = false;

    for merged_sstable in merged {
        let records = merged_sstable.load_records().unwrap();
        total_records += records.len();

        for record in records {
            if record.key == "key1" {
                found_key1 = true;
                assert_eq!(record.value, Value::Data("value1".to_string()));
            } else if record.key == "key2" {
                panic!("Tombstone key2 should have been removed!");
            }
        }
    }

    assert_eq!(total_records, 1, "Should only have 1 record after tombstone removal");
    assert!(found_key1, "key1 should be present");
}

#[test]
fn test_tombstones_kept_above_the_bottom() {
    let mut compactor = LeveledCompactor::new("data".to_string(), 5);
    let sstable = create_test_sstable_with_data(0, "t.sst", vec![rec("a", Some("1")), rec("b", None)]);
    let merged = compactor.merge_sstables(vec![sstable], 1, false).unwrap();
    assert_eq!(merged.len(), 1);
    assert_eq!(merged[0].load_records().unwrap(), vec![rec("a", Some("1")), rec("b", None)]);
    assert_eq!(merged[0].file_path(), "sstable_L01_000005.sst");
    assert_eq!(merged[0].level(), 1);
    assert_eq!(compactor.next_sstable_id(), 6);
}

#[test]
fn test_merge_runs_newer_wins() {
    let newer = vec![rec("b", Some("new")), rec("c", None), rec("e", Some("5"))];
    let older = vec![rec("a", Some("1")), rec("b", Some("old")), rec("c", Some("3")), rec("d", Some("4"))];
    let merged = merge_runs(&newer, &older);
    assert_eq!(
        merged,
        vec![rec("a", Some("1")), rec("b", Some("new")), rec("c", None), rec("d", Some("4")), rec("e", Some("5"))]
    );
    assert_eq!(drop_tombstones(&merged).len(), 4);
    assert_eq!(merge_runs(&Vec::new(), &older), older);
    assert_eq!(merge_runs(&newer, &Vec::new()), newer);
}

#[test]
fn test_merge_tables_first_wins() {
    let t1 = create_test_sstable_with_data(0, "1.sst", vec![rec("k", Some("newest"))]);
    let t2 = create_test_sstable_with_data(0, "2.sst", vec![rec("k", Some("middle")), rec("l", Some("x"))]);
    let t3 = create_test_sstable_with_data(1, "3.sst", vec![rec("j", Some("y")), rec("k", Some("oldest"))]);
    let merged = merge_tables(&vec![t1, t2, t3]);
    assert_eq!(merged, vec![rec("j", Some("y")), rec("k", Some("newest")), rec("l", Some("x"))]);
    assert!(merge_tables(&Vec::new()).is_empty());
}

#[test]
fn test_split_run_by_size() {
    // each record counts 1 + 3 bytes
    let run: Vec<Record> = (0..10).map(|i| rec(&format!("{}", i), Some("abc"))).collect();
    let chunks = split_run(&run, 12);
    let sizes: Vec<usize> = chunks.iter().map(|c| c.len()).collect();
    assert_eq!(sizes, vec![3, 3, 3, 1]);
    let flat: Vec<Record> = chunks.into_iter().flatten().collect();
    assert_eq!(flat, run);

    // a record larger than the limit gets a table of its own
    let sizes: Vec<usize> = split_run(&run, 1).iter().map(|c| c.len()).collect();
    assert_eq!(sizes, vec![1; 10]);
    assert_eq!(split_run(&run, 40).len(), 1);
    assert_eq!(split_run(&run, 39).len(), 2);
    assert!(split_run(&Vec::new(), 10).is_empty());
    // a tombstone counts its key only
    let sizes: Vec<usize> =
        split_run(&vec![rec("ab", None), rec("cd", None), rec("ef", None)], 4).iter().map(|c| c.len()).collect();
    assert_eq!(sizes, vec![2, 1]);
}

#[test]
fn test_compact_level_0_to_1() {
    let mut manager = LevelManager::new();
    let mut compactor = LeveledCompactor::new("data".to_string(), 10);
    manager.add_sstable(create_test_sstable_with_data(1, "sstable_L01_000001.sst", vec![rec("a", Some("old-a")), rec("c", Some("old-c"))]), 1);
    manager.add_sstable(create_test_sstable_with_data(1, "sstable_L01_000002.sst", vec![rec("x", Some("old-x")), rec("z", Some("old-z"))]), 1);
    manager.add_sstable(create_test_sstable_with_data(0, "sstable_000003.sst", vec![rec("b", Some("1")), rec("c", Some("mid-c"))]), 0);
    manager.add_sstable(create_test_sstable_with_data(0, "sstable_000004.sst", vec![rec("c", None), rec("d", Some("2"))]), 0);

    compactor.compact_level_0_to_1(&mut manager).unwrap();

    assert_eq!(manager.get_level_count(0), 0);
    let level1 = manager.get_sstables_at_level(1);
    assert_eq!(level1.len(), 2);
    // level 1 is the deepest level, so the deletion of c is dropped with c
    assert_eq!(
        level1[0].load_records().unwrap(),
        vec![rec("a", Some("old-a")), rec("b", Some("1")), rec("d", Some("2"))]
    );
    assert_eq!(level1[0].file_path(), "sstable_L01_000010.sst");
    // the table that the sources do not reach stays as it is
    assert_eq!(level1[1].file_path(), "sstable_L01_000002.sst");
    assert_eq!(manager.find("c"), None);
    assert_eq!(manager.find("x"), Some(&Value::Data("old-x".to_string())));
}

#[test]
fn test_compaction_keeps_tombstones_over_deeper_levels() {
    let mut manager = LevelManager::new();
    let mut compactor = LeveledCompactor::new("data".to_string(), 10);
    manager.add_sstable(create_test_sstable_with_data(2, "sstable_L02_000001.sst", vec![rec("k", Some("ancient"))]), 2);
    manager.add_sstable(create_test_sstable_with_data(0, "sstable_000002.sst", vec![rec("k", None)]), 0);
    assert_eq!(manager.find("k"), Some(&Value::Tombstone));

    compactor.compact_level(&mut manager, 0).unwrap();

    assert_eq!(manager.get_level_count(0), 0);
    assert_eq!(manager.get_level_count(1), 1);
    // the deletion still hides the older payload
    assert_eq!(manager.find("k"), Some(&Value::Tombstone));
}

#[test]
fn test_compaction_of_nothing_is_a_no_op() {
    let mut manager = LevelManager::new();
    let mut compactor = LeveledCompactor::new("data".to_string(), 3);
    compactor.compact_level_0_to_1(&mut manager).unwrap();
    assert!(manager.is_empty());
    manager.add_sstable(create_test_sstable_with_data(1, "sstable_L01_000001.sst", vec![rec("a", Some("1"))]), 1);
    // level 1 is far from its capacity
    compactor.compact_level_n_to_n_plus_1(&mut manager, 1).unwrap();
    assert_eq!(manager.get_level_count(1), 1);
    assert_eq!(manager.get_level_count(2), 0);
    assert_eq!(compactor.next_sstable_id(), 3);
}

#[test]
fn test_simple_compactor() {
    let compactor = Compactor::new("data".to_string());
    assert_eq!(compactor.data_dir(), "data");
    assert!(!compactor.should_compact(2));
    assert!(compactor.should_compact(3));
    assert!(compactor.should_compact(4));

    let t1 = create_test_sstable_with_data(0, "test2.sst", vec![rec("key1", Some("value1_new")), rec("key3", Some("value3")), rec("key4", None)]);
    let t2 = create_test_sstable_with_data(0, "test1.sst", vec![rec("key1", Some("value1_old")), rec("key2", Some("value2"))]);
    let compacted = compactor.compact_sstables(&vec![t1, t2], 999).unwrap();
    assert_eq!(compacted.len(), 3);
    assert_eq!(compacted.get("key1").unwrap(), Some("value1_new".to_string()));
    assert_eq!(compacted.get("key2").unwrap(), Some("value2".to_string()));
    assert_eq!(compacted.get("key3").unwrap(), Some("value3".to_string()));
    assert_eq!(compacted.file_path(), "sstable_000999_compacted.sst");
}

#[test]
fn test_the_later_table_of_the_list_wins() {
    let mut compactor = LeveledCompactor::new("data".to_string(), 7);
    let oldest = create_test_sstable_with_data(0, "sstable_000001.sst", vec![rec("a", Some("1")), rec("b", Some("1"))]);
    let middle = create_test_sstable_with_data(0, "sstable_000002.sst", vec![rec("b", Some("2")), rec("c", Some("2"))]);
    let newest = create_test_sstable_with_data(0, "sstable_000003.sst", vec![rec("c", None), rec("d", Some("3"))]);

    let kept = compactor.merge_sstables(vec![oldest.clone(), middle.clone(), newest.clone()], 1, false).unwrap();
    assert_eq!(kept.len(), 1);
    assert_eq!(kept[0].file_path(), "sstable_L01_000007.sst");
    assert_eq!(kept[0].level(), 1);
    assert_eq!(
        kept[0].load_records().unwrap(),
        vec![rec("a", Some("1")), rec("b", Some("2")), rec("c", None), rec("d", Some("3"))]
    );

    let dropped = compactor.merge_sstables(vec![oldest, middle, newest], 1, true).unwrap();
    assert_eq!(dropped[0].file_path(), "sstable_L01_000008.sst");
    assert_eq!(
        dropped[0].load_records().unwrap(),
        vec![rec("a", Some("1")), rec("b", Some("2")), rec("d", Some("3"))]
    );
    assert_eq!(compactor.upcoming_id(), 9);
    assert!(compactor.merge_sstables(Vec::new(), 1, true).unwrap().is_empty());
}

#[test]
fn test_newest_first_turns_the_list_round() {
    let a = create_test_sstable_with_data(0, "sstable_000001.sst", vec![rec("a", Some("1"))]);
    let b = create_test_sstable_with_data(0, "sstable_000002.sst", vec![rec("b", Some("2"))]);
    let c = create_test_sstable_with_data(0, "sstable_000003.sst", vec![rec("c", Some("3"))]);
    let turned = newest_first(vec![a, b, c]);
    let names: Vec<&str> = turned.iter().map(|t| t.file_path()).collect();
    assert_eq!(names, vec!["sstable_000003.sst", "sstable_000002.sst", "sstable_000001.sst"]);
    assert!(newest_first(Vec::new()).is_empty());
}

#[test]
fn test_a_deletion_stands_in_the_target_level_above_the_deepest() {
    let mut manager = LevelManager::new();
    let mut compactor = LeveledCompactor::new("data".to_string(), 10);
    manager.add_sstable(create_test_sstable_with_data(2, "sstable_L02_000001.sst", vec![rec("k", Some("ancient"))]), 2);
    manager.add_sstable(create_test_sstable_with_data(1, "sstable_L01_000002.sst", vec![rec("k", Some("old")), rec("m", None)]), 1);
    manager.add_sstable(create_test_sstable_with_data(0, "sstable_000003.sst", vec![rec("k", None), rec("n", Some("new"))]), 0);

    compactor.compact_level(&mut manager, 0).unwrap();

    let level1 = manager.get_sstables_at_level(1);
    assert_eq!(level1.len(), 1);
    // the deletions of k and of m stand in level 1, over the payload of k in level 2
    assert_eq!(level1[0].load_records().unwrap(), vec![rec("k", None), rec("m", None), rec("n", Some("new"))]);
    assert_eq!(manager.get_level_count(2), 1);
}
