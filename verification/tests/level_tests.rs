use rust_solo_all_db::engine::{LevelManager, SSTable};
use rust_solo_all_db::{Record, Value};

fn create_test_sstable(level: usize, min_key: &str, max_key: &str) -> SSTable {
    let path = format!("test_level_{}_{}_{}.sst", level, min_key, max_key);
    let data = vec![
        Record { key: min_key.to_string(), value: Value::Data(format!("value_{}", min_key)) },
        Record { key: max_key.to_string(), value: Value::Data(format!("value_{}", max_key)) },
    ];
    SSTable::create_with_level(&path, &data, level).unwrap()
}

#[test]
fn test_level_manager_basic() {
    let mut manager = LevelManager::new();

    let sstable1 = create_test_sstable(0, "key1", "key2");
    let sstable2 = create_test_sstable(1, "key3", "key4");

    manager.add_sstable(sstable1, 0);
    manager.add_sstable(sstable2, 1);

    assert_eq!(manager.get_level_count(0), 1);
    assert_eq!(manager.get_level_count(1), 1);
    assert_eq!(manager.get_max_level(), 1);
}

#[test]
fn test_compaction_trigger() {
    let mut manager = LevelManager::with_config(2, 10);

    for i in 0..3 {
        let sstable = create_test_sstable(0, &format!("key{}", i), &format!("key{}", i + 1));
        manager.add_sstable(sstable, 0);
    }

    assert!(manager.should_compact(0));

    let candidates = manager.get_compaction_candidates(0);
    assert_eq!(candidates.len(), 3);
}

#[test]
fn test_overlapping_sstables() {
    let mut manager = LevelManager::new();

    let sstable1 = create_test_sstable(1, "a", "f");
    let sstable2 = create_test_sstable(1, "g", "m");
    let sstable3 = create_test_sstable(1, "n", "z");

    manager.add_sstable(sstable1, 1);
    manager.add_sstable(sstable2, 1);
    manager.add_sstable(sstable3, 1);

    let overlapping = manager.get_overlapping_sstables(1, "e", "h");
    assert_eq!(overlapping.len(), 2);
}

#[test]
fn test_stats() {
    let mut manager = LevelManager::new();

    let sstable1 = create_test_sstable(0, "key1", "key2");
    let sstable2 = create_test_sstable(1, "key3", "key4");

    manager.add_sstable(sstable1, 0);
    manager.add_sstable(sstable2, 1);

    let stats = manager.stats();

    assert_eq!(stats.max_level, 1);
    assert_eq!(stats.level_stats.len(), 2);
    assert_eq!(stats.level_stats[0].file_count, 1);
    assert_eq!(stats.level_stats[0].total_size, 2);
    assert_eq!(stats.level_stats[0].max_size, 4);
    assert!(!stats.level_stats[0].should_compact);
    assert_eq!(stats.level_stats[1].max_size, 10 * 1024 * 1024);
}

#[test]
fn test_level_zero_is_newest_first() {
    let mut manager = LevelManager::new();
    manager.add_sstable(create_test_sstable(0, "a", "b"), 0);
    manager.add_sstable(create_test_sstable(0, "c", "d"), 0);
    manager.add_sstable(create_test_sstable(0, "e", "f"), 0);
    let tables = manager.get_sstables_at_level(0);
    let firsts: Vec<&str> = tables.iter().map(|t| t.min_key()).collect();
    assert_eq!(firsts, vec!["e", "c", "a"]);
}

#[test]
fn test_deeper_levels_sorted_by_min_key() {
    let mut manager = LevelManager::new();
    manager.add_sstable(create_test_sstable(2, "m", "n"), 2);
    manager.add_sstable(create_test_sstable(2, "a", "b"), 2);
    manager.add_sstable(create_test_sstable(2, "x", "y"), 2);
    manager.add_sstable(create_test_sstable(2, "g", "h"), 2);
    let tables = manager.get_sstables_at_level(2);
    let firsts: Vec<&str> = tables.iter().map(|t| t.min_key()).collect();
    assert_eq!(firsts, vec!["a", "g", "m", "x"]);
    // the table takes the level it is registered at
    assert!(tables.iter().all(|t| t.level() == 2));
    assert_eq!(manager.get_max_level(), 2);
    assert_eq!(manager.get_level_count(1), 0);
    assert_eq!(manager.get_all_sstables().len(), 4);
    assert_eq!(manager.depth(), 3);
}

#[test]
fn test_empty_table_is_not_registered() {
    let mut manager = LevelManager::new();
    let empty = SSTable::create("empty.sst", &Vec::new(), 0).unwrap();
    assert!(empty.is_empty());
    assert_eq!(empty.min_key(), "");
    assert_eq!(empty.max_key(), "");
    manager.add_sstable(empty, 0);
    assert!(manager.is_empty());
    assert_eq!(manager.get_level_count(0), 0);
}

#[test]
fn test_remove_and_take() {
    let mut manager = LevelManager::new();
    let a = create_test_sstable(1, "a", "b");
    let c = create_test_sstable(1, "c", "d");
    let e = create_test_sstable(3, "e", "f");
    manager.add_sstable(a.clone(), 1);
    manager.add_sstable(c.clone(), 1);
    manager.add_sstable(e.clone(), 3);
    assert_eq!(manager.get_max_level(), 3);

    manager.remove_sstables(&[e.with_level(3)]);
    assert_eq!(manager.get_max_level(), 1);
    assert_eq!(manager.get_level_count(3), 0);

    // a table listed under another level stays
    manager.remove_sstables(&[a.clone().with_level(2)]);
    assert_eq!(manager.get_level_count(1), 2);

    manager.remove_sstables(&[a.with_level(1)]);
    assert_eq!(manager.get_level_count(1), 1);
    assert_eq!(manager.get_sstables_at_level(1)[0].min_key(), "c");

    let taken = manager.take_level(1);
    assert_eq!(taken.len(), 1);
    assert!(manager.is_empty());
    assert_eq!(manager.get_max_level(), 0);
}

#[test]
fn test_take_overlapping_and_overlaps_any() {
    let mut manager = LevelManager::new();
    manager.add_sstable(create_test_sstable(1, "a", "f"), 1);
    manager.add_sstable(create_test_sstable(1, "g", "m"), 1);
    manager.add_sstable(create_test_sstable(1, "n", "z"), 1);
    assert!(manager.overlaps_any(1, "f", "f"));
    assert!(!manager.overlaps_any(1, "fa", "fz"));
    assert!(!manager.overlaps_any(2, "a", "z"));
    // the bounds of a range belong to it
    assert_eq!(manager.get_overlapping_sstables(1, "m", "n").len(), 2);
    let hit = manager.take_overlapping(1, "h", "o");
    assert_eq!(hit.len(), 2);
    assert_eq!(manager.get_level_count(1), 1);
    assert_eq!(manager.get_sstables_at_level(1)[0].min_key(), "a");
}

#[test]
fn test_level_sizes() {
    let manager = LevelManager::with_config(7, 10);
    assert_eq!(manager.get_max_level_size(0), 7);
    assert_eq!(manager.get_max_level_size(1), 10 * 1024 * 1024);
    assert_eq!(manager.get_max_level_size(2), 100 * 1024 * 1024);
    assert_eq!(manager.get_max_level_size(3), 1000 * 1024 * 1024);
    assert_eq!(manager.get_max_level_size(40), usize::MAX);
    assert_eq!(manager.get_level_size(1), 0);
    assert!(!manager.should_compact(0));
    assert!(!manager.should_compact(1));
    assert!(manager.get_compaction_candidates(1).is_empty());

    let none = LevelManager::with_config(0, 0);
    assert_eq!(none.get_max_level_size(1), 10 * 1024 * 1024);
    assert_eq!(none.get_max_level_size(2), 0);
    assert!(!none.should_compact(0));
}

#[test]
fn test_find_asks_newest_first() {
    let mut manager = LevelManager::new();
    let old = SSTable::create(
        "sstable_000001.sst",
        &vec![Record { key: "k".to_string(), value: Value::Data("old".to_string()) }],
        0,
    )
    .unwrap();
    let new = SSTable::create(
        "sstable_000002.sst",
        &vec![Record { key: "k".to_string(), value: Value::Tombstone }],
        0,
    )
    .unwrap();
    manager.add_sstable(old, 0);
    assert_eq!(manager.find("k"), Some(&Value::Data("old".to_string())));
    manager.add_sstable(new, 0);
    assert_eq!(manager.find("k"), Some(&Value::Tombstone));
    assert_eq!(manager.find("absent"), None);
    assert_eq!(manager.files().len(), 2);
}

#[test]
fn test_stats_as_text() {
    let mut manager = LevelManager::with_config(1, 10);
    manager.add_sstable(create_test_sstable(0, "key1", "key2"), 0);
    manager.add_sstable(create_test_sstable(1, "key3", "key4"), 1);
    assert_eq!(
        manager.stats().to_string(),
        "Level Manager Stats:\n Max level: 1\n  Level 0: 1 files, 2 entries, max: 1 (compact: true)\n  Level 1: 1 files, 2 entries, max: 10485760 (compact: false)\n"
    );
    assert_eq!(
        LevelManager::new().stats().to_string(),
        "Level Manager Stats:\n Max level: 0\n  Level 0: 0 files, 0 entries, max: 4 (compact: false)\n"
    );
}
