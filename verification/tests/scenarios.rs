//! End-to-end scenarios against the database facade.

use lsm_tree::db::Database;

#[test]
fn s1_basic() {
    let mut db = Database::new("/tmp/data");
    db.insert(1, 100);
    db.insert(2, 200);
    assert_eq!(db.get(1), Some(100));
    assert_eq!(db.get(3), None);
    db.delete(1);
    assert_eq!(db.get(1), None);
    assert_eq!(db.get(2), Some(200));
}

#[test]
fn s2_flush() {
    let mut db = Database::with_mem_capacity("/tmp/data", 4);
    db.insert(1, 10);
    db.insert(2, 20);
    db.insert(3, 30);
    db.insert(4, 40);
    db.insert(5, 50);
    // level 1 holds exactly one table named 1_4; the buffer holds key 5
    assert_eq!(db.disk[0].tables.len(), 1);
    assert_eq!(db.disk[0].tables[0].file_name().as_str(), "1_4");
    assert_eq!(db.memory.len(), 1);
    assert_eq!(db.get(3), Some(30));
    assert_eq!(db.get(5), Some(50));
}

#[test]
fn s3_overwrite_across_levels() {
    let mut db = Database::with_mem_capacity("/tmp/data", 2);
    // freeze 7 -> 70 into a disk level
    db.insert(7, 70);
    db.insert(8, 80);
    assert_eq!(db.get(7), Some(70));
    // overwrite 7 in a newer run; compaction must keep the newest value
    db.insert(7, 77);
    db.insert(9, 90);
    assert_eq!(db.get(7), Some(77));
    // push more runs through so levels keep merging
    let mut k = 100;
    while k < 140 {
        db.insert(k, k * 2);
        db.insert(k + 1, (k + 1) * 2);
        k += 2;
    }
    assert_eq!(db.get(7), Some(77));
    assert_eq!(db.get(8), Some(80));
    assert_eq!(db.get(9), Some(90));
    assert_eq!(db.get(100), Some(200));
}

#[test]
fn s4_range() {
    let mut db = Database::new("/tmp/data");
    db.insert(1, 100);
    db.insert(2, 200);
    db.delete(1);
    db.insert(5, 500);
    db.insert(10, 1000);
    // RANGE 2 10 over the wire means keys in [2, 10)
    let pairs = db.range(2, 9);
    assert_eq!(pairs, vec![(2, 200), (5, 500)]);
    // and the response body is exactly "2:200 5:500 ", trailing space
    let body = lsm_tree::command::render_range_response(&pairs);
    assert_eq!(body.as_str(), "2:200 5:500 ");
}

#[test]
fn s5_compaction_no_overlap() {
    let mut db = Database::with_mem_capacity("/tmp/data", 50);
    let mut key = 0;
    while key < 10000 {
        db.insert(key, key);
        key += 1;
    }
    // every disk level's tables must be pairwise non-overlapping
    let mut deepest = 0;
    for (idx, level) in db.disk.iter().enumerate() {
        if !level.tables.is_empty() {
            deepest = idx;
        }
        for i in 0..level.tables.len() {
            assert!(level.tables[i].min_key <= level.tables[i].max_key);
            for j in (i + 1)..level.tables.len() {
                let a = &level.tables[i];
                let b = &level.tables[j];
                assert!(a.max_key < b.min_key || b.max_key < a.min_key);
            }
        }
    }
    // the cascade must have pushed runs well past the first levels
    assert!(deepest >= 3);
    // spot-check reads across the whole key space
    let mut k = 0;
    while k < 10000 {
        assert_eq!(db.get(k), Some(k));
        k += 997;
    }
    assert_eq!(db.get(9999), Some(9999));
    assert_eq!(db.get(10000), None);
}

#[test]
fn range_shadows_deeper_levels() {
    let mut db = Database::with_mem_capacity("/tmp/data", 2);
    db.insert(1, 10);
    db.insert(2, 20);
    // both now on disk; delete 1 and overwrite 2 in memory
    db.delete(1);
    assert_eq!(db.range(0, 100), vec![(2, 20)]);
    db.insert(2, 22);
    assert_eq!(db.range(0, 100), vec![(2, 22)]);
}

#[test]
fn load_applies_pairs_in_order() {
    let mut db = Database::new("/tmp/data");
    let pairs = vec![(1, 10), (2, 20), (1, 11)];
    db.load(&pairs);
    assert_eq!(db.get(1), Some(11));
    assert_eq!(db.get(2), Some(20));
}

#[test]
fn tombstones_survive_flushes() {
    let mut db = Database::with_mem_capacity("/tmp/data", 2);
    db.insert(3, 33);
    db.insert(4, 44);
    // both flushed; now bury 3 and flush the tombstone too
    db.delete(3);
    db.insert(5, 55);
    assert_eq!(db.get(3), None);
    assert_eq!(db.get(4), Some(44));
    assert_eq!(db.get(5), Some(55));
}
