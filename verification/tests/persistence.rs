//! Restart: levels written out as file names and page images must
//! reconstruct to a store that reads identically.

use lsm_tree::db::Database;
use lsm_tree::disk_level::DiskLevel;
use lsm_tree::table::Table;

/// Serializes every level to (name, pages) and rebuilds the store from
/// that alone, as the surrounding process does across a restart.
fn reload(db: &Database, root: &str) -> Database {
    let mut levels = Vec::new();
    for level in db.disk.iter() {
        let mut tables = Vec::new();
        for t in level.tables.iter() {
            let name = t.file_name();
            let pages = t.file_bytes();
            let rebuilt = Table::create_from_existing(&level.level_directory, &name, &pages)
                .expect("a written table must read back");
            tables.push(rebuilt);
        }
        tables.sort_by_key(|t: &Table| t.min_key);
        let lvl = DiskLevel::from_tables(root, level.level, tables)
            .expect("a written level must read back");
        levels.push(lvl);
    }
    Database::from_levels(root, levels).expect("the level cascade must read back")
}

#[test]
fn s6_restart() {
    let mut db = Database::with_mem_capacity("/tmp/data", 4);
    db.insert(1, 10);
    db.insert(2, 20);
    db.insert(3, 30);
    db.insert(4, 40);
    db.insert(5, 50);
    // graceful shutdown: the buffer (key 5) is flushed to disk
    db.finalize();
    assert_eq!(db.memory.len(), 0);

    let db2 = reload(&db, "/tmp/data");
    assert_eq!(db2.get(3), Some(30));
    assert_eq!(db2.get(5), Some(50));
    assert_eq!(db2.get(1), Some(10));
    assert_eq!(db2.get(99), None);
}

#[test]
fn restart_preserves_tombstones() {
    let mut db = Database::with_mem_capacity("/tmp/data", 2);
    db.insert(1, 10);
    db.insert(2, 20);
    db.delete(1);
    db.insert(3, 30);
    db.finalize();
    let db2 = reload(&db, "/tmp/data");
    assert_eq!(db2.get(1), None);
    assert_eq!(db2.get(2), Some(20));
    assert_eq!(db2.get(3), Some(30));
}

#[test]
fn tampered_file_name_is_refused() {
    let mut db = Database::with_mem_capacity("/tmp/data", 2);
    db.insert(1, 10);
    db.insert(2, 20);
    let t = &db.disk[0].tables[0];
    let pages = t.file_bytes();
    assert!(Table::create_from_existing("/tmp/data/level1", "nonsense", &pages).is_none());
    assert!(Table::create_from_existing("/tmp/data/level1", "1-2", &pages).is_none());
    // a name whose range disagrees with the contents is tampered too
    assert!(Table::create_from_existing("/tmp/data/level1", "1_3", &pages).is_none());
    assert!(Table::create_from_existing("/tmp/data/level1", "07_2", &pages).is_none());
}

#[test]
fn corrupt_page_is_refused() {
    let mut db = Database::with_mem_capacity("/tmp/data", 2);
    db.insert(1, 10);
    db.insert(2, 20);
    let t = &db.disk[0].tables[0];
    let name = t.file_name();
    let mut pages = t.file_bytes();
    pages[0][0] = 0x7e; // an invalid record tag
    assert!(Table::create_from_existing("/tmp/data/level1", &name, &pages).is_none());
}
