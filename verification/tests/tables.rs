//! Tables, levels, intersection analysis and the wire codec.

use lsm_tree::block::{BlockMut, Command};
use lsm_tree::command::Command as WireCommand;
use lsm_tree::db::{Database, GetResult};
use lsm_tree::disk_level::DiskLevel;
use lsm_tree::merge::{find_intersections, IntersectionResult};
use lsm_tree::table::{Overlap, Table, TableBuilder};

fn block_of(cmds: &[Command]) -> BlockMut {
    let mut b = BlockMut::new();
    for &c in cmds {
        assert!(b.push_command(c));
    }
    b
}

fn table_of(dir: &str, cmds: &[Command]) -> Table {
    let mut tb = TableBuilder::new(dir);
    assert!(tb.is_empty());
    tb.insert_block(&block_of(cmds));
    assert!(!tb.full());
    tb.build()
}

#[test]
fn builder_fences_and_range() {
    let t = table_of("/tmp/lvl", &[Command::Put(2, 20), Command::Put(7, 70), Command::Delete(9)]);
    assert_eq!(t.min_key, 2);
    assert_eq!(t.max_key, 9);
    assert_eq!(t.index.as_slice(), &[(2, 9)]);
    assert_eq!(t.file_size, 4096);
    assert_eq!(t.file_name().as_str(), "2_9");
    assert_eq!(t.file_path().as_str(), "/tmp/lvl/2_9");
    assert_eq!(
        t.commands(),
        vec![Command::Put(2, 20), Command::Put(7, 70), Command::Delete(9)]
    );
    assert!(t.bloom.maybe_contains(7));
}

#[test]
fn rename_moves_the_table() {
    let mut t = table_of("/tmp/level1", &[Command::Put(-3, 1), Command::Put(4, 2)]);
    assert_eq!(t.file_path().as_str(), "/tmp/level1/-3_4");
    t.rename("/tmp/level2");
    assert_eq!(t.file_path().as_str(), "/tmp/level2/-3_4");
}

#[test]
fn intersects_compares_ranges() {
    let a = table_of("/tmp/lvl", &[Command::Put(1, 0), Command::Put(5, 0)]);
    let b = table_of("/tmp/lvl", &[Command::Put(6, 0), Command::Put(9, 0)]);
    let c = table_of("/tmp/lvl", &[Command::Put(4, 0), Command::Put(7, 0)]);
    assert_eq!(a.intersects(&b), Overlap::Below);
    assert_eq!(b.intersects(&a), Overlap::Above);
    assert_eq!(a.intersects(&c), Overlap::Meets);
    assert_eq!(c.intersects(&b), Overlap::Meets);
}

#[test]
fn intersections_none_when_disjoint() {
    let src = vec![table_of("/tmp/a", &[Command::Put(1, 0), Command::Put(2, 0)])];
    let dst = vec![
        table_of("/tmp/b", &[Command::Put(10, 0), Command::Put(12, 0)]),
        table_of("/tmp/b", &[Command::Put(20, 0), Command::Put(22, 0)]),
    ];
    match find_intersections(&src, &dst) {
        IntersectionResult::NoIntersections(idx) => assert_eq!(idx, vec![0]),
        IntersectionResult::IntersectingGroups(_) => panic!("nothing intersects"),
    }
}

#[test]
fn intersections_group_when_overlapping() {
    let src = vec![table_of("/tmp/a", &[Command::Put(5, 0), Command::Put(15, 0)])];
    let dst = vec![
        table_of("/tmp/b", &[Command::Put(1, 0), Command::Put(6, 0)]),
        table_of("/tmp/b", &[Command::Put(10, 0), Command::Put(12, 0)]),
        table_of("/tmp/b", &[Command::Put(20, 0), Command::Put(22, 0)]),
    ];
    match find_intersections(&src, &dst) {
        IntersectionResult::NoIntersections(_) => panic!("the ranges overlap"),
        IntersectionResult::IntersectingGroups(gs) => {
            assert_eq!(gs.len(), 1);
            assert_eq!(gs[0].tables1, (0, 1));
            assert_eq!(gs[0].tables2, (0, 2));
        }
    }
}

#[test]
fn disk_level_lookup_paths() {
    let mut db = Database::with_mem_capacity("/tmp/data", 2);
    db.insert(10, 100);
    db.insert(20, 200);
    db.insert(30, 300);
    db.insert(40, 400);
    let level = &db.disk[0];
    assert!(!level.tables.is_empty());
    assert_eq!(level.get(10), GetResult::Value(100));
    assert_eq!(level.get(40), GetResult::Value(400));
    // a key inside a table's range but absent from it
    assert_eq!(level.get(15), GetResult::NotFound);
    // a key outside every table's range
    assert_eq!(level.get(-5), GetResult::NotFound);
    assert!(level.size_bytes() >= 4096);
    assert!(!level.is_over_file_capacity());
}

#[test]
fn locate_start_block_walks_forward() {
    let mut db = Database::with_mem_capacity("/tmp/data", 2);
    db.insert(10, 100);
    db.insert(20, 200);
    db.insert(30, 300);
    db.insert(40, 400);
    let level = &db.disk[0];
    let hit = level.locate_start_block(-5).expect("below the level: first block");
    assert_eq!((hit.table_index, hit.block_index), (0, 0));
    assert!(level.locate_start_block(10).is_some());
    // above every table, nothing remains to scan
    assert!(level.locate_start_block(1000).is_none());
}

#[test]
fn multi_block_table_keeps_fences_sorted() {
    // 455 puts fill one page, so 1000 entries span three pages
    let mut mem = lsm_tree::mem_level::MemLevel::new();
    let mut k = 0;
    while k < 1000 {
        mem.insert(k, k * 2);
        k += 1;
    }
    let t = mem.write_to_table("/tmp/level1");
    assert_eq!(t.min_key, 0);
    assert_eq!(t.max_key, 999);
    assert!(t.index.len() >= 2);
    // the fence array is key-sorted and non-overlapping
    for i in 0..t.index.len() {
        let (lo, hi) = t.index[i];
        assert!(lo <= hi);
        if i + 1 < t.index.len() {
            assert!(hi < t.index[i + 1].0);
        }
    }
    // and the flattened commands are strictly ascending
    let cmds = t.commands();
    assert_eq!(cmds.len(), 1000);
    for w in cmds.windows(2) {
        assert!(w[0].key() < w[1].key());
    }
}

#[test]
fn from_tables_refuses_overlap() {
    let a = table_of("/tmp/lvl", &[Command::Put(1, 0), Command::Put(5, 0)]);
    let b = table_of("/tmp/lvl", &[Command::Put(4, 0), Command::Put(9, 0)]);
    assert!(DiskLevel::from_tables("/tmp/data", 1, vec![a, b]).is_none());
    let c = table_of("/tmp/lvl", &[Command::Put(1, 0), Command::Put(3, 0)]);
    let d = table_of("/tmp/lvl", &[Command::Put(4, 0), Command::Put(9, 0)]);
    let lvl = DiskLevel::from_tables("/tmp/data", 1, vec![c, d]).expect("disjoint tables form a level");
    assert_eq!(lvl.tables.len(), 2);
    assert_eq!(lvl.level, 1);
}

#[test]
fn from_levels_refuses_a_broken_cascade() {
    // too few levels
    let one = vec![DiskLevel::new("/tmp/data", 1)];
    assert!(Database::from_levels("/tmp/data", one).is_none());
    // wrong level numbers
    let wrong: Vec<DiskLevel> = (0..6).map(|_| DiskLevel::new("/tmp/data", 3)).collect();
    assert!(Database::from_levels("/tmp/data", wrong).is_none());
}

#[test]
fn sort_tables_restores_order() {
    let mut db = Database::with_mem_capacity("/tmp/data", 2);
    db.insert(30, 3);
    db.insert(40, 4);
    db.insert(10, 1);
    db.insert(20, 2);
    let level = &mut db.disk[0];
    level.tables.reverse();
    level.sort_tables();
    for w in level.tables.windows(2) {
        assert!(w[0].min_key <= w[1].min_key);
    }
}

#[test]
fn level_directories_follow_the_root() {
    let lvl = DiskLevel::new("/tmp/data", 3);
    assert_eq!(lvl.level_directory.as_str(), "/tmp/data/level3");
    assert_eq!(lvl.tables.len(), 0);
    let tmp = DiskLevel::new_tmp("/tmp/data", 2);
    assert_eq!(tmp.level_directory.as_str(), "/tmp/data/level2/tmp");
}

#[test]
fn overwrite_adopts_the_other_levels_tables() {
    let mut db = Database::with_mem_capacity("/tmp/data", 2);
    db.insert(1, 10);
    db.insert(2, 20);
    let mut empty = DiskLevel::new("/tmp/other", 1);
    let full = std::mem::replace(&mut db.disk[0], DiskLevel::new("/tmp/data", 1));
    assert!(!full.tables.is_empty());
    empty.overwrite(full);
    assert_eq!(empty.get(1), GetResult::Value(10));
}

#[test]
fn config_carries_its_fields() {
    let config = lsm_tree::db::Config::new(String::from("/tmp/data"), 4321);
    assert_eq!(config.data_dir.as_str(), "/tmp/data");
    assert_eq!(config.port, 4321);
}

#[test]
fn finalize_on_an_empty_buffer_changes_nothing() {
    let mut db = Database::new("/tmp/data");
    db.insert(1, 10);
    let mut drained = Database::new("/tmp/data");
    drained.finalize();
    assert_eq!(drained.get(1), None);
    db.finalize();
    assert_eq!(db.memory.len(), 0);
    assert_eq!(db.get(1), Some(10));
}

#[test]
fn wire_codec_round_trips() {
    let cases = [
        WireCommand::PUT { key: 1, val: 2 },
        WireCommand::GET { key: -1 },
        WireCommand::DELETE { key: 7 },
        WireCommand::LOAD { kv_pairs: 3 },
        WireCommand::RANGE { min_key: -5, max_key: 5 },
        WireCommand::STATS,
    ];
    for &c in cases.iter() {
        let wire = c.encode();
        let tag = wire[0];
        let payload: Vec<u8> = wire[1..].to_vec();
        assert_eq!(
            lsm_tree::command::payload_len(tag),
            Some(payload.len()),
        );
        assert_eq!(WireCommand::decode(tag, &payload), Some(c));
    }
}

#[test]
fn wire_codec_exact_bytes() {
    let wire = WireCommand::PUT { key: 1, val: 2 }.encode();
    assert_eq!(wire, vec![b'p', 0, 0, 0, 1, 0, 0, 0, 2]);
    let wire = WireCommand::GET { key: 258 }.encode();
    assert_eq!(wire, vec![b'g', 0, 0, 1, 2]);
    let wire = WireCommand::STATS.encode();
    assert_eq!(wire, vec![b's']);
}

#[test]
fn wire_codec_refuses_garbage() {
    assert_eq!(lsm_tree::command::payload_len(b'x'), None);
    let empty: Vec<u8> = Vec::new();
    assert_eq!(WireCommand::decode(b'x', &empty), None);
    // a known tag with a short payload is a protocol error too
    let short: Vec<u8> = vec![0, 0, 0];
    assert_eq!(WireCommand::decode(b'p', &short), None);
}
