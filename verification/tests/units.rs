//! Component-level checks: blocks, Bloom filters, the memory level,
//! decimal text, intersection analysis and sorted merging.

use lsm_tree::block::{BlockMut, BlockView, Command};
use lsm_tree::bloom::Bloom;
use lsm_tree::db::GetResult;
use lsm_tree::decimal::{i32_to_string, parse_i32};
use lsm_tree::mem_level::MemLevel;
use lsm_tree::merge::merge_sorted_commands;
use lsm_tree::BLOOM_CAPACITY;

#[test]
fn block_round_trip() {
    let mut b = BlockMut::new();
    assert!(b.push_command(Command::Put(1, 100)));
    assert!(b.push_command(Command::Delete(2)));
    assert!(b.push_command(Command::Put(3, -5)));
    let bytes = b.to_bytes();
    assert_eq!(bytes.len(), 4096);
    let view = BlockView::parse(&bytes).expect("a written page must parse");
    assert_eq!(
        view.commands().as_slice(),
        &[Command::Put(1, 100), Command::Delete(2), Command::Put(3, -5)]
    );
}

#[test]
fn block_exact_bytes() {
    let mut b = BlockMut::new();
    assert!(b.push_command(Command::Put(1, 100)));
    assert!(b.push_command(Command::Delete(-1)));
    let bytes = b.to_bytes();
    // Put(1, 100): tag 0, key 1, value 100, big-endian
    assert_eq!(&bytes[0..9], &[0, 0, 0, 0, 1, 0, 0, 0, 100]);
    // Delete(-1): tag 1, key -1
    assert_eq!(&bytes[9..14], &[1, 0xff, 0xff, 0xff, 0xff]);
    // the rest of the page is sentinel padding
    assert!(bytes[14..].iter().all(|&x| x == 0xff));
}

#[test]
fn block_capacity() {
    let mut b = BlockMut::new();
    let mut k = 0;
    // 455 puts of 9 bytes fill 4095 of 4096 bytes
    while k < 455 {
        assert!(b.push_command(Command::Put(k, k)));
        k += 1;
    }
    // neither a put (9) nor a tombstone (5) fits in the single spare byte
    assert!(!b.push_command(Command::Put(k, k)));
    assert!(!b.push_command(Command::Delete(k)));
    assert_eq!(b.commands().len(), 455);
    b.clear();
    assert!(b.is_empty());
    assert!(b.push_command(Command::Put(k, k)));
}

#[test]
fn bloom_soundness() {
    let mut bloom = Bloom::new(BLOOM_CAPACITY);
    let keys = [0, 1, -1, 42, i32::MIN, i32::MAX, 123456789];
    for &k in keys.iter() {
        bloom.put(k);
    }
    for &k in keys.iter() {
        assert!(bloom.maybe_contains(k));
    }
}

#[test]
fn bloom_empty_answers_no() {
    let bloom = Bloom::new(BLOOM_CAPACITY);
    assert!(!bloom.maybe_contains(7));
    assert!(!bloom.maybe_contains(-7));
}

#[test]
fn mem_level_basics() {
    let mut mem = MemLevel::new();
    assert_eq!(mem.len(), 0);
    mem.insert(5, 50);
    mem.insert(3, 30);
    mem.insert(5, 55);
    mem.delete(4);
    assert_eq!(mem.len(), 3);
    assert_eq!(mem.get(5), GetResult::Value(55));
    assert_eq!(mem.get(3), GetResult::Value(30));
    assert_eq!(mem.get(4), GetResult::Deleted);
    assert_eq!(mem.get(9), GetResult::NotFound);
    // iteration order is ascending by key, tombstones included
    assert_eq!(
        mem.commands().as_slice(),
        &[Command::Put(3, 30), Command::Delete(4), Command::Put(5, 55)]
    );
    let window = mem.range(4, 9);
    assert_eq!(window, vec![Command::Delete(4), Command::Put(5, 55)]);
    let taken = mem.clear();
    assert_eq!(mem.len(), 0);
    assert_eq!(taken.len(), 3);
}

#[test]
fn decimal_renders_canonically() {
    assert_eq!(i32_to_string(0).as_str(), "0");
    assert_eq!(i32_to_string(42).as_str(), "42");
    assert_eq!(i32_to_string(-5).as_str(), "-5");
    assert_eq!(i32_to_string(i32::MAX).as_str(), "2147483647");
    assert_eq!(i32_to_string(i32::MIN).as_str(), "-2147483648");
}

#[test]
fn decimal_parses_exactly_the_canonical_spellings() {
    assert_eq!(parse_i32("0"), Some(0));
    assert_eq!(parse_i32("42"), Some(42));
    assert_eq!(parse_i32("-5"), Some(-5));
    assert_eq!(parse_i32("2147483647"), Some(i32::MAX));
    assert_eq!(parse_i32("-2147483648"), Some(i32::MIN));
    assert_eq!(parse_i32(""), None);
    assert_eq!(parse_i32("007"), None);
    assert_eq!(parse_i32("-0"), None);
    assert_eq!(parse_i32("2147483648"), None);
    assert_eq!(parse_i32("-2147483649"), None);
    assert_eq!(parse_i32("12a"), None);
    assert_eq!(parse_i32("--1"), None);
    assert_eq!(parse_i32("1_2"), None);
}

#[test]
fn merge_newest_wins_on_ties() {
    let newer = vec![Command::Put(1, 11), Command::Delete(3), Command::Put(5, 51)];
    let older = vec![Command::Put(1, 10), Command::Put(2, 20), Command::Put(3, 30)];
    let merged = merge_sorted_commands(&newer, &older);
    assert_eq!(
        merged,
        vec![
            Command::Put(1, 11),
            Command::Put(2, 20),
            Command::Delete(3),
            Command::Put(5, 51),
        ]
    );
}

#[test]
fn command_accessors() {
    assert_eq!(Command::Put(3, 30).key(), 3);
    assert_eq!(Command::Delete(4).key(), 4);
    assert_eq!(Command::Put(3, 30).value(), Some(30));
    assert_eq!(Command::Delete(4).value(), None);
}
