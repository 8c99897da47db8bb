//! The store's headline guarantees, stated and proved once over the
//! specification views the operation contracts use.

use vstd::prelude::*;

use crate::block::{block_bytes, key_of, parse_cmds, sorted_cmds, Command};
use crate::db::Database;
use crate::disk_level::DiskLevel;
use crate::table::{
    blocks_cmds, lemma_blocks_sorted_facts, lemma_parse_blocks_len, parse_blocks, spec_file_name,
    valid_table_file, Table,
};

verus! {

/// One write against the store, as the laws speak of it.
#[derive(Clone, Copy, Debug, PartialEq, Eq, Structural)]
pub enum Op {
    Put(i32, i32),
    Del(i32),
}

/// Whether an operation writes the given key.
pub open spec fn op_touches(op: Op, k: i32) -> bool {
    match op {
        Op::Put(kk, _) => kk == k,
        Op::Del(kk) => kk == k,
    }
}

/// The newest surviving command for `k` after applying `ops`, in order,
/// on top of a starting entry.  This is exactly what `insert` and
/// `delete` promise in their contracts, folded over a run of calls.
pub open spec fn ops_entry(base: Option<Command>, ops: Seq<Op>, k: i32) -> Option<Command>
    decreases ops.len(),
{
    if ops.len() == 0 {
        base
    } else {
        let prev = ops_entry(base, ops.drop_last(), k);
        match ops.last() {
            Op::Put(kk, v) => if kk == k {
                Some(Command::Put(kk, v))
            } else {
                prev
            },
            Op::Del(kk) => if kk == k {
                Some(Command::Delete(kk))
            } else {
                prev
            },
        }
    }
}

/// Operations on other keys do not disturb a key's entry.
proof fn lemma_ops_entry_untouched(base: Option<Command>, ops: Seq<Op>, k: i32)
    requires
        forall|i: int| 0 <= i < ops.len() ==> !op_touches(#[trigger] ops[i], k),
    ensures
        ops_entry(base, ops, k) == base,
    decreases ops.len(),
{
    if ops.len() > 0 {
        assert(forall|i: int| 0 <= i < ops.drop_last().len() ==> ops.drop_last()[i] == ops[i]);
        lemma_ops_entry_untouched(base, ops.drop_last(), k);
        assert(ops.last() == ops[ops.len() - 1]);
    }
}

/// Read-your-own-write: after `PUT(key, value)`, a read of `key`
/// observes `value` until a later write of the same key, whatever other
/// keys are written in between.
pub proof fn lemma_read_your_own_write(
    db0: Database,
    db1: Database,
    ops: Seq<Op>,
    key: i32,
    value: i32,
)
    requires
        ops.len() >= 1,
        ops[0] == Op::Put(key, value),
        forall|i: int| 1 <= i < ops.len() ==> !op_touches(#[trigger] ops[i], key),
        forall|k: i32| #[trigger] db1.entry(k) == ops_entry(db0.entry(k), ops, k),
    ensures
        db1.spec_get(key) == Some(value),
{
    assert(ops.skip(1) =~= ops.subrange(1, ops.len() as int));
    lemma_ops_entry_split(db0.entry(key), ops, key);
    assert(ops_entry(db0.entry(key), ops.take(1), key) == Some(Command::Put(key, value))) by {
        assert(ops.take(1).last() == ops[0]);
        assert(ops.take(1).drop_last() =~= Seq::<Op>::empty());
    }
    assert(forall|i: int| 0 <= i < ops.skip(1).len() ==> ops.skip(1)[i] == ops[i + 1]);
    lemma_ops_entry_untouched(Some(Command::Put(key, value)), ops.skip(1), key);
}

/// Tombstone masking: after `DELETE(key)`, a read of `key` observes
/// nothing until a later write of the same key.
pub proof fn lemma_tombstone_masking(db0: Database, db1: Database, ops: Seq<Op>, key: i32)
    requires
        ops.len() >= 1,
        ops[0] == Op::Del(key),
        forall|i: int| 1 <= i < ops.len() ==> !op_touches(#[trigger] ops[i], key),
        forall|k: i32| #[trigger] db1.entry(k) == ops_entry(db0.entry(k), ops, k),
    ensures
        db1.spec_get(key) is None,
{
    lemma_ops_entry_split(db0.entry(key), ops, key);
    assert(ops_entry(db0.entry(key), ops.take(1), key) == Some(Command::Delete(key))) by {
        assert(ops.take(1).last() == ops[0]);
        assert(ops.take(1).drop_last() =~= Seq::<Op>::empty());
    }
    assert(forall|i: int| 0 <= i < ops.skip(1).len() ==> ops.skip(1)[i] == ops[i + 1]);
    lemma_ops_entry_untouched(Some(Command::Delete(key)), ops.skip(1), key);
}

/// Folding a run of operations splits at any point.
proof fn lemma_ops_entry_split(base: Option<Command>, ops: Seq<Op>, k: i32)
    requires
        ops.len() >= 1,
    ensures
        ops_entry(base, ops, k) == ops_entry(ops_entry(base, ops.take(1), k), ops.skip(1), k),
    decreases ops.len(),
{
    if ops.len() == 1 {
        assert(ops.skip(1) =~= Seq::<Op>::empty());
        assert(ops.take(1) =~= ops);
    } else {
        assert(ops.drop_last().len() >= 1);
        lemma_ops_entry_split(base, ops.drop_last(), k);
        assert(ops.drop_last().take(1) =~= ops.take(1));
        assert(ops.drop_last().skip(1) =~= ops.skip(1).drop_last());
        assert(ops.skip(1).last() == ops.last());
    }
}

/// Sortedness: within every block of a well-formed table, and across its
/// block sequence, keys are strictly ascending.
pub proof fn lemma_table_sortedness(t: Table)
    requires
        t.wf(),
    ensures
        forall|i: int| 0 <= i < t.blocks@.len() ==> sorted_cmds((#[trigger] t.blocks@[i])@),
        forall|i: int, j: int|
            0 <= i < j < t.blocks@.len() ==> key_of((#[trigger] t.blocks@[i])@.last()) < key_of(
                (#[trigger] t.blocks@[j])@.first(),
            ),
        sorted_cmds(t.cmds()),
{
    lemma_blocks_sorted_facts(t.blocks@);
}

/// Non-overlap: within a well-formed disk level, tables' inclusive key
/// ranges are pairwise disjoint; at most one table can claim any key.
pub proof fn lemma_level_non_overlap(l: DiskLevel)
    requires
        l.wf(),
    ensures
        forall|i: int, j: int|
            0 <= i < l.tables@.len() && 0 <= j < l.tables@.len() && i != j ==> (
            #[trigger] l.tables@[i]).max_key < (#[trigger] l.tables@[j]).min_key
                || l.tables@[j].max_key < l.tables@[i].min_key,
{
    assert forall|i: int, j: int|
        0 <= i < l.tables@.len() && 0 <= j < l.tables@.len() && i != j implies (
    #[trigger] l.tables@[i]).max_key < (#[trigger] l.tables@[j]).min_key
        || l.tables@[j].max_key < l.tables@[i].min_key by {
        if i < j {
            assert(l.tables@[i].max_key < l.tables@[j].min_key);
        } else {
            assert(l.tables@[j].max_key < l.tables@[i].min_key);
        }
    }
}

/// Persistence: a well-formed table's file name and page images are
/// exactly what `Table::create_from_existing` accepts back, and they
/// parse to the same contents.
pub proof fn lemma_table_persistence(t: Table)
    requires
        t.wf(),
    ensures
        ({
            let bb = Seq::new(t.blocks@.len(), |i: int| block_bytes(t.blocks@[i]@));
            &&& valid_table_file(spec_file_name(t.min_key, t.max_key), bb)
            &&& parse_blocks(bb) == Some(t.blocks@.map_values(|b: crate::block::BlockMut| b@))
        }),
{
    let bb = Seq::new(t.blocks@.len(), |i: int| block_bytes(t.blocks@[i]@));
    let cs = t.blocks@.map_values(|b: crate::block::BlockMut| b@);
    lemma_parse_blocks_round_trip(t.blocks@);
    lemma_blocks_sorted_facts(t.blocks@);
    lemma_parse_blocks_len(bb);
    assert(cs.first() == t.blocks@[0]@);
    assert(cs.last() == t.blocks@[t.blocks@.len() - 1]@);
    crate::table::lemma_blocks_sorted_compose(t.blocks@);
    assert(key_of(cs.first().first()) == t.min_key);
    assert(key_of(cs.last().last()) == t.max_key);
}

/// Persistence, composed across the whole store: two stores with empty
/// write buffers whose levels hold, position for position, tables with
/// the same contents answer every read alike.  Together with
/// `lemma_table_persistence` and the reconstruction contracts
/// (`Table::create_from_existing`, `DiskLevel::from_tables`,
/// `Database::from_levels`), a graceful shutdown followed by a restart
/// observes the last committed value or tombstone for every key.
pub proof fn lemma_restart_round_trip(db: Database, db2: Database)
    requires
        db.memory@.len() == 0,
        db2.memory@.len() == 0,
        db.disk@.len() == db2.disk@.len(),
        forall|i: int|
            0 <= i < db.disk@.len() ==> (#[trigger] db2.disk@[i]).tables@.len() == (
            #[trigger] db.disk@[i]).tables@.len(),
        forall|i: int, j: int|
            0 <= i < db.disk@.len() && 0 <= j < db.disk@[i].tables@.len() ==> (
            #[trigger] db2.disk@[i].tables@[j]).cmds() == (
            #[trigger] db.disk@[i].tables@[j]).cmds(),
    ensures
        forall|k: i32| #[trigger] db2.entry(k) == db.entry(k),
{
    assert forall|k: i32| #[trigger] db2.entry(k) == db.entry(k) by {
        assert(crate::block::cmds_get(db.memory@, k) is None) by {
            crate::block::lemma_cmds_get_membership(db.memory@, k);
        }
        assert(crate::block::cmds_get(db2.memory@, k) is None) by {
            crate::block::lemma_cmds_get_membership(db2.memory@, k);
        }
        lemma_levels_get_same_cmds(db.disk@, db2.disk@, k);
    }
}

/// Level cascades whose tables match in contents answer alike.
proof fn lemma_levels_get_same_cmds(l1: Seq<DiskLevel>, l2: Seq<DiskLevel>, k: i32)
    requires
        l1.len() == l2.len(),
        forall|i: int|
            0 <= i < l1.len() ==> (#[trigger] l2[i]).tables@.len() == (
            #[trigger] l1[i]).tables@.len(),
        forall|i: int, j: int|
            0 <= i < l1.len() && 0 <= j < l1[i].tables@.len() ==> (
            #[trigger] l2[i].tables@[j]).cmds() == (#[trigger] l1[i].tables@[j]).cmds(),
    ensures
        crate::db::levels_get(l2, k) == crate::db::levels_get(l1, k),
    decreases l1.len(),
{
    if l1.len() > 0 {
        lemma_tables_cmds_same(l1[0].tables@, l2[0].tables@);
        assert(forall|i: int|
            0 <= i < l1.drop_first().len() ==> l1.drop_first()[i] == l1[i + 1]);
        assert(forall|i: int|
            0 <= i < l2.drop_first().len() ==> l2.drop_first()[i] == l2[i + 1]);
        lemma_levels_get_same_cmds(l1.drop_first(), l2.drop_first(), k);
    }
}

/// Table runs whose members match in contents flatten to the same
/// command sequence.
proof fn lemma_tables_cmds_same(ts1: Seq<Table>, ts2: Seq<Table>)
    requires
        ts1.len() == ts2.len(),
        forall|j: int| 0 <= j < ts1.len() ==> (#[trigger] ts2[j]).cmds() == (#[trigger] ts1[j]).cmds(),
    ensures
        crate::disk_level::tables_cmds(ts2) == crate::disk_level::tables_cmds(ts1),
    decreases ts1.len(),
{
    if ts1.len() > 0 {
        assert(forall|j: int|
            0 <= j < ts1.drop_first().len() ==> ts1.drop_first()[j] == ts1[j + 1]);
        assert(forall|j: int|
            0 <= j < ts2.drop_first().len() ==> ts2.drop_first()[j] == ts2[j + 1]);
        lemma_tables_cmds_same(ts1.drop_first(), ts2.drop_first());
        assert(ts2[0].cmds() == ts1[0].cmds());
    }
}

/// Every page image of a run of blocks parses back to that block.
proof fn lemma_parse_blocks_round_trip(bs: Seq<crate::block::BlockMut>)
    requires
        forall|i: int| 0 <= i < bs.len() ==> (#[trigger] bs[i]).wf(),
    ensures
        parse_blocks(Seq::new(bs.len(), |i: int| block_bytes(bs[i]@))) == Some(
            bs.map_values(|b: crate::block::BlockMut| b@),
        ),
    decreases bs.len(),
{
    let bb = Seq::new(bs.len(), |i: int| block_bytes(bs[i]@));
    if bs.len() == 0 {
        assert(bb =~= Seq::<Seq<u8>>::empty());
        assert(bs.map_values(|b: crate::block::BlockMut| b@) =~= Seq::<Seq<Command>>::empty());
    } else {
        lemma_parse_blocks_round_trip(bs.drop_first());
        crate::block::lemma_block_round_trip(bs[0]@);
        assert(bb[0] == block_bytes(bs[0]@));
        assert(bb.drop_first() =~= Seq::new(
            bs.drop_first().len(),
            |i: int| block_bytes(bs.drop_first()[i]@),
        ));
        assert(parse_cmds(bb[0]) == Some(bs[0]@));
        assert(seq![bs[0]@] + bs.drop_first().map_values(|b: crate::block::BlockMut| b@)
            =~= bs.map_values(|b: crate::block::BlockMut| b@));
    }
}

/// Bloom soundness: if a key is in a well-formed table, the table's
/// Bloom filter answers true for it.
pub proof fn lemma_bloom_soundness(t: Table, m: int)
    requires
        t.wf(),
        0 <= m < t.cmds().len(),
    ensures
        t.bloom.spec_has(key_of(t.cmds()[m])),
{
}

/// Fence monotonicity: a well-formed table's fence array is key-sorted
/// and its per-block ranges are pairwise non-overlapping.
pub proof fn lemma_fence_monotonic(t: Table)
    requires
        t.wf(),
    ensures
        forall|i: int| 0 <= i < t.index@.len() ==> (#[trigger] t.index@[i]).0 <= t.index@[i].1,
        forall|i: int, j: int|
            0 <= i < j < t.index@.len() ==> (#[trigger] t.index@[i]).1 < (
            #[trigger] t.index@[j]).0,
{
    lemma_blocks_sorted_facts(t.blocks@);
}

} // verus!
