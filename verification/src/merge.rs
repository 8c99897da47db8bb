//! Leveled compaction: merging a run of source tables into the next
//! disk level.
//!
//! The source side is newer, so on a key held by both sides the source
//! command wins; tombstones survive into the deeper level.  Intersection
//! analysis walks both sorted table lists to find the minimal contiguous
//! groups that must be co-merged; tables intersecting nothing are moved
//! by a metadata-only rename.

use vstd::prelude::*;

use crate::block::{
    cmds_get, key_of, lemma_cmds_get_membership, lemma_cmds_get_sorted, size_of_cmds,
    sorted_cmds, BlockMut, Command,
};
use crate::table::{blocks_cmds, lemma_blocks_cmds_push, Table, TableBuilder};
use crate::MAX_FILE_SIZE_BLOCKS;

verus! {

/// The ordered merge of two sorted runs; on a key held by both, the
/// left (newer) side's command survives.
pub open spec fn merge_spec(a: Seq<Command>, b: Seq<Command>) -> Seq<Command>
    decreases a.len() + b.len(),
{
    if a.len() == 0 {
        b
    } else if b.len() == 0 {
        a
    } else if key_of(a[0]) < key_of(b[0]) {
        seq![a[0]] + merge_spec(a.drop_first(), b)
    } else if key_of(a[0]) > key_of(b[0]) {
        seq![b[0]] + merge_spec(a, b.drop_first())
    } else {
        seq![a[0]] + merge_spec(a.drop_first(), b.drop_first())
    }
}

/// The merge of two sorted runs is sorted, spans exactly their keys, and
/// answers every lookup with the left side's command when both hold the
/// key.
pub proof fn lemma_merge_spec_props(a: Seq<Command>, b: Seq<Command>)
    requires
        sorted_cmds(a),
        sorted_cmds(b),
    ensures
        sorted_cmds(merge_spec(a, b)),
        forall|k: i32|
            #[trigger] cmds_get(merge_spec(a, b), k) == if cmds_get(a, k) is Some {
                cmds_get(a, k)
            } else {
                cmds_get(b, k)
            },
        merge_spec(a, b).len() <= a.len() + b.len(),
        (a.len() > 0 || b.len() > 0) ==> merge_spec(a, b).len() > 0,
        merge_spec(a, b).len() > 0 ==> a.len() > 0 || b.len() > 0,
        forall|m: int|
            0 <= m < merge_spec(a, b).len() ==> (exists|i: int|
                0 <= i < a.len() && key_of(#[trigger] merge_spec(a, b)[m]) == key_of(a[i]))
                || (exists|i: int|
                0 <= i < b.len() && key_of(merge_spec(a, b)[m]) == key_of(b[i])),
    decreases a.len() + b.len(),
{
    let r = merge_spec(a, b);
    if a.len() == 0 || b.len() == 0 {
    } else {
        let ka = key_of(a[0]);
        let kb = key_of(b[0]);
        assert(sorted_cmds(a.drop_first())) by {
            assert(forall|i: int|
                0 <= i < a.drop_first().len() ==> a.drop_first()[i] == a[i + 1]);
        }
        assert(sorted_cmds(b.drop_first())) by {
            assert(forall|i: int|
                0 <= i < b.drop_first().len() ==> b.drop_first()[i] == b[i + 1]);
        }
        if ka < kb {
            lemma_merge_spec_props(a.drop_first(), b);
            let rest = merge_spec(a.drop_first(), b);
            assert(r == seq![a[0]] + rest);
            assert(r[0] == a[0] && r.drop_first() =~= rest);
            lemma_merge_head_bound(a.drop_first(), b, ka);
            assert forall|m: int| 0 <= m < r.len() implies (exists|i: int|
                0 <= i < a.len() && key_of(#[trigger] r[m]) == key_of(a[i])) || (exists|i: int|
                0 <= i < b.len() && key_of(r[m]) == key_of(b[i])) by {
                if m == 0 {
                    assert(key_of(r[0]) == key_of(a[0]));
                } else {
                    assert(r[m] == rest[m - 1]);
                    if exists|i: int|
                        0 <= i < a.drop_first().len() && key_of(rest[m - 1]) == key_of(
                            a.drop_first()[i],
                        ) {
                        let i = choose|i: int|
                            0 <= i < a.drop_first().len() && key_of(rest[m - 1]) == key_of(
                                a.drop_first()[i],
                            );
                        assert(a.drop_first()[i] == a[i + 1]);
                    }
                }
            }
            assert forall|k: i32|
                #[trigger] cmds_get(r, k) == (if cmds_get(a, k) is Some {
                    cmds_get(a, k)
                } else {
                    cmds_get(b, k)
                }) by {
                if k == ka {
                    assert(cmds_get(r, k) == Some(a[0]));
                    assert(cmds_get(a, k) == Some(a[0]));
                } else {
                    assert(cmds_get(r, k) == cmds_get(rest, k));
                    assert(cmds_get(a, k) == cmds_get(a.drop_first(), k));
                    if cmds_get(b, k) is Some {
                        lemma_cmds_get_membership(b, k);
                    }
                }
            }
        } else if ka > kb {
            lemma_merge_spec_props(a, b.drop_first());
            let rest = merge_spec(a, b.drop_first());
            assert(r == seq![b[0]] + rest);
            assert(r[0] == b[0] && r.drop_first() =~= rest);
            lemma_merge_head_bound(a, b.drop_first(), kb);
            assert forall|m: int| 0 <= m < r.len() implies (exists|i: int|
                0 <= i < a.len() && key_of(#[trigger] r[m]) == key_of(a[i])) || (exists|i: int|
                0 <= i < b.len() && key_of(r[m]) == key_of(b[i])) by {
                if m == 0 {
                    assert(key_of(r[0]) == key_of(b[0]));
                } else {
                    assert(r[m] == rest[m - 1]);
                    if exists|i: int|
                        0 <= i < b.drop_first().len() && key_of(rest[m - 1]) == key_of(
                            b.drop_first()[i],
                        ) {
                        let i = choose|i: int|
                            0 <= i < b.drop_first().len() && key_of(rest[m - 1]) == key_of(
                                b.drop_first()[i],
                            );
                        assert(b.drop_first()[i] == b[i + 1]);
                    }
                }
            }
            assert forall|k: i32|
                #[trigger] cmds_get(r, k) == (if cmds_get(a, k) is Some {
                    cmds_get(a, k)
                } else {
                    cmds_get(b, k)
                }) by {
                if k == kb {
                    assert(cmds_get(r, k) == Some(b[0]));
                    assert(cmds_get(b, k) == Some(b[0]));
                    if cmds_get(a, k) is Some {
                        lemma_cmds_get_membership(a, k);
                    }
                } else {
                    assert(cmds_get(r, k) == cmds_get(rest, k));
                    assert(cmds_get(b, k) == cmds_get(b.drop_first(), k));
                }
            }
        } else {
            lemma_merge_spec_props(a.drop_first(), b.drop_first());
            let rest = merge_spec(a.drop_first(), b.drop_first());
            assert(r == seq![a[0]] + rest);
            assert(r[0] == a[0] && r.drop_first() =~= rest);
            lemma_merge_head_bound(a.drop_first(), b.drop_first(), ka);
            assert forall|m: int| 0 <= m < r.len() implies (exists|i: int|
                0 <= i < a.len() && key_of(#[trigger] r[m]) == key_of(a[i])) || (exists|i: int|
                0 <= i < b.len() && key_of(r[m]) == key_of(b[i])) by {
                if m == 0 {
                    assert(key_of(r[0]) == key_of(a[0]));
                } else {
                    assert(r[m] == rest[m - 1]);
                    if exists|i: int|
                        0 <= i < a.drop_first().len() && key_of(rest[m - 1]) == key_of(
                            a.drop_first()[i],
                        ) {
                        let i = choose|i: int|
                            0 <= i < a.drop_first().len() && key_of(rest[m - 1]) == key_of(
                                a.drop_first()[i],
                            );
                        assert(a.drop_first()[i] == a[i + 1]);
                    } else {
                        let i = choose|i: int|
                            0 <= i < b.drop_first().len() && key_of(rest[m - 1]) == key_of(
                                b.drop_first()[i],
                            );
                        assert(b.drop_first()[i] == b[i + 1]);
                    }
                }
            }
            assert forall|k: i32|
                #[trigger] cmds_get(r, k) == (if cmds_get(a, k) is Some {
                    cmds_get(a, k)
                } else {
                    cmds_get(b, k)
                }) by {
                if k == ka {
                    assert(cmds_get(r, k) == Some(a[0]));
                    assert(cmds_get(a, k) == Some(a[0]));
                } else {
                    assert(cmds_get(r, k) == cmds_get(rest, k));
                    assert(cmds_get(a, k) == cmds_get(a.drop_first(), k));
                    assert(cmds_get(b, k) == cmds_get(b.drop_first(), k));
                }
            }
        }
    }
}

/// Every key of a merge whose two inputs start at or above `bound` also
/// starts at or above `bound`; used to show sortedness across the head.
proof fn lemma_merge_head_bound(a: Seq<Command>, b: Seq<Command>, bound: i32)
    requires
        sorted_cmds(a),
        sorted_cmds(b),
        a.len() > 0 ==> key_of(a[0]) > bound,
        b.len() > 0 ==> key_of(b[0]) > bound,
    ensures
        forall|m: int|
            0 <= m < merge_spec(a, b).len() ==> key_of(#[trigger] merge_spec(a, b)[m]) > bound,
    decreases a.len() + b.len(),
{
    let r = merge_spec(a, b);
    if a.len() == 0 {
        assert forall|m: int| 0 <= m < r.len() implies key_of(#[trigger] r[m]) > bound by {
            if m > 0 {
                assert(key_of(b[0]) < key_of(b[m]));
            }
        }
    } else if b.len() == 0 {
        assert forall|m: int| 0 <= m < r.len() implies key_of(#[trigger] r[m]) > bound by {
            if m > 0 {
                assert(key_of(a[0]) < key_of(a[m]));
            }
        }
    } else {
        let ka = key_of(a[0]);
        let kb = key_of(b[0]);
        assert(sorted_cmds(a.drop_first())) by {
            assert(forall|i: int|
                0 <= i < a.drop_first().len() ==> a.drop_first()[i] == a[i + 1]);
        }
        assert(sorted_cmds(b.drop_first())) by {
            assert(forall|i: int|
                0 <= i < b.drop_first().len() ==> b.drop_first()[i] == b[i + 1]);
        }
        if ka < kb {
            lemma_merge_head_bound(a.drop_first(), b, bound);
            let rest = merge_spec(a.drop_first(), b);
            assert(r == seq![a[0]] + rest);
            assert forall|m: int| 0 <= m < r.len() implies key_of(#[trigger] r[m]) > bound by {
                if m > 0 {
                    assert(r[m] == rest[m - 1]);
                }
            }
        } else if ka > kb {
            lemma_merge_head_bound(a, b.drop_first(), bound);
            let rest = merge_spec(a, b.drop_first());
            assert(r == seq![b[0]] + rest);
            assert forall|m: int| 0 <= m < r.len() implies key_of(#[trigger] r[m]) > bound by {
                if m > 0 {
                    assert(r[m] == rest[m - 1]);
                }
            }
        } else {
            lemma_merge_head_bound(a.drop_first(), b.drop_first(), bound);
            let rest = merge_spec(a.drop_first(), b.drop_first());
            assert(r == seq![a[0]] + rest);
            assert forall|m: int| 0 <= m < r.len() implies key_of(#[trigger] r[m]) > bound by {
                if m > 0 {
                    assert(r[m] == rest[m - 1]);
                }
            }
        }
    }
}

/// Merges two sorted command runs; on a tie the first (newer) run's
/// command is kept and the older one dropped.
pub fn merge_sorted_commands(a: &Vec<Command>, b: &Vec<Command>) -> (r: Vec<Command>)
    ensures
        r@ == merge_spec(a@, b@),
{
    let mut r: Vec<Command> = Vec::new();
    let mut i: usize = 0;
    let mut j: usize = 0;
    proof {
        assert(a@.skip(0) =~= a@);
        assert(b@.skip(0) =~= b@);
        assert(r@ + merge_spec(a@.skip(0), b@.skip(0)) =~= merge_spec(a@, b@));
    }
    while i < a.len() || j < b.len()
        invariant
            i <= a@.len(),
            j <= b@.len(),
            merge_spec(a@, b@) == r@ + merge_spec(a@.skip(i as int), b@.skip(j as int)),
        decreases a@.len() - i + b@.len() - j,
    {
        let ghost sa = a@.skip(i as int);
        let ghost sb = b@.skip(j as int);
        let take_a = if i < a.len() && j < b.len() {
            a[i].key() <= b[j].key()
        } else {
            i < a.len()
        };
        let skip_b = i < a.len() && j < b.len() && a[i].key() == b[j].key();
        proof {
            if i < a@.len() {
                assert(sa[0] == a@[i as int]);
                assert(sa.drop_first() =~= a@.skip(i + 1));
            }
            if j < b@.len() {
                assert(sb[0] == b@[j as int]);
                assert(sb.drop_first() =~= b@.skip(j + 1));
            }
        }
        if take_a {
            r.push(a[i]);
            proof {
                if skip_b {
                    assert(merge_spec(sa, sb) == seq![sa[0]] + merge_spec(
                        sa.drop_first(),
                        sb.drop_first(),
                    ));
                    assert(r@ + merge_spec(a@.skip(i + 1), b@.skip(j + 1)) =~= (r@.drop_last()
                        + (seq![sa[0]] + merge_spec(sa.drop_first(), sb.drop_first()))));
                } else if j < b@.len() {
                    assert(merge_spec(sa, sb) == seq![sa[0]] + merge_spec(sa.drop_first(), sb));
                    assert(r@ + merge_spec(a@.skip(i + 1), b@.skip(j as int)) =~= (r@.drop_last()
                        + (seq![sa[0]] + merge_spec(sa.drop_first(), sb))));
                } else {
                    assert(sb =~= Seq::<Command>::empty());
                    assert(merge_spec(sa, sb) == sa);
                    assert(sa == seq![sa[0]] + sa.drop_first());
                    assert(merge_spec(sa.drop_first(), sb) == sa.drop_first());
                    assert(r@ + merge_spec(a@.skip(i + 1), b@.skip(j as int)) =~= (r@.drop_last()
                        + sa));
                }
            }
            i = i + 1;
            if skip_b {
                j = j + 1;
            }
        } else {
            r.push(b[j]);
            proof {
                if i < a@.len() {
                    assert(merge_spec(sa, sb) == seq![sb[0]] + merge_spec(sa, sb.drop_first()));
                    assert(r@ + merge_spec(a@.skip(i as int), b@.skip(j + 1)) =~= (r@.drop_last()
                        + (seq![sb[0]] + merge_spec(sa, sb.drop_first()))));
                } else {
                    assert(sa =~= Seq::<Command>::empty());
                    assert(merge_spec(sa, sb) == sb);
                    assert(sb == seq![sb[0]] + sb.drop_first());
                    assert(merge_spec(sa, sb.drop_first()) == sb.drop_first());
                    assert(r@ + merge_spec(a@.skip(i as int), b@.skip(j + 1)) =~= (r@.drop_last()
                        + sb));
                }
            }
            j = j + 1;
        }
    }
    proof {
        assert(a@.skip(a@.len() as int) =~= Seq::<Command>::empty());
        assert(b@.skip(b@.len() as int) =~= Seq::<Command>::empty());
        assert(merge_spec(Seq::<Command>::empty(), Seq::<Command>::empty())
            =~= Seq::<Command>::empty());
        assert(r@ + Seq::<Command>::empty() =~= r@);
    }
    r
}

/// Greedily packs commands into full pages: a new page starts whenever
/// the next record would not fit.
pub fn chunk_blocks(cmds: &Vec<Command>) -> (r: Vec<BlockMut>)
    ensures
        blocks_cmds(r@) == cmds@,
        forall|i: int| 0 <= i < r@.len() ==> (#[trigger] r@[i]).wf() && r@[i]@.len() >= 1,
{
    let mut r: Vec<BlockMut> = Vec::new();
    let mut block = BlockMut::new();
    let mut i: usize = 0;
    proof {
        assert(blocks_cmds(r@) =~= Seq::<Command>::empty());
        assert(blocks_cmds(r@) + block@ =~= cmds@.take(0));
    }
    while i < cmds.len()
        invariant
            i <= cmds@.len(),
            block.wf(),
            blocks_cmds(r@) + block@ == cmds@.take(i as int),
            forall|x: int| 0 <= x < r@.len() ==> (#[trigger] r@[x]).wf() && r@[x]@.len() >= 1,
        decreases cmds@.len() - i,
    {
        let c = cmds[i];
        let ghost pre_r = r@;
        let ghost pre_block = block@;
        if !block.push_command(c) {
            proof {
                // an empty page always has room, so the sealed page is
                // nonempty
                if pre_block.len() == 0 {
                    assert(size_of_cmds(pre_block) == 0);
                }
            }
            let sealed = block;
            block = BlockMut::new();
            r.push(sealed);
            let fit = block.push_command(c);
            proof {
                assert(size_of_cmds(Seq::<Command>::empty()) == 0);
                assert(fit);
                lemma_blocks_cmds_push(pre_r, sealed);
                assert(blocks_cmds(r@) + block@ =~= cmds@.take(i + 1)) by {
                    assert(cmds@.take(i + 1) =~= cmds@.take(i as int).push(c));
                    assert(block@ =~= Seq::<Command>::empty().push(c));
                }
            }
        } else {
            proof {
                assert(blocks_cmds(r@) + block@ =~= cmds@.take(i + 1)) by {
                    assert(cmds@.take(i + 1) =~= cmds@.take(i as int).push(c));
                }
            }
        }
        i = i + 1;
    }
    proof {
        assert(cmds@.take(cmds@.len() as int) =~= cmds@);
    }
    if !block.is_empty() {
        proof {
            lemma_blocks_cmds_push(r@, block);
        }
        r.push(block);
    } else {
        proof {
            assert(blocks_cmds(r@) + block@ =~= blocks_cmds(r@));
        }
    }
    r
}

/// Streams sorted commands into one or more new tables in `directory`,
/// sealing a file whenever it reaches its block budget.  The emitted
/// tables hold exactly the input, in order, with pairwise-disjoint
/// ascending key ranges.
#[verifier::rlimit(100)]
pub fn build_tables(cmds: &Vec<Command>, directory: &str) -> (r: Vec<Table>)
    requires
        sorted_cmds(cmds@),
    ensures
        crate::disk_level::tables_cmds(r@) == cmds@,
        forall|i: int|
            0 <= i < r@.len() ==> (#[trigger] r@[i]).wf() && r@[i].directory@ == directory@,
        forall|i: int, j: int|
            0 <= i < j < r@.len() ==> (#[trigger] r@[i]).max_key < (#[trigger] r@[j]).min_key,
        (r@.len() == 0) == (cmds@.len() == 0),
    {
    let blocks = chunk_blocks(cmds);
    proof {
        crate::table::lemma_blocks_sorted_facts(blocks@);
    }
    let mut out: Vec<Table> = Vec::new();
    let mut tb = TableBuilder::new(directory);
    let mut i: usize = 0;
    let ghost mut start: int = 0;
    proof {
        assert(blocks_cmds(blocks@.subrange(0, 0)) =~= Seq::<Command>::empty());
        assert(crate::disk_level::tables_cmds(out@) =~= Seq::<Command>::empty());
        assert(crate::disk_level::tables_cmds(out@) + tb.cmds() =~= blocks_cmds(
            blocks@.take(0),
        ));
    }
    while i < blocks.len()
        invariant
            i <= blocks@.len(),
            0 <= start <= i,
            sorted_cmds(cmds@),
            blocks_cmds(blocks@) == cmds@,
            forall|x: int|
                0 <= x < blocks@.len() ==> (#[trigger] blocks@[x]).wf() && blocks@[x]@.len() >= 1,
            forall|x: int| 0 <= x < blocks@.len() ==> sorted_cmds(#[trigger] blocks@[x]@),
            forall|x: int, y: int|
                0 <= x < y < blocks@.len() ==> key_of((#[trigger] blocks@[x]@).last()) < key_of(
                    (#[trigger] blocks@[y]@).first(),
                ),
            tb.wf(),
            tb.directory@ == directory@,
            tb.blocks@.len() == i - start,
            tb.blocks@.len() < MAX_FILE_SIZE_BLOCKS,
            tb.cmds() == blocks_cmds(blocks@.subrange(start, i as int)),
            crate::disk_level::tables_cmds(out@) + tb.cmds() == blocks_cmds(
                blocks@.take(i as int),
            ),
            forall|x: int|
                0 <= x < out@.len() ==> (#[trigger] out@[x]).wf() && out@[x].directory@
                    == directory@,
            forall|x: int, y: int|
                0 <= x < y < out@.len() ==> (#[trigger] out@[x]).max_key < (
                #[trigger] out@[y]).min_key,
            out@.len() > 0 && start < blocks@.len() ==> out@[out@.len() - 1].max_key < key_of(
                blocks@[start]@.first(),
            ),
            out@.len() > 0 ==> start < i || (start == i && start < blocks@.len()) || start
                == blocks@.len(),
        decreases blocks@.len() - i,
    {
        let ghost pre_tb_cmds = tb.cmds();
        proof {
            crate::table::lemma_blocks_sorted_compose(blocks@.subrange(start, i as int));
            if start < i {
                assert(blocks@.subrange(start, i as int)[i - start - 1] == blocks@[i - 1]);
                assert(blocks@.subrange(start, i as int)[0] == blocks@[start]);
                assert(pre_tb_cmds.last() == blocks@[i - 1]@.last());
                assert(key_of(blocks@[i as int]@.first()) > key_of(pre_tb_cmds.last()));
            }
        }
        tb.insert_block(&blocks[i]);
        proof {
            assert(blocks@.subrange(start, i + 1) =~= blocks@.subrange(start, i as int).push(
                blocks@[i as int],
            ));
            lemma_blocks_cmds_push(blocks@.subrange(start, i as int), blocks@[i as int]);
            assert(blocks@.take(i + 1) =~= blocks@.take(i as int).push(blocks@[i as int]));
            lemma_blocks_cmds_push(blocks@.take(i as int), blocks@[i as int]);
            assert(crate::disk_level::tables_cmds(out@) + tb.cmds() =~= blocks_cmds(
                blocks@.take(i + 1),
            ));
        }
        if tb.full() {
            let ghost pre_out = out@;
            let ghost sealed_cmds = tb.cmds();
            proof {
                crate::table::lemma_blocks_sorted_compose(blocks@.subrange(start, i + 1));
                assert(blocks@.subrange(start, i + 1)[0] == blocks@[start]);
                assert(blocks@.subrange(start, i + 1)[i + 1 - start - 1] == blocks@[i as int]);
                assert(sealed_cmds.first() == blocks@[start]@.first());
                assert(sealed_cmds.last() == blocks@[i as int]@.last());
            }
            let t = tb.build();
            out.push(t);
            tb = TableBuilder::new(directory);
            proof {
                crate::disk_level::lemma_tables_cmds_push(pre_out, t);
                assert(crate::disk_level::tables_cmds(out@) + tb.cmds()
                    =~= crate::disk_level::tables_cmds(pre_out) + sealed_cmds);
                assert forall|x: int, y: int|
                    0 <= x < y < out@.len() implies (#[trigger] out@[x]).max_key < (
                #[trigger] out@[y]).min_key by {
                    if y == out@.len() - 1 && pre_out.len() > 0 {
                        assert(out@[x] == pre_out[x]);
                        assert(t.min_key == key_of(blocks@[start]@.first()));
                        if x < pre_out.len() - 1 {
                            assert(pre_out[x].max_key < pre_out[pre_out.len() - 1].min_key);
                            assert(pre_out[pre_out.len() - 1].min_key <= pre_out[pre_out.len()
                                - 1].max_key);
                        }
                    }
                }
                if i + 1 < blocks@.len() {
                    assert(t.max_key == key_of(blocks@[i as int]@.last()));
                    assert(key_of(blocks@[i as int]@.last()) < key_of(
                        blocks@[i + 1]@.first(),
                    ));
                }
            }
            proof {
                start = i + 1;
            }
        }
        i = i + 1;
    }
    proof {
        assert(blocks@.take(blocks@.len() as int) =~= blocks@);
    }
    if !tb.is_empty() {
        let ghost pre_out = out@;
        let ghost sealed_cmds = tb.cmds();
        proof {
            crate::table::lemma_blocks_sorted_compose(
                blocks@.subrange(start, blocks@.len() as int),
            );
            assert(blocks@.subrange(start, blocks@.len() as int)[0] == blocks@[start]);
            assert(sealed_cmds.first() == blocks@[start]@.first());
        }
        let t = tb.build();
        out.push(t);
        proof {
            crate::disk_level::lemma_tables_cmds_push(pre_out, t);
            assert(crate::disk_level::tables_cmds(out@) =~= crate::disk_level::tables_cmds(
                pre_out,
            ) + sealed_cmds);
            assert forall|x: int, y: int|
                0 <= x < y < out@.len() implies (#[trigger] out@[x]).max_key < (
            #[trigger] out@[y]).min_key by {
                if y == out@.len() - 1 && pre_out.len() > 0 {
                    assert(out@[x] == pre_out[x]);
                    assert(t.min_key == key_of(blocks@[start]@.first()));
                    if x < pre_out.len() - 1 {
                        assert(pre_out[x].max_key < pre_out[pre_out.len() - 1].min_key);
                        assert(pre_out[pre_out.len() - 1].min_key <= pre_out[pre_out.len()
                            - 1].max_key);
                    }
                }
            }
        }
    } else {
        proof {
            assert(crate::disk_level::tables_cmds(out@) + Seq::<Command>::empty()
                =~= crate::disk_level::tables_cmds(out@));
        }
    }
    proof {
        if cmds@.len() > 0 {
            assert(crate::disk_level::tables_cmds(out@).len() > 0);
            if out@.len() == 0 {
                assert(crate::disk_level::tables_cmds(out@) =~= Seq::<Command>::empty());
            }
        }
        if out@.len() > 0 {
            assert(out@[0].cmds().len() > 0);
            if cmds@.len() == 0 {
                crate::disk_level::lemma_tables_cmds_membership(out@);
                assert(out@[0].cmds().contains(out@[0].cmds()[0]));
                assert(crate::disk_level::tables_cmds(out@).contains(out@[0].cmds()[0]));
            }
        }
    }
    out
}

/// What the pair of a source run list and a destination level answers
/// for a key: the newer source side wins where both hold the key.
pub open spec fn combined_get(l1: Seq<Table>, l2: Seq<Table>, k: i32) -> Option<Command> {
    if cmds_get(crate::disk_level::tables_cmds(l1), k) is Some {
        cmds_get(crate::disk_level::tables_cmds(l1), k)
    } else {
        cmds_get(crate::disk_level::tables_cmds(l2), k)
    }
}

/// With every pair of tables across a level well-formed and all ranges
/// pairwise disjoint, a lookup depends only on which tables the level
/// holds, not on their order.
proof fn lemma_tables_get_by_value(ts1: Seq<Table>, ts2: Seq<Table>, k: i32)
    requires
        forall|i: int| 0 <= i < ts1.len() ==> (#[trigger] ts1[i]).wf(),
        forall|i: int| 0 <= i < ts2.len() ==> (#[trigger] ts2[i]).wf(),
        forall|x: Table, y: Table|
            ts1.contains(x) && ts1.contains(y) && x != y ==> #[trigger] disjoint_ranges(x, y),
        forall|x: Table| #[trigger] ts1.contains(x) <==> ts2.contains(x),
    ensures
        cmds_get(crate::disk_level::tables_cmds(ts2), k) == cmds_get(
            crate::disk_level::tables_cmds(ts1),
            k,
        ),
{
    crate::disk_level::lemma_tables_cmds_membership(ts1);
    crate::disk_level::lemma_tables_cmds_membership(ts2);
    lemma_cmds_get_membership(crate::disk_level::tables_cmds(ts1), k);
    lemma_cmds_get_membership(crate::disk_level::tables_cmds(ts2), k);
    let c1 = cmds_get(crate::disk_level::tables_cmds(ts1), k);
    let c2 = cmds_get(crate::disk_level::tables_cmds(ts2), k);
    if c1 is Some && c2 is Some {
        let a = c1.unwrap();
        let b = c2.unwrap();
        let p1 = choose|p: int|
            0 <= p < crate::disk_level::tables_cmds(ts1).len() && crate::disk_level::tables_cmds(
                ts1,
            )[p] == a;
        let p2 = choose|p: int|
            0 <= p < crate::disk_level::tables_cmds(ts2).len() && crate::disk_level::tables_cmds(
                ts2,
            )[p] == b;
        assert(crate::disk_level::tables_cmds(ts1).contains(a));
        assert(crate::disk_level::tables_cmds(ts2).contains(b));
        let w1 = choose|w: int| 0 <= w < ts1.len() && #[trigger] ts1[w].cmds().contains(a);
        let w2 = choose|w: int| 0 <= w < ts2.len() && #[trigger] ts2[w].cmds().contains(b);
        assert(ts2.contains(ts2[w2]));
        assert(ts1.contains(ts2[w2]));
        let w2x = choose|w: int| 0 <= w < ts1.len() && ts1[w] == ts2[w2];
        crate::disk_level::lemma_table_key_range(ts1[w1]);
        crate::disk_level::lemma_table_key_range(ts2[w2]);
        let m1 = choose|m: int| 0 <= m < ts1[w1].cmds().len() && ts1[w1].cmds()[m] == a;
        let m2 = choose|m: int| 0 <= m < ts2[w2].cmds().len() && ts2[w2].cmds()[m] == b;
        if ts1[w1] != ts2[w2] {
            assert(ts1.contains(ts1[w1]));
            assert(disjoint_ranges(ts1[w1], ts2[w2]));
            assert(false);
        }
        lemma_cmds_get_sorted(ts1[w1].cmds(), m1);
        let m2x = choose|m: int| 0 <= m < ts1[w1].cmds().len() && ts1[w1].cmds()[m] == b;
        lemma_cmds_get_sorted(ts1[w1].cmds(), m2x);
        assert(a == b);
    } else if c1 is Some {
        let a = c1.unwrap();
        let p1 = choose|p: int|
            0 <= p < crate::disk_level::tables_cmds(ts1).len() && crate::disk_level::tables_cmds(
                ts1,
            )[p] == a;
        assert(crate::disk_level::tables_cmds(ts1).contains(a));
        let w1 = choose|w: int| 0 <= w < ts1.len() && #[trigger] ts1[w].cmds().contains(a);
        assert(ts1.contains(ts1[w1]));
        assert(ts2.contains(ts1[w1]));
        let w2 = choose|w: int| 0 <= w < ts2.len() && ts2[w] == ts1[w1];
        let m1 = choose|m: int| 0 <= m < ts1[w1].cmds().len() && ts1[w1].cmds()[m] == a;
        assert(ts2[w2].cmds().contains(a));
        assert(crate::disk_level::tables_cmds(ts2).contains(a));
        let q = choose|q: int|
            0 <= q < crate::disk_level::tables_cmds(ts2).len() && crate::disk_level::tables_cmds(
                ts2,
            )[q] == a;
        assert(false);
    } else if c2 is Some {
        let b = c2.unwrap();
        let p2 = choose|p: int|
            0 <= p < crate::disk_level::tables_cmds(ts2).len() && crate::disk_level::tables_cmds(
                ts2,
            )[p] == b;
        assert(crate::disk_level::tables_cmds(ts2).contains(b));
        let w2 = choose|w: int| 0 <= w < ts2.len() && #[trigger] ts2[w].cmds().contains(b);
        assert(ts2.contains(ts2[w2]));
        assert(ts1.contains(ts2[w2]));
        let w1 = choose|w: int| 0 <= w < ts1.len() && ts1[w] == ts2[w2];
        let m2 = choose|m: int| 0 <= m < ts2[w2].cmds().len() && ts2[w2].cmds()[m] == b;
        assert(ts1[w1].cmds().contains(b));
        assert(crate::disk_level::tables_cmds(ts1).contains(b));
        let q = choose|q: int|
            0 <= q < crate::disk_level::tables_cmds(ts1).len() && crate::disk_level::tables_cmds(
                ts1,
            )[q] == b;
        assert(false);
    }
}

/// Two inclusive ranges with no key in common.
pub open spec fn disjoint_ranges(a: Table, b: Table) -> bool {
    a.max_key < b.min_key || b.max_key < a.min_key
}

/// A list of well-formed, pairwise range-disjoint tables, once ordered
/// by `min_key`, has strictly separated ranges.
proof fn lemma_sorted_disjoint_wf(pre: Seq<Table>, post: Seq<Table>)
    requires
        forall|i: int| 0 <= i < pre.len() ==> (#[trigger] pre[i]).wf(),
        forall|i: int, j: int|
            0 <= i < j < pre.len() ==> disjoint_ranges(#[trigger] pre[i], #[trigger] pre[j]),
        post.to_multiset() == pre.to_multiset(),
        post.len() == pre.len(),
        forall|x: Table| post.contains(x) <==> #[trigger] pre.contains(x),
        forall|i: int, j: int|
            0 <= i < j < post.len() ==> (#[trigger] post[i]).min_key <= (
            #[trigger] post[j]).min_key,
    ensures
        forall|i: int| 0 <= i < post.len() ==> (#[trigger] post[i]).wf(),
        forall|i: int, j: int|
            0 <= i < j < post.len() ==> (#[trigger] post[i]).max_key < (
            #[trigger] post[j]).min_key,
        forall|x: Table, y: Table|
            post.contains(x) && post.contains(y) && x != y ==> #[trigger] disjoint_ranges(x, y),
{
    assert(pre.no_duplicates()) by {
        assert forall|i: int, j: int|
            0 <= i < pre.len() && 0 <= j < pre.len() && i != j implies pre[i] != pre[j] by {
            if pre[i] == pre[j] {
                if i < j {
                    assert(disjoint_ranges(pre[i], pre[j]));
                } else {
                    assert(disjoint_ranges(pre[j], pre[i]));
                }
            }
        }
    }
    pre.lemma_multiset_has_no_duplicates();
    post.lemma_multiset_has_no_duplicates_conv();
    assert forall|i: int| 0 <= i < post.len() implies (#[trigger] post[i]).wf() by {
        assert(post.contains(post[i]));
        assert(pre.contains(post[i]));
        let w = choose|w: int| 0 <= w < pre.len() && pre[w] == post[i];
    }
    assert forall|x: Table, y: Table|
        post.contains(x) && post.contains(y) && x != y implies #[trigger] disjoint_ranges(
        x,
        y,
    ) by {
        assert(pre.contains(x) && pre.contains(y));
        let p = choose|p: int| 0 <= p < pre.len() && pre[p] == x;
        let q = choose|q: int| 0 <= q < pre.len() && pre[q] == y;
        if p < q {
            assert(disjoint_ranges(pre[p], pre[q]));
        } else {
            assert(disjoint_ranges(pre[q], pre[p]));
        }
    }
    assert forall|i: int, j: int|
        0 <= i < j < post.len() implies (#[trigger] post[i]).max_key < (
    #[trigger] post[j]).min_key by {
        assert(post[i] != post[j]);
        assert(post.contains(post[i]) && post.contains(post[j]));
        assert(disjoint_ranges(post[i], post[j]));
        assert(post[j].min_key <= post[j].max_key);
    }
}

/// Metadata-only compaction: every source table is renamed into the
/// destination level's directory and adopted, then the level is
/// re-sorted.  Sound only when no ranges overlap.
#[verifier::loop_isolation(false)]
fn relocate_all(l1: &mut Vec<Table>, l2: &mut crate::disk_level::DiskLevel)
    requires
        forall|i: int| 0 <= i < old(l1)@.len() ==> (#[trigger] old(l1)@[i]).wf(),
        forall|i: int, j: int|
            0 <= i < j < old(l1)@.len() ==> (#[trigger] old(l1)@[i]).max_key < (
            #[trigger] old(l1)@[j]).min_key,
        old(l2).wf(),
        forall|i: int, j: int|
            0 <= i < old(l1)@.len() && 0 <= j < old(l2).tables@.len() ==> !ranges_overlap(
                #[trigger] old(l1)@[i],
                #[trigger] old(l2).tables@[j],
            ),
    ensures
        final(l2).wf(),
        final(l1)@.len() == 0,
        forall|k: i32|
            #[trigger] combined_get(final(l1)@, final(l2).tables@, k) == combined_get(
                old(l1)@,
                old(l2).tables@,
                k,
            ),
        forall|j: int|
            0 <= j < old(l2).tables@.len() ==> final(l2).tables@.contains(
                #[trigger] old(l2).tables@[j],
            ),
        forall|i: int|
            0 <= i < final(l2).tables@.len() ==> (#[trigger] final(l2).tables@[i]).directory@
                == old(l2).level_directory@ || old(l2).tables@.contains(final(l2).tables@[i]),
        final(l2).level == old(l2).level,
        final(l2).level_directory == old(l2).level_directory,
{
    while l1.len() > 0
        invariant
            forall|i: int| 0 <= i < l1@.len() ==> (#[trigger] l1@[i]).wf(),
            forall|i: int, j: int|
                0 <= i < j < l1@.len() ==> (#[trigger] l1@[i]).max_key < (
                #[trigger] l1@[j]).min_key,
            forall|i: int| 0 <= i < l2.tables@.len() ==> (#[trigger] l2.tables@[i]).wf(),
            forall|i: int, j: int|
                0 <= i < j < l2.tables@.len() ==> disjoint_ranges(
                    #[trigger] l2.tables@[i],
                    #[trigger] l2.tables@[j],
                ),
            forall|i: int, j: int|
                0 <= i < l1@.len() && 0 <= j < l2.tables@.len() ==> !ranges_overlap(
                    #[trigger] l1@[i],
                    #[trigger] l2.tables@[j],
                ),
            forall|k: i32|
                #[trigger] combined_get(l1@, l2.tables@, k) == combined_get(
                    old(l1)@,
                    old(l2).tables@,
                    k,
                ),
            forall|j: int|
                0 <= j < old(l2).tables@.len() ==> l2.tables@.contains(
                    #[trigger] old(l2).tables@[j],
                ),
            forall|p: int|
                0 <= p < l2.tables@.len() ==> (#[trigger] l2.tables@[p]).directory@
                    == l2.level_directory@ || old(l2).tables@.contains(l2.tables@[p]),
            l2.level == old(l2).level,
            l2.level_directory == old(l2).level_directory,
        decreases l1@.len(),
    {
        let ghost pre1 = l1@;
        let ghost pre2 = l2.tables@;
        let mut t = match l1.pop() {
            Some(t) => t,
            None => {
                proof {
                    assert(false);
                }
                unreached()
            }
        };
        let ghost t0 = t;
        t.rename(l2.level_directory.as_str());
        proof {
            assert(t.cmds() == t0.cmds());
        }
        l2.tables.push(t);
        proof {
            assert(pre1 =~= pre1.drop_last().push(t0));
            crate::disk_level::lemma_tables_cmds_push(pre1.drop_last(), t0);
            crate::disk_level::lemma_tables_cmds_push(pre2, t);
            assert forall|jx: int| 0 <= jx < old(l2).tables@.len() implies l2.tables@.contains(
                #[trigger] old(l2).tables@[jx],
            ) by {
                let p = choose|p: int| 0 <= p < pre2.len() && pre2[p] == old(l2).tables@[jx];
                assert(l2.tables@[p] == old(l2).tables@[jx]);
            }
            assert forall|p: int|
                0 <= p < l2.tables@.len() implies (#[trigger] l2.tables@[p]).directory@
                == l2.level_directory@ || old(l2).tables@.contains(l2.tables@[p]) by {
                if p < pre2.len() {
                    assert(l2.tables@[p] == pre2[p]);
                } else {
                    assert(l2.tables@[p] == t);
                }
            }
            assert forall|k: i32|
                #[trigger] combined_get(l1@, l2.tables@, k) == combined_get(pre1, pre2, k) by {
                let tc1 = crate::disk_level::tables_cmds(pre1.drop_last());
                let tc2 = crate::disk_level::tables_cmds(pre2);
                crate::block::lemma_cmds_get_concat(tc1, t0.cmds(), k);
                crate::block::lemma_cmds_get_concat(tc2, t.cmds(), k);
                if cmds_get(tc1, k) is None && cmds_get(t0.cmds(), k) is Some {
                    // the moved table's key cannot also be in the level
                    lemma_cmds_get_membership(t0.cmds(), k);
                    lemma_cmds_get_membership(tc2, k);
                    if cmds_get(tc2, k) is Some {
                        let c2 = cmds_get(tc2, k).unwrap();
                        crate::disk_level::lemma_tables_cmds_membership(pre2);
                        let q = choose|q: int| 0 <= q < tc2.len() && tc2[q] == c2;
                        assert(tc2.contains(c2));
                        let w = choose|w: int|
                            0 <= w < pre2.len() && #[trigger] pre2[w].cmds().contains(c2);
                        crate::disk_level::lemma_table_key_range(pre2[w]);
                        let m = choose|m: int|
                            0 <= m < pre2[w].cmds().len() && pre2[w].cmds()[m] == c2;
                        crate::disk_level::lemma_table_key_range(t0);
                        let c0 = cmds_get(t0.cmds(), k).unwrap();
                        let m0 = choose|m: int|
                            0 <= m < t0.cmds().len() && t0.cmds()[m] == c0;
                        assert(ranges_overlap(t0, pre2[w]));
                        assert(false);
                    }
                }
            }
        }
    }
    let ghost pre_sort = l2.tables@;
    l2.sort_tables();
    proof {
        assert forall|x: Table, y: Table|
            pre_sort.contains(x) && pre_sort.contains(y) && x != y implies
            #[trigger] disjoint_ranges(x, y) by {
            let p = choose|p: int| 0 <= p < pre_sort.len() && pre_sort[p] == x;
            let q = choose|q: int| 0 <= q < pre_sort.len() && pre_sort[q] == y;
        }
        lemma_sorted_disjoint_wf(pre_sort, l2.tables@);
        assert(crate::disk_level::tables_cmds(l1@) =~= Seq::<Command>::empty());
        assert forall|k: i32|
            #[trigger] combined_get(l1@, l2.tables@, k) == combined_get(
                old(l1)@,
                old(l2).tables@,
                k,
            ) by {
            lemma_tables_get_by_value(pre_sort, l2.tables@, k);
            assert(combined_get(l1@, pre_sort, k) == combined_get(
                old(l1)@,
                old(l2).tables@,
                k,
            ));
            assert(cmds_get(crate::disk_level::tables_cmds(l1@), k) is None);
        }
        assert forall|j: int| 0 <= j < old(l2).tables@.len() implies l2.tables@.contains(
            #[trigger] old(l2).tables@[j],
        ) by {
            assert(pre_sort.contains(old(l2).tables@[j]));
        }
        assert forall|i: int|
            0 <= i < l2.tables@.len() implies (#[trigger] l2.tables@[i]).directory@
            == old(l2).level_directory@ || old(l2).tables@.contains(l2.tables@[i]) by {
            assert(l2.tables@.contains(l2.tables@[i]));
            assert(pre_sort.contains(l2.tables@[i]));
            let p = choose|p: int| 0 <= p < pre_sort.len() && pre_sort[p] == l2.tables@[i];
        }
    }
}

/// Merges the source tables into the destination level.  The source
/// side is newer: where both sides hold a key, the source command
/// survives; tombstones are preserved into the deeper level.  When no
/// source table intersects any destination table, every source table is
/// relocated whole by a metadata-only rename; otherwise each
/// intersection group is re-merged block by block into fresh tables,
/// while every table outside the groups survives untouched.
#[verifier::rlimit(100)]
pub fn merge(l1: &mut Vec<Table>, l2: &mut crate::disk_level::DiskLevel)
    requires
        forall|i: int| 0 <= i < old(l1)@.len() ==> (#[trigger] old(l1)@[i]).wf(),
        forall|i: int, j: int|
            0 <= i < j < old(l1)@.len() ==> (#[trigger] old(l1)@[i]).max_key < (
            #[trigger] old(l1)@[j]).min_key,
        old(l2).wf(),
    ensures
        final(l2).wf(),
        forall|i: int| 0 <= i < final(l1)@.len() ==> (#[trigger] final(l1)@[i]).wf(),
        forall|i: int, j: int|
            0 <= i < j < final(l1)@.len() ==> (#[trigger] final(l1)@[i]).max_key < (
            #[trigger] final(l1)@[j]).min_key,
        forall|k: i32|
            #[trigger] combined_get(final(l1)@, final(l2).tables@, k) == combined_get(
                old(l1)@,
                old(l2).tables@,
                k,
            ),
        final(l1)@.len() <= old(l1)@.len(),
        old(l1)@.len() <= 1 ==> final(l1)@.len() == 0,
        // whatever stays in the source overlaps nothing now below it
        forall|i: int, j: int|
            0 <= i < final(l1)@.len() && 0 <= j < final(l2).tables@.len() ==> !ranges_overlap(
                #[trigger] final(l1)@[i],
                #[trigger] final(l2).tables@[j],
            ),
        // when nothing overlapped, every source table was relocated
        (forall|i: int, j: int|
            0 <= i < old(l1)@.len() && 0 <= j < old(l2).tables@.len() ==> !ranges_overlap(
                #[trigger] old(l1)@[i],
                #[trigger] old(l2).tables@[j],
            )) ==> final(l1)@.len() == 0,
        // a destination table no source overlaps survives unchanged;
        // only its position in the level may move
        forall|j: int|
            0 <= j < old(l2).tables@.len() && (forall|i: int|
                0 <= i < old(l1)@.len() ==> !ranges_overlap(
                    #[trigger] old(l1)@[i],
                    old(l2).tables@[j],
                )) ==> final(l2).tables@.contains(#[trigger] old(l2).tables@[j]),
        // unconsumed source tables survive unchanged
        forall|i: int|
            0 <= i < final(l1)@.len() ==> old(l1)@.contains(#[trigger] final(l1)@[i]),
        // every run below is an old one kept, or was written into the
        // destination level's directory
        forall|i: int|
            0 <= i < final(l2).tables@.len() ==> (#[trigger] final(l2).tables@[i]).directory@
                == old(l2).level_directory@ || old(l2).tables@.contains(final(l2).tables@[i]),
        final(l2).level == old(l2).level,
        final(l2).level_directory == old(l2).level_directory,
{
    proof {
        assert forall|i: int| 0 <= i < l1@.len() implies (#[trigger] l1@[i]).min_key
            <= l1@[i].max_key by {
            assert(l1@[i].wf());
        }
        assert forall|i: int| 0 <= i < l2.tables@.len() implies (
        #[trigger] l2.tables@[i]).min_key <= l2.tables@[i].max_key by {
            assert(l2.tables@[i].wf());
        }
    }
    let ghost ol1 = l1@;
    let ghost ol2t = l2.tables@;
    let intersections = find_intersections(l1, &l2.tables);
    match intersections {
        IntersectionResult::NoIntersections(_indices) => {
            // the index list names every source table, and analysis
            // proved nothing overlaps: relocation takes the whole list
            relocate_all(l1, l2);
        }
        IntersectionResult::IntersectingGroups(groups) => {
            proof {
                reveal(analysis_sound);
                lemma_analysis_covers(ol1, ol2t, groups@);
            }
            apply_groups(l1, l2, &groups);
            proof {
                reveal(analysis_sound);
                // at least one pair overlapped: the first group opened on one
                let g0 = groups@[0];
                assert(ranges_overlap(ol1[g0.tables1.0 as int], ol2t[g0.tables2.0 as int]));
                // a destination nothing overlaps sits in no group, so it
                // was kept
                assert forall|j: int|
                    0 <= j < ol2t.len() && (forall|i: int|
                        0 <= i < ol1.len() ==> !ranges_overlap(
                            #[trigger] ol1[i],
                            ol2t[j],
                        )) implies l2.tables@.contains(#[trigger] ol2t[j]) by {
                    if in_dst_group(groups@, j) {
                        let g = choose|g: int|
                            0 <= g < groups@.len() && (#[trigger] groups@[g]).tables2.0 <= j
                                < groups@[g].tables2.1;
                        let iw = choose|iw: int|
                            groups@[g].tables1.0 <= iw < groups@[g].tables1.1 && ranges_overlap(
                                #[trigger] ol1[iw],
                                ol2t[j],
                            );
                        assert(false);
                    }
                }
            }
        }
    }
}

/// On a sorted run, a lookup answers exactly the member carrying the
/// key, and a miss means no member carries it.
pub proof fn lemma_sorted_get_iff(s: Seq<Command>, k: i32)
    requires
        sorted_cmds(s),
    ensures
        match cmds_get(s, k) {
            Some(c) => s.contains(c) && key_of(c) == k,
            None => forall|c: Command| s.contains(c) ==> key_of(c) != k,
        },
        forall|c: Command| s.contains(c) && key_of(c) == k ==> cmds_get(s, k) == Some(c),
{
    lemma_cmds_get_membership(s, k);
    match cmds_get(s, k) {
        Some(c) => {
            let i = choose|i: int| 0 <= i < s.len() && s[i] == c;
            assert(s.contains(c));
        }
        None => {
            assert forall|c: Command| s.contains(c) implies key_of(c) != k by {
                let i = choose|i: int| 0 <= i < s.len() && s[i] == c;
            }
        }
    }
    assert forall|c: Command| s.contains(c) && key_of(c) == k implies cmds_get(s, k) == Some(
        c,
    ) by {
        let i = choose|i: int| 0 <= i < s.len() && s[i] == c;
        lemma_cmds_get_sorted(s, i);
    }
}

/// A maximal contiguous span of source and destination tables that must
/// be merged together because their key ranges touch.
#[derive(Clone, Copy, Debug)]
pub struct IntersectionGroup {
    /// Half-open index range into the source table list.
    pub tables1: (usize, usize),
    /// Half-open index range into the destination table list.
    pub tables2: (usize, usize),
}

/// What intersection analysis found: either no source table intersects
/// any destination table, or the groups that must be co-merged.
pub enum IntersectionResult {
    /// The source-table indices needing relocation: all of them.
    NoIntersections(Vec<usize>),
    /// The contiguous groups to merge, ascending in both index spaces.
    IntersectingGroups(Vec<IntersectionGroup>),
}

/// Two inclusive key ranges share at least one key.
pub open spec fn ranges_overlap(a: Table, b: Table) -> bool {
    a.max_key >= b.min_key && b.max_key >= a.min_key
}

/// Structurally sound groups: nonempty half-open ranges in bounds,
/// strictly ascending and disjoint in both index spaces.
pub open spec fn groups_wf(gs: Seq<IntersectionGroup>, n1: int, n2: int) -> bool {
    &&& forall|g: int|
        0 <= g < gs.len() ==> (#[trigger] gs[g]).tables1.0 < gs[g].tables1.1 <= n1
            && gs[g].tables2.0 < gs[g].tables2.1 <= n2
    &&& forall|x: int, y: int|
        0 <= x < y < gs.len() ==> (#[trigger] gs[x]).tables1.1 <= (#[trigger] gs[y]).tables1.0
            && gs[x].tables2.1 <= gs[y].tables2.0
}

/// What intersection analysis guarantees of the groups it emits, over
/// two table lists that are each sorted with pairwise-disjoint ranges:
/// each group opens on an overlapping source/destination pair; every
/// consumed destination overlaps some source of its own group; a source
/// outside every group overlaps no destination at all; and each group's
/// sources sit strictly above the destinations before the group and
/// strictly below the first destination after it, while each consumed
/// destination starts at or below the group's last source.
#[verifier::opaque]
pub open spec fn analysis_sound(l1: Seq<Table>, l2t: Seq<Table>, gs: Seq<IntersectionGroup>) -> bool {
    &&& groups_wf(gs, l1.len() as int, l2t.len() as int)
    &&& forall|g: int|
        0 <= g < gs.len() ==> ranges_overlap(
            l1[(#[trigger] gs[g]).tables1.0 as int],
            l2t[gs[g].tables2.0 as int],
        )
    &&& forall|g: int, j: int|
        #![trigger gs[g], l2t[j]]
        0 <= g < gs.len() && gs[g].tables2.0 <= j < gs[g].tables2.1 ==> exists|i: int|
            gs[g].tables1.0 <= i < gs[g].tables1.1 && ranges_overlap(#[trigger] l1[i], l2t[j])
    &&& forall|i: int, j: int|
        0 <= i < l1.len() && !in_src_group(gs, i) && 0 <= j < l2t.len() ==> !ranges_overlap(
            #[trigger] l1[i],
            #[trigger] l2t[j],
        )
    &&& forall|g: int, i: int, j: int|
        #![trigger gs[g], l1[i], l2t[j]]
        0 <= g < gs.len() && gs[g].tables1.0 <= i < gs[g].tables1.1 && 0 <= j
            < gs[g].tables2.0 ==> l1[i].min_key > l2t[j].max_key
    &&& forall|g: int, i: int|
        0 <= g < gs.len() && (#[trigger] gs[g]).tables1.0 <= i < gs[g].tables1.1
            && gs[g].tables2.1 < l2t.len() ==> (#[trigger] l1[i]).max_key < l2t[gs[g].tables2.1 as int].min_key
    &&& forall|g: int, j: int|
        0 <= g < gs.len() && (#[trigger] gs[g]).tables2.0 <= j < gs[g].tables2.1
            ==> (#[trigger] l2t[j]).min_key <= l1[gs[g].tables1.1 - 1].max_key
}

/// Walks both sorted table lists with two cursors and splits them into
/// maximal intersecting groups: a source table joins the current group
/// while it still touches the group's last or next destination table.
/// `NoIntersections` comes back exactly when no source range overlaps
/// any destination range; otherwise the groups satisfy
/// `analysis_sound`, from which pair coverage and the span bounds the
/// apply step needs all follow.
#[verifier::loop_isolation(false)]
#[verifier::rlimit(100)]
pub fn find_intersections(tables_l1: &Vec<Table>, tables_l2: &Vec<Table>) -> (r:
    IntersectionResult)
    requires
        forall|i: int|
            0 <= i < tables_l1@.len() ==> (#[trigger] tables_l1@[i]).min_key
                <= tables_l1@[i].max_key,
        forall|i: int, j: int|
            0 <= i < j < tables_l1@.len() ==> (#[trigger] tables_l1@[i]).max_key < (
            #[trigger] tables_l1@[j]).min_key,
        forall|i: int|
            0 <= i < tables_l2@.len() ==> (#[trigger] tables_l2@[i]).min_key
                <= tables_l2@[i].max_key,
        forall|i: int, j: int|
            0 <= i < j < tables_l2@.len() ==> (#[trigger] tables_l2@[i]).max_key < (
            #[trigger] tables_l2@[j]).min_key,
    ensures
        match r {
            IntersectionResult::NoIntersections(idx) => idx@.len() == tables_l1@.len()
                && (forall|p: int| 0 <= p < idx@.len() ==> idx@[p] == p) && (forall|i: int, j: int|
                0 <= i < tables_l1@.len() && 0 <= j < tables_l2@.len() ==> !ranges_overlap(
                    #[trigger] tables_l1@[i],
                    #[trigger] tables_l2@[j],
                )),
            IntersectionResult::IntersectingGroups(gs) => gs@.len() >= 1 && analysis_sound(
                tables_l1@,
                tables_l2@,
                gs@,
            ),
        },
{
    let ghost l1 = tables_l1@;
    let ghost l2t = tables_l2@;
    let n1 = tables_l1.len();
    let n2 = tables_l2.len();
    let mut non_intersecting: Vec<usize> = Vec::new();
    let mut groups: Vec<IntersectionGroup> = Vec::new();

    let mut i: usize = 0;
    let mut j: usize = 0;

    while i < n1
        invariant
            i <= n1,
            j <= n2,
            forall|x: int, y: int|
                0 <= x < y < groups@.len() ==> (#[trigger] groups@[x]).tables1.1 <= (
                #[trigger] groups@[y]).tables1.0 && groups@[x].tables2.1 <= groups@[y].tables2.0,
            forall|g: int|
                0 <= g < groups@.len() ==> analysis_group_ok(l1, l2t, groups@, g),
            groups@.len() > 0 ==> groups@[groups@.len() - 1].tables1.1 <= i
                && groups@[groups@.len() - 1].tables2.1 <= j,
            groups@.len() == 0 ==> non_intersecting@.len() == i && forall|p: int|
                0 <= p < non_intersecting@.len() ==> non_intersecting@[p] == p,
            // every destination already passed sits strictly below every
            // source still to come
            forall|jp: int, ip: int|
                0 <= jp < j && i <= ip < n1 ==> (#[trigger] l1[ip]).min_key > (
                #[trigger] l2t[jp]).max_key,
            // every source already passed is grouped or overlaps nothing
            forall|ip: int, jp: int|
                0 <= ip < i && !in_src_group(groups@, ip) && 0 <= jp < n2 ==> !ranges_overlap(
                    #[trigger] l1[ip],
                    #[trigger] l2t[jp],
                ),
        decreases n1 - i,
    {
        let start_i = i;

        // skip destinations entirely below this source
        while j < n2 && matches!(tables_l1[i].intersects(&tables_l2[j]), crate::table::Overlap::Above)
            invariant
                i < n1,
                j <= n2,
                groups@.len() > 0 ==> groups@[groups@.len() - 1].tables2.1 <= j,
                forall|jp: int, ip: int|
                    0 <= jp < j && i <= ip < n1 ==> (#[trigger] l1[ip]).min_key > (
                    #[trigger] l2t[jp]).max_key,
            decreases n2 - j,
        {
            proof {
                assert forall|ip: int| i <= ip < n1 implies (#[trigger] l1[ip]).min_key > l2t[
                    j as int
                ].max_key by {
                    if ip > i {
                        assert(l1[i as int].max_key < l1[ip].min_key);
                    }
                }
            }
            j = j + 1;
        }

        let start_j = j;

        // absorb destinations this source touches
        let mut intersected = false;
        while j < n2 && matches!(tables_l1[i].intersects(&tables_l2[j]), crate::table::Overlap::Meets)
            invariant
                i < n1,
                start_j <= j <= n2,
                intersected == (j > start_j),
                forall|jp: int|
                    start_j <= jp < j ==> ranges_overlap(l1[i as int], #[trigger] l2t[jp]),
            decreases n2 - j,
        {
            intersected = true;
            j = j + 1;
        }

        if intersected {
            proof {
                // this source stopped strictly below the next destination
                if j < n2 {
                    assert(ranges_overlap(l1[i as int], l2t[j - 1]));
                    assert(l2t[j - 1].max_key < l2t[j as int].min_key);
                    assert(l1[i as int].max_key < l2t[j as int].min_key);
                }
            }
            let ghost mut absorbed_by: Map<int, int> = Map::empty();
            proof {
                absorbed_by = Map::new(
                    |jp: int| start_j <= jp < j,
                    |jp: int| i as int,
                );
            }
            i = i + 1;

            let mut closed = false;
            while i < n1
                invariant
                    start_i < i <= n1,
                    start_j < j <= n2,
                    // dests before the group: strictly below all remaining sources
                    forall|jp: int, ip: int|
                        0 <= jp < start_j && start_i <= ip < n1 ==> (#[trigger] l1[ip]).min_key
                            > (#[trigger] l2t[jp]).max_key,
                    // every absorbed dest overlaps its absorbing source
                    forall|jp: int|
                        start_j <= jp < j ==> start_i <= #[trigger] absorbed_by[jp] < i
                            && ranges_overlap(l1[absorbed_by[jp]], l2t[jp]),
                    // each dest is anchored at or below the newest source
                    forall|jp: int|
                        start_j <= jp < j ==> (#[trigger] l2t[jp]).min_key <= l1[i - 1].max_key,
                    // every group source so far stopped below the next dest
                    forall|ip: int|
                        start_i <= ip < i && j < n2 ==> (#[trigger] l1[ip]).max_key < l2t[
                            j as int
                        ].min_key,
                    closed ==> i < n1 && !ranges_overlap(l1[i as int], l2t[j - 1]) && (j < n2
                        ==> !ranges_overlap(l1[i as int], l2t[j as int])),
                decreases n1 - i,
            {
                let touches_prev = matches!(
                    tables_l1[i].intersects(&tables_l2[j - 1]),
                    crate::table::Overlap::Meets
                );
                let touches_cur = if j < n2 {
                    matches!(tables_l1[i].intersects(&tables_l2[j]), crate::table::Overlap::Meets)
                } else {
                    false
                };
                if touches_prev || touches_cur {
                    if touches_cur {
                        proof {
                            absorbed_by = absorbed_by.insert(j as int, i as int);
                        }
                        j = j + 1;
                        while j < n2 && matches!(
                            tables_l1[i].intersects(&tables_l2[j]),
                            crate::table::Overlap::Meets
                        )
                            invariant
                                i < n1,
                                start_j < j <= n2,
                                ranges_overlap(l1[i as int], l2t[j - 1]),
                                forall|jp: int|
                                    start_j <= jp < j ==> start_i <= #[trigger] absorbed_by[jp]
                                        <= i as int && ranges_overlap(
                                        l1[absorbed_by[jp]],
                                        l2t[jp],
                                    ),
                            decreases n2 - j,
                        {
                            proof {
                                absorbed_by = absorbed_by.insert(j as int, i as int);
                            }
                            j = j + 1;
                        }
                    }
                    proof {
                        // whichever way it joined, this source overlaps the
                        // destination just behind the cursor
                        assert(ranges_overlap(l1[i as int], l2t[j - 1]));
                        // and therefore stopped strictly below the next one
                        if j < n2 {
                            assert(l1[i as int].min_key <= l2t[j - 1].max_key);
                            assert(l2t[j - 1].max_key < l2t[j as int].min_key);
                            assert(!(l1[i as int].min_key > l2t[j as int].max_key));
                            assert(l1[i as int].max_key < l2t[j as int].min_key);
                        }
                        // every consumed dest stays anchored at or below the
                        // newest source
                        assert forall|jp: int|
                            start_j <= jp < j implies (#[trigger] l2t[jp]).min_key <= l1[
                            i as int
                        ].max_key by {
                            let a = absorbed_by[jp];
                            if start_i <= a < i {
                                assert(l1[a].max_key < l1[i as int].min_key);
                            } else {
                                assert(l1[i - 1].max_key < l1[i as int].min_key);
                            }
                        }
                        // older sources stay below the (possibly advanced) dest
                        assert forall|ip: int|
                            start_i <= ip < i + 1 && j < n2 implies (#[trigger] l1[ip]).max_key
                            < l2t[j as int].min_key by {}
                    }
                    i = i + 1;
                } else {
                    closed = true;
                    break;
                }
            }

            // the group is complete: everything after it sits above it
            proof {
                if closed {
                    // not overlapping the last dest, yet anchored below the
                    // newest source: the current source lies fully above
                    assert(l2t[j - 1].min_key <= l1[i - 1].max_key);
                    assert(l1[i - 1].max_key < l1[i as int].min_key);
                    assert(!(l1[i as int].max_key < l2t[j - 1].min_key));
                    assert(l1[i as int].min_key > l2t[j - 1].max_key);
                }
                assert forall|jp: int, ip: int|
                    0 <= jp < j && i <= ip < n1 implies (#[trigger] l1[ip]).min_key > (
                #[trigger] l2t[jp]).max_key by {
                    if jp >= start_j {
                        assert(l2t[jp].max_key <= l2t[j - 1].max_key);
                        assert(l1[i as int].min_key > l2t[j - 1].max_key);
                        if ip > i {
                            assert(l1[i as int].max_key < l1[ip].min_key);
                        }
                    } else {
                        if ip > i {
                            assert(l1[i as int].max_key < l1[ip].min_key);
                        }
                    }
                }
            }
            let g = IntersectionGroup { tables1: (start_i, i), tables2: (start_j, j) };
            let ghost pre_groups = groups@;
            groups.push(g);
            proof {
                assert forall|x: int| 0 <= x < groups@.len() implies analysis_group_ok(
                    l1,
                    l2t,
                    groups@,
                    x,
                ) by {
                    if x < pre_groups.len() {
                        assert(groups@[x] == pre_groups[x]);
                        assert(analysis_group_ok(l1, l2t, pre_groups, x));
                        lemma_group_ok_frame(l1, l2t, pre_groups, groups@, x);
                    } else {
                        assert(groups@[x] == g);
                        assert forall|jp: int|
                            #![trigger l2t[jp]]
                            g.tables2.0 <= jp < g.tables2.1 implies exists|ip: int|
                            g.tables1.0 <= ip < g.tables1.1 && ranges_overlap(
                                #[trigger] l1[ip],
                                l2t[jp],
                            ) by {
                            assert(ranges_overlap(l1[absorbed_by[jp]], l2t[jp]));
                        }
                    }
                }
                assert forall|x: int, y: int|
                    0 <= x < y < groups@.len() implies (#[trigger] groups@[x]).tables1.1 <= (
                #[trigger] groups@[y]).tables1.0 && groups@[x].tables2.1
                    <= groups@[y].tables2.0 by {
                    if y == groups@.len() - 1 {
                        assert(groups@[y] == g);
                        assert(groups@[x] == pre_groups[x]);
                        let last = pre_groups.len() - 1;
                        if x < last {
                            assert(pre_groups[x].tables1.1 <= pre_groups[last].tables1.0);
                            assert(pre_groups[x].tables2.1 <= pre_groups[last].tables2.0);
                            assert(analysis_group_ok(l1, l2t, pre_groups, last));
                            assert(pre_groups[last].tables1.0 < pre_groups[last].tables1.1);
                            assert(pre_groups[last].tables2.0 < pre_groups[last].tables2.1);
                        }
                        assert(pre_groups[last].tables1.1 <= start_i);
                        assert(pre_groups[last].tables2.1 <= start_j);
                    } else {
                        assert(groups@[x] == pre_groups[x] && groups@[y] == pre_groups[y]);
                    }
                }
                assert forall|ip: int, jp: int|
                    0 <= ip < i && !in_src_group(groups@, ip) && 0 <= jp < n2
                    implies !ranges_overlap(#[trigger] l1[ip], #[trigger] l2t[jp]) by {
                    if ip < start_i {
                        assert(!in_src_group(pre_groups, ip)) by {
                            if in_src_group(pre_groups, ip) {
                                let gg = choose|gg: int|
                                    0 <= gg < pre_groups.len() && (
                                    #[trigger] pre_groups[gg]).tables1.0 <= ip
                                        < pre_groups[gg].tables1.1;
                                assert(groups@[gg] == pre_groups[gg]);
                                assert(in_src_group(groups@, ip));
                            }
                        }
                    } else {
                        assert(g.tables1.0 <= ip < g.tables1.1);
                        assert(in_src_group(groups@, ip)) by {
                            assert((#[trigger] groups@[groups@.len() - 1]).tables1.0 <= ip
                                < groups@[groups@.len() - 1].tables1.1);
                        }
                    }
                }
            }
        } else {
            // this source overlaps nothing: below the next destination and
            // above every passed one
            proof {
                assert forall|jp: int| 0 <= jp < n2 implies !ranges_overlap(
                    l1[i as int],
                    #[trigger] l2t[jp],
                ) by {
                    if jp >= start_j {
                        if start_j < n2 {
                            assert(!(l1[i as int].min_key > l2t[start_j as int].max_key));
                            assert(!(ranges_overlap(l1[i as int], l2t[start_j as int])));
                            assert(l1[i as int].max_key < l2t[start_j as int].min_key);
                            assert(l2t[start_j as int].min_key <= l2t[jp].min_key) by {
                                if jp > start_j {
                                    assert(l2t[start_j as int].max_key < l2t[jp].min_key);
                                }
                            }
                        }
                    }
                }
            }
            if groups.len() == 0 {
                non_intersecting.push(i);
            }
            i = i + 1;
        }
    }

    if groups.len() == 0 {
        IntersectionResult::NoIntersections(non_intersecting)
    } else {
        proof {
            lemma_groups_ok_sound(l1, l2t, groups@);
        }
        IntersectionResult::IntersectingGroups(groups)
    }
}

/// The per-group half of `analysis_sound`, for framing one group at a
/// time.
pub open spec fn analysis_group_ok(
    l1: Seq<Table>,
    l2t: Seq<Table>,
    gs: Seq<IntersectionGroup>,
    g: int,
) -> bool {
    &&& gs[g].tables1.0 < gs[g].tables1.1 <= l1.len()
    &&& gs[g].tables2.0 < gs[g].tables2.1 <= l2t.len()
    &&& ranges_overlap(l1[gs[g].tables1.0 as int], l2t[gs[g].tables2.0 as int])
    &&& forall|j: int|
        #![trigger l2t[j]]
        gs[g].tables2.0 <= j < gs[g].tables2.1 ==> exists|i: int|
            gs[g].tables1.0 <= i < gs[g].tables1.1 && ranges_overlap(#[trigger] l1[i], l2t[j])
    &&& forall|i: int, j: int|
        gs[g].tables1.0 <= i < gs[g].tables1.1 && 0 <= j < gs[g].tables2.0 ==> (
        #[trigger] l1[i]).min_key > (#[trigger] l2t[j]).max_key
    &&& forall|i: int|
        gs[g].tables1.0 <= i < gs[g].tables1.1 && gs[g].tables2.1 < l2t.len() ==> (
        #[trigger] l1[i]).max_key < l2t[gs[g].tables2.1 as int].min_key
    &&& forall|j: int|
        gs[g].tables2.0 <= j < gs[g].tables2.1 ==> (#[trigger] l2t[j]).min_key <= l1[gs[
            g
        ].tables1.1 - 1].max_key
}

/// A group's soundness does not depend on the other groups.
proof fn lemma_group_ok_frame(
    l1: Seq<Table>,
    l2t: Seq<Table>,
    gs1: Seq<IntersectionGroup>,
    gs2: Seq<IntersectionGroup>,
    g: int,
)
    requires
        0 <= g < gs1.len(),
        g < gs2.len(),
        gs1[g] == gs2[g],
        analysis_group_ok(l1, l2t, gs1, g),
    ensures
        analysis_group_ok(l1, l2t, gs2, g),
{
}

/// Per-group soundness of every group, plus ascending disjoint index
/// spans, is the whole of `analysis_sound` except the free-source
/// clause.
proof fn lemma_groups_ok_sound(l1: Seq<Table>, l2t: Seq<Table>, gs: Seq<IntersectionGroup>)
    requires
        forall|x: int, y: int|
            0 <= x < y < gs.len() ==> (#[trigger] gs[x]).tables1.1 <= (
            #[trigger] gs[y]).tables1.0 && gs[x].tables2.1 <= gs[y].tables2.0,
        forall|g: int| 0 <= g < gs.len() ==> analysis_group_ok(l1, l2t, gs, g),
        forall|i: int, j: int|
            0 <= i < l1.len() && !in_src_group(gs, i) && 0 <= j < l2t.len() ==> !ranges_overlap(
                #[trigger] l1[i],
                #[trigger] l2t[j],
            ),
    ensures
        analysis_sound(l1, l2t, gs),
{
    reveal(analysis_sound);
    assert forall|g: int| 0 <= g < gs.len() implies (#[trigger] gs[g]).tables1.0
        < gs[g].tables1.1 <= l1.len() && gs[g].tables2.0 < gs[g].tables2.1 <= l2t.len() by {
        assert(analysis_group_ok(l1, l2t, gs, g));
    }
    assert forall|g: int| 0 <= g < gs.len() implies ranges_overlap(
        l1[(#[trigger] gs[g]).tables1.0 as int],
        l2t[gs[g].tables2.0 as int],
    ) by {
        assert(analysis_group_ok(l1, l2t, gs, g));
    }
    assert forall|g: int, j: int|
        #![trigger gs[g], l2t[j]]
        0 <= g < gs.len() && gs[g].tables2.0 <= j < gs[g].tables2.1 implies exists|i: int|
        gs[g].tables1.0 <= i < gs[g].tables1.1 && ranges_overlap(#[trigger] l1[i], l2t[j]) by {
        assert(analysis_group_ok(l1, l2t, gs, g));
    }
    assert forall|g: int, i: int, j: int|
        #![trigger gs[g], l1[i], l2t[j]]
        0 <= g < gs.len() && gs[g].tables1.0 <= i < gs[g].tables1.1 && 0 <= j
            < gs[g].tables2.0 implies l1[i].min_key > l2t[j].max_key by {
        assert(analysis_group_ok(l1, l2t, gs, g));
    }
    assert forall|g: int, i: int|
        0 <= g < gs.len() && (#[trigger] gs[g]).tables1.0 <= i < gs[g].tables1.1
            && gs[g].tables2.1 < l2t.len() implies (#[trigger] l1[i]).max_key < l2t[gs[
            g
        ].tables2.1 as int].min_key by {
        assert(analysis_group_ok(l1, l2t, gs, g));
    }
    assert forall|g: int, j: int|
        0 <= g < gs.len() && (#[trigger] gs[g]).tables2.0 <= j < gs[g].tables2.1 implies (
    #[trigger] l2t[j]).min_key <= l1[gs[g].tables1.1 - 1].max_key by {
        assert(analysis_group_ok(l1, l2t, gs, g));
    }
}

/// Whether source index `i` is consumed by some group.
pub open spec fn in_src_group(gs: Seq<IntersectionGroup>, i: int) -> bool {
    exists|g: int| 0 <= g < gs.len() && (#[trigger] gs[g]).tables1.0 <= i < gs[g].tables1.1
}

/// Whether destination index `j` is consumed by some group.
pub open spec fn in_dst_group(gs: Seq<IntersectionGroup>, j: int) -> bool {
    exists|g: int| 0 <= g < gs.len() && (#[trigger] gs[g]).tables2.0 <= j < gs[g].tables2.1
}

/// The source tables a group consumes.
pub open spec fn group_src(l1: Seq<Table>, g: IntersectionGroup) -> Seq<Table> {
    l1.subrange(g.tables1.0 as int, g.tables1.1 as int)
}

/// The destination tables a group consumes.
pub open spec fn group_dst(l2t: Seq<Table>, g: IntersectionGroup) -> Seq<Table> {
    l2t.subrange(g.tables2.0 as int, g.tables2.1 as int)
}

/// What one group's merge answers for a key: its source slice first.
pub open spec fn group_get(l1: Seq<Table>, l2t: Seq<Table>, g: IntersectionGroup, k: i32) -> Option<
    Command,
> {
    if cmds_get(crate::disk_level::tables_cmds(group_src(l1, g)), k) is Some {
        cmds_get(crate::disk_level::tables_cmds(group_src(l1, g)), k)
    } else {
        cmds_get(crate::disk_level::tables_cmds(group_dst(l2t, g)), k)
    }
}

/// What the groups together answer for a key.
pub open spec fn groups_get(
    l1: Seq<Table>,
    l2t: Seq<Table>,
    gs: Seq<IntersectionGroup>,
    k: i32,
) -> Option<Command>
    decreases gs.len(),
{
    if gs.len() == 0 {
        None
    } else {
        match group_get(l1, l2t, gs[0], k) {
            Some(c) => Some(c),
            None => groups_get(l1, l2t, gs.drop_first(), k),
        }
    }
}

/// Smallest key a group's merge can produce.
pub open spec fn span_min(l1: Seq<Table>, l2t: Seq<Table>, g: IntersectionGroup) -> i32 {
    if l1[g.tables1.0 as int].min_key <= l2t[g.tables2.0 as int].min_key {
        l1[g.tables1.0 as int].min_key
    } else {
        l2t[g.tables2.0 as int].min_key
    }
}

/// Largest key a group's merge can produce.
pub open spec fn span_max(l1: Seq<Table>, l2t: Seq<Table>, g: IntersectionGroup) -> i32 {
    if l1[g.tables1.1 - 1].max_key >= l2t[g.tables2.1 - 1].max_key {
        l1[g.tables1.1 - 1].max_key
    } else {
        l2t[g.tables2.1 - 1].max_key
    }
}

/// Every intersecting source/destination pair is consumed together by
/// one group.
#[verifier::opaque]
pub open spec fn pair_covered(l1: Seq<Table>, l2t: Seq<Table>, gs: Seq<IntersectionGroup>) -> bool {
    forall|i: int, j: int|
        0 <= i < l1.len() && 0 <= j < l2t.len() && ranges_overlap(l1[i], l2t[j])
            ==> exists|g: int|
            0 <= g < gs.len() && (#[trigger] gs[g]).tables1.0 <= i < gs[g].tables1.1
                && gs[g].tables2.0 <= j < gs[g].tables2.1
}

/// No group's key span reaches into a destination table it does not
/// consume, and the groups' spans are pairwise disjoint.
#[verifier::opaque]
pub open spec fn spans_ok(l1: Seq<Table>, l2t: Seq<Table>, gs: Seq<IntersectionGroup>) -> bool {
    &&& forall|g: int, j: int|
        0 <= g < gs.len() && 0 <= j < l2t.len() && !((#[trigger] gs[g]).tables2.0 <= j
            < gs[g].tables2.1) ==> (span_max(l1, l2t, gs[g]) < (#[trigger] l2t[j]).min_key
            || l2t[j].max_key < span_min(l1, l2t, gs[g]))
    &&& forall|g: int, h: int|
        0 <= g < gs.len() && 0 <= h < gs.len() && g != h ==> (span_max(l1, l2t, (#[trigger] gs[g]))
            < span_min(l1, l2t, (#[trigger] gs[h])) || span_max(l1, l2t, gs[h]) < span_min(
            l1,
            l2t,
            gs[g],
        ))
}

/// Concatenating table runs concatenates their commands.
proof fn lemma_tables_cmds_concat(a: Seq<Table>, b: Seq<Table>)
    ensures
        crate::disk_level::tables_cmds(a + b) == crate::disk_level::tables_cmds(a)
            + crate::disk_level::tables_cmds(b),
    decreases a.len(),
{
    if a.len() == 0 {
        assert(a + b =~= b);
        assert(crate::disk_level::tables_cmds(a) =~= Seq::<Command>::empty());
        assert(Seq::<Command>::empty() + crate::disk_level::tables_cmds(b)
            =~= crate::disk_level::tables_cmds(b));
    } else {
        assert((a + b)[0] == a[0]);
        assert((a + b).drop_first() =~= a.drop_first() + b);
        lemma_tables_cmds_concat(a.drop_first(), b);
        assert(a[0].cmds() + (crate::disk_level::tables_cmds(a.drop_first())
            + crate::disk_level::tables_cmds(b)) =~= (a[0].cmds()
            + crate::disk_level::tables_cmds(a.drop_first())) + crate::disk_level::tables_cmds(b));
    }
}

/// On an index-sorted disjoint run of well-formed tables, a lookup
/// answers through exactly one table.
proof fn lemma_tables_lookup(ts: Seq<Table>, k: i32)
    requires
        forall|i: int| 0 <= i < ts.len() ==> (#[trigger] ts[i]).wf(),
        forall|i: int, j: int|
            0 <= i < j < ts.len() ==> (#[trigger] ts[i]).max_key < (#[trigger] ts[j]).min_key,
    ensures
        match cmds_get(crate::disk_level::tables_cmds(ts), k) {
            Some(c) => exists|i: int|
                0 <= i < ts.len() && #[trigger] cmds_get(ts[i].cmds(), k) == Some(c),
            None => forall|i: int|
                0 <= i < ts.len() ==> #[trigger] cmds_get(ts[i].cmds(), k) is None,
        },
        forall|i: int|
            0 <= i < ts.len() && #[trigger] cmds_get(ts[i].cmds(), k) is Some ==> cmds_get(
                crate::disk_level::tables_cmds(ts),
                k,
            ) == cmds_get(ts[i].cmds(), k),
{
    crate::disk_level::lemma_tables_sorted_compose(ts);
    crate::disk_level::lemma_tables_cmds_membership(ts);
    lemma_sorted_get_iff(crate::disk_level::tables_cmds(ts), k);
    match cmds_get(crate::disk_level::tables_cmds(ts), k) {
        Some(c) => {
            let w = choose|w: int| 0 <= w < ts.len() && #[trigger] ts[w].cmds().contains(c);
            let m = choose|m: int| 0 <= m < ts[w].cmds().len() && ts[w].cmds()[m] == c;
            assert(sorted_cmds(ts[w].cmds()));
            lemma_cmds_get_sorted(ts[w].cmds(), m);
            assert(cmds_get(ts[w].cmds(), k) == Some(c));
        }
        None => {
            assert forall|i: int| 0 <= i < ts.len() implies #[trigger] cmds_get(
                ts[i].cmds(),
                k,
            ) is None by {
                lemma_cmds_get_membership(ts[i].cmds(), k);
                if let Some(c) = cmds_get(ts[i].cmds(), k) {
                    let m = choose|m: int| 0 <= m < ts[i].cmds().len() && ts[i].cmds()[m] == c;
                    assert(ts[i].cmds().contains(c));
                    assert(crate::disk_level::tables_cmds(ts).contains(c));
                    assert(false);
                }
            }
        }
    }
    assert forall|i: int|
        0 <= i < ts.len() && #[trigger] cmds_get(ts[i].cmds(), k) is Some implies cmds_get(
        crate::disk_level::tables_cmds(ts),
        k,
    ) == cmds_get(ts[i].cmds(), k) by {
        lemma_cmds_get_membership(ts[i].cmds(), k);
        let c = cmds_get(ts[i].cmds(), k).unwrap();
        let m = choose|m: int| 0 <= m < ts[i].cmds().len() && ts[i].cmds()[m] == c;
        assert(ts[i].cmds().contains(c));
        assert(crate::disk_level::tables_cmds(ts).contains(c));
    }
}

/// If every group but `m` answers nothing for `k`, the groups together
/// answer what group `m` does.
proof fn lemma_groups_get_unique(
    l1: Seq<Table>,
    l2t: Seq<Table>,
    gs: Seq<IntersectionGroup>,
    m: int,
    k: i32,
)
    requires
        0 <= m < gs.len(),
        forall|g: int| 0 <= g < gs.len() && g != m ==> group_get(l1, l2t, #[trigger] gs[g], k) is None,
    ensures
        groups_get(l1, l2t, gs, k) == group_get(l1, l2t, gs[m], k),
    decreases gs.len(),
{
    if m == 0 {
        if group_get(l1, l2t, gs[0], k) is None {
            lemma_groups_get_none(l1, l2t, gs.drop_first(), k);
        }
    } else {
        assert(group_get(l1, l2t, gs[0], k) is None);
        assert(forall|g: int|
            0 <= g < gs.drop_first().len() ==> gs.drop_first()[g] == gs[g + 1]);
        lemma_groups_get_unique(l1, l2t, gs.drop_first(), m - 1, k);
    }
}

/// Groups that all answer nothing answer nothing together.
proof fn lemma_groups_get_none(
    l1: Seq<Table>,
    l2t: Seq<Table>,
    gs: Seq<IntersectionGroup>,
    k: i32,
)
    requires
        forall|g: int| 0 <= g < gs.len() ==> group_get(l1, l2t, #[trigger] gs[g], k) is None,
    ensures
        groups_get(l1, l2t, gs, k) is None,
    decreases gs.len(),
{
    if gs.len() > 0 {
        assert(forall|g: int|
            0 <= g < gs.drop_first().len() ==> gs.drop_first()[g] == gs[g + 1]);
        lemma_groups_get_none(l1, l2t, gs.drop_first(), k);
    }
}

/// Appending one more group to a first-match walk.
proof fn lemma_groups_get_push(
    l1: Seq<Table>,
    l2t: Seq<Table>,
    gs: Seq<IntersectionGroup>,
    g: IntersectionGroup,
    k: i32,
)
    ensures
        groups_get(l1, l2t, gs.push(g), k) == match groups_get(l1, l2t, gs, k) {
            Some(c) => Some(c),
            None => group_get(l1, l2t, g, k),
        },
    decreases gs.len(),
{
    if gs.len() == 0 {
        let sp = gs.push(g);
        assert(sp[0] == g);
        assert(sp.drop_first() =~= Seq::<IntersectionGroup>::empty());
        assert(groups_get(l1, l2t, Seq::<IntersectionGroup>::empty(), k) is None);
    } else {
        assert(gs.push(g)[0] == gs[0]);
        assert(gs.push(g).drop_first() =~= gs.drop_first().push(g));
        lemma_groups_get_push(l1, l2t, gs.drop_first(), g, k);
    }
}

/// Whether source index `i` is consumed by some group (executable).
fn idx_in_src_group(gs: &Vec<IntersectionGroup>, i: usize) -> (r: bool)
    ensures
        r == in_src_group(gs@, i as int),
{
    let mut g: usize = 0;
    while g < gs.len()
        invariant
            g <= gs@.len(),
            forall|x: int|
                0 <= x < g ==> !((#[trigger] gs@[x]).tables1.0 <= i < gs@[x].tables1.1),
        decreases gs@.len() - g,
    {
        if gs[g].tables1.0 <= i && i < gs[g].tables1.1 {
            return true;
        }
        g = g + 1;
    }
    false
}

/// Whether destination index `j` is consumed by some group (executable).
fn idx_in_dst_group(gs: &Vec<IntersectionGroup>, j: usize) -> (r: bool)
    ensures
        r == in_dst_group(gs@, j as int),
{
    let mut g: usize = 0;
    while g < gs.len()
        invariant
            g <= gs@.len(),
            forall|x: int|
                0 <= x < g ==> !((#[trigger] gs@[x]).tables2.0 <= j < gs@[x].tables2.1),
        decreases gs@.len() - g,
    {
        if gs[g].tables2.0 <= j && j < gs[g].tables2.1 {
            return true;
        }
        g = g + 1;
    }
    false
}

/// Every command of the tables in `[a, b)`, in order.
fn collect_cmds_range(tables: &Vec<Table>, a: usize, b: usize) -> (r: Vec<Command>)
    requires
        a <= b <= tables@.len(),
    ensures
        r@ == crate::disk_level::tables_cmds(tables@.subrange(a as int, b as int)),
{
    let mut r: Vec<Command> = Vec::new();
    let mut j: usize = a;
    proof {
        assert(r@ =~= crate::disk_level::tables_cmds(tables@.subrange(a as int, a as int)));
    }
    while j < b
        invariant
            a <= j <= b <= tables@.len(),
            r@ == crate::disk_level::tables_cmds(tables@.subrange(a as int, j as int)),
        decreases b - j,
    {
        let mut tcmds = tables[j].commands();
        r.append(&mut tcmds);
        proof {
            crate::disk_level::lemma_tables_cmds_push(
                tables@.subrange(a as int, j as int),
                tables@[j as int],
            );
            assert(tables@.subrange(a as int, j + 1) =~= tables@.subrange(a as int, j as int).push(
                tables@[j as int],
            ));
        }
        j = j + 1;
    }
    r
}

/// The heart of grouped compaction: with every intersecting pair
/// co-grouped, the kept source tables, the kept destination tables and
/// the groups' merged output together answer every key exactly as the
/// original two sides did.
#[verifier::rlimit(100)]
proof fn lemma_apply_view(
    l1: Seq<Table>,
    l2t: Seq<Table>,
    gs: Seq<IntersectionGroup>,
    kept1: Seq<Table>,
    kept2: Seq<Table>,
    new: Seq<Table>,
    k: i32,
)
    requires
        forall|i: int| 0 <= i < l1.len() ==> (#[trigger] l1[i]).wf(),
        forall|i: int, j: int|
            0 <= i < j < l1.len() ==> (#[trigger] l1[i]).max_key < (#[trigger] l1[j]).min_key,
        forall|i: int| 0 <= i < l2t.len() ==> (#[trigger] l2t[i]).wf(),
        forall|i: int, j: int|
            0 <= i < j < l2t.len() ==> (#[trigger] l2t[i]).max_key < (#[trigger] l2t[j]).min_key,
        groups_wf(gs, l1.len() as int, l2t.len() as int),
        pair_covered(l1, l2t, gs),
        forall|i: int| 0 <= i < kept1.len() ==> (#[trigger] kept1[i]).wf(),
        forall|i: int, j: int|
            0 <= i < j < kept1.len() ==> (#[trigger] kept1[i]).max_key < (
            #[trigger] kept1[j]).min_key,
        forall|x: Table|
            #[trigger] kept1.contains(x) <==> exists|j: int|
                0 <= j < l1.len() && !in_src_group(gs, j) && l1[j] == x,
        forall|i: int| 0 <= i < kept2.len() ==> (#[trigger] kept2[i]).wf(),
        forall|i: int, j: int|
            0 <= i < j < kept2.len() ==> (#[trigger] kept2[i]).max_key < (
            #[trigger] kept2[j]).min_key,
        forall|x: Table|
            #[trigger] kept2.contains(x) <==> exists|j: int|
                0 <= j < l2t.len() && !in_dst_group(gs, j) && l2t[j] == x,
        forall|i: int| 0 <= i < new.len() ==> (#[trigger] new[i]).wf(),
        forall|i: int, j: int|
            0 <= i < j < new.len() ==> (#[trigger] new[i]).max_key < (#[trigger] new[j]).min_key,
        cmds_get(crate::disk_level::tables_cmds(new), k) == groups_get(l1, l2t, gs, k),
    ensures
        combined_get(kept1, kept2 + new, k) == combined_get(l1, l2t, k),
{
    reveal(pair_covered);
    lemma_tables_lookup(l1, k);
    lemma_tables_lookup(l2t, k);
    lemma_tables_lookup(kept1, k);
    lemma_tables_lookup(kept2, k);
    lemma_tables_cmds_concat(kept2, new);
    crate::block::lemma_cmds_get_concat(
        crate::disk_level::tables_cmds(kept2),
        crate::disk_level::tables_cmds(new),
        k,
    );

    // a table holding the key has the key inside its range
    assert forall|t: Table| t.wf() && cmds_get(t.cmds(), k) is Some implies t.min_key <= k
        <= t.max_key by {
        lemma_cmds_get_membership(t.cmds(), k);
        let c = cmds_get(t.cmds(), k).unwrap();
        let m = choose|m: int| 0 <= m < t.cmds().len() && t.cmds()[m] == c;
        crate::disk_level::lemma_table_key_range(t);
    }

    // at most one source table and one destination table hold the key
    assert forall|i: int, j: int|
        0 <= i < l1.len() && 0 <= j < l1.len() && i != j && cmds_get(
            (#[trigger] l1[i]).cmds(),
            k,
        ) is Some implies cmds_get((#[trigger] l1[j]).cmds(), k) is None by {
        if cmds_get(l1[j].cmds(), k) is Some {
            if i < j {
                assert(l1[i].max_key < l1[j].min_key);
            } else {
                assert(l1[j].max_key < l1[i].min_key);
            }
        }
    }
    assert forall|i: int, j: int|
        0 <= i < l2t.len() && 0 <= j < l2t.len() && i != j && cmds_get(
            (#[trigger] l2t[i]).cmds(),
            k,
        ) is Some implies cmds_get((#[trigger] l2t[j]).cmds(), k) is None by {
        if cmds_get(l2t[j].cmds(), k) is Some {
            if i < j {
                assert(l2t[i].max_key < l2t[j].min_key);
            } else {
                assert(l2t[j].max_key < l2t[i].min_key);
            }
        }
    }

    match cmds_get(crate::disk_level::tables_cmds(l1), k) {
        Some(cs) => {
            let i = choose|i: int|
                0 <= i < l1.len() && #[trigger] cmds_get(l1[i].cmds(), k) == Some(cs);
            if in_src_group(gs, i) {
                let m = choose|m: int|
                    0 <= m < gs.len() && (#[trigger] gs[m]).tables1.0 <= i < gs[m].tables1.1;
                // nothing kept on either side still holds the key
                assert(cmds_get(crate::disk_level::tables_cmds(kept1), k) is None) by {
                    if cmds_get(crate::disk_level::tables_cmds(kept1), k) is Some {
                        let p = choose|p: int|
                            0 <= p < kept1.len() && #[trigger] cmds_get(kept1[p].cmds(), k)
                                is Some;
                        assert(kept1.contains(kept1[p]));
                        let j = choose|j: int|
                            0 <= j < l1.len() && !in_src_group(gs, j) && l1[j] == kept1[p];
                        assert(j != i);
                        assert(cmds_get(l1[j].cmds(), k) is None);
                    }
                }
                assert(cmds_get(crate::disk_level::tables_cmds(kept2), k) is None) by {
                    if cmds_get(crate::disk_level::tables_cmds(kept2), k) is Some {
                        let p = choose|p: int|
                            0 <= p < kept2.len() && #[trigger] cmds_get(kept2[p].cmds(), k)
                                is Some;
                        assert(kept2.contains(kept2[p]));
                        let j = choose|j: int|
                            0 <= j < l2t.len() && !in_dst_group(gs, j) && l2t[j] == kept2[p];
                        assert(ranges_overlap(l1[i], l2t[j]));
                        let g2 = choose|g: int|
                            0 <= g < gs.len() && (#[trigger] gs[g]).tables1.0 <= i
                                < gs[g].tables1.1 && gs[g].tables2.0 <= j < gs[g].tables2.1;
                        assert(in_dst_group(gs, j));
                    }
                }
                // the covering group answers the source command
                assert(group_get(l1, l2t, gs[m], k) == Some(cs)) by {
                    let src = group_src(l1, gs[m]);
                    assert(forall|p: int| 0 <= p < src.len() ==> src[p] == l1[p + gs[m].tables1.0]);
                    lemma_tables_lookup(src, k);
                    assert(src[i - gs[m].tables1.0] == l1[i]);
                    assert(cmds_get(src[i - gs[m].tables1.0].cmds(), k) == Some(cs));
                }
                assert forall|g: int| 0 <= g < gs.len() && g != m implies group_get(
                    l1,
                    l2t,
                    #[trigger] gs[g],
                    k,
                ) is None by {
                    let src = group_src(l1, gs[g]);
                    let dst = group_dst(l2t, gs[g]);
                    assert(forall|p: int| 0 <= p < src.len() ==> src[p] == l1[p + gs[g].tables1.0]);
                    assert(forall|p: int|
                        0 <= p < dst.len() ==> dst[p] == l2t[p + gs[g].tables2.0]);
                    lemma_tables_lookup(src, k);
                    lemma_tables_lookup(dst, k);
                    if cmds_get(crate::disk_level::tables_cmds(src), k) is Some {
                        let p = choose|p: int|
                            0 <= p < src.len() && #[trigger] cmds_get(src[p].cmds(), k) is Some;
                        assert(cmds_get(l1[p + gs[g].tables1.0].cmds(), k) is Some);
                        assert(p + gs[g].tables1.0 != i);
                    }
                    if cmds_get(crate::disk_level::tables_cmds(dst), k) is Some {
                        let p = choose|p: int|
                            0 <= p < dst.len() && #[trigger] cmds_get(dst[p].cmds(), k) is Some;
                        let j = p + gs[g].tables2.0;
                        assert(ranges_overlap(l1[i], l2t[j]));
                        let g2 = choose|g2: int|
                            0 <= g2 < gs.len() && (#[trigger] gs[g2]).tables1.0 <= i
                                < gs[g2].tables1.1 && gs[g2].tables2.0 <= j < gs[g2].tables2.1;
                        assert(g2 == m) by {
                            if g2 != m {
                                assert(gs[g2].tables1.1 <= gs[m].tables1.0 || gs[m].tables1.1
                                    <= gs[g2].tables1.0);
                            }
                        }
                        assert(g2 == g) by {
                            if g2 != g {
                                assert(gs[g2].tables2.1 <= gs[g].tables2.0 || gs[g].tables2.1
                                    <= gs[g2].tables2.0);
                            }
                        }
                    }
                }
                lemma_groups_get_unique(l1, l2t, gs, m, k);
            } else {
                // the holder stays in the source side
                assert(kept1.contains(l1[i]));
                let p = choose|p: int| 0 <= p < kept1.len() && kept1[p] == l1[i];
                assert(cmds_get(kept1[p].cmds(), k) == Some(cs));
            }
        }
        None => {
            assert(cmds_get(crate::disk_level::tables_cmds(kept1), k) is None) by {
                if cmds_get(crate::disk_level::tables_cmds(kept1), k) is Some {
                    let p = choose|p: int|
                        0 <= p < kept1.len() && #[trigger] cmds_get(kept1[p].cmds(), k) is Some;
                    assert(kept1.contains(kept1[p]));
                    let j = choose|j: int|
                        0 <= j < l1.len() && !in_src_group(gs, j) && l1[j] == kept1[p];
                    assert(cmds_get(l1[j].cmds(), k) is None);
                }
            }
            // no group's source slice holds the key
            assert forall|g: int| 0 <= g < gs.len() implies cmds_get(
                crate::disk_level::tables_cmds(group_src(l1, #[trigger] gs[g])),
                k,
            ) is None by {
                let src = group_src(l1, gs[g]);
                assert(forall|p: int| 0 <= p < src.len() ==> src[p] == l1[p + gs[g].tables1.0]);
                lemma_tables_lookup(src, k);
                if cmds_get(crate::disk_level::tables_cmds(src), k) is Some {
                    let p = choose|p: int|
                        0 <= p < src.len() && #[trigger] cmds_get(src[p].cmds(), k) is Some;
                    assert(cmds_get(l1[p + gs[g].tables1.0].cmds(), k) is Some);
                }
            }
            match cmds_get(crate::disk_level::tables_cmds(l2t), k) {
                Some(cd) => {
                    let j = choose|j: int|
                        0 <= j < l2t.len() && #[trigger] cmds_get(l2t[j].cmds(), k) == Some(cd);
                    if in_dst_group(gs, j) {
                        let m = choose|m: int|
                            0 <= m < gs.len() && (#[trigger] gs[m]).tables2.0 <= j
                                < gs[m].tables2.1;
                        assert(cmds_get(crate::disk_level::tables_cmds(kept2), k) is None) by {
                            if cmds_get(crate::disk_level::tables_cmds(kept2), k) is Some {
                                let p = choose|p: int|
                                    0 <= p < kept2.len() && #[trigger] cmds_get(
                                        kept2[p].cmds(),
                                        k,
                                    ) is Some;
                                assert(kept2.contains(kept2[p]));
                                let j2 = choose|j2: int|
                                    0 <= j2 < l2t.len() && !in_dst_group(gs, j2) && l2t[j2]
                                        == kept2[p];
                                assert(j2 != j);
                                assert(cmds_get(l2t[j2].cmds(), k) is None);
                            }
                        }
                        assert(group_get(l1, l2t, gs[m], k) == Some(cd)) by {
                            let dst = group_dst(l2t, gs[m]);
                            assert(forall|p: int|
                                0 <= p < dst.len() ==> dst[p] == l2t[p + gs[m].tables2.0]);
                            lemma_tables_lookup(dst, k);
                            assert(dst[j - gs[m].tables2.0] == l2t[j]);
                            assert(cmds_get(dst[j - gs[m].tables2.0].cmds(), k) == Some(cd));
                        }
                        assert forall|g: int| 0 <= g < gs.len() && g != m implies group_get(
                            l1,
                            l2t,
                            #[trigger] gs[g],
                            k,
                        ) is None by {
                            let dst = group_dst(l2t, gs[g]);
                            assert(forall|p: int|
                                0 <= p < dst.len() ==> dst[p] == l2t[p + gs[g].tables2.0]);
                            lemma_tables_lookup(dst, k);
                            if cmds_get(crate::disk_level::tables_cmds(dst), k) is Some {
                                let p = choose|p: int|
                                    0 <= p < dst.len() && #[trigger] cmds_get(dst[p].cmds(), k)
                                        is Some;
                                assert(cmds_get(l2t[p + gs[g].tables2.0].cmds(), k) is Some);
                                assert(p + gs[g].tables2.0 == j);
                                assert(gs[g].tables2.1 <= gs[m].tables2.0 || gs[m].tables2.1
                                    <= gs[g].tables2.0);
                            }
                        }
                        lemma_groups_get_unique(l1, l2t, gs, m, k);
                    } else {
                        assert(kept2.contains(l2t[j]));
                        let p = choose|p: int| 0 <= p < kept2.len() && kept2[p] == l2t[j];
                        assert(cmds_get(kept2[p].cmds(), k) == Some(cd));
                    }
                }
                None => {
                    assert(cmds_get(crate::disk_level::tables_cmds(kept2), k) is None) by {
                        if cmds_get(crate::disk_level::tables_cmds(kept2), k) is Some {
                            let p = choose|p: int|
                                0 <= p < kept2.len() && #[trigger] cmds_get(kept2[p].cmds(), k)
                                    is Some;
                            assert(kept2.contains(kept2[p]));
                            let j2 = choose|j2: int|
                                0 <= j2 < l2t.len() && !in_dst_group(gs, j2) && l2t[j2]
                                    == kept2[p];
                            assert(cmds_get(l2t[j2].cmds(), k) is None);
                        }
                    }
                    assert forall|g: int| 0 <= g < gs.len() implies group_get(
                        l1,
                        l2t,
                        #[trigger] gs[g],
                        k,
                    ) is None by {
                        let dst = group_dst(l2t, gs[g]);
                        assert(forall|p: int|
                            0 <= p < dst.len() ==> dst[p] == l2t[p + gs[g].tables2.0]);
                        lemma_tables_lookup(dst, k);
                        if cmds_get(crate::disk_level::tables_cmds(dst), k) is Some {
                            let p = choose|p: int|
                                0 <= p < dst.len() && #[trigger] cmds_get(dst[p].cmds(), k)
                                    is Some;
                            assert(cmds_get(l2t[p + gs[g].tables2.0].cmds(), k) is Some);
                        }
                    }
                    lemma_groups_get_none(l1, l2t, gs, k);
                }
            }
        }
    }
}

/// Empties `v` and hands back the tables at indices no group consumes,
/// in their original ascending order.
#[verifier::loop_isolation(false)]
fn take_kept_dst(v: &mut Vec<Table>, gs: &Vec<IntersectionGroup>) -> (r: Vec<Table>)
    requires
        forall|i: int| 0 <= i < old(v)@.len() ==> (#[trigger] old(v)@[i]).wf(),
        forall|i: int, j: int|
            0 <= i < j < old(v)@.len() ==> (#[trigger] old(v)@[i]).max_key < (
            #[trigger] old(v)@[j]).min_key,
    ensures
        final(v)@.len() == 0,
        r@.len() <= old(v)@.len(),
        forall|i: int| 0 <= i < r@.len() ==> (#[trigger] r@[i]).wf(),
        forall|i: int, j: int|
            0 <= i < j < r@.len() ==> (#[trigger] r@[i]).max_key < (#[trigger] r@[j]).min_key,
        forall|x: Table|
            #[trigger] r@.contains(x) <==> exists|j: int|
                0 <= j < old(v)@.len() && !in_dst_group(gs@, j) && old(v)@[j] == x,
{
    let ghost orig = v@;
    let mut kept_rev: Vec<Table> = Vec::new();
    while v.len() > 0
        invariant
            v@ == orig.take(v@.len() as int),
            kept_rev@.len() + v@.len() <= orig.len(),
            forall|p: int| 0 <= p < kept_rev@.len() ==> (#[trigger] kept_rev@[p]).wf(),
            forall|p: int, q: int|
                0 <= p < q < kept_rev@.len() ==> (#[trigger] kept_rev@[q]).max_key < (
                #[trigger] kept_rev@[p]).min_key,
            forall|x: Table|
                #[trigger] kept_rev@.contains(x) <==> exists|jj: int|
                    v@.len() <= jj < orig.len() && !in_dst_group(gs@, jj) && orig[jj] == x,
        decreases v@.len(),
    {
        let j = v.len() - 1;
        let t = match v.pop() {
            Some(t) => t,
            None => unreached(),
        };
        proof {
            assert(t == orig[j as int]);
            assert(v@ =~= orig.take(j as int));
        }
        if !idx_in_dst_group(gs, j) {
            let ghost pre = kept_rev@;
            kept_rev.push(t);
            proof {
                assert forall|p: int, q: int|
                    0 <= p < q < kept_rev@.len() implies (#[trigger] kept_rev@[q]).max_key < (
                #[trigger] kept_rev@[p]).min_key by {
                    if q == kept_rev@.len() - 1 {
                        assert(pre.contains(pre[p]));
                        let jj = choose|jj: int|
                            j + 1 <= jj < orig.len() && !in_dst_group(gs@, jj) && orig[jj]
                                == pre[p];
                        assert(orig[j as int].max_key < orig[jj].min_key);
                    }
                }
                assert forall|x: Table|
                    #[trigger] kept_rev@.contains(x) <==> (exists|jj: int|
                        j <= jj < orig.len() && !in_dst_group(gs@, jj) && orig[jj] == x) by {
                    if kept_rev@.contains(x) {
                        let p = choose|p: int| 0 <= p < kept_rev@.len() && kept_rev@[p] == x;
                        if p < pre.len() {
                            assert(pre.contains(x));
                        }
                    }
                    if exists|jj: int|
                        j <= jj < orig.len() && !in_dst_group(gs@, jj) && orig[jj] == x {
                        let jj = choose|jj: int|
                            j <= jj < orig.len() && !in_dst_group(gs@, jj) && orig[jj] == x;
                        if jj > j {
                            assert(pre.contains(x));
                            let p = choose|p: int| 0 <= p < pre.len() && pre[p] == x;
                            assert(kept_rev@[p] == x);
                        } else {
                            assert(kept_rev@[kept_rev@.len() - 1] == x);
                        }
                    }
                }
            }
        } else {
            proof {
                assert forall|x: Table|
                    #[trigger] kept_rev@.contains(x) <==> (exists|jj: int|
                        j <= jj < orig.len() && !in_dst_group(gs@, jj) && orig[jj] == x) by {
                    if exists|jj: int|
                        j <= jj < orig.len() && !in_dst_group(gs@, jj) && orig[jj] == x {
                        let jj = choose|jj: int|
                            j <= jj < orig.len() && !in_dst_group(gs@, jj) && orig[jj] == x;
                        assert(jj > j);
                    }
                }
            }
        }
    }
    // reverse into ascending order
    let mut r: Vec<Table> = Vec::new();
    while kept_rev.len() > 0
        invariant
            r@.len() + kept_rev@.len() <= orig.len(),
            forall|p: int| 0 <= p < r@.len() ==> (#[trigger] r@[p]).wf(),
            forall|p: int| 0 <= p < kept_rev@.len() ==> (#[trigger] kept_rev@[p]).wf(),
            forall|p: int, q: int|
                0 <= p < q < r@.len() ==> (#[trigger] r@[p]).max_key < (#[trigger] r@[q]).min_key,
            forall|p: int, q: int|
                0 <= p < q < kept_rev@.len() ==> (#[trigger] kept_rev@[q]).max_key < (
                #[trigger] kept_rev@[p]).min_key,
            forall|p: int, q: int|
                0 <= p < r@.len() && 0 <= q < kept_rev@.len() ==> (#[trigger] r@[p]).max_key < (
                #[trigger] kept_rev@[q]).min_key,
            forall|x: Table|
                (r@.contains(x) || kept_rev@.contains(x)) <==> (exists|jj: int|
                    0 <= jj < orig.len() && !in_dst_group(gs@, jj) && #[trigger] orig[jj] == x),
        decreases kept_rev@.len(),
    {
        let ghost pre_rev = kept_rev@;
        let ghost pre_r = r@;
        let t = match kept_rev.pop() {
            Some(t) => t,
            None => unreached(),
        };
        r.push(t);
        proof {
            assert(kept_rev@ =~= pre_rev.drop_last());
            assert(t == pre_rev.last());
            assert forall|x: Table|
                (r@.contains(x) || kept_rev@.contains(x)) <==> (exists|jj: int|
                    0 <= jj < orig.len() && !in_dst_group(gs@, jj) && #[trigger] orig[jj]
                        == x) by {
                if r@.contains(x) {
                    let p = choose|p: int| 0 <= p < r@.len() && r@[p] == x;
                    if p < pre_r.len() {
                        assert(pre_r.contains(x));
                    } else {
                        assert(pre_rev.contains(x)) by {
                            assert(pre_rev[pre_rev.len() - 1] == x);
                        }
                    }
                }
                if kept_rev@.contains(x) {
                    let p = choose|p: int| 0 <= p < kept_rev@.len() && kept_rev@[p] == x;
                    assert(pre_rev[p] == x);
                    assert(pre_rev.contains(x));
                }
                if exists|jj: int|
                    0 <= jj < orig.len() && !in_dst_group(gs@, jj) && orig[jj] == x {
                    if pre_r.contains(x) {
                        let p = choose|p: int| 0 <= p < pre_r.len() && pre_r[p] == x;
                        assert(r@[p] == x);
                    } else {
                        assert(pre_rev.contains(x));
                        let p = choose|p: int| 0 <= p < pre_rev.len() && pre_rev[p] == x;
                        if p < pre_rev.len() - 1 {
                            assert(kept_rev@[p] == x);
                        } else {
                            assert(r@[r@.len() - 1] == x);
                        }
                    }
                }
            }
        }
    }
    proof {
        assert(kept_rev@.len() == 0);
        assert forall|x: Table|
            #[trigger] r@.contains(x) <==> (exists|jj: int|
                0 <= jj < orig.len() && !in_dst_group(gs@, jj) && orig[jj] == x) by {
            if kept_rev@.contains(x) {
                assert(false);
            }
        }
    }
    r
}

/// Empties `v` and hands back the tables at indices no group consumes,
/// in their original ascending order (source side).
#[verifier::loop_isolation(false)]
fn take_kept_src(v: &mut Vec<Table>, gs: &Vec<IntersectionGroup>) -> (r: Vec<Table>)
    requires
        forall|i: int| 0 <= i < old(v)@.len() ==> (#[trigger] old(v)@[i]).wf(),
        forall|i: int, j: int|
            0 <= i < j < old(v)@.len() ==> (#[trigger] old(v)@[i]).max_key < (
            #[trigger] old(v)@[j]).min_key,
    ensures
        final(v)@.len() == 0,
        r@.len() <= old(v)@.len(),
        forall|i: int| 0 <= i < r@.len() ==> (#[trigger] r@[i]).wf(),
        forall|i: int, j: int|
            0 <= i < j < r@.len() ==> (#[trigger] r@[i]).max_key < (#[trigger] r@[j]).min_key,
        forall|x: Table|
            #[trigger] r@.contains(x) <==> exists|j: int|
                0 <= j < old(v)@.len() && !in_src_group(gs@, j) && old(v)@[j] == x,
{
    let ghost orig = v@;
    let mut kept_rev: Vec<Table> = Vec::new();
    while v.len() > 0
        invariant
            v@ == orig.take(v@.len() as int),
            kept_rev@.len() + v@.len() <= orig.len(),
            forall|p: int| 0 <= p < kept_rev@.len() ==> (#[trigger] kept_rev@[p]).wf(),
            forall|p: int, q: int|
                0 <= p < q < kept_rev@.len() ==> (#[trigger] kept_rev@[q]).max_key < (
                #[trigger] kept_rev@[p]).min_key,
            forall|x: Table|
                #[trigger] kept_rev@.contains(x) <==> exists|jj: int|
                    v@.len() <= jj < orig.len() && !in_src_group(gs@, jj) && orig[jj] == x,
        decreases v@.len(),
    {
        let j = v.len() - 1;
        let t = match v.pop() {
            Some(t) => t,
            None => unreached(),
        };
        proof {
            assert(t == orig[j as int]);
            assert(v@ =~= orig.take(j as int));
        }
        if !idx_in_src_group(gs, j) {
            let ghost pre = kept_rev@;
            kept_rev.push(t);
            proof {
                assert forall|p: int, q: int|
                    0 <= p < q < kept_rev@.len() implies (#[trigger] kept_rev@[q]).max_key < (
                #[trigger] kept_rev@[p]).min_key by {
                    if q == kept_rev@.len() - 1 {
                        assert(pre.contains(pre[p]));
                        let jj = choose|jj: int|
                            j + 1 <= jj < orig.len() && !in_src_group(gs@, jj) && orig[jj]
                                == pre[p];
                        assert(orig[j as int].max_key < orig[jj].min_key);
                    }
                }
                assert forall|x: Table|
                    #[trigger] kept_rev@.contains(x) <==> (exists|jj: int|
                        j <= jj < orig.len() && !in_src_group(gs@, jj) && orig[jj] == x) by {
                    if kept_rev@.contains(x) {
                        let p = choose|p: int| 0 <= p < kept_rev@.len() && kept_rev@[p] == x;
                        if p < pre.len() {
                            assert(pre.contains(x));
                        }
                    }
                    if exists|jj: int|
                        j <= jj < orig.len() && !in_src_group(gs@, jj) && orig[jj] == x {
                        let jj = choose|jj: int|
                            j <= jj < orig.len() && !in_src_group(gs@, jj) && orig[jj] == x;
                        if jj > j {
                            assert(pre.contains(x));
                            let p = choose|p: int| 0 <= p < pre.len() && pre[p] == x;
                            assert(kept_rev@[p] == x);
                        } else {
                            assert(kept_rev@[kept_rev@.len() - 1] == x);
                        }
                    }
                }
            }
        } else {
            proof {
                assert forall|x: Table|
                    #[trigger] kept_rev@.contains(x) <==> (exists|jj: int|
                        j <= jj < orig.len() && !in_src_group(gs@, jj) && orig[jj] == x) by {
                    if exists|jj: int|
                        j <= jj < orig.len() && !in_src_group(gs@, jj) && orig[jj] == x {
                        let jj = choose|jj: int|
                            j <= jj < orig.len() && !in_src_group(gs@, jj) && orig[jj] == x;
                        assert(jj > j);
                    }
                }
            }
        }
    }
    let mut r: Vec<Table> = Vec::new();
    while kept_rev.len() > 0
        invariant
            r@.len() + kept_rev@.len() <= orig.len(),
            forall|p: int| 0 <= p < r@.len() ==> (#[trigger] r@[p]).wf(),
            forall|p: int| 0 <= p < kept_rev@.len() ==> (#[trigger] kept_rev@[p]).wf(),
            forall|p: int, q: int|
                0 <= p < q < r@.len() ==> (#[trigger] r@[p]).max_key < (#[trigger] r@[q]).min_key,
            forall|p: int, q: int|
                0 <= p < q < kept_rev@.len() ==> (#[trigger] kept_rev@[q]).max_key < (
                #[trigger] kept_rev@[p]).min_key,
            forall|p: int, q: int|
                0 <= p < r@.len() && 0 <= q < kept_rev@.len() ==> (#[trigger] r@[p]).max_key < (
                #[trigger] kept_rev@[q]).min_key,
            forall|x: Table|
                (r@.contains(x) || kept_rev@.contains(x)) <==> (exists|jj: int|
                    0 <= jj < orig.len() && !in_src_group(gs@, jj) && #[trigger] orig[jj] == x),
        decreases kept_rev@.len(),
    {
        let ghost pre_rev = kept_rev@;
        let ghost pre_r = r@;
        let t = match kept_rev.pop() {
            Some(t) => t,
            None => unreached(),
        };
        r.push(t);
        proof {
            assert(kept_rev@ =~= pre_rev.drop_last());
            assert(t == pre_rev.last());
            assert forall|x: Table|
                (r@.contains(x) || kept_rev@.contains(x)) <==> (exists|jj: int|
                    0 <= jj < orig.len() && !in_src_group(gs@, jj) && #[trigger] orig[jj]
                        == x) by {
                if r@.contains(x) {
                    let p = choose|p: int| 0 <= p < r@.len() && r@[p] == x;
                    if p < pre_r.len() {
                        assert(pre_r.contains(x));
                    } else {
                        assert(pre_rev.contains(x)) by {
                            assert(pre_rev[pre_rev.len() - 1] == x);
                        }
                    }
                }
                if kept_rev@.contains(x) {
                    let p = choose|p: int| 0 <= p < kept_rev@.len() && kept_rev@[p] == x;
                    assert(pre_rev[p] == x);
                    assert(pre_rev.contains(x));
                }
                if exists|jj: int|
                    0 <= jj < orig.len() && !in_src_group(gs@, jj) && orig[jj] == x {
                    if pre_r.contains(x) {
                        let p = choose|p: int| 0 <= p < pre_r.len() && pre_r[p] == x;
                        assert(r@[p] == x);
                    } else {
                        assert(pre_rev.contains(x));
                        let p = choose|p: int| 0 <= p < pre_rev.len() && pre_rev[p] == x;
                        if p < pre_rev.len() - 1 {
                            assert(kept_rev@[p] == x);
                        } else {
                            assert(r@[r@.len() - 1] == x);
                        }
                    }
                }
            }
        }
    }
    proof {
        assert(kept_rev@.len() == 0);
        assert forall|x: Table|
            #[trigger] r@.contains(x) <==> (exists|jj: int|
                0 <= jj < orig.len() && !in_src_group(gs@, jj) && orig[jj] == x) by {
            if kept_rev@.contains(x) {
                assert(false);
            }
        }
    }
    r
}

/// No group's key span reaches into a source table it does not
/// consume.
/// Source tables no group consumes overlap no destination table.
#[verifier::opaque]
pub open spec fn free_sources_clear(l1: Seq<Table>, l2t: Seq<Table>, gs: Seq<IntersectionGroup>) -> bool {
    forall|i: int, j: int|
        0 <= i < l1.len() && !in_src_group(gs, i) && 0 <= j < l2t.len() ==> !ranges_overlap(
            #[trigger] l1[i],
            #[trigger] l2t[j],
        )
}

#[verifier::opaque]
pub open spec fn spans_avoid_free(l1: Seq<Table>, l2t: Seq<Table>, gs: Seq<IntersectionGroup>) -> bool {
    forall|g: int, i: int|
        0 <= g < gs.len() && 0 <= i < l1.len() && !in_src_group(gs, i) ==> (span_max(
            l1,
            l2t,
            #[trigger] gs[g],
        ) < (#[trigger] l1[i]).min_key || l1[i].max_key < span_min(l1, l2t, gs[g]))
}

/// Everything the apply step needs follows from what intersection
/// analysis guarantees: every overlapping pair is consumed by one
/// group, and the groups' key spans stay clear of every table outside
/// them.
#[verifier::rlimit(100)]
proof fn lemma_analysis_covers(l1: Seq<Table>, l2t: Seq<Table>, gs: Seq<IntersectionGroup>)
    requires
        forall|i: int| 0 <= i < l1.len() ==> (#[trigger] l1[i]).min_key <= l1[i].max_key,
        forall|i: int, j: int|
            0 <= i < j < l1.len() ==> (#[trigger] l1[i]).max_key < (#[trigger] l1[j]).min_key,
        forall|i: int| 0 <= i < l2t.len() ==> (#[trigger] l2t[i]).min_key <= l2t[i].max_key,
        forall|i: int, j: int|
            0 <= i < j < l2t.len() ==> (#[trigger] l2t[i]).max_key < (#[trigger] l2t[j]).min_key,
        analysis_sound(l1, l2t, gs),
    ensures
        pair_covered(l1, l2t, gs),
        spans_ok(l1, l2t, gs),
        spans_avoid_free(l1, l2t, gs),
        free_sources_clear(l1, l2t, gs),
{
    reveal(analysis_sound);
    reveal(pair_covered);
    reveal(spans_ok);
    reveal(spans_avoid_free);
    reveal(free_sources_clear);
    // every overlapping pair is consumed together
    assert forall|i: int, j: int|
        0 <= i < l1.len() && 0 <= j < l2t.len() && ranges_overlap(l1[i], l2t[j]) implies exists|
        g: int,
    |
        0 <= g < gs.len() && (#[trigger] gs[g]).tables1.0 <= i < gs[g].tables1.1
            && gs[g].tables2.0 <= j < gs[g].tables2.1 by {
        assert(in_src_group(gs, i));
        let g = choose|g: int|
            0 <= g < gs.len() && (#[trigger] gs[g]).tables1.0 <= i < gs[g].tables1.1;
        if j < gs[g].tables2.0 {
            assert(l1[i].min_key > l2t[j].max_key);
            assert(false);
        }
        if j >= gs[g].tables2.1 {
            assert(l1[i].max_key < l2t[gs[g].tables2.1 as int].min_key);
            assert(l2t[gs[g].tables2.1 as int].min_key <= l2t[j].min_key) by {
                if gs[g].tables2.1 < j {
                    assert(l2t[gs[g].tables2.1 as int].max_key < l2t[j].min_key);
                }
            }
            assert(false);
        }
        assert((#[trigger] gs[g]).tables2.0 <= j < gs[g].tables2.1);
    }

    // the spans stay clear of unconsumed destinations
    assert forall|g: int, j: int|
        0 <= g < gs.len() && 0 <= j < l2t.len() && !((#[trigger] gs[g]).tables2.0 <= j
            < gs[g].tables2.1) implies (span_max(l1, l2t, gs[g]) < (#[trigger] l2t[j]).min_key
        || l2t[j].max_key < span_min(l1, l2t, gs[g])) by {
        let s0 = gs[g].tables1.0 as int;
        let s1 = gs[g].tables1.1 as int;
        let d0 = gs[g].tables2.0 as int;
        let d1 = gs[g].tables2.1 as int;
        if j < d0 {
            assert(l1[s0].min_key > l2t[j].max_key);
            assert(l2t[j].max_key < l2t[d0].min_key);
        } else {
            assert(d1 <= j < l2t.len());
            assert(l1[s1 - 1].max_key < l2t[d1].min_key);
            assert(l2t[d1].min_key <= l2t[j].min_key) by {
                if d1 < j {
                    assert(l2t[d1].max_key < l2t[j].min_key);
                }
            }
            assert(l2t[d1 - 1].max_key < l2t[d1].min_key);
        }
    }

    // the spans are pairwise disjoint
    assert forall|g: int, h: int|
        0 <= g < gs.len() && 0 <= h < gs.len() && g != h implies (span_max(
            l1,
            l2t,
            (#[trigger] gs[g]),
        ) < span_min(l1, l2t, (#[trigger] gs[h])) || span_max(l1, l2t, gs[h]) < span_min(
            l1,
            l2t,
            gs[g],
        )) by {
        if g < h {
            lemma_span_below(l1, l2t, gs, g, h);
        } else {
            lemma_span_below(l1, l2t, gs, h, g);
        }
    }

    // the spans stay clear of unconsumed sources
    assert forall|g: int, i: int|
        0 <= g < gs.len() && 0 <= i < l1.len() && !in_src_group(gs, i) implies (span_max(
            l1,
            l2t,
            #[trigger] gs[g],
        ) < (#[trigger] l1[i]).min_key || l1[i].max_key < span_min(l1, l2t, gs[g])) by {
        let s0 = gs[g].tables1.0 as int;
        let s1 = gs[g].tables1.1 as int;
        let d0 = gs[g].tables2.0 as int;
        let d1 = gs[g].tables2.1 as int;
        assert(!ranges_overlap(l1[i], l2t[d0]));
        assert(!ranges_overlap(l1[i], l2t[d1 - 1]));
        if i < s0 {
            assert(l1[i].max_key < l1[s0].min_key);
            // below the opening destination too, since the opening
            // source overlaps it
            assert(ranges_overlap(l1[s0], l2t[d0]));
            if l2t[d0].max_key < l1[i].min_key {
                assert(l1[s0].min_key <= l2t[d0].max_key);
                assert(false);
            }
            assert(l1[i].max_key < l2t[d0].min_key);
        } else {
            assert(s1 <= i);
            assert(l1[s1 - 1].max_key < l1[i].min_key);
            // above the closing destination too, since it is anchored
            // at or below the group's last source
            assert(l2t[d1 - 1].min_key <= l1[s1 - 1].max_key);
            if l1[i].max_key < l2t[d1 - 1].min_key {
                assert(false);
            }
            assert(l2t[d1 - 1].max_key < l1[i].min_key);
        }
    }
}

/// An earlier group's span ends strictly below a later group's.
#[verifier::rlimit(100)]
proof fn lemma_span_below(
    l1: Seq<Table>,
    l2t: Seq<Table>,
    gs: Seq<IntersectionGroup>,
    g: int,
    h: int,
)
    requires
        forall|i: int| 0 <= i < l1.len() ==> (#[trigger] l1[i]).min_key <= l1[i].max_key,
        forall|i: int, j: int|
            0 <= i < j < l1.len() ==> (#[trigger] l1[i]).max_key < (#[trigger] l1[j]).min_key,
        forall|i: int| 0 <= i < l2t.len() ==> (#[trigger] l2t[i]).min_key <= l2t[i].max_key,
        forall|i: int, j: int|
            0 <= i < j < l2t.len() ==> (#[trigger] l2t[i]).max_key < (#[trigger] l2t[j]).min_key,
        analysis_sound(l1, l2t, gs),
        0 <= g < h < gs.len(),
    ensures
        span_max(l1, l2t, gs[g]) < span_min(l1, l2t, gs[h]),
{
    reveal(analysis_sound);
    let s1g = gs[g].tables1.1 as int;
    let d1g = gs[g].tables2.1 as int;
    let s0h = gs[h].tables1.0 as int;
    let d0h = gs[h].tables2.0 as int;
    assert(gs[g].tables1.1 <= gs[h].tables1.0 && gs[g].tables2.1 <= gs[h].tables2.0);
    assert(d1g <= d0h < l2t.len());
    // both components of the earlier span end below both components of
    // the later span's start
    assert(l1[s1g - 1].max_key < l2t[d1g].min_key);
    assert(l2t[d1g].min_key <= l2t[d0h].min_key) by {
        if d1g < d0h {
            assert(l2t[d1g].max_key < l2t[d0h].min_key);
        }
    }
    assert(l1[s1g - 1].max_key < l1[s0h].min_key);
    assert(l2t[d1g - 1].max_key < l2t[d0h].min_key) by {
        assert(l2t[d1g - 1].max_key < l2t[d1g].min_key);
    }
    assert(l1[s0h].min_key > l2t[d1g - 1].max_key) by {
        assert(d1g - 1 < d0h);
    }
}

/// The groups' spans are ordered like the groups, and every consumed
/// table's range lies inside its group's span.
proof fn lemma_span_facts(l1: Seq<Table>, l2t: Seq<Table>, gs: Seq<IntersectionGroup>)
    requires
        forall|i: int| 0 <= i < l1.len() ==> (#[trigger] l1[i]).wf(),
        forall|i: int, j: int|
            0 <= i < j < l1.len() ==> (#[trigger] l1[i]).max_key < (#[trigger] l1[j]).min_key,
        forall|i: int| 0 <= i < l2t.len() ==> (#[trigger] l2t[i]).wf(),
        forall|i: int, j: int|
            0 <= i < j < l2t.len() ==> (#[trigger] l2t[i]).max_key < (#[trigger] l2t[j]).min_key,
        groups_wf(gs, l1.len() as int, l2t.len() as int),
        spans_ok(l1, l2t, gs),
    ensures
        forall|g: int, h: int|
            0 <= g < h < gs.len() ==> span_max(l1, l2t, #[trigger] gs[g]) < span_min(
                l1,
                l2t,
                #[trigger] gs[h],
            ),
        forall|g: int, idx: int|
            0 <= g < gs.len() && gs[g].tables1.0 <= idx < gs[g].tables1.1 ==> span_min(
                l1,
                l2t,
                #[trigger] gs[g],
            ) <= (#[trigger] l1[idx]).min_key && l1[idx].max_key <= span_max(l1, l2t, gs[g]),
        forall|g: int, idx: int|
            0 <= g < gs.len() && gs[g].tables2.0 <= idx < gs[g].tables2.1 ==> span_min(
                l1,
                l2t,
                #[trigger] gs[g],
            ) <= (#[trigger] l2t[idx]).min_key && l2t[idx].max_key <= span_max(l1, l2t, gs[g]),
{
    assert forall|g: int, h: int| 0 <= g < h < gs.len() implies span_max(
        l1,
        l2t,
        #[trigger] gs[g],
    ) < span_min(l1, l2t, #[trigger] gs[h]) by {
        reveal(spans_ok);
        let d0g = gs[g].tables2.0 as int;
        let d0h = gs[h].tables2.0 as int;
        let d1h = gs[h].tables2.1 as int;
        assert(l2t[d0g].max_key < l2t[d0h].min_key);
        if d0h < d1h - 1 {
            assert(l2t[d0h].max_key < l2t[d1h - 1].min_key);
        }
        assert(l2t[d0h].min_key <= span_max(l1, l2t, gs[h]));
        if !(span_max(l1, l2t, gs[g]) < span_min(l1, l2t, gs[h])) {
            assert(span_max(l1, l2t, gs[h]) < span_min(l1, l2t, gs[g]));
            assert(span_min(l1, l2t, gs[g]) <= l2t[d0g].min_key);
            assert(false);
        }
    }
    assert forall|g: int, idx: int|
        0 <= g < gs.len() && gs[g].tables1.0 <= idx < gs[g].tables1.1 implies span_min(
        l1,
        l2t,
        #[trigger] gs[g],
    ) <= (#[trigger] l1[idx]).min_key && l1[idx].max_key <= span_max(l1, l2t, gs[g]) by {
        if gs[g].tables1.0 < idx {
            assert(l1[gs[g].tables1.0 as int].max_key < l1[idx].min_key);
        }
        if idx < gs[g].tables1.1 - 1 {
            assert(l1[idx].max_key < l1[gs[g].tables1.1 - 1].min_key);
        }
    }
    assert forall|g: int, idx: int|
        0 <= g < gs.len() && gs[g].tables2.0 <= idx < gs[g].tables2.1 implies span_min(
        l1,
        l2t,
        #[trigger] gs[g],
    ) <= (#[trigger] l2t[idx]).min_key && l2t[idx].max_key <= span_max(l1, l2t, gs[g]) by {
        if gs[g].tables2.0 < idx {
            assert(l2t[gs[g].tables2.0 as int].max_key < l2t[idx].min_key);
        }
        if idx < gs[g].tables2.1 - 1 {
            assert(l2t[idx].max_key < l2t[gs[g].tables2.1 - 1].min_key);
        }
    }
}

/// Builds the merged tables of every group, in group order, into
/// `directory`.
#[verifier::loop_isolation(false)]
#[verifier::rlimit(100)]
fn build_group_tables(
    l1: &Vec<Table>,
    l2t: &Vec<Table>,
    gs: &Vec<IntersectionGroup>,
    directory: &str,
) -> (r: Vec<Table>)
    requires
        forall|i: int| 0 <= i < l1@.len() ==> (#[trigger] l1@[i]).wf(),
        forall|i: int, j: int|
            0 <= i < j < l1@.len() ==> (#[trigger] l1@[i]).max_key < (#[trigger] l1@[j]).min_key,
        forall|i: int| 0 <= i < l2t@.len() ==> (#[trigger] l2t@[i]).wf(),
        forall|i: int, j: int|
            0 <= i < j < l2t@.len() ==> (#[trigger] l2t@[i]).max_key < (
            #[trigger] l2t@[j]).min_key,
        groups_wf(gs@, l1@.len() as int, l2t@.len() as int),
        spans_ok(l1@, l2t@, gs@),
    ensures
        forall|x: int| 0 <= x < r@.len() ==> (#[trigger] r@[x]).wf(),
        forall|x: int| 0 <= x < r@.len() ==> (#[trigger] r@[x]).directory@ == directory@,
        forall|x: int, y: int|
            0 <= x < y < r@.len() ==> (#[trigger] r@[x]).max_key < (#[trigger] r@[y]).min_key,
        forall|x: int|
            0 <= x < r@.len() ==> exists|g: int|
                0 <= g < gs@.len() && span_min(l1@, l2t@, #[trigger] gs@[g]) <= (
                #[trigger] r@[x]).min_key && r@[x].max_key <= span_max(l1@, l2t@, gs@[g]),
        forall|k: i32|
            #[trigger] cmds_get(crate::disk_level::tables_cmds(r@), k) == groups_get(
                l1@,
                l2t@,
                gs@,
                k,
            ),
{
    let ghost big_l1 = l1@;
    let ghost big_l2t = l2t@;

    proof {
        lemma_span_facts(big_l1, big_l2t, gs@);
    }

    // read every group and build its merged tables
    let mut new_tables: Vec<Table> = Vec::new();
    let mut gi: usize = 0;
    proof {
        assert(crate::disk_level::tables_cmds(new_tables@) =~= Seq::<Command>::empty());
        assert(gs@.take(0) =~= Seq::<IntersectionGroup>::empty());
    }
    while gi < gs.len()
        invariant
            gi <= gs@.len(),
            l1@ == big_l1,
            true,
            forall|x: int|
                0 <= x < new_tables@.len() ==> (#[trigger] new_tables@[x]).wf()
                    && new_tables@[x].directory@ == directory@,
            forall|x: int, y: int|
                0 <= x < y < new_tables@.len() ==> (#[trigger] new_tables@[x]).max_key < (
                #[trigger] new_tables@[y]).min_key,
            forall|x: int|
                0 <= x < new_tables@.len() ==> exists|g: int|
                    0 <= g < gi && span_min(big_l1, big_l2t, #[trigger] gs@[g]) <= (
                    #[trigger] new_tables@[x]).min_key && new_tables@[x].max_key <= span_max(
                        big_l1,
                        big_l2t,
                        gs@[g],
                    ),
            forall|k: i32|
                #[trigger] cmds_get(crate::disk_level::tables_cmds(new_tables@), k)
                    == groups_get(big_l1, big_l2t, gs@.take(gi as int), k),
        decreases gs@.len() - gi,
    {
        let g = gs[gi];
        let ghost src_slice = group_src(big_l1, gs@[gi as int]);
        let ghost dst_slice = group_dst(big_l2t, gs@[gi as int]);
        proof {
            assert(forall|p: int|
                0 <= p < src_slice.len() ==> src_slice[p] == big_l1[p + gs@[gi as int].tables1.0]);
            assert(forall|p: int|
                0 <= p < dst_slice.len() ==> dst_slice[p] == big_l2t[p + gs@[gi as int].tables2.0]);
            crate::disk_level::lemma_tables_sorted_compose(src_slice);
            crate::disk_level::lemma_tables_sorted_compose(dst_slice);
            crate::disk_level::lemma_tables_cmds_membership(src_slice);
            crate::disk_level::lemma_tables_cmds_membership(dst_slice);
        }
        let src = collect_cmds_range(l1, g.tables1.0, g.tables1.1);
        let dst = collect_cmds_range(l2t, g.tables2.0, g.tables2.1);
        let merged = merge_sorted_commands(&src, &dst);
        proof {
            lemma_merge_spec_props(src@, dst@);
        }
        let mut built = build_tables(&merged, directory);
        let ghost built_seq = built@;
        proof {
            crate::disk_level::lemma_tables_cmds_membership(built_seq);
            // every key the group's merge can produce lies in its span
            assert forall|m: int| 0 <= m < merged@.len() implies span_min(
                big_l1,
                big_l2t,
                gs@[gi as int],
            ) <= key_of(#[trigger] merged@[m]) && key_of(merged@[m]) <= span_max(
                big_l1,
                big_l2t,
                gs@[gi as int],
            ) by {
                assert forall|p: int| 0 <= p < src@.len() implies span_min(
                    big_l1,
                    big_l2t,
                    gs@[gi as int],
                ) <= key_of(#[trigger] src@[p]) && key_of(src@[p]) <= span_max(
                    big_l1,
                    big_l2t,
                    gs@[gi as int],
                ) by {
                    assert(src@.contains(src@[p]));
                    let w = choose|w: int|
                        0 <= w < src_slice.len() && #[trigger] src_slice[w].cmds().contains(
                            src@[p],
                        );
                    crate::disk_level::lemma_table_key_range(src_slice[w]);
                    let m2 = choose|m2: int|
                        0 <= m2 < src_slice[w].cmds().len() && src_slice[w].cmds()[m2] == src@[p];
                }
                assert forall|p: int| 0 <= p < dst@.len() implies span_min(
                    big_l1,
                    big_l2t,
                    gs@[gi as int],
                ) <= key_of(#[trigger] dst@[p]) && key_of(dst@[p]) <= span_max(
                    big_l1,
                    big_l2t,
                    gs@[gi as int],
                ) by {
                    assert(dst@.contains(dst@[p]));
                    let w = choose|w: int|
                        0 <= w < dst_slice.len() && #[trigger] dst_slice[w].cmds().contains(
                            dst@[p],
                        );
                    crate::disk_level::lemma_table_key_range(dst_slice[w]);
                    let m2 = choose|m2: int|
                        0 <= m2 < dst_slice[w].cmds().len() && dst_slice[w].cmds()[m2] == dst@[p];
                }
            }
            // so every built table's range lies in the span
            assert forall|x: int| 0 <= x < built_seq.len() implies span_min(
                big_l1,
                big_l2t,
                gs@[gi as int],
            ) <= (#[trigger] built_seq[x]).min_key && built_seq[x].max_key <= span_max(
                big_l1,
                big_l2t,
                gs@[gi as int],
            ) by {
                let t = built_seq[x];
                assert(t.cmds().contains(t.cmds().first()));
                assert(t.cmds().contains(t.cmds().last()));
                assert(crate::disk_level::tables_cmds(built_seq).contains(t.cmds().first()));
                assert(crate::disk_level::tables_cmds(built_seq).contains(t.cmds().last()));
                let mf = choose|m: int| 0 <= m < merged@.len() && merged@[m] == t.cmds().first();
                let ml = choose|m: int| 0 <= m < merged@.len() && merged@[m] == t.cmds().last();
            }
        }
        let ghost pre_new = new_tables@;
        new_tables.append(&mut built);
        proof {
            lemma_tables_cmds_concat(pre_new, built_seq);
            assert(new_tables@ =~= pre_new + built_seq);
            assert(gs@.take(gi + 1) =~= gs@.take(gi as int).push(gs@[gi as int]));
            assert forall|k: i32|
                #[trigger] cmds_get(crate::disk_level::tables_cmds(new_tables@), k)
                    == groups_get(big_l1, big_l2t, gs@.take(gi + 1), k) by {
                crate::block::lemma_cmds_get_concat(
                    crate::disk_level::tables_cmds(pre_new),
                    crate::disk_level::tables_cmds(built_seq),
                    k,
                );
                lemma_groups_get_push(big_l1, big_l2t, gs@.take(gi as int), gs@[gi as int], k);
                assert(cmds_get(crate::disk_level::tables_cmds(built_seq), k) == cmds_get(
                    merged@,
                    k,
                ));
            }
            assert forall|x: int, y: int|
                0 <= x < y < new_tables@.len() implies (#[trigger] new_tables@[x]).max_key < (
            #[trigger] new_tables@[y]).min_key by {
                if x < pre_new.len() && y >= pre_new.len() {
                    let gx = choose|g: int|
                        0 <= g < gi && span_min(big_l1, big_l2t, #[trigger] gs@[g])
                            <= pre_new[x].min_key && pre_new[x].max_key <= span_max(
                            big_l1,
                            big_l2t,
                            gs@[g],
                        );
                    assert(span_max(big_l1, big_l2t, gs@[gx]) < span_min(
                        big_l1,
                        big_l2t,
                        gs@[gi as int],
                    ));
                    assert(new_tables@[y] == built_seq[y - pre_new.len()]);
                }
            }
            assert forall|x: int| 0 <= x < new_tables@.len() implies exists|g: int|
                0 <= g < gi + 1 && span_min(big_l1, big_l2t, #[trigger] gs@[g]) <= (
                #[trigger] new_tables@[x]).min_key && new_tables@[x].max_key <= span_max(
                    big_l1,
                    big_l2t,
                    gs@[g],
                ) by {
                if x < pre_new.len() {
                    let gx = choose|g: int|
                        0 <= g < gi && span_min(big_l1, big_l2t, #[trigger] gs@[g])
                            <= pre_new[x].min_key && pre_new[x].max_key <= span_max(
                            big_l1,
                            big_l2t,
                            gs@[g],
                        );
                } else {
                    assert(new_tables@[x] == built_seq[x - pre_new.len()]);
                    assert(span_min(big_l1, big_l2t, gs@[gi as int]) <= new_tables@[x].min_key
                        && new_tables@[x].max_key <= span_max(big_l1, big_l2t, gs@[gi as int]));
                }
            }
        }
        gi = gi + 1;
    }
    proof {
        assert(gs@.take(gs@.len() as int) =~= gs@);
    }
    new_tables
}

/// Grouped compaction: merges each intersection group's source and
/// destination tables into fresh tables, swaps them in for the consumed
/// destination tables, leaves unconsumed source tables in place, and
/// re-sorts the level.
#[verifier::loop_isolation(false)]
#[verifier::rlimit(100)]
fn apply_groups(
    l1: &mut Vec<Table>,
    l2: &mut crate::disk_level::DiskLevel,
    gs: &Vec<IntersectionGroup>,
)
    requires
        forall|i: int| 0 <= i < old(l1)@.len() ==> (#[trigger] old(l1)@[i]).wf(),
        forall|i: int, j: int|
            0 <= i < j < old(l1)@.len() ==> (#[trigger] old(l1)@[i]).max_key < (
            #[trigger] old(l1)@[j]).min_key,
        old(l2).wf(),
        groups_wf(gs@, old(l1)@.len() as int, old(l2).tables@.len() as int),
        gs@.len() >= 1,
        pair_covered(old(l1)@, old(l2).tables@, gs@),
        spans_ok(old(l1)@, old(l2).tables@, gs@),
        spans_avoid_free(old(l1)@, old(l2).tables@, gs@),
        free_sources_clear(old(l1)@, old(l2).tables@, gs@),
    ensures
        final(l2).wf(),
        forall|i: int| 0 <= i < final(l1)@.len() ==> (#[trigger] final(l1)@[i]).wf(),
        forall|i: int, j: int|
            0 <= i < j < final(l1)@.len() ==> (#[trigger] final(l1)@[i]).max_key < (
            #[trigger] final(l1)@[j]).min_key,
        forall|k: i32|
            #[trigger] combined_get(final(l1)@, final(l2).tables@, k) == combined_get(
                old(l1)@,
                old(l2).tables@,
                k,
            ),
        final(l1)@.len() <= old(l1)@.len(),
        old(l1)@.len() <= 1 ==> final(l1)@.len() == 0,
        forall|i: int, j: int|
            0 <= i < final(l1)@.len() && 0 <= j < final(l2).tables@.len() ==> !ranges_overlap(
                #[trigger] final(l1)@[i],
                #[trigger] final(l2).tables@[j],
            ),
        forall|j: int|
            0 <= j < old(l2).tables@.len() && !in_dst_group(gs@, j) ==> final(l2).tables@.contains(
                #[trigger] old(l2).tables@[j],
            ),
        forall|i: int|
            0 <= i < final(l1)@.len() ==> old(l1)@.contains(#[trigger] final(l1)@[i]),
        forall|i: int|
            0 <= i < final(l2).tables@.len() ==> (#[trigger] final(l2).tables@[i]).directory@
                == old(l2).level_directory@ || old(l2).tables@.contains(final(l2).tables@[i]),
        final(l2).level == old(l2).level,
        final(l2).level_directory == old(l2).level_directory,
{
    let ghost big_l1 = l1@;
    let ghost big_l2t = l2.tables@;
    proof {
        lemma_span_facts(big_l1, big_l2t, gs@);
    }
    let mut new_tables = build_group_tables(l1, &l2.tables, gs, l2.level_directory.as_str());

    // swap the consumed tables out for the merged output
    let ghost new_seq = new_tables@;
    let mut kept2 = take_kept_dst(&mut l2.tables, gs);
    let ghost kept2_seq = kept2@;
    kept2.append(&mut new_tables);
    let ghost pre_sort = kept2@;
    l2.tables = kept2;
    proof {
        reveal(spans_ok);
        assert(pre_sort =~= kept2_seq + new_seq);
        // everything in the reassembled level is pairwise disjoint
        assert forall|x: int, y: int| 0 <= x < y < pre_sort.len() implies disjoint_ranges(
            #[trigger] pre_sort[x],
            #[trigger] pre_sort[y],
        ) by {
            if x < kept2_seq.len() && y >= kept2_seq.len() {
                assert(kept2_seq.contains(kept2_seq[x]));
                let j = choose|j: int|
                    0 <= j < big_l2t.len() && !in_dst_group(gs@, j) && big_l2t[j] == kept2_seq[x];
                let gy = choose|g: int|
                    0 <= g < gs@.len() && span_min(big_l1, big_l2t, #[trigger] gs@[g])
                        <= new_seq[y - kept2_seq.len()].min_key && new_seq[y
                        - kept2_seq.len()].max_key <= span_max(big_l1, big_l2t, gs@[g]);
                assert(span_max(big_l1, big_l2t, gs@[gy]) < big_l2t[j].min_key
                    || big_l2t[j].max_key < span_min(big_l1, big_l2t, gs@[gy]));
                assert(pre_sort[y] == new_seq[y - kept2_seq.len()]);
            } else if x >= kept2_seq.len() {
                assert(pre_sort[x] == new_seq[x - kept2_seq.len()]);
                assert(pre_sort[y] == new_seq[y - kept2_seq.len()]);
            }
        }
        assert forall|x: Table, y: Table|
            pre_sort.contains(x) && pre_sort.contains(y) && x != y implies
            #[trigger] disjoint_ranges(x, y) by {
            let p = choose|p: int| 0 <= p < pre_sort.len() && pre_sort[p] == x;
            let q = choose|q: int| 0 <= q < pre_sort.len() && pre_sort[q] == y;
            if p < q {
                assert(disjoint_ranges(pre_sort[p], pre_sort[q]));
            } else {
                assert(disjoint_ranges(pre_sort[q], pre_sort[p]));
            }
        }
        assert forall|i: int| 0 <= i < pre_sort.len() implies (#[trigger] pre_sort[i]).wf() by {
            if i < kept2_seq.len() {
            } else {
                assert(pre_sort[i] == new_seq[i - kept2_seq.len()]);
            }
        }
    }
    l2.sort_tables();
    proof {
        lemma_sorted_disjoint_wf(pre_sort, l2.tables@);
    }

    // unconsumed source tables stay behind
    let kept1 = take_kept_src(l1, gs);
    let mut kept1 = kept1;
    core::mem::swap(l1, &mut kept1);

    proof {
        assert forall|k: i32|
            #[trigger] combined_get(l1@, l2.tables@, k) == combined_get(
                big_l1,
                big_l2t,
                k,
            ) by {
            lemma_apply_view(big_l1, big_l2t, gs@, l1@, kept2_seq, new_seq, k);
            lemma_tables_get_by_value(pre_sort, l2.tables@, k);
        }
        if big_l1.len() <= 1 {
            assert(gs@[0].tables1.0 == 0 && gs@[0].tables1.1 == 1);
            if l1@.len() > 0 {
                assert(l1@.contains(l1@[0]));
                let j = choose|j: int|
                    0 <= j < big_l1.len() && !in_src_group(gs@, j) && big_l1[j] == l1@[0];
                assert(gs@[0].tables1.0 <= j < gs@[0].tables1.1);
                assert(in_src_group(gs@, j));
            }
        }
        lemma_apply_post(
            big_l1,
            big_l2t,
            gs@,
            l1@,
            kept2_seq,
            new_seq,
            pre_sort,
            l2.tables@,
            old(l2).level_directory@,
        );
    }
}

/// What grouped compaction leaves behind: unconsumed tables on both
/// sides survive unchanged, the rebuilt level holds only kept or
/// freshly written runs, and nothing left above overlaps anything now
/// below.
#[verifier::rlimit(100)]
proof fn lemma_apply_post(
    big_l1: Seq<Table>,
    big_l2t: Seq<Table>,
    gs: Seq<IntersectionGroup>,
    kept1: Seq<Table>,
    kept2: Seq<Table>,
    new: Seq<Table>,
    pre_sort: Seq<Table>,
    post: Seq<Table>,
    dir: Seq<char>,
)
    requires
        spans_avoid_free(big_l1, big_l2t, gs),
        free_sources_clear(big_l1, big_l2t, gs),
        pre_sort == kept2 + new,
        forall|x: Table|
            #[trigger] kept1.contains(x) <==> exists|j: int|
                0 <= j < big_l1.len() && !in_src_group(gs, j) && big_l1[j] == x,
        forall|x: Table|
            #[trigger] kept2.contains(x) <==> exists|j: int|
                0 <= j < big_l2t.len() && !in_dst_group(gs, j) && big_l2t[j] == x,
        forall|x: Table| post.contains(x) <==> #[trigger] pre_sort.contains(x),
        forall|x: int| 0 <= x < new.len() ==> (#[trigger] new[x]).directory@ == dir,
        forall|x: int|
            0 <= x < new.len() ==> exists|g: int|
                0 <= g < gs.len() && span_min(big_l1, big_l2t, #[trigger] gs[g]) <= (
                #[trigger] new[x]).min_key && new[x].max_key <= span_max(big_l1, big_l2t, gs[g]),
    ensures
        forall|i: int| 0 <= i < kept1.len() ==> big_l1.contains(#[trigger] kept1[i]),
        forall|j: int|
            0 <= j < big_l2t.len() && !in_dst_group(gs, j) ==> post.contains(
                #[trigger] big_l2t[j],
            ),
        forall|i: int|
            0 <= i < post.len() ==> (#[trigger] post[i]).directory@ == dir || big_l2t.contains(
                post[i],
            ),
        forall|i: int, j: int|
            0 <= i < kept1.len() && 0 <= j < post.len() ==> !ranges_overlap(
                #[trigger] kept1[i],
                #[trigger] post[j],
            ),
{
    reveal(spans_avoid_free);
    reveal(free_sources_clear);
    // unconsumed source tables survive unchanged
    assert forall|i: int| 0 <= i < kept1.len() implies big_l1.contains(#[trigger] kept1[i]) by {
        assert(kept1.contains(kept1[i]));
        let jf = choose|jf: int|
            0 <= jf < big_l1.len() && !in_src_group(gs, jf) && big_l1[jf] == kept1[i];
    }
    // destinations in no group were kept
    assert forall|j: int|
        0 <= j < big_l2t.len() && !in_dst_group(gs, j) implies post.contains(
        #[trigger] big_l2t[j],
    ) by {
        assert(kept2.contains(big_l2t[j]));
        let p = choose|p: int| 0 <= p < kept2.len() && kept2[p] == big_l2t[j];
        assert(pre_sort[p] == big_l2t[j]);
        assert(pre_sort.contains(big_l2t[j]));
    }
    // every run below was kept or written into the level directory
    assert forall|i: int|
        0 <= i < post.len() implies (#[trigger] post[i]).directory@ == dir || big_l2t.contains(
        post[i],
    ) by {
        assert(post.contains(post[i]));
        assert(pre_sort.contains(post[i]));
        let p = choose|p: int| 0 <= p < pre_sort.len() && pre_sort[p] == post[i];
        if p < kept2.len() {
            assert(kept2.contains(kept2[p]));
            let jd = choose|jd: int|
                0 <= jd < big_l2t.len() && !in_dst_group(gs, jd) && big_l2t[jd] == kept2[p];
        } else {
            assert(pre_sort[p] == new[p - kept2.len()]);
        }
    }
    // nothing left above overlaps anything now below
    assert forall|i: int, j: int|
        0 <= i < kept1.len() && 0 <= j < post.len() implies !ranges_overlap(
        #[trigger] kept1[i],
        #[trigger] post[j],
    ) by {
        assert(kept1.contains(kept1[i]));
        let ifree = choose|ifree: int|
            0 <= ifree < big_l1.len() && !in_src_group(gs, ifree) && big_l1[ifree] == kept1[i];
        assert(post.contains(post[j]));
        assert(pre_sort.contains(post[j]));
        let p = choose|p: int| 0 <= p < pre_sort.len() && pre_sort[p] == post[j];
        if p < kept2.len() {
            assert(kept2.contains(kept2[p]));
            let jd = choose|jd: int|
                0 <= jd < big_l2t.len() && !in_dst_group(gs, jd) && big_l2t[jd] == kept2[p];
            assert(!ranges_overlap(big_l1[ifree], big_l2t[jd]));
        } else {
            let y = new[p - kept2.len()];
            assert(pre_sort[p] == y);
            let gy = choose|g: int|
                0 <= g < gs.len() && span_min(big_l1, big_l2t, #[trigger] gs[g]) <= y.min_key
                    && y.max_key <= span_max(big_l1, big_l2t, gs[g]);
            assert(span_max(big_l1, big_l2t, gs[gy]) < big_l1[ifree].min_key
                || big_l1[ifree].max_key < span_min(big_l1, big_l2t, gs[gy]));
        }
    }
}

} // verus!
