//! One disk level: an ordered list of tables with pairwise-disjoint key
//! ranges.
//!
//! Level L may hold `LEVEL1_FILE_CAPACITY * SIZE_MULTIPLIER^(L-1)` files;
//! when it holds more, its tables are merged into level L+1.  Because
//! ranges are disjoint and sorted, a point lookup probes at most one
//! table, and within it, at most one block.

use vstd::prelude::*;

use crate::block::{
    cmds_get, key_of, lemma_cmds_get_membership, lemma_cmds_get_sorted, sorted_cmds, Command,
};
use crate::db::GetResult;
use crate::decimal::i32_to_string;
use crate::table::{blocks_cmds, lemma_blocks_sorted_facts, Table};
use crate::{LEVEL1_FILE_CAPACITY, SIZE_MULTIPLIER};

verus! {

/// The commands of a run of tables, in level order.
pub open spec fn tables_cmds(ts: Seq<Table>) -> Seq<Command>
    decreases ts.len(),
{
    if ts.len() == 0 {
        Seq::empty()
    } else {
        ts[0].cmds() + tables_cmds(ts.drop_first())
    }
}

/// Appending a table on the right appends its commands.
pub proof fn lemma_tables_cmds_push(ts: Seq<Table>, t: Table)
    ensures
        tables_cmds(ts.push(t)) == tables_cmds(ts) + t.cmds(),
    decreases ts.len(),
{
    if ts.len() == 0 {
        let sp = ts.push(t);
        assert(sp.len() == 1 && sp[0] == t);
        assert(sp.drop_first() =~= Seq::<Table>::empty());
        assert(tables_cmds(sp) == t.cmds() + tables_cmds(sp.drop_first()));
        assert(t.cmds() + Seq::<Command>::empty() =~= t.cmds());
        assert(tables_cmds(ts) + t.cmds() =~= t.cmds());
    } else {
        assert(ts.push(t)[0] == ts[0]);
        assert(ts.push(t).drop_first() =~= ts.drop_first().push(t));
        lemma_tables_cmds_push(ts.drop_first(), t);
        assert(ts[0].cmds() + (tables_cmds(ts.drop_first()) + t.cmds()) =~= (ts[0].cmds()
            + tables_cmds(ts.drop_first())) + t.cmds());
    }
}

/// A command is in the concatenation exactly when some table holds it.
pub proof fn lemma_tables_cmds_membership(ts: Seq<Table>)
    ensures
        forall|c: Command|
            #[trigger] tables_cmds(ts).contains(c) <==> exists|i: int|
                0 <= i < ts.len() && #[trigger] ts[i].cmds().contains(c),
    decreases ts.len(),
{
    if ts.len() > 0 {
        lemma_tables_cmds_membership(ts.drop_first());
        let whole = tables_cmds(ts);
        let rest = tables_cmds(ts.drop_first());
        assert forall|c: Command| #[trigger] whole.contains(c) implies exists|i: int|
            0 <= i < ts.len() && #[trigger] ts[i].cmds().contains(c) by {
            let m = choose|m: int| 0 <= m < whole.len() && whole[m] == c;
            if m < ts[0].cmds().len() {
                assert(ts[0].cmds()[m] == c);
                assert(ts[0].cmds().contains(c));
            } else {
                assert(rest[m - ts[0].cmds().len()] == c);
                assert(rest.contains(c));
                let i = choose|i: int|
                    0 <= i < ts.drop_first().len() && ts.drop_first()[i].cmds().contains(c);
                assert(ts[i + 1].cmds().contains(c));
            }
        }
        assert forall|c: Command|
            (exists|i: int| 0 <= i < ts.len() && #[trigger] ts[i].cmds().contains(c)) implies #[trigger] whole.contains(c) by {
            let i = choose|i: int| 0 <= i < ts.len() && ts[i].cmds().contains(c);
            let m = choose|m: int| 0 <= m < ts[i].cmds().len() && ts[i].cmds()[m] == c;
            if i == 0 {
                assert(whole[m] == c);
            } else {
                assert(ts.drop_first()[i - 1].cmds().contains(c));
                assert(rest.contains(c));
                let w = choose|w: int| 0 <= w < rest.len() && rest[w] == c;
                assert(whole[ts[0].cmds().len() + w] == c);
            }
        }
    }
}

/// A well-formed table's keys all lie within its `[min_key, max_key]`.
pub proof fn lemma_table_key_range(t: Table)
    requires
        t.wf(),
    ensures
        forall|m: int|
            0 <= m < t.cmds().len() ==> t.min_key <= key_of(#[trigger] t.cmds()[m])
                <= t.max_key,
{
    assert forall|m: int|
        0 <= m < t.cmds().len() implies t.min_key <= key_of(#[trigger] t.cmds()[m])
        <= t.max_key by {
        if m > 0 {
            assert(key_of(t.cmds()[0]) < key_of(t.cmds()[m]));
        }
        if m < t.cmds().len() - 1 {
            assert(key_of(t.cmds()[m]) < key_of(t.cmds()[t.cmds().len() - 1]));
        }
    }
}

/// Well-formed tables with strictly separated ranges concatenate to one
/// sorted run.
pub proof fn lemma_tables_sorted_compose(ts: Seq<Table>)
    requires
        forall|i: int| 0 <= i < ts.len() ==> (#[trigger] ts[i]).wf(),
        forall|i: int, j: int|
            0 <= i < j < ts.len() ==> (#[trigger] ts[i]).max_key < (#[trigger] ts[j]).min_key,
    ensures
        sorted_cmds(tables_cmds(ts)),
        tables_cmds(ts).len() >= ts.len(),
    decreases ts.len(),
{
    if ts.len() > 0 {
        let whole = tables_cmds(ts);
        let first = ts[0].cmds();
        let rest_ts = ts.drop_first();
        let rest = tables_cmds(rest_ts);
        assert(forall|i: int| 0 <= i < rest_ts.len() ==> rest_ts[i] == ts[i + 1]);
        lemma_tables_sorted_compose(rest_ts);
        lemma_tables_cmds_membership(rest_ts);
        lemma_table_key_range(ts[0]);
        assert(whole == first + rest);
        assert forall|i: int, j: int| 0 <= i < j < whole.len() implies key_of(whole[i]) < key_of(
            whole[j],
        ) by {
            if i < first.len() && j < first.len() {
                assert(whole[i] == first[i] && whole[j] == first[j]);
            } else if i >= first.len() {
                assert(whole[i] == rest[i - first.len()] && whole[j] == rest[j - first.len()]);
            } else {
                assert(whole[i] == first[i] && whole[j] == rest[j - first.len()]);
                let c = rest[j - first.len()];
                assert(rest.contains(c));
                let w = choose|w: int| 0 <= w < rest_ts.len() && rest_ts[w].cmds().contains(c);
                lemma_table_key_range(rest_ts[w]);
                let m = choose|m: int|
                    0 <= m < rest_ts[w].cmds().len() && rest_ts[w].cmds()[m] == c;
                assert(ts[w + 1].min_key <= key_of(c));
                assert(ts[0].max_key < ts[w + 1].min_key);
                assert(key_of(first[i]) <= ts[0].max_key);
            }
        }
    }
}

/// Where a range scan should start within a level.
#[derive(Clone, Copy, Debug, PartialEq, Eq, Structural)]
pub struct LocateResult {
    /// Index of the table holding the first candidate block.
    pub table_index: usize,
    /// Index of that block within the table.
    pub block_index: usize,
}

/// One disk level: tables sorted by `min_key` with disjoint key ranges.
#[derive(Debug)]
pub struct DiskLevel {
    /// Which level this is, 1-based.
    pub level: u32,
    /// The directory this level's files live in: `{root}/level{L}`.
    pub level_directory: String,
    /// The level's tables, sorted by `min_key`.
    pub tables: Vec<Table>,
}

/// File budget of a level: `LEVEL1_FILE_CAPACITY * SIZE_MULTIPLIER^(L-1)`.
pub open spec fn spec_file_capacity(level: nat) -> int
    decreases level,
{
    if level <= 1 {
        LEVEL1_FILE_CAPACITY as int
    } else {
        SIZE_MULTIPLIER * spec_file_capacity((level - 1) as nat)
    }
}

/// Total bytes of a run of tables.
pub open spec fn spec_tables_size(ts: Seq<Table>) -> int
    decreases ts.len(),
{
    if ts.len() == 0 {
        0
    } else {
        ts[0].file_size + spec_tables_size(ts.drop_first())
    }
}

impl DiskLevel {
    /// Level invariant: disk levels are 1-based, every table is a
    /// well-formed run, and ranges are sorted and pairwise disjoint.
    pub open spec fn wf(&self) -> bool {
        &&& self.level >= 1
        &&& forall|i: int| 0 <= i < self.tables@.len() ==> (#[trigger] self.tables@[i]).wf()
        &&& forall|i: int, j: int|
            0 <= i < j < self.tables@.len() ==> (#[trigger] self.tables@[i]).max_key < (
            #[trigger] self.tables@[j]).min_key
    }

    /// Every command of the level, in ascending key order.
    pub open spec fn cmds(&self) -> Seq<Command> {
        tables_cmds(self.tables@)
    }

    /// The command this level stores for `key`, if any.
    pub open spec fn spec_get(&self, key: i32) -> Option<Command> {
        cmds_get(self.cmds(), key)
    }

    /// An empty level under `{data_directory}/level{level}`.
    pub fn new(data_directory: &str, level: u32) -> (r: Self)
        requires
            1 <= level <= 0x7fff_ffff,
        ensures
            r.wf(),
            r.level == level,
            r.tables@.len() == 0,
            r.cmds() == Seq::<Command>::empty(),
            r.level_directory@ == data_directory@ + seq!['/', 'l', 'e', 'v', 'e', 'l']
                + crate::decimal::i32_dec(level as i32),
    {
        Self {
            level,
            level_directory: level_directory_path(data_directory, level),
            tables: Vec::new(),
        }
    }

    /// An empty level whose files go to the level's `tmp` subdirectory.
    pub fn new_tmp(data_directory: &str, level: u32) -> (r: Self)
        requires
            1 <= level <= 0x7fff_ffff,
        ensures
            r.wf(),
            r.level == level,
            r.tables@.len() == 0,
            r.level_directory@ == data_directory@ + seq!['/', 'l', 'e', 'v', 'e', 'l']
                + crate::decimal::i32_dec(level as i32) + seq!['/', 't', 'm', 'p'],
    {
        let mut dir = level_directory_path(data_directory, level);
        proof {
            reveal_strlit("/tmp");
        }
        dir.append("/tmp");
        proof {
            assert("/tmp"@ =~= seq!['/', 't', 'm', 'p']);
        }
        Self { level, level_directory: dir, tables: Vec::new() }
    }

    /// Replaces this level's tables with `to`'s, which must be the same
    /// level of another store of the same shape.
    pub fn overwrite(&mut self, to: DiskLevel)
        requires
            old(self).level == to.level,
            to.wf(),
        ensures
            final(self).wf(),
            final(self).tables@ == to.tables@,
            final(self).level == old(self).level,
            final(self).level_directory == old(self).level_directory,
    {
        self.tables = to.tables;
    }

    /// Whether the level holds more files than its budget allows.
    pub fn is_over_file_capacity(&self) -> (r: bool)
        ensures
            r == (self.tables@.len() > spec_file_capacity(self.level as nat)),
    {
        self.tables.len() > self.file_capacity()
    }

    /// The level's file budget, saturating at the machine word.
    fn file_capacity(&self) -> (r: usize)
        ensures
            r == if spec_file_capacity(self.level as nat) <= usize::MAX as int {
                spec_file_capacity(self.level as nat)
            } else {
                usize::MAX as int
            },
    {
        let mut cap: usize = LEVEL1_FILE_CAPACITY;
        let mut l: u32 = 1;
        if self.level == 0 {
            return LEVEL1_FILE_CAPACITY;
        }
        while l < self.level
            invariant
                1 <= l,
                l <= self.level || self.level == 0,
                self.level >= 1 ==> cap == if spec_file_capacity(l as nat) <= usize::MAX as int {
                    spec_file_capacity(l as nat)
                } else {
                    usize::MAX as int
                },
            decreases self.level - l,
        {
            if cap > usize::MAX / SIZE_MULTIPLIER {
                proof {
                    lemma_capacity_monotone(l as nat, (l + 1) as nat);
                }
                cap = usize::MAX;
            } else {
                cap = cap * SIZE_MULTIPLIER;
            }
            l = l + 1;
        }
        cap
    }

    /// Binary search for the table whose range holds `key`.  `Err(i)`
    /// places `key` in the gap before table `i`.
    fn find_table(&self, key: i32) -> (r: Result<usize, usize>)
        requires
            self.wf(),
        ensures
            match r {
                Ok(i) => i < self.tables@.len() && self.tables@[i as int].min_key <= key
                    <= self.tables@[i as int].max_key,
                Err(i) => i <= self.tables@.len() && (forall|j: int|
                    0 <= j < i ==> (#[trigger] self.tables@[j]).max_key < key) && (forall|j: int|
                    i <= j < self.tables@.len() ==> (#[trigger] self.tables@[j]).min_key > key),
            },
    {
        let mut lo: usize = 0;
        let mut hi: usize = self.tables.len();
        while lo < hi
            invariant
                lo <= hi <= self.tables@.len(),
                self.wf(),
                forall|j: int| 0 <= j < lo ==> (#[trigger] self.tables@[j]).max_key < key,
                forall|j: int|
                    hi <= j < self.tables@.len() ==> (#[trigger] self.tables@[j]).min_key > key,
            decreases hi - lo,
        {
            let mid = lo + (hi - lo) / 2;
            let t = &self.tables[mid];
            if key < t.min_key {
                proof {
                    assert forall|j: int|
                        mid <= j < self.tables@.len() implies (#[trigger] self.tables@[j]).min_key
                        > key by {
                        if j > mid {
                            assert(self.tables@[mid as int].max_key < self.tables@[j].min_key);
                            assert(self.tables@[mid as int].min_key <= self.tables@[mid as int].max_key);
                        }
                    }
                }
                hi = mid;
            } else if key > t.max_key {
                proof {
                    assert forall|j: int| 0 <= j < mid + 1 implies (
                    #[trigger] self.tables@[j]).max_key < key by {
                        if j < mid {
                            assert(self.tables@[j].max_key < self.tables@[mid as int].min_key);
                            assert(self.tables@[mid as int].min_key <= self.tables@[mid as int].max_key);
                        }
                    }
                }
                lo = mid + 1;
            } else {
                return Ok(mid);
            }
        }
        Err(lo)
    }

    /// Binary search over a table's fence index for the block whose
    /// fence holds `key`.
    fn find_block_in_table(table: &Table, key: i32) -> (r: Result<usize, usize>)
        requires
            table.wf(),
        ensures
            match r {
                Ok(b) => b < table.index@.len() && table.index@[b as int].0 <= key
                    <= table.index@[b as int].1,
                Err(b) => b <= table.index@.len() && (forall|j: int|
                    0 <= j < b ==> (#[trigger] table.index@[j]).1 < key) && (forall|j: int|
                    b <= j < table.index@.len() ==> (#[trigger] table.index@[j]).0 > key),
            },
    {
        proof {
            lemma_blocks_sorted_facts(table.blocks@);
        }
        let mut lo: usize = 0;
        let mut hi: usize = table.index.len();
        while lo < hi
            invariant
                lo <= hi <= table.index@.len(),
                table.wf(),
                forall|i: int, j: int|
                    0 <= i < j < table.blocks@.len() ==> key_of(
                        (#[trigger] table.blocks@[i])@.last(),
                    ) < key_of((#[trigger] table.blocks@[j])@.first()),
                forall|i: int|
                    0 <= i < table.blocks@.len() ==> key_of((#[trigger] table.blocks@[i])@.first())
                        <= key_of(table.blocks@[i]@.last()),
                forall|j: int| 0 <= j < lo ==> (#[trigger] table.index@[j]).1 < key,
                forall|j: int|
                    hi <= j < table.index@.len() ==> (#[trigger] table.index@[j]).0 > key,
            decreases hi - lo,
        {
            let mid = lo + (hi - lo) / 2;
            let (bmin, bmax) = table.index[mid];
            if key < bmin {
                proof {
                    assert forall|j: int|
                        mid <= j < table.index@.len() implies (#[trigger] table.index@[j]).0
                        > key by {
                        if j > mid {
                            assert(key_of(table.blocks@[mid as int]@.last()) < key_of(
                                table.blocks@[j]@.first(),
                            ));
                        }
                    }
                }
                hi = mid;
            } else if key > bmax {
                proof {
                    assert forall|j: int| 0 <= j < mid + 1 implies (#[trigger] table.index@[j]).1
                        < key by {
                        if j < mid {
                            assert(key_of(table.blocks@[j]@.last()) < key_of(
                                table.blocks@[mid as int]@.first(),
                            ));
                        }
                    }
                }
                lo = mid + 1;
            } else {
                return Ok(mid);
            }
        }
        Err(lo)
    }

    /// Looks `key` up in this level: finds the candidate table by range,
    /// consults its Bloom filter, locates the one candidate block through
    /// the fence index, and scans that block, stopping early once keys
    /// pass the target.
    #[verifier::loop_isolation(false)]
    pub fn get(&self, key: i32) -> (r: GetResult)
        requires
            self.wf(),
        ensures
            r == match self.spec_get(key) {
                None => GetResult::NotFound,
                Some(Command::Delete(_)) => GetResult::Deleted,
                Some(Command::Put(_, val)) => GetResult::Value(val),
            },
    {
        proof {
            lemma_tables_sorted_compose(self.tables@);
            lemma_tables_cmds_membership(self.tables@);
        }
        // find the only table whose range can hold the key
        let ti = match self.find_table(key) {
            Ok(i) => i,
            Err(_) => {
                proof {
                    self.refute_key(key);
                }
                return GetResult::NotFound;
            }
        };
        let table = &self.tables[ti];
        proof {
            lemma_blocks_sorted_facts(table.blocks@);
            crate::table::lemma_blocks_cmds_membership(table.blocks@);
        }

        // consult the Bloom filter
        if !table.bloom.maybe_contains(key) {
            proof {
                assert forall|w: int| 0 <= w < table.cmds().len() implies key_of(
                    #[trigger] table.cmds()[w],
                ) != key by {
                    assert(table.bloom.spec_has(key_of(table.cmds()[w])));
                }
                self.refute_key_in_table(key, ti as int);
            }
            return GetResult::NotFound;
        }

        // find the only block whose fence can hold the key
        let bi = match Self::find_block_in_table(table, key) {
            Ok(b) => b,
            Err(be) => {
                proof {
                    assert forall|w: int| 0 <= w < table.cmds().len() implies key_of(
                        #[trigger] table.cmds()[w],
                    ) != key by {
                        let c = table.cmds()[w];
                        assert(table.cmds().contains(c));
                        let b = choose|b: int|
                            0 <= b < table.blocks@.len() && #[trigger] table.blocks@[b]@.contains(
                                c,
                            );
                        let x = choose|x: int|
                            0 <= x < table.blocks@[b]@.len() && table.blocks@[b]@[x] == c;
                        assert(key_of(table.blocks@[b]@.first()) <= key_of(c) <= key_of(
                            table.blocks@[b]@.last(),
                        ));
                        if b < be {
                            assert(table.index@[b].1 < key);
                        } else {
                            assert(table.index@[b].0 > key);
                        }
                    }
                    self.refute_key_in_table(key, ti as int);
                }
                return GetResult::NotFound;
            }
        };

        // scan the block; it is sorted, so stop once keys pass the target
        let block_cmds = table.blocks[bi].commands();
        let mut m: usize = 0;
        while m < block_cmds.len()
            invariant
                m <= block_cmds@.len(),
                block_cmds@ == self.tables@[ti as int].blocks@[bi as int]@,
                ti < self.tables@.len(),
                bi < self.tables@[ti as int].blocks@.len(),
                self.wf(),
                forall|x: int| 0 <= x < m ==> key_of(#[trigger] block_cmds@[x]) != key,
            decreases block_cmds@.len() - m,
        {
            let c = block_cmds[m];
            if c.key() > key {
                // sorted: nothing at or after this position carries the key
                proof {
                    lemma_blocks_sorted_facts(self.tables@[ti as int].blocks@);
                    assert forall|x: int| 0 <= x < block_cmds@.len() implies key_of(
                        #[trigger] block_cmds@[x],
                    ) != key by {
                        if x > m {
                            assert(key_of(block_cmds@[m as int]) < key_of(block_cmds@[x]));
                        }
                    }
                    self.refute_key_in_block(key, ti as int, bi as int);
                }
                return GetResult::NotFound;
            }
            if c.key() == key {
                proof {
                    self.found_key_in_block(key, ti as int, bi as int, m as int);
                }
                match c {
                    Command::Delete(_) => {
                        return GetResult::Deleted;
                    }
                    Command::Put(_, val) => {
                        return GetResult::Value(val);
                    }
                }
            }
            m = m + 1;
        }
        proof {
            self.refute_key_in_block(key, ti as int, bi as int);
        }
        GetResult::NotFound
    }

    /// No table's range holds `key`, so the level does not hold it.
    proof fn refute_key(&self, key: i32)
        requires
            self.wf(),
            forall|j: int|
                0 <= j < self.tables@.len() ==> !((#[trigger] self.tables@[j]).min_key <= key
                    <= self.tables@[j].max_key),
        ensures
            self.spec_get(key) is None,
    {
        lemma_tables_cmds_membership(self.tables@);
        lemma_cmds_get_membership(self.cmds(), key);
        if let Some(c) = cmds_get(self.cmds(), key) {
            let m = choose|m: int| 0 <= m < self.cmds().len() && self.cmds()[m] == c;
            assert(self.cmds().contains(c));
            let i = choose|i: int|
                0 <= i < self.tables@.len() && #[trigger] self.tables@[i].cmds().contains(c);
            lemma_table_key_range(self.tables@[i]);
            let w = choose|w: int|
                0 <= w < self.tables@[i].cmds().len() && self.tables@[i].cmds()[w] == c;
            assert(false);
        }
    }

    /// `key` lies in table `ti`'s range but not among its commands, and
    /// the other tables' ranges are disjoint from it, so the level does
    /// not hold it.
    proof fn refute_key_in_table(&self, key: i32, ti: int)
        requires
            self.wf(),
            0 <= ti < self.tables@.len(),
            self.tables@[ti].min_key <= key <= self.tables@[ti].max_key,
            forall|w: int|
                0 <= w < self.tables@[ti].cmds().len() ==> key_of(
                    #[trigger] self.tables@[ti].cmds()[w],
                ) != key,
        ensures
            self.spec_get(key) is None,
    {
        lemma_tables_cmds_membership(self.tables@);
        lemma_cmds_get_membership(self.cmds(), key);
        if let Some(c) = cmds_get(self.cmds(), key) {
            let m = choose|m: int| 0 <= m < self.cmds().len() && self.cmds()[m] == c;
            assert(self.cmds().contains(c));
            let i = choose|i: int|
                0 <= i < self.tables@.len() && #[trigger] self.tables@[i].cmds().contains(c);
            lemma_table_key_range(self.tables@[i]);
            let w = choose|w: int|
                0 <= w < self.tables@[i].cmds().len() && self.tables@[i].cmds()[w] == c;
            if i != ti {
                assert(self.tables@[i].min_key <= key <= self.tables@[i].max_key);
                if i < ti {
                    assert(self.tables@[i].max_key < self.tables@[ti].min_key);
                } else {
                    assert(self.tables@[ti].max_key < self.tables@[i].min_key);
                }
            }
            assert(false);
        }
    }

    /// `key` is absent from block `bi` of table `ti`, the one block whose
    /// fence could hold it, so the level does not hold it.
    proof fn refute_key_in_block(&self, key: i32, ti: int, bi: int)
        requires
            self.wf(),
            0 <= ti < self.tables@.len(),
            self.tables@[ti].min_key <= key <= self.tables@[ti].max_key,
            0 <= bi < self.tables@[ti].blocks@.len(),
            forall|j: int|
                0 <= j < bi ==> key_of((#[trigger] self.tables@[ti].blocks@[j])@.last()) < key,
            forall|j: int|
                bi < j < self.tables@[ti].blocks@.len() ==> key_of(
                    (#[trigger] self.tables@[ti].blocks@[j])@.first(),
                ) > key,
            forall|x: int|
                0 <= x < self.tables@[ti].blocks@[bi]@.len() ==> key_of(
                    #[trigger] self.tables@[ti].blocks@[bi]@[x],
                ) != key,
        ensures
            self.spec_get(key) is None,
    {
        let t = self.tables@[ti];
        crate::table::lemma_blocks_cmds_membership(t.blocks@);
        lemma_blocks_sorted_facts(t.blocks@);
        assert forall|w: int| 0 <= w < t.cmds().len() implies key_of(#[trigger] t.cmds()[w])
            != key by {
            let c = t.cmds()[w];
            assert(t.cmds().contains(c));
            let b = choose|b: int| 0 <= b < t.blocks@.len() && #[trigger] t.blocks@[b]@.contains(c);
            let x = choose|x: int| 0 <= x < t.blocks@[b]@.len() && t.blocks@[b]@[x] == c;
            if b < bi {
                assert(key_of(t.blocks@[b]@[x]) <= key_of(t.blocks@[b]@.last()));
            } else if b > bi {
                assert(key_of(t.blocks@[b]@[x]) >= key_of(t.blocks@[b]@.first()));
            }
        }
        self.refute_key_in_table(key, ti);
    }

    /// The command at a position of the candidate block is what the whole
    /// level answers for its key.
    proof fn found_key_in_block(&self, key: i32, ti: int, bi: int, m: int)
        requires
            self.wf(),
            0 <= ti < self.tables@.len(),
            0 <= bi < self.tables@[ti].blocks@.len(),
            0 <= m < self.tables@[ti].blocks@[bi]@.len(),
            key_of(self.tables@[ti].blocks@[bi]@[m]) == key,
        ensures
            self.spec_get(key) == Some(self.tables@[ti].blocks@[bi]@[m]),
    {
        let t = self.tables@[ti];
        let c = t.blocks@[bi]@[m];
        crate::table::lemma_blocks_cmds_membership(t.blocks@);
        assert(t.blocks@[bi]@.contains(c));
        assert(t.cmds().contains(c));
        lemma_tables_cmds_membership(self.tables@);
        assert(self.cmds().contains(c));
        lemma_tables_sorted_compose(self.tables@);
        let w = choose|w: int| 0 <= w < self.cmds().len() && self.cmds()[w] == c;
        lemma_cmds_get_sorted(self.cmds(), w);
    }

    /// Finds the first block that can hold a key at or above `key`, for
    /// range scans.  `None` means the whole level lies below `key`;
    /// otherwise everything before the returned block lies below `key`,
    /// and the returned block's fence reaches `key` — together these pin
    /// the position to the first candidate block of the level.
    #[verifier::loop_isolation(false)]
    pub fn locate_start_block(&self, key: i32) -> (r: Option<LocateResult>)
        requires
            self.wf(),
        ensures
            match r {
                None => forall|m: int|
                    0 <= m < self.cmds().len() ==> key_of(#[trigger] self.cmds()[m]) < key,
                Some(l) => {
                    &&& l.table_index < self.tables@.len()
                    &&& l.block_index < self.tables@[l.table_index as int].blocks@.len()
                    &&& key <= self.tables@[l.table_index as int].index@[l.block_index as int].1
                    &&& forall|j: int, m: int|
                        0 <= j < l.table_index && 0 <= m < self.tables@[j].cmds().len()
                            ==> key_of(#[trigger] self.tables@[j].cmds()[m]) < key
                    &&& forall|j: int, m: int|
                        0 <= j < l.block_index && 0 <= m
                            < self.tables@[l.table_index as int].blocks@[j]@.len() ==> key_of(
                            #[trigger] self.tables@[l.table_index as int].blocks@[j]@[m],
                        ) < key
                },
            },
    {
        let ti = match self.find_table(key) {
            Ok(i) => i,
            Err(i) => {
                if i == self.tables.len() {
                    proof {
                        lemma_tables_cmds_membership(self.tables@);
                        assert forall|m: int| 0 <= m < self.cmds().len() implies key_of(
                            #[trigger] self.cmds()[m],
                        ) < key by {
                            let c = self.cmds()[m];
                            assert(self.cmds().contains(c));
                            let j = choose|j: int|
                                0 <= j < self.tables@.len()
                                    && #[trigger] self.tables@[j].cmds().contains(c);
                            lemma_table_key_range(self.tables@[j]);
                            let w = choose|w: int|
                                0 <= w < self.tables@[j].cmds().len() && self.tables@[j].cmds()[w]
                                    == c;
                        }
                    }
                    return None;
                } else {
                    proof {
                        assert forall|j: int, m: int|
                            0 <= j < i && 0 <= m < self.tables@[j].cmds().len() implies key_of(
                            #[trigger] self.tables@[j].cmds()[m],
                        ) < key by {
                            lemma_table_key_range(self.tables@[j]);
                        }
                        // the key lies below this table, so even its first
                        // fence reaches it
                        let t = self.tables@[i as int];
                        lemma_blocks_sorted_facts(t.blocks@);
                        crate::table::lemma_blocks_sorted_compose(t.blocks@);
                        assert(t.index@[0].0 == key_of(t.blocks@[0]@.first()));
                        assert(key_of(t.cmds().first()) == key_of(t.blocks@[0]@.first()));
                        assert(t.index@[0].0 == t.min_key);
                        assert(key_of(t.blocks@[0]@.first()) <= key_of(t.blocks@[0]@.last()));
                        assert(key < t.index@[0].1);
                    }
                    return Some(LocateResult { table_index: i, block_index: 0 });
                }
            }
        };
        let table = &self.tables[ti];
        proof {
            lemma_blocks_sorted_facts(table.blocks@);
        }
        let bi = match Self::find_block_in_table(table, key) {
            Ok(b) => b,
            Err(b) => b,
        };
        let bi = if bi >= table.blocks.len() {
            // the key exceeds every fence yet sits in the table's range:
            // impossible, since the range ends at the last fence
            proof {
                assert(table.index@[table.index@.len() - 1].1 == key_of(
                    table.blocks@[table.blocks@.len() - 1]@.last(),
                ));
                crate::table::lemma_blocks_cmds_membership(table.blocks@);
                let c = table.cmds()[table.cmds().len() - 1];
                assert(table.cmds().contains(c));
                let b = choose|b: int|
                    0 <= b < table.blocks@.len() && #[trigger] table.blocks@[b]@.contains(c);
                let x = choose|x: int|
                    0 <= x < table.blocks@[b]@.len() && table.blocks@[b]@[x] == c;
                assert(key_of(c) <= key_of(table.blocks@[b]@.last()));
                assert(key_of(table.blocks@[b]@.last()) <= key_of(
                    table.blocks@[table.blocks@.len() - 1]@.last(),
                ));
                assert(false);
            }
            0
        } else {
            bi
        };
        proof {
            // whichever way the fence search ended, this block's fence
            // reaches the key
            assert(key_of(table.blocks@[bi as int]@.first()) <= key_of(
                table.blocks@[bi as int]@.last(),
            ));
            assert(key <= table.index@[bi as int].1);
            assert forall|j: int, m: int|
                0 <= j < ti && 0 <= m < self.tables@[j].cmds().len() implies key_of(
                #[trigger] self.tables@[j].cmds()[m],
            ) < key by {
                lemma_table_key_range(self.tables@[j]);
            }
            assert forall|j: int, m: int|
                0 <= j < bi && 0 <= m < table.blocks@[j]@.len() implies key_of(
                #[trigger] table.blocks@[j]@[m],
            ) < key by {
                assert(key_of(table.blocks@[j]@[m]) <= key_of(table.blocks@[j]@.last()));
                assert(table.index@[j].1 < key || table.index@[j].0 <= key <= table.index@[j].1);
                if j < bi {
                }
            }
        }
        Some(LocateResult { table_index: ti, block_index: bi })
    }

    /// The level's commands with keys in `[lo, hi]`, in key order.
    pub fn range_cmds(&self, lo: i32, hi: i32) -> (r: Vec<Command>)
        requires
            self.wf(),
        ensures
            sorted_cmds(r@),
            forall|k: i32|
                cmds_get(r@, k) == if lo <= k <= hi {
                    self.spec_get(k)
                } else {
                    None::<Command>
                },
    {
        proof {
            lemma_tables_sorted_compose(self.tables@);
        }
        let mut all: Vec<Command> = Vec::new();
        let ghost mut kept: Seq<Table> = Seq::empty();
        let mut i: usize = 0;
        proof {
            assert(all@ =~= tables_cmds(kept));
        }
        // the fence skip: only tables whose range meets the window are read
        while i < self.tables.len()
            invariant
                i <= self.tables@.len(),
                self.wf(),
                all@ == tables_cmds(kept),
                forall|p: int|
                    0 <= p < kept.len() ==> exists|j: int|
                        0 <= j < i && #[trigger] kept[p] == self.tables@[j],
                forall|p: int, q: int|
                    0 <= p < q < kept.len() ==> (#[trigger] kept[p]).max_key < (
                    #[trigger] kept[q]).min_key,
                forall|p: int| 0 <= p < kept.len() ==> (#[trigger] kept[p]).wf(),
                forall|k: i32|
                    lo <= k <= hi ==> #[trigger] cmds_get(tables_cmds(kept), k) == cmds_get(
                        tables_cmds(self.tables@.take(i as int)),
                        k,
                    ),
            decreases self.tables@.len() - i,
        {
            let t = &self.tables[i];
            let ghost pre_kept = kept;
            proof {
                lemma_tables_cmds_push(self.tables@.take(i as int), self.tables@[i as int]);
                assert(self.tables@.take(i + 1) =~= self.tables@.take(i as int).push(
                    self.tables@[i as int],
                ));
            }
            if t.max_key < lo || t.min_key > hi {
                // outside the window: nothing of it can be in range
                proof {
                    lemma_table_key_range(self.tables@[i as int]);
                    assert forall|k: i32| lo <= k <= hi implies #[trigger] cmds_get(
                        tables_cmds(kept),
                        k,
                    ) == cmds_get(tables_cmds(self.tables@.take(i + 1)), k) by {
                        crate::block::lemma_cmds_get_concat(
                            tables_cmds(self.tables@.take(i as int)),
                            self.tables@[i as int].cmds(),
                            k,
                        );
                        lemma_cmds_get_membership(self.tables@[i as int].cmds(), k);
                        if let Some(c) = cmds_get(self.tables@[i as int].cmds(), k) {
                            let m = choose|m: int|
                                0 <= m < self.tables@[i as int].cmds().len()
                                    && self.tables@[i as int].cmds()[m] == c;
                            assert(false);
                        }
                    }
                }
            } else {
                let mut tcmds = t.commands();
                all.append(&mut tcmds);
                proof {
                    kept = pre_kept.push(self.tables@[i as int]);
                    lemma_tables_cmds_push(pre_kept, self.tables@[i as int]);
                    assert forall|p: int, q: int|
                        0 <= p < q < kept.len() implies (#[trigger] kept[p]).max_key < (
                    #[trigger] kept[q]).min_key by {
                        if q == kept.len() - 1 {
                            let j = choose|j: int|
                                0 <= j < i && #[trigger] pre_kept[p] == self.tables@[j];
                            assert(self.tables@[j].max_key < self.tables@[i as int].min_key);
                        }
                    }
                    assert forall|k: i32| lo <= k <= hi implies #[trigger] cmds_get(
                        tables_cmds(kept),
                        k,
                    ) == cmds_get(tables_cmds(self.tables@.take(i + 1)), k) by {
                        crate::block::lemma_cmds_get_concat(
                            tables_cmds(self.tables@.take(i as int)),
                            self.tables@[i as int].cmds(),
                            k,
                        );
                        crate::block::lemma_cmds_get_concat(
                            tables_cmds(pre_kept),
                            self.tables@[i as int].cmds(),
                            k,
                        );
                    }
                }
            }
            i = i + 1;
        }
        proof {
            assert(self.tables@.take(self.tables@.len() as int) =~= self.tables@);
            lemma_tables_sorted_compose(kept);
        }
        crate::mem_level::filter_window(all, lo, hi)
    }

    /// Restores the sorted-by-`min_key` order after mutation, keeping
    /// exactly the same tables.
    pub fn sort_tables(&mut self)
        ensures
            final(self).tables@.to_multiset() == old(self).tables@.to_multiset(),
            final(self).tables@.len() == old(self).tables@.len(),
            forall|i: int, j: int|
                0 <= i < j < final(self).tables@.len() ==> (
                #[trigger] final(self).tables@[i]).min_key <= (
                #[trigger] final(self).tables@[j]).min_key,
            forall|x: Table|
                final(self).tables@.contains(x) <==> #[trigger] old(self).tables@.contains(x),
            final(self).level == old(self).level,
            final(self).level_directory == old(self).level_directory,
    {
        sort_tables_vec(&mut self.tables);
    }

    /// A level rebuilt from tables read back off disk, already ordered
    /// by their smallest key.  `None` means two runs overlap: the
    /// directory does not form a valid level, which is fatal to startup.
    pub fn from_tables(data_directory: &str, level: u32, tables: Vec<Table>) -> (r: Option<
        DiskLevel,
    >)
        requires
            1 <= level <= 0x7fff_ffff,
            forall|i: int| 0 <= i < tables@.len() ==> (#[trigger] tables@[i]).wf(),
            forall|i: int, j: int|
                0 <= i < j < tables@.len() ==> (#[trigger] tables@[i]).min_key <= (
                #[trigger] tables@[j]).min_key,
        ensures
            match r {
                Some(l) => l.wf() && l.level == level && l.tables@ == tables@,
                None => !(forall|i: int, j: int|
                    0 <= i < j < tables@.len() ==> (#[trigger] tables@[i]).max_key < (
                    #[trigger] tables@[j]).min_key),
            },
    {
        let mut i: usize = 1;
        while i < tables.len()
            invariant
                1 <= i,
                i <= tables@.len() || tables@.len() == 0,
                forall|j: int| 0 <= j < tables@.len() ==> (#[trigger] tables@[j]).wf(),
                forall|x: int, y: int|
                    0 <= x < y < tables@.len() ==> (#[trigger] tables@[x]).min_key <= (
                    #[trigger] tables@[y]).min_key,
                forall|j: int|
                    0 <= j < i - 1 ==> (#[trigger] tables@[j]).max_key < tables@[j + 1].min_key,
            decreases tables@.len() - i,
        {
            if tables[i - 1].max_key >= tables[i].min_key {
                return None;
            }
            i = i + 1;
        }
        proof {
            assert forall|x: int, y: int|
                0 <= x < y < tables@.len() implies (#[trigger] tables@[x]).max_key < (
            #[trigger] tables@[y]).min_key by {
                assert(tables@[x].max_key < tables@[x + 1].min_key);
                assert(tables@[x + 1].min_key <= tables@[y].min_key);
            }
        }
        Some(DiskLevel { level, level_directory: level_directory_path(data_directory, level), tables })
    }

    /// Total bytes of the level's files, saturating at the counter width.
    pub fn size_bytes(&self) -> (r: u64)
        ensures
            r as int == if spec_tables_size(self.tables@) <= u64::MAX as int {
                spec_tables_size(self.tables@)
            } else {
                u64::MAX as int
            },
    {
        let mut total: u64 = 0;
        let mut i: usize = 0;
        while i < self.tables.len()
            invariant
                i <= self.tables@.len(),
                total as int == if spec_tables_size(self.tables@.take(i as int)) <= u64::MAX
                    as int {
                    spec_tables_size(self.tables@.take(i as int))
                } else {
                    u64::MAX as int
                },
            decreases self.tables@.len() - i,
        {
            let fs = self.tables[i].file_size;
            proof {
                lemma_tables_size_push(self.tables@.take(i as int), self.tables@[i as int]);
                assert(self.tables@.take(i + 1) =~= self.tables@.take(i as int).push(
                    self.tables@[i as int],
                ));
            }
            if total > u64::MAX - fs {
                total = u64::MAX;
            } else {
                total = total + fs;
            }
            i = i + 1;
        }
        proof {
            assert(self.tables@.take(self.tables@.len() as int) =~= self.tables@);
        }
        total
    }
}

/// Sorts tables by `min_key` (selection sort), keeping exactly the same
/// tables.
fn sort_tables_vec(v: &mut Vec<Table>)
    ensures
        final(v)@.to_multiset() == old(v)@.to_multiset(),
        final(v)@.len() == old(v)@.len(),
        forall|i: int, j: int|
            0 <= i < j < final(v)@.len() ==> (#[trigger] final(v)@[i]).min_key <= (
            #[trigger] final(v)@[j]).min_key,
        forall|x: Table| final(v)@.contains(x) <==> #[trigger] old(v)@.contains(x),
{
    broadcast use vstd::seq_lib::group_to_multiset_ensures;

    let mut out: Vec<Table> = Vec::new();
    while v.len() > 0
        invariant
            out@.to_multiset().add(v@.to_multiset()) == old(v)@.to_multiset(),
            out@.len() + v@.len() == old(v)@.len(),
            forall|i: int, j: int|
                0 <= i < j < out@.len() ==> (#[trigger] out@[i]).min_key <= (
                #[trigger] out@[j]).min_key,
            forall|i: int, j: int|
                0 <= i < out@.len() && 0 <= j < v@.len() ==> (#[trigger] out@[i]).min_key <= (
                #[trigger] v@[j]).min_key,
        decreases v@.len(),
    {
        // select the remaining table with the smallest min_key
        let mut best: usize = 0;
        let mut m: usize = 1;
        while m < v.len()
            invariant
                best < v@.len(),
                m <= v@.len(),
                forall|j: int| 0 <= j < m ==> v@[best as int].min_key <= (#[trigger] v@[j]).min_key,
            decreases v@.len() - m,
        {
            if v[m].min_key < v[best].min_key {
                best = m;
            }
            m = m + 1;
        }
        let ghost pre_v = v@;
        let ghost pre_out = out@;
        let t = v.remove(best);
        out.push(t);
        proof {
            pre_v.to_multiset_ensures();
            pre_out.to_multiset_ensures();
            assert(pre_v.remove(best as int).to_multiset() =~= pre_v.to_multiset().remove(t));
            assert(pre_out.push(t).to_multiset() =~= pre_out.to_multiset().insert(t));
            assert(pre_v.to_multiset().count(t) >= 1) by {
                assert(pre_v.contains(t));
            }
            assert(pre_out.to_multiset().insert(t).add(pre_v.to_multiset().remove(t))
                =~= pre_out.to_multiset().add(pre_v.to_multiset()));
            assert forall|i: int, j: int|
                0 <= i < out@.len() && 0 <= j < v@.len() implies (#[trigger] out@[i]).min_key <= (
            #[trigger] v@[j]).min_key by {
                if i < out@.len() - 1 {
                    assert(out@[i] == pre_out[i]);
                }
                if j < best {
                    assert(v@[j] == pre_v[j]);
                } else {
                    assert(v@[j] == pre_v[j + 1]);
                }
            }
        }
    }
    core::mem::swap(v, &mut out);
    proof {
        assert(out@.to_multiset().len() == out@.len());
        assert(v@.to_multiset().add(Seq::<Table>::empty().to_multiset()) =~= v@.to_multiset());
        assert forall|x: Table| v@.contains(x) <==> #[trigger] old(v)@.contains(x) by {
            assert(v@.contains(x) <==> v@.to_multiset().count(x) > 0);
            assert(old(v)@.contains(x) <==> old(v)@.to_multiset().count(x) > 0);
        }
    }
}

/// The directory of one level: `{root}/level{L}`.
pub fn level_directory_path(data_directory: &str, level: u32) -> (r: String)
    requires
        level <= 0x7fff_ffff,
    ensures
        r@ == data_directory@ + seq!['/', 'l', 'e', 'v', 'e', 'l'] + crate::decimal::i32_dec(
            level as i32,
        ),
{
    let mut s = data_directory.to_owned();
    proof {
        reveal_strlit("/level");
    }
    s.append("/level");
    let num = i32_to_string(level as i32);
    s.append(num.as_str());
    proof {
        assert("/level"@ =~= seq!['/', 'l', 'e', 'v', 'e', 'l']);
        assert(s@ =~= data_directory@ + seq!['/', 'l', 'e', 'v', 'e', 'l']
            + crate::decimal::i32_dec(level as i32));
    }
    s
}

/// Every level's budget is at least the first level's.
pub proof fn lemma_capacity_pos(a: nat)
    ensures
        spec_file_capacity(a) >= LEVEL1_FILE_CAPACITY,
    decreases a,
{
    if a > 1 {
        lemma_capacity_pos((a - 1) as nat);
        assert(SIZE_MULTIPLIER * spec_file_capacity((a - 1) as nat) >= spec_file_capacity(
            (a - 1) as nat,
        )) by (nonlinear_arith)
            requires
                spec_file_capacity((a - 1) as nat) >= 0,
        ;
    }
}

/// The budget never shrinks as levels deepen.
proof fn lemma_capacity_monotone(a: nat, b: nat)
    requires
        a <= b,
    ensures
        spec_file_capacity(a) <= spec_file_capacity(b),
        spec_file_capacity(a) >= LEVEL1_FILE_CAPACITY,
    decreases b,
{
    lemma_capacity_pos(a);
    if b > 1 && a < b {
        lemma_capacity_monotone(a, (b - 1) as nat);
        assert(spec_file_capacity(b) == SIZE_MULTIPLIER * spec_file_capacity((b - 1) as nat));
        assert(SIZE_MULTIPLIER * spec_file_capacity((b - 1) as nat) >= spec_file_capacity(
            (b - 1) as nat,
        )) by (nonlinear_arith)
            requires
                spec_file_capacity((b - 1) as nat) >= 0,
        ;
    }
}

/// Sizes add as tables are appended.
proof fn lemma_tables_size_push(ts: Seq<Table>, t: Table)
    ensures
        spec_tables_size(ts.push(t)) == spec_tables_size(ts) + t.file_size,
        spec_tables_size(ts) >= 0,
    decreases ts.len(),
{
    lemma_tables_size_nonneg(ts);
    if ts.len() == 0 {
        let sp = ts.push(t);
        assert(sp.len() == 1 && sp[0] == t);
        assert(sp.drop_first() =~= Seq::<Table>::empty());
        assert(spec_tables_size(Seq::<Table>::empty()) == 0);
        assert(spec_tables_size(sp) == t.file_size + spec_tables_size(sp.drop_first()));
    } else {
        assert(ts.push(t)[0] == ts[0]);
        assert(ts.push(t).drop_first() =~= ts.drop_first().push(t));
        lemma_tables_size_push(ts.drop_first(), t);
    }
}

pub proof fn lemma_tables_size_nonneg(ts: Seq<Table>)
    ensures
        spec_tables_size(ts) >= 0,
    decreases ts.len(),
{
    if ts.len() > 0 {
        lemma_tables_size_nonneg(ts.drop_first());
    }
}

} // verus!
