//! The database facade: one in-memory write buffer in front of a fixed
//! cascade of disk levels.
//!
//! Writes go to the memory level; when it reaches capacity it is frozen
//! into a table and merged into level 1, and any level pushed over its
//! file budget is merged into its successor.  Reads probe the memory
//! level and then each disk level in order; the first conclusive answer
//! (a value or a tombstone) wins, so newer levels shadow older ones.

use vstd::prelude::*;

use crate::block::{cmds_get, entry_of, key_of, sorted_cmds, Command};
use crate::disk_level::{tables_cmds, DiskLevel};
use crate::mem_level::MemLevel;
use crate::merge::{combined_get, merge, merge_sorted_commands};
use crate::{MEM_CAPACITY, NUM_LEVELS};

verus! {

/// What one level answers for a point lookup.  `Deleted` is conclusive:
/// a tombstone shadows any older value in deeper levels.
#[derive(Clone, Copy, Debug, PartialEq, Eq, Structural)]
pub enum GetResult {
    NotFound,
    Deleted,
    Value(i32),
}

/// The first conclusive answer walking a run of levels shallow to deep.
pub open spec fn levels_get(levels: Seq<DiskLevel>, k: i32) -> Option<Command>
    decreases levels.len(),
{
    if levels.len() == 0 {
        None
    } else {
        match levels[0].spec_get(k) {
            Some(c) => Some(c),
            None => levels_get(levels.drop_first(), k),
        }
    }
}

/// Appending a deeper level only answers keys nothing above it held.
pub proof fn lemma_levels_get_push(levels: Seq<DiskLevel>, l: DiskLevel, k: i32)
    ensures
        levels_get(levels.push(l), k) == match levels_get(levels, k) {
            Some(c) => Some(c),
            None => l.spec_get(k),
        },
    decreases levels.len(),
{
    if levels.len() == 0 {
        let sp = levels.push(l);
        assert(sp[0] == l);
        assert(sp.drop_first() =~= Seq::<DiskLevel>::empty());
        assert(levels_get(Seq::<DiskLevel>::empty(), k) is None);
        assert(levels_get(sp, k) == match l.spec_get(k) {
            Some(c) => Some(c),
            None => levels_get(sp.drop_first(), k),
        });
    } else {
        assert(levels.push(l)[0] == levels[0]);
        assert(levels.push(l).drop_first() =~= levels.drop_first().push(l));
        lemma_levels_get_push(levels.drop_first(), l, k);
    }
}

/// The newest surviving command a batch of loaded pairs carries for a
/// key: the last pair with that key, as a `Put`.
pub open spec fn load_entry(pairs: Seq<(i32, i32)>, k: i32) -> Option<Command>
    decreases pairs.len(),
{
    if pairs.len() == 0 {
        None
    } else if pairs.last().0 == k {
        Some(Command::Put(pairs.last().0, pairs.last().1))
    } else {
        load_entry(pairs.drop_last(), k)
    }
}

/// Where a server keeps its data and where it listens.
#[derive(Debug)]
pub struct Config {
    /// Root directory the level directories live under.
    pub data_dir: String,
    /// TCP port the server listens on.
    pub port: u16,
}

impl Config {
    pub fn new(data_dir: String, port: u16) -> (r: Self)
        ensures
            r.data_dir == data_dir,
            r.port == port,
    {
        Self { data_dir, port }
    }
}

/// Every disk level but the last is within its file budget; the final
/// level may overflow, which is tolerated and never fatal.
pub open spec fn within_budget(levels: Seq<DiskLevel>) -> bool {
    forall|i: int|
        0 <= i < levels.len() - 1 ==> (#[trigger] levels[i]).tables@.len()
            <= crate::disk_level::spec_file_capacity((i + 1) as nat)
}

/// Total bytes of a run of disk levels.
pub open spec fn spec_disk_size(levels: Seq<DiskLevel>) -> int
    decreases levels.len(),
{
    if levels.len() == 0 {
        0
    } else {
        crate::disk_level::spec_tables_size(levels[0].tables@) + spec_disk_size(
            levels.drop_first(),
        )
    }
}

/// The embedded key-value store: a memory level and its disk levels.
#[derive(Debug)]
pub struct Database {
    /// Root directory the level directories live under.
    pub data_directory: String,
    /// The write buffer: level 0.
    pub memory: MemLevel,
    /// The disk levels, shallow to deep; `disk[i]` is level `i + 1`.
    pub disk: Vec<DiskLevel>,
    /// How many entries the memory level holds before it is flushed.
    pub mem_capacity: usize,
}

impl Database {
    pub open spec fn wf(&self) -> bool {
        &&& self.disk@.len() == NUM_LEVELS
        &&& forall|i: int|
            0 <= i < self.disk@.len() ==> (#[trigger] self.disk@[i]).wf() && self.disk@[i].level
                == i + 1
        &&& self.memory.wf()
        &&& self.mem_capacity >= 1
    }

    /// The newest surviving command for `k`: the memory level's if it
    /// holds the key, else the shallowest disk level's.
    pub open spec fn entry(&self, k: i32) -> Option<Command> {
        match cmds_get(self.memory@, k) {
            Some(c) => Some(c),
            None => levels_get(self.disk@, k),
        }
    }

    /// The value a read of `k` observes: `None` for absent or deleted.
    pub open spec fn spec_get(&self, k: i32) -> Option<i32> {
        match self.entry(k) {
            None => None,
            Some(c) => entry_of(c),
        }
    }

    /// An empty store rooted at `data_directory`, with the default
    /// memory-level capacity.
    pub fn new(data_directory: &str) -> (r: Self)
        ensures
            r.wf(),
            forall|k: i32| #[trigger] r.entry(k) is None,
            r.memory@.len() == 0,
            within_budget(r.disk@),
            r.mem_capacity == MEM_CAPACITY,
            r.data_directory@ == data_directory@,
    {
        Self::with_mem_capacity(data_directory, MEM_CAPACITY)
    }

    /// An empty store with an explicit memory-level capacity.
    pub fn with_mem_capacity(data_directory: &str, mem_capacity: usize) -> (r: Self)
        requires
            mem_capacity >= 1,
        ensures
            r.wf(),
            forall|k: i32| #[trigger] r.entry(k) is None,
            r.memory@.len() == 0,
            within_budget(r.disk@),
            r.mem_capacity == mem_capacity,
            r.data_directory@ == data_directory@,
    {
        let mut disk: Vec<DiskLevel> = Vec::new();
        let mut i: usize = 0;
        while i < NUM_LEVELS
            invariant
                i <= NUM_LEVELS,
                disk@.len() == i,
                forall|x: int|
                    0 <= x < i ==> (#[trigger] disk@[x]).wf() && disk@[x].level == x + 1
                        && disk@[x].cmds().len() == 0,
            decreases NUM_LEVELS - i,
        {
            let lvl = DiskLevel::new(data_directory, (i + 1) as u32);
            disk.push(lvl);
            i = i + 1;
        }
        let r = Self {
            data_directory: data_directory.to_owned(),
            memory: MemLevel::new(),
            disk,
            mem_capacity,
        };
        proof {
            assert forall|k: i32| #[trigger] r.entry(k) is None by {
                lemma_levels_get_all_empty(r.disk@, k);
            }
            assert forall|i: int|
                0 <= i < r.disk@.len() - 1 implies (#[trigger] r.disk@[i]).tables@.len()
                <= crate::disk_level::spec_file_capacity((i + 1) as nat) by {
                crate::disk_level::lemma_capacity_pos((i + 1) as nat);
            }
        }
        r
    }

    /// A store rebuilt around levels read back from disk: the memory
    /// level starts empty and reads fall through to the given levels.
    /// `None` means the levels do not form the store's fixed cascade.
    pub fn from_levels(data_directory: &str, levels: Vec<DiskLevel>) -> (r: Option<Self>)
        requires
            forall|i: int| 0 <= i < levels@.len() ==> (#[trigger] levels@[i]).wf(),
        ensures
            match r {
                Some(db) => {
                    &&& db.wf()
                    &&& db.disk@ == levels@
                    &&& db.memory@.len() == 0
                    &&& forall|k: i32| #[trigger] db.entry(k) == levels_get(levels@, k)
                },
                None => !(levels@.len() == NUM_LEVELS && forall|i: int|
                    0 <= i < levels@.len() ==> (#[trigger] levels@[i]).level == i + 1),
            },
    {
        if levels.len() != NUM_LEVELS {
            return None;
        }
        let mut i: usize = 0;
        while i < levels.len()
            invariant
                i <= levels@.len(),
                levels@.len() == NUM_LEVELS,
                forall|x: int| 0 <= x < i ==> (#[trigger] levels@[x]).level == x + 1,
            decreases levels@.len() - i,
        {
            if levels[i].level != (i + 1) as u32 {
                return None;
            }
            i = i + 1;
        }
        Some(
            Self {
                data_directory: data_directory.to_owned(),
                memory: MemLevel::new(),
                disk: levels,
                mem_capacity: MEM_CAPACITY,
            },
        )
    }

    /// Binds `key` to `value`; every other key reads as before.  May
    /// flush the memory level and cascade compactions.
    pub fn insert(&mut self, key: i32, value: i32)
        requires
            old(self).wf(),
        ensures
            final(self).wf(),
            forall|k: i32|
                #[trigger] final(self).entry(k) == if k == key {
                    Some(Command::Put(key, value))
                } else {
                    old(self).entry(k)
                },
            final(self).memory@.len() < final(self).mem_capacity,
            within_budget(old(self).disk@) ==> within_budget(final(self).disk@),
            final(self).mem_capacity == old(self).mem_capacity,
            final(self).data_directory == old(self).data_directory,
    {
        self.memory.insert(key, value);
        if self.memory.len() >= self.mem_capacity {
            let old_mem = self.memory.clear();
            self.handle_overflow(old_mem);
        }
    }

    /// Buries `key` under a tombstone; every other key reads as before.
    pub fn delete(&mut self, key: i32)
        requires
            old(self).wf(),
        ensures
            final(self).wf(),
            forall|k: i32|
                #[trigger] final(self).entry(k) == if k == key {
                    Some(Command::Delete(key))
                } else {
                    old(self).entry(k)
                },
            final(self).memory@.len() < final(self).mem_capacity,
            within_budget(old(self).disk@) ==> within_budget(final(self).disk@),
            final(self).mem_capacity == old(self).mem_capacity,
            final(self).data_directory == old(self).data_directory,
    {
        self.memory.delete(key);
        if self.memory.len() >= self.mem_capacity {
            let old_mem = self.memory.clear();
            self.handle_overflow(old_mem);
        }
    }

    /// Applies `count` key/value pairs as consecutive writes, in order.
    pub fn load(&mut self, pairs: &Vec<(i32, i32)>)
        requires
            old(self).wf(),
        ensures
            final(self).wf(),
            forall|k: i32|
                #[trigger] final(self).entry(k) == match load_entry(pairs@, k) {
                    Some(c) => Some(c),
                    None => old(self).entry(k),
                },
    {
        let mut i: usize = 0;
        while i < pairs.len()
            invariant
                i <= pairs@.len(),
                self.wf(),
                forall|k: i32|
                    #[trigger] self.entry(k) == match load_entry(pairs@.take(i as int), k) {
                        Some(c) => Some(c),
                        None => old(self).entry(k),
                    },
            decreases pairs@.len() - i,
        {
            let (k, v) = pairs[i];
            self.insert(k, v);
            proof {
                assert forall|q: i32|
                    #[trigger] self.entry(q) == (match load_entry(pairs@.take(i + 1), q) {
                        Some(c) => Some(c),
                        None => old(self).entry(q),
                    }) by {
                    assert(pairs@.take(i + 1).drop_last() =~= pairs@.take(i as int));
                    assert(pairs@.take(i + 1).last() == pairs@[i as int]);
                }
            }
            i = i + 1;
        }
        proof {
            assert(pairs@.take(pairs@.len() as int) =~= pairs@);
        }
    }

    /// Reads `key`: the memory level first, then each disk level in
    /// order; a tombstone anywhere shadows older values below it.
    pub fn get(&self, key: i32) -> (r: Option<i32>)
        requires
            self.wf(),
        ensures
            r == self.spec_get(key),
    {
        match self.memory.get(key) {
            GetResult::Deleted => {
                return None;
            }
            GetResult::Value(val) => {
                return Some(val);
            }
            GetResult::NotFound => {}
        }

        let mut i: usize = 0;
        proof {
            assert(self.disk@.skip(0) =~= self.disk@);
        }
        while i < self.disk.len()
            invariant
                i <= self.disk@.len(),
                self.wf(),
                cmds_get(self.memory@, key) is None,
                levels_get(self.disk@, key) == levels_get(self.disk@.skip(i as int), key),
            decreases self.disk@.len() - i,
        {
            let ghost suffix = self.disk@.skip(i as int);
            proof {
                assert(suffix[0] == self.disk@[i as int]);
                assert(suffix.drop_first() =~= self.disk@.skip(i + 1));
            }
            match self.disk[i].get(key) {
                GetResult::Deleted => {
                    return None;
                }
                GetResult::Value(val) => {
                    return Some(val);
                }
                GetResult::NotFound => {}
            }
            i = i + 1;
        }
        proof {
            assert(self.disk@.skip(self.disk@.len() as int) =~= Seq::<DiskLevel>::empty());
        }
        None
    }

    /// Every pair `(k, v)` with `lo <= k <= hi` whose newest surviving
    /// command is a `Put`, in ascending key order.  Tombstones produce
    /// nothing but still shadow older values.
    pub fn range(&self, lo: i32, hi: i32) -> (r: Vec<(i32, i32)>)
        requires
            self.wf(),
        ensures
            forall|p: int, q: int| 0 <= p < q < r@.len() ==> (#[trigger] r@[p]).0 < (#[trigger] r@[q]).0,
            forall|k: i32, v: i32|
                #[trigger] r@.contains((k, v)) <==> (lo <= k <= hi && self.spec_get(k) == Some(
                    v,
                )),
    {
        let mut acc = self.memory.range(lo, hi);
        let mut i: usize = 0;
        proof {
            assert(self.disk@.take(0) =~= Seq::<DiskLevel>::empty());
        }
        while i < self.disk.len()
            invariant
                i <= self.disk@.len(),
                self.wf(),
                sorted_cmds(acc@),
                forall|k: i32|
                    #[trigger] cmds_get(acc@, k) == if lo <= k <= hi {
                        match cmds_get(self.memory@, k) {
                            Some(c) => Some(c),
                            None => levels_get(self.disk@.take(i as int), k),
                        }
                    } else {
                        None::<Command>
                    },
            decreases self.disk@.len() - i,
        {
            let lvl_cmds = self.disk[i].range_cmds(lo, hi);
            let merged = merge_sorted_commands(&acc, &lvl_cmds);
            proof {
                crate::merge::lemma_merge_spec_props(acc@, lvl_cmds@);
                assert forall|k: i32|
                    #[trigger] cmds_get(merged@, k) == (if lo <= k <= hi {
                        match cmds_get(self.memory@, k) {
                            Some(c) => Some(c),
                            None => levels_get(self.disk@.take(i + 1), k),
                        }
                    } else {
                        None::<Command>
                    }) by {
                    assert(self.disk@.take(i + 1) =~= self.disk@.take(i as int).push(
                        self.disk@[i as int],
                    ));
                    lemma_levels_get_push(self.disk@.take(i as int), self.disk@[i as int], k);
                }
            }
            acc = merged;
            i = i + 1;
        }
        proof {
            assert(self.disk@.take(self.disk@.len() as int) =~= self.disk@);
        }

        // project the surviving commands to pairs, dropping tombstones
        let mut r: Vec<(i32, i32)> = Vec::new();
        let mut m: usize = 0;
        while m < acc.len()
            invariant
                m <= acc@.len(),
                sorted_cmds(acc@),
                forall|p: int, q: int|
                    0 <= p < q < r@.len() ==> (#[trigger] r@[p]).0 < (#[trigger] r@[q]).0,
                forall|k: i32, v: i32|
                    #[trigger] r@.contains((k, v)) <==> (exists|x: int|
                        0 <= x < m && acc@[x] == Command::Put(k, v)),
                forall|p: int|
                    0 <= p < r@.len() ==> exists|x: int|
                        0 <= x < m && acc@[x] == Command::Put((#[trigger] r@[p]).0, r@[p].1),
            decreases acc@.len() - m,
        {
            match acc[m] {
                Command::Put(k, v) => {
                    let ghost pre = r@;
                    r.push((k, v));
                    proof {
                        assert forall|p: int, q: int|
                            0 <= p < q < r@.len() implies (#[trigger] r@[p]).0 < (
                        #[trigger] r@[q]).0 by {
                            if q == r@.len() - 1 {
                                let x = choose|x: int|
                                    0 <= x < m && acc@[x] == Command::Put(pre[p].0, pre[p].1);
                                assert(key_of(acc@[x]) < key_of(acc@[m as int]));
                            }
                        }
                        assert forall|k2: i32, v2: i32|
                            #[trigger] r@.contains((k2, v2)) <==> (exists|x: int|
                                0 <= x < m + 1 && acc@[x] == Command::Put(k2, v2)) by {
                            if r@.contains((k2, v2)) {
                                let p = choose|p: int| 0 <= p < r@.len() && r@[p] == (k2, v2);
                                if p < pre.len() {
                                    assert(pre.contains((k2, v2)));
                                } else {
                                    assert(acc@[m as int] == Command::Put(k2, v2));
                                }
                            }
                            if exists|x: int|
                                0 <= x < m + 1 && acc@[x] == Command::Put(k2, v2) {
                                let x = choose|x: int|
                                    0 <= x < m + 1 && acc@[x] == Command::Put(k2, v2);
                                if x < m {
                                    assert(pre.contains((k2, v2)));
                                    let p = choose|p: int|
                                        0 <= p < pre.len() && pre[p] == (k2, v2);
                                    assert(r@[p] == (k2, v2));
                                } else {
                                    assert(r@[r@.len() - 1] == (k2, v2));
                                }
                            }
                        }
                    }
                }
                Command::Delete(_) => {
                    proof {
                        assert forall|k2: i32, v2: i32|
                            #[trigger] r@.contains((k2, v2)) <==> (exists|x: int|
                                0 <= x < m + 1 && acc@[x] == Command::Put(k2, v2)) by {
                            if exists|x: int|
                                0 <= x < m + 1 && acc@[x] == Command::Put(k2, v2) {
                                let x = choose|x: int|
                                    0 <= x < m + 1 && acc@[x] == Command::Put(k2, v2);
                                assert(x < m);
                            }
                        }
                    }
                }
            }
            m = m + 1;
        }
        proof {
            assert forall|k: i32, v: i32|
                #[trigger] r@.contains((k, v)) <==> (lo <= k <= hi && self.spec_get(k) == Some(
                    v,
                )) by {
                crate::merge::lemma_sorted_get_iff(acc@, k);
                if r@.contains((k, v)) {
                    let x = choose|x: int| 0 <= x < acc@.len() && acc@[x] == Command::Put(k, v);
                    assert(acc@.contains(Command::Put(k, v)));
                    assert(cmds_get(acc@, k) == Some(Command::Put(k, v)));
                } else {
                    if lo <= k <= hi && self.spec_get(k) == Some(v) {
                        match self.entry(k) {
                            Some(c) => {
                                assert(cmds_get(acc@, k) == Some(c));
                                match cmds_get(acc@, k) {
                                    Some(c2) => {
                                        assert(acc@.contains(c2));
                                        let x = choose|x: int|
                                            0 <= x < acc@.len() && acc@[x] == c2;
                                        assert(c2 == Command::Put(k, v));
                                        assert(false);
                                    }
                                    None => {
                                        assert(false);
                                    }
                                }
                            }
                            None => {
                                assert(false);
                            }
                        }
                    }
                }
            }
        }
        r
    }

    /// Freezes the just-taken memory level into a table and merges it
    /// into level 1, then cascades: while a level is over its file
    /// budget, merges it into its successor.  An overflowing final
    /// level is tolerated; no data is lost.
    fn handle_overflow(&mut self, mem: MemLevel)
        requires
            old(self).wf(),
            old(self).memory@.len() == 0,
            mem.wf(),
            mem@.len() >= 1,
        ensures
            final(self).wf(),
            final(self).memory == old(self).memory,
            forall|k: i32|
                #[trigger] final(self).entry(k) == match cmds_get(mem@, k) {
                    Some(c) => Some(c),
                    None => old(self).entry(k),
                },
            within_budget(old(self).disk@) ==> within_budget(final(self).disk@),
            final(self).mem_capacity == old(self).mem_capacity,
            final(self).data_directory == old(self).data_directory,
    {
        let dir = crate::disk_level::level_directory_path(self.data_directory.as_str(), 0);
        let l0_table = mem.write_to_table(dir.as_str());
        let ghost table_ghost = l0_table;
        let mut tables: Vec<crate::table::Table> = Vec::new();
        tables.push(l0_table);

        let ghost pre_disk = self.disk@;
        let mut first = self.disk.remove(0);
        let ghost pre_first = first;
        let ghost pre_tables = tables@;
        merge(&mut tables, &mut first);
        self.disk.insert(0, first);
        proof {
            assert(self.disk@ =~= pre_disk.update(0, first));
            assert(tables_cmds(pre_tables) =~= table_ghost.cmds()) by {
                assert(pre_tables.drop_first() =~= Seq::<crate::table::Table>::empty());
                assert(tables_cmds(pre_tables.drop_first()) == Seq::<Command>::empty());
                assert(table_ghost.cmds() + Seq::<Command>::empty() =~= table_ghost.cmds());
            }
            assert(tables@.len() == 0);
            assert(tables_cmds(tables@) =~= Seq::<Command>::empty());
            assert forall|k: i32|
                levels_get(self.disk@, k) == (match cmds_get(mem@, k) {
                    Some(c) => Some(c),
                    None => levels_get(pre_disk, k),
                }) by {
                assert(combined_get(tables@, first.tables@, k) == combined_get(
                    pre_tables,
                    pre_first.tables@,
                    k,
                ));
                assert(cmds_get(tables_cmds(tables@), k) is None);
                assert(self.disk@.drop_first() =~= pre_disk.drop_first());
                assert(self.disk@[0] == first && pre_disk[0] == pre_first);
            }
        }

        // cascade: while a level is over budget, merge it down; merging
        // twice empties a level whose leftovers still overflow, since
        // after the first merge they overlap nothing below
        let ghost target = self.disk@;
        let mut idx: usize = 0;
        let mut cascading: usize = 1;
        while idx < NUM_LEVELS - 1 && cascading == 1
            invariant
                idx <= NUM_LEVELS - 1,
                self.wf(),
                self.memory == old(self).memory,
                self.data_directory == old(self).data_directory,
                self.mem_capacity == old(self).mem_capacity,
                forall|k: i32| #[trigger] levels_get(self.disk@, k) == levels_get(target, k),
                forall|lv: int|
                    0 <= lv < idx ==> (#[trigger] self.disk@[lv]).tables@.len()
                        <= crate::disk_level::spec_file_capacity((lv + 1) as nat),
                forall|lv: int|
                    idx < lv < NUM_LEVELS ==> #[trigger] self.disk@[lv] == target[lv],
                cascading <= 1,
                cascading == 0 ==> idx < NUM_LEVELS - 1 && self.disk@[idx as int].tables@.len()
                    <= crate::disk_level::spec_file_capacity((idx + 1) as nat),
            decreases NUM_LEVELS - idx, cascading,
        {
            if self.disk[idx].is_over_file_capacity() {
                let ghost before = self.disk@;
                let mut cur = self.disk.remove(idx);
                let mut next = self.disk.remove(idx);
                let ghost pre_cur = cur;
                let ghost pre_next = next;
                merge(&mut cur.tables, &mut next);
                let ghost mid_cur = cur;
                let ghost mid_next = next;
                if cur.is_over_file_capacity() {
                    merge(&mut cur.tables, &mut next);
                    proof {
                        assert(cur.tables@.len() == 0);
                        assert forall|k: i32|
                            #[trigger] combined_get(cur.tables@, next.tables@, k)
                            == combined_get(pre_cur.tables@, pre_next.tables@, k) by {
                            assert(combined_get(cur.tables@, next.tables@, k) == combined_get(
                                mid_cur.tables@,
                                mid_next.tables@,
                                k,
                            ));
                        }
                        crate::disk_level::lemma_capacity_pos((idx + 1) as nat);
                    }
                }
                self.disk.insert(idx, cur);
                self.disk.insert(idx + 1, next);
                proof {
                    assert(self.disk@ =~= before.update(idx as int, cur).update(
                        idx + 1,
                        next,
                    ));
                    assert forall|k: i32|
                        #[trigger] levels_get(self.disk@, k) == levels_get(target, k) by {
                        lemma_levels_get_pair(before, self.disk@, idx as int, k);
                    }
                }
                idx = idx + 1;
            } else {
                cascading = 0;
            }
        }
        proof {
            assert forall|k: i32|
                #[trigger] self.entry(k) == (match cmds_get(mem@, k) {
                    Some(c) => Some(c),
                    None => old(self).entry(k),
                }) by {
                assert(cmds_get(self.memory@, k) is None);
                assert(cmds_get(old(self).memory@, k) is None);
            }
            if within_budget(old(self).disk@) {
                assert forall|lv: int|
                    0 <= lv < self.disk@.len() - 1 implies (
                #[trigger] self.disk@[lv]).tables@.len()
                    <= crate::disk_level::spec_file_capacity((lv + 1) as nat) by {
                    if lv > idx {
                        assert(self.disk@[lv] == target[lv]);
                        assert(target[lv] == pre_disk.update(0, first)[lv]);
                        assert(target[lv] == old(self).disk@[lv]);
                        assert(old(self).disk@[lv].tables@.len()
                            <= crate::disk_level::spec_file_capacity((lv + 1) as nat));
                    } else if lv == idx {
                        assert(cascading == 0);
                    }
                }
            }
        }
    }

    /// On clean shutdown: flushes the memory level into the disk levels
    /// so no writes are lost; reads observe the same store.
    pub fn finalize(&mut self)
        requires
            old(self).wf(),
        ensures
            final(self).wf(),
            final(self).memory@.len() == 0,
            forall|k: i32| #[trigger] final(self).entry(k) == old(self).entry(k),
            within_budget(old(self).disk@) ==> within_budget(final(self).disk@),
            final(self).mem_capacity == old(self).mem_capacity,
            final(self).data_directory == old(self).data_directory,
    {
        if self.memory.len() > 0 {
            let old_mem = self.memory.clear();
            self.handle_overflow(old_mem);
        }
    }

    /// Total bytes of all disk levels' files, saturating at the counter
    /// width.
    pub fn size_bytes(&self) -> (r: u64)
        requires
            self.wf(),
        ensures
            r as int == if spec_disk_size(self.disk@) <= u64::MAX as int {
                spec_disk_size(self.disk@)
            } else {
                u64::MAX as int
            },
    {
        let mut total: u64 = 0;
        let mut i: usize = 0;
        while i < self.disk.len()
            invariant
                self.wf(),
                i <= self.disk@.len(),
                total as int == if spec_disk_size(self.disk@.take(i as int)) <= u64::MAX as int {
                    spec_disk_size(self.disk@.take(i as int))
                } else {
                    u64::MAX as int
                },
            decreases self.disk@.len() - i,
        {
            let s = self.disk[i].size_bytes();
            proof {
                lemma_disk_size_push(self.disk@.take(i as int), self.disk@[i as int]);
                assert(self.disk@.take(i + 1) =~= self.disk@.take(i as int).push(
                    self.disk@[i as int],
                ));
                crate::disk_level::lemma_tables_size_nonneg(self.disk@[i as int].tables@);
            }
            if total > u64::MAX - s {
                total = u64::MAX;
            } else {
                total = total + s;
            }
            i = i + 1;
        }
        proof {
            assert(self.disk@.take(self.disk@.len() as int) =~= self.disk@);
        }
        total
    }
}

/// Replacing two adjacent levels while preserving what the pair answers
/// together preserves what the whole cascade answers.
proof fn lemma_levels_get_pair(
    levels: Seq<DiskLevel>,
    levels2: Seq<DiskLevel>,
    idx: int,
    k: i32,
)
    requires
        levels.len() == levels2.len(),
        0 <= idx,
        idx + 1 < levels.len(),
        forall|p: int| 0 <= p < levels.len() && p != idx && p != idx + 1 ==> levels2[p] == levels[p],
        combined_get(levels2[idx].tables@, levels2[idx + 1].tables@, k) == combined_get(
            levels[idx].tables@,
            levels[idx + 1].tables@,
            k,
        ),
    ensures
        levels_get(levels2, k) == levels_get(levels, k),
    decreases idx,
{
    if idx > 0 {
        assert(levels2[0] == levels[0]);
        assert(forall|p: int|
            0 <= p < levels.drop_first().len() ==> levels.drop_first()[p] == levels[p + 1]);
        assert(forall|p: int|
            0 <= p < levels2.drop_first().len() ==> levels2.drop_first()[p] == levels2[p + 1]);
        lemma_levels_get_pair(levels.drop_first(), levels2.drop_first(), idx - 1, k);
    } else {
        let a = levels[0];
        let b = levels[1];
        let a2 = levels2[0];
        let b2 = levels2[1];
        assert(levels.drop_first()[0] == b);
        assert(levels2.drop_first()[0] == b2);
        assert(levels.drop_first().drop_first() =~= levels.skip(2));
        assert(levels2.drop_first().drop_first() =~= levels2.skip(2));
        assert(levels.skip(2) =~= levels2.skip(2));
        assert(levels_get(levels.drop_first(), k) == match b.spec_get(k) {
            Some(c) => Some(c),
            None => levels_get(levels.skip(2), k),
        });
        assert(levels_get(levels2.drop_first(), k) == match b2.spec_get(k) {
            Some(c) => Some(c),
            None => levels_get(levels2.skip(2), k),
        });
        assert(levels_get(levels, k) == match combined_get(a.tables@, b.tables@, k) {
            Some(c) => Some(c),
            None => levels_get(levels.skip(2), k),
        });
        assert(levels_get(levels2, k) == match combined_get(a2.tables@, b2.tables@, k) {
            Some(c) => Some(c),
            None => levels_get(levels2.skip(2), k),
        });
    }
}

/// Sizes add as levels are appended.
proof fn lemma_disk_size_push(levels: Seq<DiskLevel>, l: DiskLevel)
    ensures
        spec_disk_size(levels.push(l)) == spec_disk_size(levels)
            + crate::disk_level::spec_tables_size(l.tables@),
        spec_disk_size(levels) >= 0,
    decreases levels.len(),
{
    if levels.len() == 0 {
        let sp = levels.push(l);
        assert(sp.len() == 1 && sp[0] == l);
        assert(sp.drop_first() =~= Seq::<DiskLevel>::empty());
        assert(spec_disk_size(Seq::<DiskLevel>::empty()) == 0);
        assert(spec_disk_size(sp) == crate::disk_level::spec_tables_size(l.tables@)
            + spec_disk_size(sp.drop_first()));
        crate::disk_level::lemma_tables_size_nonneg(l.tables@);
    } else {
        assert(levels.push(l)[0] == levels[0]);
        assert(levels.push(l).drop_first() =~= levels.drop_first().push(l));
        lemma_disk_size_push(levels.drop_first(), l);
        crate::disk_level::lemma_tables_size_nonneg(levels[0].tables@);
    }
}

/// A cascade of empty levels answers nothing.
proof fn lemma_levels_get_all_empty(levels: Seq<DiskLevel>, k: i32)
    requires
        forall|i: int| 0 <= i < levels.len() ==> (#[trigger] levels[i]).cmds().len() == 0,
    ensures
        levels_get(levels, k) is None,
    decreases levels.len(),
{
    if levels.len() > 0 {
        assert(forall|i: int|
            0 <= i < levels.drop_first().len() ==> levels.drop_first()[i] == levels[i + 1]);
        lemma_levels_get_all_empty(levels.drop_first(), k);
    }
}

} // verus!
