//! The in-memory write buffer: level 0.
//!
//! An ordered mapping from key to `Some(value)` or to a tombstone,
//! held as a command sequence sorted strictly by key.  It is the only
//! mutable structure of the store; when it reaches capacity it is frozen
//! into a table and handed to the disk levels.

use vstd::prelude::*;

use crate::block::{
    cmds_get, entry_of, key_of, lemma_cmds_get_membership, lemma_cmds_get_sorted, sorted_cmds,
    Command,
};
use crate::db::GetResult;

verus! {

/// The write buffer: a mapping with tombstones, iterated in key order.
#[derive(Debug)]
pub struct MemLevel {
    data: Vec<Command>,
}

impl View for MemLevel {
    type V = Seq<Command>;

    closed spec fn view(&self) -> Seq<Command> {
        self.data@
    }
}

/// Index of the first command whose key is not below `key`.
fn lower_bound(data: &Vec<Command>, key: i32) -> (r: usize)
    requires
        sorted_cmds(data@),
    ensures
        r <= data@.len(),
        forall|i: int| 0 <= i < r ==> key_of(data@[i]) < key,
        forall|i: int| r <= i < data@.len() ==> key_of(data@[i]) >= key,
{
    let mut lo: usize = 0;
    let mut hi: usize = data.len();
    while lo < hi
        invariant
            lo <= hi <= data@.len(),
            sorted_cmds(data@),
            forall|i: int| 0 <= i < lo ==> key_of(data@[i]) < key,
            forall|i: int| hi <= i < data@.len() ==> key_of(data@[i]) >= key,
        decreases hi - lo,
    {
        let mid = lo + (hi - lo) / 2;
        if data[mid].key() < key {
            lo = mid + 1;
        } else {
            hi = mid;
        }
    }
    lo
}

impl MemLevel {
    /// Entries are strictly sorted by key: each key appears once.
    pub open spec fn wf(&self) -> bool {
        sorted_cmds(self@)
    }

    /// An empty buffer.
    pub fn new() -> (r: Self)
        ensures
            r.wf(),
            r@ == Seq::<Command>::empty(),
    {
        Self { data: Vec::new() }
    }

    /// Number of keys currently buffered.
    pub fn len(&self) -> (r: usize)
        ensures
            r == self@.len(),
    {
        self.data.len()
    }

    /// The buffered commands in ascending key order.
    pub fn commands(&self) -> (r: &Vec<Command>)
        ensures
            r@ == self@,
    {
        &self.data
    }

    /// Records `cmd` for its key, replacing whatever the buffer held for
    /// that key.
    fn put_cmd(&mut self, cmd: Command)
        requires
            old(self).wf(),
        ensures
            final(self).wf(),
            forall|k: i32|
                cmds_get(final(self)@, k) == if k == key_of(cmd) {
                    Some(cmd)
                } else {
                    cmds_get(old(self)@, k)
                },
            old(self)@.len() <= final(self)@.len() <= old(self)@.len() + 1,
    {
        let key = cmd.key();
        let idx = lower_bound(&self.data, key);
        let ghost s0 = self.data@;
        if idx < self.data.len() && self.data[idx].key() == key {
            self.data[idx] = cmd;
            proof {
                assert(self.data@ =~= s0.update(idx as int, cmd));
            }
        } else {
            self.data.insert(idx, cmd);
            proof {
                assert(forall|j: int| 0 <= j < idx ==> self.data@[j] == s0[j]);
                assert(self.data@[idx as int] == cmd);
                assert(forall|j: int|
                    idx < j < self.data@.len() ==> self.data@[j] == s0[j - 1]);
            }
        }
        proof {
            let s1 = self.data@;
            assert forall|i: int, j: int| 0 <= i < j < s1.len() implies key_of(s1[i]) < key_of(
                s1[j],
            ) by {
                if !(idx < s0.len() && key_of(s0[idx as int]) == key) {
                    if idx < s0.len() {
                        assert(key_of(s0[idx as int]) > key);
                    }
                }
            }
            assert forall|k: i32|
                cmds_get(s1, k) == (if k == key_of(cmd) {
                    Some(cmd)
                } else {
                    cmds_get(s0, k)
                }) by {
                lemma_cmds_get_membership(s0, k);
                lemma_cmds_get_membership(s1, k);
                if k == key_of(cmd) {
                    if idx < s0.len() && key_of(s0[idx as int]) == key {
                        assert(s1[idx as int] == cmd);
                        lemma_cmds_get_sorted(s1, idx as int);
                    } else {
                        assert(s1[idx as int] == cmd);
                        lemma_cmds_get_sorted(s1, idx as int);
                    }
                } else {
                    match cmds_get(s0, k) {
                        Some(c) => {
                            let i = choose|i: int| 0 <= i < s0.len() && s0[i] == c;
                            lemma_cmds_get_sorted(s0, i);
                            if idx < s0.len() && key_of(s0[idx as int]) == key {
                                assert(s1[i] == c);
                                lemma_cmds_get_sorted(s1, i);
                            } else {
                                if i < idx {
                                    assert(s1[i] == c);
                                    lemma_cmds_get_sorted(s1, i);
                                } else {
                                    assert(s1[i + 1] == c);
                                    lemma_cmds_get_sorted(s1, i + 1);
                                }
                            }
                        }
                        None => {
                            assert forall|i: int| 0 <= i < s1.len() implies key_of(s1[i]) != k by {
                                if idx < s0.len() && key_of(s0[idx as int]) == key {
                                    assert(s1[i] == if i == idx {
                                        cmd
                                    } else {
                                        s0[i]
                                    });
                                } else {
                                    if i < idx {
                                        assert(s1[i] == s0[i]);
                                    } else if i > idx {
                                        assert(s1[i] == s0[i - 1]);
                                    }
                                }
                            }
                        }
                    }
                }
            }
        }
    }

    /// Binds `key` to `value`.
    pub fn insert(&mut self, key: i32, value: i32)
        requires
            old(self).wf(),
        ensures
            final(self).wf(),
            forall|k: i32|
                cmds_get(final(self)@, k) == if k == key {
                    Some(Command::Put(key, value))
                } else {
                    cmds_get(old(self)@, k)
                },
            old(self)@.len() <= final(self)@.len() <= old(self)@.len() + 1,
    {
        self.put_cmd(Command::Put(key, value));
    }

    /// Buries `key` under a tombstone.
    pub fn delete(&mut self, key: i32)
        requires
            old(self).wf(),
        ensures
            final(self).wf(),
            forall|k: i32|
                cmds_get(final(self)@, k) == if k == key {
                    Some(Command::Delete(key))
                } else {
                    cmds_get(old(self)@, k)
                },
            old(self)@.len() <= final(self)@.len() <= old(self)@.len() + 1,
    {
        self.put_cmd(Command::Delete(key));
    }

    /// Answers for `key` from the buffer alone.
    pub fn get(&self, key: i32) -> (r: GetResult)
        requires
            self.wf(),
        ensures
            r == match cmds_get(self@, key) {
                None => GetResult::NotFound,
                Some(Command::Delete(_)) => GetResult::Deleted,
                Some(Command::Put(_, val)) => GetResult::Value(val),
            },
    {
        let idx = lower_bound(&self.data, key);
        proof {
            lemma_cmds_get_membership(self@, key);
            if idx < self@.len() && key_of(self@[idx as int]) == key {
                lemma_cmds_get_sorted(self@, idx as int);
            }
        }
        if idx < self.data.len() && self.data[idx].key() == key {
            match self.data[idx] {
                Command::Delete(_) => GetResult::Deleted,
                Command::Put(_, val) => GetResult::Value(val),
            }
        } else {
            GetResult::NotFound
        }
    }

    /// Takes the whole buffer out, leaving it empty; the caller freezes
    /// what it took.
    pub fn clear(&mut self) -> (r: MemLevel)
        requires
            old(self).wf(),
        ensures
            final(self).wf(),
            final(self)@ == Seq::<Command>::empty(),
            r.wf(),
            r@ == old(self)@,
    {
        let mut taken: Vec<Command> = Vec::new();
        core::mem::swap(&mut self.data, &mut taken);
        MemLevel { data: taken }
    }

    /// Freezes the buffer into one immutable sorted run for `to_dir`:
    /// its records packed into pages in key order, tombstones included.
    pub fn write_to_table(&self, to_dir: &str) -> (t: crate::table::Table)
        requires
            self.wf(),
            self@.len() >= 1,
        ensures
            t.wf(),
            t.cmds() == self@,
            t.directory@ == to_dir@,
    {
        let blocks = crate::merge::chunk_blocks(&self.data);
        proof {
            crate::table::lemma_blocks_sorted_facts(blocks@);
            if blocks@.len() == 0 {
                assert(crate::table::blocks_cmds(blocks@) =~= Seq::<Command>::empty());
            }
        }
        let mut tb = crate::table::TableBuilder::new(to_dir);
        let mut i: usize = 0;
        proof {
            assert(crate::table::blocks_cmds(blocks@.take(0)) =~= Seq::<Command>::empty());
        }
        while i < blocks.len()
            invariant
                i <= blocks@.len(),
                crate::table::blocks_cmds(blocks@) == self@,
                sorted_cmds(self@),
                forall|x: int|
                    0 <= x < blocks@.len() ==> (#[trigger] blocks@[x]).wf() && blocks@[x]@.len()
                        >= 1,
                forall|x: int| 0 <= x < blocks@.len() ==> sorted_cmds(#[trigger] blocks@[x]@),
                forall|x: int, y: int|
                    0 <= x < y < blocks@.len() ==> key_of((#[trigger] blocks@[x]@).last())
                        < key_of((#[trigger] blocks@[y]@).first()),
                tb.wf(),
                tb.directory@ == to_dir@,
                tb.blocks@.len() == i,
                tb.cmds() == crate::table::blocks_cmds(blocks@.take(i as int)),
            decreases blocks@.len() - i,
        {
            proof {
                crate::table::lemma_blocks_sorted_compose(blocks@.take(i as int));
                if i > 0 {
                    assert(blocks@.take(i as int)[i - 1] == blocks@[i - 1]);
                    assert(blocks@.take(i as int)[0] == blocks@[0]);
                    assert(tb.cmds().last() == blocks@[i - 1]@.last());
                }
            }
            tb.insert_block(&blocks[i]);
            proof {
                assert(blocks@.take(i + 1) =~= blocks@.take(i as int).push(blocks@[i as int]));
                crate::table::lemma_blocks_cmds_push(blocks@.take(i as int), blocks@[i as int]);
            }
            i = i + 1;
        }
        proof {
            assert(blocks@.take(blocks@.len() as int) =~= blocks@);
        }
        tb.build()
    }

    /// The buffered commands with keys in `[lo, hi]`, in key order.
    pub fn range(&self, lo: i32, hi: i32) -> (r: Vec<Command>)
        requires
            self.wf(),
        ensures
            sorted_cmds(r@),
            forall|k: i32|
                cmds_get(r@, k) == if lo <= k <= hi {
                    cmds_get(self@, k)
                } else {
                    None::<Command>
                },
    {
        let mut r: Vec<Command> = Vec::new();
        let mut i: usize = 0;
        while i < self.data.len()
            invariant
                self.wf(),
                i <= self@.len(),
                r@ == self@.take(i as int).filter(|c: Command| lo <= key_of(c) <= hi),
            decreases self@.len() - i,
        {
            let c = self.data[i];
            proof {
                let p = self@.take(i as int);
                let pred = |c: Command| lo <= key_of(c) <= hi;
                assert(self@.take(i + 1) =~= p.push(self@[i as int]));
                Seq::filter_distributes_over_add(p, seq![self@[i as int]], pred);
                assert(p + seq![self@[i as int]] =~= self@.take(i + 1));
                lemma_filter_singleton(self@[i as int], pred);
                if !pred(self@[i as int]) {
                    assert(p.filter(pred) + Seq::<Command>::empty() =~= p.filter(pred));
                }
            }
            if lo <= c.key() && c.key() <= hi {
                r.push(c);
            }
            i = i + 1;
        }
        proof {
            assert(self@.take(self@.len() as int) =~= self@);
            lemma_filter_range(self@, lo, hi);
        }
        r
    }
}

/// Filtering a sorted command sequence to a key window keeps it sorted
/// and answers lookups exactly inside the window.
proof fn lemma_filter_range(s: Seq<Command>, lo: i32, hi: i32)
    requires
        sorted_cmds(s),
    ensures
        sorted_cmds(s.filter(|c: Command| lo <= key_of(c) <= hi)),
        forall|k: i32|
            cmds_get(s.filter(|c: Command| lo <= key_of(c) <= hi), k) == if lo <= k <= hi {
                cmds_get(s, k)
            } else {
                None::<Command>
            },
    decreases s.len(),
{
    let pred = |c: Command| lo <= key_of(c) <= hi;
    let f = s.filter(pred);
    if s.len() == 0 {
        reveal(Seq::filter);
        assert(f =~= Seq::<Command>::empty());
    } else {
        let rest = s.drop_first();
        lemma_filter_range(rest, lo, hi);
        assert(s =~= seq![s[0]] + rest);
        Seq::filter_distributes_over_add(seq![s[0]], rest, pred);
        assert(f == seq![s[0]].filter(pred) + rest.filter(pred));
        lemma_filter_singleton(s[0], pred);
        if pred(s[0]) {
            assert(seq![s[0]].filter(pred) == seq![s[0]]);
            assert(f =~= seq![s[0]] + rest.filter(pred));
            assert forall|i: int, j: int| 0 <= i < j < f.len() implies key_of(f[i]) < key_of(
                f[j],
            ) by {
                let fr = rest.filter(pred);
                if i == 0 {
                    lemma_filter_subset(rest, pred);
                    let e = fr[j - 1];
                    assert(fr.contains(e));
                    assert(rest.contains(e));
                    let m = choose|m: int| 0 <= m < rest.len() && rest[m] == e;
                    assert(key_of(f[0]) == key_of(s[0]) < key_of(rest[m]));
                } else {
                    assert(f[i] == fr[i - 1] && f[j] == fr[j - 1]);
                }
            }
            assert forall|k: i32|
                cmds_get(f, k) == (if lo <= k <= hi {
                    cmds_get(s, k)
                } else {
                    None::<Command>
                }) by {
                assert(f.len() >= 1 && f[0] == s[0]);
                assert(f.drop_first() =~= rest.filter(pred));
                assert(s.drop_first() == rest);
                if key_of(s[0]) == k {
                    assert(cmds_get(f, k) == Some(s[0]));
                    assert(cmds_get(s, k) == Some(s[0]));
                } else {
                    assert(cmds_get(f, k) == cmds_get(rest.filter(pred), k));
                    assert(cmds_get(s, k) == cmds_get(rest, k));
                }
            }
        } else {
            assert(seq![s[0]].filter(pred) == Seq::<Command>::empty());
            assert(f =~= rest.filter(pred));
            assert forall|k: i32|
                cmds_get(f, k) == (if lo <= k <= hi {
                    cmds_get(s, k)
                } else {
                    None::<Command>
                }) by {
                if key_of(s[0]) == k {
                    assert(!(lo <= k <= hi));
                    lemma_cmds_get_membership(rest.filter(pred), k);
                    if cmds_get(rest.filter(pred), k) is Some {
                        let c = cmds_get(rest.filter(pred), k).unwrap();
                        let m = choose|m: int|
                            0 <= m < rest.filter(pred).len() && rest.filter(pred)[m] == c;
                        lemma_filter_subset(rest, pred);
                        assert(rest.filter(pred)[m] == c);
                        assert(rest.filter(pred).contains(c));
                        assert(rest.contains(c));
                        let w = choose|w: int| 0 <= w < rest.len() && rest[w] == c;
                        assert(rest[w] == s[w + 1]);
                        assert(key_of(rest[w]) > key_of(s[0]));
                    }
                } else {
                    assert(s.drop_first() == rest);
                    assert(cmds_get(s, k) == cmds_get(rest, k));
                    assert(cmds_get(f, k) == cmds_get(rest.filter(pred), k));
                }
            }
        }
    }
}

/// Keeps the commands whose keys fall in `[lo, hi]`, preserving order.
pub fn filter_window(cmds: Vec<Command>, lo: i32, hi: i32) -> (r: Vec<Command>)
    requires
        sorted_cmds(cmds@),
    ensures
        sorted_cmds(r@),
        forall|k: i32|
            cmds_get(r@, k) == if lo <= k <= hi {
                cmds_get(cmds@, k)
            } else {
                None::<Command>
            },
{
    let mut r: Vec<Command> = Vec::new();
    let mut i: usize = 0;
    while i < cmds.len()
        invariant
            sorted_cmds(cmds@),
            i <= cmds@.len(),
            r@ == cmds@.take(i as int).filter(|c: Command| lo <= key_of(c) <= hi),
        decreases cmds@.len() - i,
    {
        let c = cmds[i];
        proof {
            let p = cmds@.take(i as int);
            let pred = |c: Command| lo <= key_of(c) <= hi;
            assert(cmds@.take(i + 1) =~= p.push(cmds@[i as int]));
            Seq::filter_distributes_over_add(p, seq![cmds@[i as int]], pred);
            assert(p + seq![cmds@[i as int]] =~= cmds@.take(i + 1));
            lemma_filter_singleton(cmds@[i as int], pred);
            if !pred(cmds@[i as int]) {
                assert(p.filter(pred) + Seq::<Command>::empty() =~= p.filter(pred));
            }
        }
        if lo <= c.key() && c.key() <= hi {
            r.push(c);
        }
        i = i + 1;
    }
    proof {
        assert(cmds@.take(cmds@.len() as int) =~= cmds@);
        lemma_filter_range(cmds@, lo, hi);
    }
    r
}

/// Filtering a one-element sequence keeps or drops that element.
proof fn lemma_filter_singleton(c: Command, pred: spec_fn(Command) -> bool)
    ensures
        seq![c].filter(pred) == if pred(c) {
            seq![c]
        } else {
            Seq::<Command>::empty()
        },
{
    reveal(Seq::filter);
    let s = seq![c];
    assert(s.drop_last() =~= Seq::<Command>::empty());
    assert(s.last() == c);
    assert(Seq::<Command>::empty().filter(pred) =~= Seq::<Command>::empty());
    if pred(c) {
        assert(s.filter(pred) =~= seq![c]);
    }
}

/// Every element of a filtered sequence comes from the original.
proof fn lemma_filter_subset(s: Seq<Command>, pred: spec_fn(Command) -> bool)
    ensures
        forall|c: Command| #[trigger] s.filter(pred).contains(c) ==> s.contains(c),
    decreases s.len(),
{
    reveal(Seq::filter);
    if s.len() > 0 {
        let dl = s.drop_last();
        lemma_filter_subset(dl, pred);
        assert forall|c: Command| #[trigger] s.filter(pred).contains(c) implies s.contains(c) by {
            if pred(s.last()) {
                if c == s.last() {
                    assert(s[s.len() - 1] == c);
                } else {
                    let fdl = dl.filter(pred);
                    assert(s.filter(pred) == fdl.push(s.last()));
                    let m = choose|m: int|
                        0 <= m < s.filter(pred).len() && s.filter(pred)[m] == c;
                    assert(fdl[m] == c);
                    assert(fdl.contains(c));
                    assert(dl.contains(c));
                    let w = choose|w: int| 0 <= w < dl.len() && dl[w] == c;
                    assert(s[w] == c);
                }
            } else {
                assert(s.filter(pred) == dl.filter(pred));
                assert(dl.contains(c));
                let w = choose|w: int| 0 <= w < dl.len() && dl[w] == c;
                assert(s[w] == c);
            }
        }
    }
}

} // verus!
