//! Immutable sorted runs and their builder.
//!
//! A table is one on-disk file: a raw concatenation of 4096-byte blocks
//! holding commands in strictly ascending key order, plus what is kept
//! resident for it: the key range, a Bloom filter over every key, and the
//! fence index giving each block's first and last key.  The file's name,
//! `{min_key}_{max_key}`, is the authoritative source of the key range
//! when a level directory is read back on startup.

use vstd::prelude::*;

use crate::block::{
    block_bytes, cmds_get, key_of, lemma_cmds_get_membership, lemma_cmds_get_sorted,
    lemma_parse_size, parse_cmds, size_of_cmds, sorted_cmds, BlockMut, BlockView, Command,
};
use crate::bloom::Bloom;
use crate::decimal::{digit_val, i32_dec, i32_to_string, parse_i32, spec_parse_i32};
use crate::{BLOCK_SIZE_BYTES, MAX_FILE_SIZE_BLOCKS};

verus! {

/// The commands of a run of blocks, in file order.
pub open spec fn blocks_cmds(bs: Seq<BlockMut>) -> Seq<Command>
    decreases bs.len(),
{
    if bs.len() == 0 {
        Seq::empty()
    } else {
        bs[0]@ + blocks_cmds(bs.drop_first())
    }
}

/// Appending a block on the right appends its commands.
pub proof fn lemma_blocks_cmds_push(bs: Seq<BlockMut>, b: BlockMut)
    ensures
        blocks_cmds(bs.push(b)) == blocks_cmds(bs) + b@,
    decreases bs.len(),
{
    if bs.len() == 0 {
        let sp = bs.push(b);
        assert(sp.len() == 1 && sp[0] == b);
        assert(sp.drop_first() =~= Seq::<BlockMut>::empty());
        assert(blocks_cmds(sp) == b@ + blocks_cmds(sp.drop_first()));
        assert(b@ + Seq::<Command>::empty() =~= b@);
        assert(blocks_cmds(bs) + b@ =~= b@);
    } else {
        assert(bs.push(b)[0] == bs[0]);
        assert(bs.push(b).drop_first() =~= bs.drop_first().push(b));
        lemma_blocks_cmds_push(bs.drop_first(), b);
        assert(bs[0]@ + (blocks_cmds(bs.drop_first()) + b@) =~= (bs[0]@ + blocks_cmds(
            bs.drop_first(),
        )) + b@);
    }
}

/// How block-local positions sit inside the concatenation: every command
/// of every block appears in the flattened sequence, and conversely.
pub proof fn lemma_blocks_cmds_membership(bs: Seq<BlockMut>)
    ensures
        forall|c: Command|
            #[trigger] blocks_cmds(bs).contains(c) <==> exists|i: int|
                0 <= i < bs.len() && #[trigger] bs[i]@.contains(c),
    decreases bs.len(),
{
    if bs.len() > 0 {
        lemma_blocks_cmds_membership(bs.drop_first());
        let whole = blocks_cmds(bs);
        let rest = blocks_cmds(bs.drop_first());
        assert forall|c: Command| #[trigger] whole.contains(c) implies exists|i: int|
            0 <= i < bs.len() && #[trigger] bs[i]@.contains(c) by {
            let m = choose|m: int| 0 <= m < whole.len() && whole[m] == c;
            if m < bs[0]@.len() {
                assert(bs[0]@[m] == c);
                assert(bs[0]@.contains(c));
            } else {
                assert(rest[m - bs[0]@.len()] == c);
                assert(rest.contains(c));
                let i = choose|i: int| 0 <= i < bs.drop_first().len() && bs.drop_first()[i]@.contains(c);
                assert(bs[i + 1]@.contains(c));
            }
        }
        assert forall|c: Command|
            (exists|i: int| 0 <= i < bs.len() && #[trigger] bs[i]@.contains(c)) implies #[trigger] whole.contains(c) by {
            let i = choose|i: int| 0 <= i < bs.len() && bs[i]@.contains(c);
            let m = choose|m: int| 0 <= m < bs[i]@.len() && bs[i]@[m] == c;
            if i == 0 {
                assert(whole[m] == c);
            } else {
                assert(bs.drop_first()[i - 1]@.contains(c));
                assert(rest.contains(c));
                let w = choose|w: int| 0 <= w < rest.len() && rest[w] == c;
                assert(whole[bs[0]@.len() + w] == c);
            }
        }
    }
}

/// In a sorted concatenation of nonempty blocks, each block is sorted,
/// holds only keys within its own first/last fence, and the fences of
/// consecutive blocks are strictly increasing.
pub proof fn lemma_blocks_sorted_facts(bs: Seq<BlockMut>)
    requires
        sorted_cmds(blocks_cmds(bs)),
        forall|i: int| 0 <= i < bs.len() ==> #[trigger] bs[i]@.len() >= 1,
    ensures
        forall|i: int| 0 <= i < bs.len() ==> sorted_cmds(#[trigger] bs[i]@),
        forall|i: int, m: int|
            0 <= i < bs.len() && 0 <= m < bs[i]@.len() ==> key_of(bs[i]@.first()) <= key_of(
                #[trigger] bs[i]@[m],
            ) <= key_of(bs[i]@.last()),
        forall|i: int, j: int|
            0 <= i < j < bs.len() ==> key_of(#[trigger] bs[i]@.last()) < key_of(
                #[trigger] bs[j]@.first(),
            ),
    decreases bs.len(),
{
    if bs.len() > 0 {
        let whole = blocks_cmds(bs);
        let first = bs[0]@;
        let rest = blocks_cmds(bs.drop_first());
        assert(whole == first + rest);
        assert(sorted_cmds(first)) by {
            assert(forall|m: int| 0 <= m < first.len() ==> first[m] == whole[m]);
        }
        assert(sorted_cmds(rest)) by {
            assert(forall|m: int|
                0 <= m < rest.len() ==> rest[m] == whole[first.len() + m]);
        }
        lemma_blocks_sorted_facts(bs.drop_first());
        lemma_blocks_cmds_membership(bs.drop_first());
        assert forall|i: int| 0 <= i < bs.len() implies sorted_cmds(#[trigger] bs[i]@) by {
            if i > 0 {
                assert(bs.drop_first()[i - 1] == bs[i]);
            }
        }
        assert forall|i: int, j: int|
            0 <= i < j < bs.len() implies key_of(#[trigger] bs[i]@.last()) < key_of(
            #[trigger] bs[j]@.first(),
        ) by {
            if i == 0 {
                // first's last sits before everything in rest
                let c = bs[j]@.first();
                assert(bs.drop_first()[j - 1]@.contains(c));
                assert(rest.contains(c));
                let w = choose|w: int| 0 <= w < rest.len() && rest[w] == c;
                assert(whole[first.len() - 1] == first.last());
                assert(whole[first.len() + w] == c);
            } else {
                assert(bs.drop_first()[i - 1]@.last() == bs[i]@.last());
            }
        }
        assert forall|i: int, m: int|
            0 <= i < bs.len() && 0 <= m < bs[i]@.len() implies key_of(bs[i]@.first()) <= key_of(
            #[trigger] bs[i]@[m],
        ) <= key_of(bs[i]@.last()) by {
            if i == 0 {
                assert(first[0] == whole[0] && first[m] == whole[m]);
                assert(first.last() == whole[first.len() - 1]);
            } else {
                assert(bs.drop_first()[i - 1]@ == bs[i]@);
            }
        }
    }
}

/// How two key ranges sit relative to each other.
#[derive(Clone, Copy, Debug, PartialEq, Eq, Structural)]
pub enum Overlap {
    /// Entirely below: every key of the left range is under the right one.
    Below,
    /// Entirely above.
    Above,
    /// The ranges share at least one key.
    Meets,
}

/// The canonical file name for a key range: `{min}_{max}`.
pub open spec fn spec_file_name(min: i32, max: i32) -> Seq<char> {
    i32_dec(min) + seq!['_'] + i32_dec(max)
}

/// Bytes a file of `n` blocks occupies, saturating at the counter's width.
pub open spec fn spec_file_size(n: int) -> int {
    if n * BLOCK_SIZE_BYTES <= u64::MAX as int {
        n * BLOCK_SIZE_BYTES
    } else {
        u64::MAX as int
    }
}

/// Computes `spec_file_size` of `n` blocks.
fn file_size_of(n: usize) -> (r: u64)
    ensures
        r as int == spec_file_size(n as int),
{
    if n as u64 > u64::MAX / (BLOCK_SIZE_BYTES as u64) {
        proof {
            assert(n * BLOCK_SIZE_BYTES > u64::MAX) by (nonlinear_arith)
                requires
                    n > u64::MAX as int / 4096,
            ;
        }
        u64::MAX
    } else {
        proof {
            assert(n * BLOCK_SIZE_BYTES <= u64::MAX) by (nonlinear_arith)
                requires
                    n <= u64::MAX as int / 4096,
            ;
        }
        (n as u64) * (BLOCK_SIZE_BYTES as u64)
    }
}

/// One immutable sorted run and its resident metadata.
#[derive(Debug)]
pub struct Table {
    /// The level directory the table's file currently lives in.
    pub directory: String,
    /// Smallest key in the file (inclusive); part of the file name.
    pub min_key: i32,
    /// Largest key in the file (inclusive); part of the file name.
    pub max_key: i32,
    /// Size of the backing file in bytes.
    pub file_size: u64,
    /// The file's contents, one entry per 4096-byte block.
    pub blocks: Vec<BlockMut>,
    /// Filter over every key in the file.
    pub bloom: Bloom,
    /// Fence pointers: first and last key of each block.
    pub index: Vec<(i32, i32)>,
}

impl Table {
    /// Every command in the file, in file order.
    pub open spec fn cmds(&self) -> Seq<Command> {
        blocks_cmds(self.blocks@)
    }

    /// The run's invariant: sorted nonempty blocks, fences and key range
    /// agreeing with the contents, and a Bloom filter that has seen every
    /// key (bloom soundness).
    pub open spec fn wf(&self) -> bool {
        &&& self.blocks@.len() >= 1
        &&& forall|i: int|
            0 <= i < self.blocks@.len() ==> (#[trigger] self.blocks@[i]).wf()
                && self.blocks@[i]@.len() >= 1
        &&& sorted_cmds(self.cmds())
        &&& self.index@.len() == self.blocks@.len()
        &&& forall|i: int|
            0 <= i < self.blocks@.len() ==> (#[trigger] self.index@[i]).0 == key_of(
                self.blocks@[i]@.first(),
            ) && self.index@[i].1 == key_of(self.blocks@[i]@.last())
        &&& self.cmds().len() >= 1
        &&& self.min_key == key_of(self.cmds().first())
        &&& self.max_key == key_of(self.cmds().last())
        &&& self.min_key <= self.max_key
        &&& self.file_size as int == spec_file_size(self.blocks@.len() as int)
        &&& self.bloom.wf()
        &&& forall|m: int|
            0 <= m < self.cmds().len() ==> self.bloom.spec_has(key_of(#[trigger] self.cmds()[m]))
    }

    /// The command stored for `key`, if the run holds that key.
    pub open spec fn spec_get(&self, key: i32) -> Option<Command> {
        cmds_get(self.cmds(), key)
    }

    /// Every command in the file, in ascending key order.
    pub fn commands(&self) -> (r: Vec<Command>)
        ensures
            r@ == self.cmds(),
    {
        let mut r: Vec<Command> = Vec::new();
        let mut i: usize = 0;
        proof {
            assert(blocks_cmds(self.blocks@.take(0)) =~= Seq::<Command>::empty());
            assert(r@ =~= blocks_cmds(self.blocks@.take(0)));
        }
        while i < self.blocks.len()
            invariant
                i <= self.blocks@.len(),
                r@ == blocks_cmds(self.blocks@.take(i as int)),
            decreases self.blocks@.len() - i,
        {
            let ghost pre = r@;
            let block_cmds = self.blocks[i].commands();
            let mut j: usize = 0;
            while j < block_cmds.len()
                invariant
                    j <= block_cmds@.len(),
                    block_cmds@ == self.blocks@[i as int]@,
                    i < self.blocks@.len(),
                    r@ == pre + block_cmds@.take(j as int),
                decreases block_cmds@.len() - j,
            {
                r.push(block_cmds[j]);
                proof {
                    assert(r@ =~= pre + block_cmds@.take(j + 1));
                }
                j = j + 1;
            }
            proof {
                assert(block_cmds@.take(block_cmds@.len() as int) =~= block_cmds@);
                lemma_blocks_cmds_push(self.blocks@.take(i as int), self.blocks@[i as int]);
                assert(self.blocks@.take(i + 1) =~= self.blocks@.take(i as int).push(
                    self.blocks@[i as int],
                ));
            }
            i = i + 1;
        }
        proof {
            assert(self.blocks@.take(self.blocks@.len() as int) =~= self.blocks@);
        }
        r
    }

    /// How this run's key range sits relative to `other`'s.
    pub fn intersects(&self, other: &Table) -> (r: Overlap)
        requires
            self.min_key <= self.max_key,
            other.min_key <= other.max_key,
        ensures
            r == Overlap::Below <==> self.max_key < other.min_key,
            r == Overlap::Above <==> self.min_key > other.max_key,
            r == Overlap::Meets <==> (self.max_key >= other.min_key && self.min_key
                <= other.max_key),
    {
        if self.max_key < other.min_key {
            Overlap::Below
        } else if self.min_key > other.max_key {
            Overlap::Above
        } else {
            Overlap::Meets
        }
    }

    /// The file name encoding the key range: `{min}_{max}`.
    pub fn file_name(&self) -> (r: String)
        ensures
            r@ == spec_file_name(self.min_key, self.max_key),
    {
        let mut s = i32_to_string(self.min_key);
        proof {
            reveal_strlit("_");
        }
        s.append("_");
        let max_str = i32_to_string(self.max_key);
        s.append(max_str.as_str());
        proof {
            assert("_"@ =~= seq!['_']);
            assert(s@ =~= spec_file_name(self.min_key, self.max_key));
        }
        s
    }

    /// Where the file lives: `{directory}/{min}_{max}`.
    pub fn file_path(&self) -> (r: String)
        ensures
            r@ == self.directory@ + seq!['/'] + spec_file_name(self.min_key, self.max_key),
    {
        let mut s = self.directory.clone();
        proof {
            reveal_strlit("/");
        }
        s.append("/");
        let name = self.file_name();
        s.append(name.as_str());
        proof {
            assert("/"@ =~= seq!['/']);
            assert(s@ =~= self.directory@ + seq!['/'] + spec_file_name(
                self.min_key,
                self.max_key,
            ));
        }
        s
    }

    /// Moves the table to another level directory; the caller performs
    /// the file rename this records.
    pub fn rename(&mut self, to_dir: &str)
        ensures
            final(self).directory@ == to_dir@,
            final(self).min_key == old(self).min_key,
            final(self).max_key == old(self).max_key,
            final(self).file_size == old(self).file_size,
            final(self).blocks == old(self).blocks,
            final(self).bloom == old(self).bloom,
            final(self).index == old(self).index,
            final(self).wf() == old(self).wf(),
    {
        self.directory = to_dir.to_owned();
    }

    /// The byte image of the backing file, one 4096-byte page per block.
    pub fn file_bytes(&self) -> (r: Vec<Vec<u8>>)
        requires
            self.wf(),
        ensures
            r@.len() == self.blocks@.len(),
            forall|i: int|
                0 <= i < r@.len() ==> (#[trigger] r@[i])@ == block_bytes(self.blocks@[i]@),
    {
        let mut r: Vec<Vec<u8>> = Vec::new();
        let mut i: usize = 0;
        while i < self.blocks.len()
            invariant
                self.wf(),
                i <= self.blocks@.len(),
                r@.len() == i,
                forall|j: int|
                    0 <= j < i ==> (#[trigger] r@[j])@ == block_bytes(self.blocks@[j]@),
            decreases self.blocks@.len() - i,
        {
            r.push(self.blocks[i].to_bytes());
            i = i + 1;
        }
        r
    }
}

/// Accumulates blocks into a new table.  The backing file is written
/// under a temporary name; `build` computes the final `{min}_{max}` name
/// the caller renames it to.
#[derive(Debug)]
pub struct TableBuilder {
    /// The level directory the new file is created in.
    pub directory: String,
    /// Smallest key inserted so far, once any block has been.
    pub min_key: Option<i32>,
    /// Largest key inserted so far.
    pub max_key: Option<i32>,
    /// Filter over every key inserted so far.
    pub bloom: Bloom,
    /// Fence pointers of the blocks inserted so far.
    pub index: Vec<(i32, i32)>,
    /// The blocks inserted so far.
    pub blocks: Vec<BlockMut>,
}

impl TableBuilder {
    /// Every command streamed in so far, in file order.
    pub open spec fn cmds(&self) -> Seq<Command> {
        blocks_cmds(self.blocks@)
    }

    pub open spec fn wf(&self) -> bool {
        &&& forall|i: int|
            0 <= i < self.blocks@.len() ==> (#[trigger] self.blocks@[i]).wf()
                && self.blocks@[i]@.len() >= 1
        &&& sorted_cmds(self.cmds())
        &&& self.index@.len() == self.blocks@.len()
        &&& forall|i: int|
            0 <= i < self.blocks@.len() ==> (#[trigger] self.index@[i]).0 == key_of(
                self.blocks@[i]@.first(),
            ) && self.index@[i].1 == key_of(self.blocks@[i]@.last())
        &&& (self.blocks@.len() == 0 ==> self.cmds().len() == 0 && self.min_key is None
            && self.max_key is None)
        &&& (self.blocks@.len() > 0 ==> self.cmds().len() > 0 && self.min_key == Some(
            key_of(self.cmds().first()),
        ) && self.max_key == Some(key_of(self.cmds().last())))
        &&& self.bloom.wf()
        &&& forall|m: int|
            0 <= m < self.cmds().len() ==> self.bloom.spec_has(key_of(#[trigger] self.cmds()[m]))
    }

    /// A builder with nothing inserted, writing under `directory`.
    pub fn new(directory: &str) -> (r: Self)
        ensures
            r.wf(),
            r.blocks@.len() == 0,
            r.directory@ == directory@,
    {
        let r = Self {
            directory: directory.to_owned(),
            min_key: None,
            max_key: None,
            bloom: Bloom::new(crate::BLOOM_CAPACITY),
            index: Vec::new(),
            blocks: Vec::new(),
        };
        proof {
            assert(blocks_cmds(r.blocks@) =~= Seq::<Command>::empty());
        }
        r
    }

    /// Appends one full block: writes its page, extends the fence index,
    /// feeds every key to the Bloom filter, and widens the key range.
    /// Blocks must arrive in ascending key order.
    pub fn insert_block(&mut self, block: &BlockMut)
        requires
            old(self).wf(),
            block.wf(),
            block@.len() >= 1,
            sorted_cmds(block@),
            old(self).cmds().len() > 0 ==> key_of(block@.first()) > key_of(
                old(self).cmds().last(),
            ),
        ensures
            final(self).wf(),
            final(self).cmds() == old(self).cmds() + block@,
            final(self).blocks@.len() == old(self).blocks@.len() + 1,
            final(self).blocks@.drop_last() == old(self).blocks@,
            final(self).blocks@.last()@ == block@,
            final(self).directory == old(self).directory,
    {
        let ghost old_cmds = self.cmds();
        let block_cmds = block.commands();
        let first = block_cmds[0].key();
        let last = block_cmds[block_cmds.len() - 1].key();

        if self.min_key.is_none() {
            self.min_key = Some(first);
        }
        self.max_key = Some(last);
        self.index.push((first, last));

        let mut j: usize = 0;
        while j < block_cmds.len()
            invariant
                j <= block_cmds@.len(),
                block_cmds@ == block@,
                self.bloom.wf(),
                forall|m: int| 0 <= m < j ==> self.bloom.spec_has(key_of(#[trigger] block@[m])),
                forall|m: int|
                    0 <= m < old_cmds.len() ==> self.bloom.spec_has(
                        key_of(#[trigger] old_cmds[m]),
                    ),
                self.blocks == old(self).blocks,
                self.index@ == old(self).index@.push((key_of(block@.first()), key_of(
                    block@.last(),
                ))),
                self.directory == old(self).directory,
                self.min_key == if old(self).blocks@.len() == 0 {
                    Some(key_of(block@.first()))
                } else {
                    old(self).min_key
                },
                self.max_key == Some(key_of(block@.last())),
            decreases block_cmds@.len() - j,
        {
            self.bloom.put(block_cmds[j].key());
            j = j + 1;
        }

        self.blocks.push(block.duplicate());
        proof {
            lemma_blocks_cmds_push(old(self).blocks@, self.blocks@.last());
            assert(self.blocks@.drop_last() =~= old(self).blocks@);
            assert(self.cmds() =~= old_cmds + block@);
            let n = self.cmds();
            assert forall|i: int, j2: int| 0 <= i < j2 < n.len() implies key_of(n[i]) < key_of(
                n[j2],
            ) by {
                if i < old_cmds.len() && j2 >= old_cmds.len() {
                    assert(key_of(old_cmds[i]) <= key_of(old_cmds.last()));
                    assert(key_of(block@.first()) <= key_of(block@[j2 - old_cmds.len()]));
                }
            }
            if old_cmds.len() > 0 {
                assert(n.first() == old_cmds.first());
            } else {
                assert(n =~= block@);
            }
            assert(n.last() == block@.last());
        }
    }

    /// Whether the file has reached its block budget and must be sealed.
    pub fn full(&self) -> (r: bool)
        ensures
            r == (self.blocks@.len() >= MAX_FILE_SIZE_BLOCKS),
    {
        self.blocks.len() >= MAX_FILE_SIZE_BLOCKS
    }

    /// Whether nothing has been inserted yet.
    pub fn is_empty(&self) -> (r: bool)
        ensures
            r == (self.blocks@.len() == 0),
    {
        self.blocks.len() == 0
    }

    /// Seals the run: the caller renames the temporary file to the
    /// `{min}_{max}` name of the emitted table.
    pub fn build(self) -> (r: Table)
        requires
            self.wf(),
            self.blocks@.len() >= 1,
        ensures
            r.wf(),
            r.cmds() == self.cmds(),
            r.blocks == self.blocks,
            r.directory == self.directory,
            r.min_key == key_of(self.cmds().first()),
            r.max_key == key_of(self.cmds().last()),
    {
        let min_key = match self.min_key {
            Some(k) => k,
            None => unreached(),
        };
        let max_key = match self.max_key {
            Some(k) => k,
            None => unreached(),
        };
        let file_size = file_size_of(self.blocks.len());
        proof {
            let c = self.cmds();
            assert(key_of(c.first()) <= key_of(c.last()));
        }
        Table {
            directory: self.directory,
            min_key,
            max_key,
            file_size,
            blocks: self.blocks,
            bloom: self.bloom,
            index: self.index,
        }
    }
}

/// What a table file's pages parse to, page by page.
pub open spec fn parse_blocks(bb: Seq<Seq<u8>>) -> Option<Seq<Seq<Command>>>
    decreases bb.len(),
{
    if bb.len() == 0 {
        Some(Seq::empty())
    } else {
        match parse_cmds(bb[0]) {
            None => None,
            Some(c) => match parse_blocks(bb.drop_first()) {
                None => None,
                Some(r) => Some(seq![c] + r),
            },
        }
    }
}

/// Whether a file name and the file's pages reconstruct a well-formed
/// run: every page parses, no page is empty, keys ascend within and
/// across pages, and the name is the canonical one for the key range the
/// contents span.
pub open spec fn valid_table_file(name: Seq<char>, bb: Seq<Seq<u8>>) -> bool {
    match parse_blocks(bb) {
        None => false,
        Some(cs) => {
            &&& bb.len() >= 1
            &&& forall|i: int| 0 <= i < cs.len() ==> (#[trigger] cs[i]).len() >= 1
            &&& forall|i: int| 0 <= i < cs.len() ==> sorted_cmds(#[trigger] cs[i])
            &&& forall|i: int|
                0 <= i < cs.len() - 1 ==> key_of((#[trigger] cs[i]).last()) < key_of(
                    cs[i + 1].first(),
                )
            &&& name == spec_file_name(key_of(cs.first().first()), key_of(cs.last().last()))
        },
    }
}

/// Pages parse one-for-one.
pub proof fn lemma_parse_blocks_len(bb: Seq<Seq<u8>>)
    ensures
        match parse_blocks(bb) {
            Some(cs) => cs.len() == bb.len(),
            None => true,
        },
    decreases bb.len(),
{
    if bb.len() > 0 {
        lemma_parse_blocks_len(bb.drop_first());
    }
}

/// Sorted nonempty blocks whose fences ascend concatenate to a sorted
/// run that starts and ends on the outer fences.
pub proof fn lemma_blocks_sorted_compose(bs: Seq<BlockMut>)
    requires
        forall|i: int| 0 <= i < bs.len() ==> (#[trigger] bs[i]@).len() >= 1,
        forall|i: int| 0 <= i < bs.len() ==> sorted_cmds(#[trigger] bs[i]@),
        forall|i: int|
            0 <= i < bs.len() - 1 ==> key_of((#[trigger] bs[i]@).last()) < key_of(
                bs[i + 1]@.first(),
            ),
    ensures
        sorted_cmds(blocks_cmds(bs)),
        bs.len() > 0 ==> blocks_cmds(bs).len() >= 1 && blocks_cmds(bs).first() == bs[0]@.first()
            && blocks_cmds(bs).last() == bs[bs.len() - 1]@.last(),
    decreases bs.len(),
{
    if bs.len() > 0 {
        let whole = blocks_cmds(bs);
        let first = bs[0]@;
        let rest_bs = bs.drop_first();
        let rest = blocks_cmds(rest_bs);
        assert(forall|i: int| 0 <= i < rest_bs.len() ==> rest_bs[i] == bs[i + 1]);
        lemma_blocks_sorted_compose(rest_bs);
        assert(whole == first + rest);
        assert forall|i: int, j: int| 0 <= i < j < whole.len() implies key_of(whole[i]) < key_of(
            whole[j],
        ) by {
            if i < first.len() && j < first.len() {
                assert(whole[i] == first[i] && whole[j] == first[j]);
            } else if i >= first.len() {
                assert(whole[i] == rest[i - first.len()] && whole[j] == rest[j - first.len()]);
            } else {
                assert(whole[i] == first[i] && whole[j] == rest[j - first.len()]);
                assert(key_of(first[i]) <= key_of(first.last()));
                assert(rest.first() == bs[1]@.first());
                assert(key_of(first.last()) < key_of(rest.first()));
                if j - first.len() > 0 {
                    assert(key_of(rest[0]) < key_of(rest[j - first.len()]));
                }
            }
        }
        if rest_bs.len() > 0 {
            assert(whole.last() == rest.last());
            assert(rest_bs[rest_bs.len() - 1] == bs[bs.len() - 1]);
        }
        assert(whole.first() == first.first());
    }
}

/// In the canonical name of a key range, the first underscore separates
/// the two canonical integers, and only their spellings surround it.
pub proof fn lemma_name_split(name: Seq<char>, a: i32, b: i32)
    requires
        name == spec_file_name(a, b),
    ensures
        ({
            let p = i32_dec(a).len() as int;
            &&& 0 <= p < name.len()
            &&& name[p] == '_'
            &&& forall|i: int| 0 <= i < p ==> name[i] != '_'
            &&& spec_parse_i32(name.take(p)) == Some(a)
            &&& spec_parse_i32(name.skip(p + 1)) == Some(b)
        }),
{
    let p = i32_dec(a).len() as int;
    crate::decimal::lemma_i32_dec_chars(a);
    crate::decimal::lemma_i32_dec_chars(b);
    assert(name.take(p) =~= i32_dec(a));
    assert(name.skip(p + 1) =~= i32_dec(b));
    assert(name[p] == '_');
    assert forall|i: int| 0 <= i < p implies name[i] != '_' by {
        assert(name[i] == i32_dec(a)[i]);
        assert(digit_val('_') == 10);
    }
    crate::decimal::lemma_parse_render(a);
    crate::decimal::lemma_parse_render(b);
}

impl Table {
    /// Reads a run back from a level directory: parses the key range
    /// out of the file name, streams the pages to rebuild the Bloom
    /// filter and the fence index, and checks every invariant the name
    /// and contents must satisfy.  `None` is a format error, fatal to
    /// startup.
    #[verifier::loop_isolation(false)]
    #[verifier::rlimit(100)]
    pub fn create_from_existing(
        directory: &str,
        file_name: &str,
        file_blocks: &Vec<Vec<u8>>,
    ) -> (r: Option<Table>)
        requires
            forall|i: int|
                0 <= i < file_blocks@.len() ==> (#[trigger] file_blocks@[i])@.len()
                    <= BLOCK_SIZE_BYTES,
        ensures
            ({
                let bb = file_blocks.deep_view();
                match r {
                    Some(t) => {
                        &&& valid_table_file(file_name@, bb)
                        &&& t.wf()
                        &&& t.directory@ == directory@
                        &&& parse_blocks(bb) == Some(
                            t.blocks@.map_values(|b: BlockMut| b@),
                        )
                        &&& spec_file_name(t.min_key, t.max_key) == file_name@
                    },
                    None => !valid_table_file(file_name@, bb),
                }
            }),
    {
        let ghost bb = file_blocks.deep_view();
        let name_len = file_name.unicode_len();

        // Locate the separator: the name is `{min}_{max}`.
        let p = match find_underscore(file_name) {
            Some(p) => p,
            None => {
                proof {
                    if valid_table_file(file_name@, bb) {
                        lemma_valid_name_parses(file_name@, bb);
                    }
                }
                return None;
            }
        };

        let min_str = file_name.substring_char(0, p);
        let max_str = file_name.substring_char(p + 1, name_len);
        proof {
            assert(min_str@ =~= file_name@.take(p as int));
            assert(max_str@ =~= file_name@.skip(p + 1));
        }
        let minv = match parse_i32(min_str) {
            Some(v) => v,
            None => {
                proof {
                    if valid_table_file(file_name@, bb) {
                        lemma_valid_name_parses(file_name@, bb);
                        if let Some(cs0) = parse_blocks(bb) {
                            let k1 = key_of(cs0.first().first());
                            lemma_first_underscore_unique(
                                file_name@,
                                p as int,
                                i32_dec(k1).len() as int,
                            );
                        }
                    }
                }
                return None;
            }
        };
        let maxv = match parse_i32(max_str) {
            Some(v) => v,
            None => {
                proof {
                    if valid_table_file(file_name@, bb) {
                        lemma_valid_name_parses(file_name@, bb);
                        if let Some(cs0) = parse_blocks(bb) {
                            let k1 = key_of(cs0.first().first());
                            lemma_first_underscore_unique(
                                file_name@,
                                p as int,
                                i32_dec(k1).len() as int,
                            );
                        }
                    }
                }
                return None;
            }
        };

        if file_blocks.len() == 0 {
            return None;
        }

        // Parse every page.
        let mut blocks: Vec<BlockMut> = Vec::new();
        let mut i: usize = 0;
        proof {
            assert(bb.skip(0) =~= bb);
            if let Some(rest) = parse_blocks(bb) {
                assert(blocks@.map_values(|b: BlockMut| b@) + rest =~= rest);
            }
        }
        while i < file_blocks.len()
            invariant
                i <= bb.len(),
                bb == file_blocks.deep_view(),
                blocks@.len() == i,
                forall|j: int|
                    0 <= j < i ==> (#[trigger] blocks@[j]).wf(),
                parse_blocks(bb) == match parse_blocks(bb.skip(i as int)) {
                    Some(rest) => Some(blocks@.map_values(|b: BlockMut| b@) + rest),
                    None => None::<Seq<Seq<Command>>>,
                },
            decreases bb.len() - i,
        {
            let ghost suffix = bb.skip(i as int);
            proof {
                assert(suffix[0] == bb[i as int]);
                assert(bb[i as int] == file_blocks@[i as int]@);
            }
            let bv = match BlockView::parse(&file_blocks[i]) {
                Some(bv) => bv,
                None => {
                    proof {
                        assert(parse_blocks(suffix) is None);
                    }
                    return None;
                }
            };
            proof {
                lemma_parse_size(bb[i as int]);
                assert(suffix.drop_first() =~= bb.skip(i + 1));
            }
            let cmds = bv.into_commands();
            let block = BlockMut::from_commands(cmds);
            proof {
                if let Some(rest) = parse_blocks(bb.skip(i + 1)) {
                    assert(blocks@.map_values(|b: BlockMut| b@) + (seq![block@] + rest)
                        =~= blocks@.push(block).map_values(|b: BlockMut| b@) + rest);
                }
            }
            blocks.push(block);
            i = i + 1;
        }
        proof {
            assert(bb.skip(bb.len() as int) =~= Seq::<Seq<u8>>::empty());
            assert(parse_blocks(Seq::<Seq<u8>>::empty()) == Some(Seq::<Seq<Command>>::empty()));
            assert(blocks@.map_values(|b: BlockMut| b@) + Seq::<Seq<Command>>::empty()
                =~= blocks@.map_values(|b: BlockMut| b@));
        }
        let ghost cs = blocks@.map_values(|b: BlockMut| b@);

        // Validate: nonempty sorted pages with ascending fences.
        let mut tb = TableBuilder::new(directory);
        let mut k: usize = 0;
        while k < blocks.len()
            invariant
                k <= blocks@.len(),
                blocks@.len() >= 1,
                cs == blocks@.map_values(|b: BlockMut| b@),
                forall|j: int| 0 <= j < blocks@.len() ==> (#[trigger] blocks@[j]).wf(),
                forall|j: int| 0 <= j < k ==> (#[trigger] blocks@[j])@.len() >= 1,
                forall|j: int| 0 <= j < k ==> sorted_cmds((#[trigger] blocks@[j])@),
                forall|j: int|
                    0 <= j < k - 1 ==> key_of((#[trigger] blocks@[j])@.last()) < key_of(
                        blocks@[j + 1]@.first(),
                    ),
                tb.wf(),
                tb.directory@ == directory@,
                tb.cmds() == blocks_cmds(blocks@.take(k as int)),
                tb.blocks@.len() == k,
                forall|j: int| 0 <= j < k ==> (#[trigger] tb.blocks@[j])@ == blocks@[j]@,
            decreases blocks@.len() - k,
        {
            let block_cmds = blocks[k].commands();
            if block_cmds.len() == 0 {
                proof {
                    assert(cs[k as int].len() == 0);
                }
                return None;
            }
            let mut j: usize = 1;
            while j < block_cmds.len()
                invariant
                    1 <= j <= block_cmds@.len(),
                    block_cmds@ == blocks@[k as int]@,
                    k < blocks@.len(),
                    cs == blocks@.map_values(|b: BlockMut| b@),
                    forall|x: int, y: int|
                        0 <= x < y < j ==> key_of(block_cmds@[x]) < key_of(block_cmds@[y]),
                decreases block_cmds@.len() - j,
            {
                if block_cmds[j - 1].key() >= block_cmds[j].key() {
                    proof {
                        assert(!sorted_cmds(cs[k as int]));
                    }
                    return None;
                }
                j = j + 1;
            }
            if k > 0 {
                let prev = blocks[k - 1].commands();
                let prev_last = prev[prev.len() - 1].key();
                if prev_last >= block_cmds[0].key() {
                    proof {
                        assert(key_of(cs[k - 1].last()) >= key_of(cs[k as int].first()));
                    }
                    return None;
                }
            }
            proof {
                lemma_blocks_sorted_compose(blocks@.take(k as int));
                if k > 0 {
                    assert(blocks@.take(k as int)[k - 1] == blocks@[k - 1]);
                }
                lemma_blocks_cmds_push(blocks@.take(k as int), blocks@[k as int]);
                assert(blocks@.take(k + 1) =~= blocks@.take(k as int).push(blocks@[k as int]));
            }
            tb.insert_block(&blocks[k]);
            proof {
                assert forall|j: int| 0 <= j < k + 1 implies (#[trigger] tb.blocks@[j])@
                    == blocks@[j]@ by {
                    if j < k {
                        assert(tb.blocks@.drop_last()[j] == tb.blocks@[j]);
                    } else {
                        assert(tb.blocks@[j] == tb.blocks@.last());
                    }
                }
            }
            k = k + 1;
        }
        proof {
            assert(blocks@.take(blocks@.len() as int) =~= blocks@);
        }

        let t = tb.build();

        if t.min_key != minv || t.max_key != maxv {
            proof {
                if valid_table_file(file_name@, bb) {
                    lemma_valid_name_parses(file_name@, bb);
                    lemma_blocks_sorted_compose(blocks@);
                    if let Some(cs0) = parse_blocks(bb) {
                        assert(cs0 == cs);
                        assert(cs.first() == blocks@[0]@);
                        assert(cs.last() == blocks@[blocks@.len() - 1]@);
                        let k1 = key_of(cs.first().first());
                        lemma_first_underscore_unique(
                            file_name@,
                            p as int,
                            i32_dec(k1).len() as int,
                        );
                        assert(t.min_key == k1);
                        assert(t.max_key == key_of(cs.last().last()));
                    }
                }
            }
            return None;
        }

        proof {
            lemma_blocks_sorted_compose(blocks@);
            assert(cs.first() == blocks@[0]@ && cs.last() == blocks@[blocks@.len() - 1]@);
            crate::decimal::lemma_render_parse(file_name@.take(p as int), minv);
            crate::decimal::lemma_render_parse(file_name@.skip(p + 1), maxv);
            assert(file_name@ =~= file_name@.take(p as int) + seq!['_'] + file_name@.skip(
                p + 1,
            ));
            assert(file_name@ == spec_file_name(minv, maxv));
            assert(forall|j: int| 0 <= j < cs.len() ==> cs[j] == (#[trigger] blocks@[j])@);
            assert(t.min_key == key_of(blocks_cmds(blocks@).first()));
            assert(t.min_key == key_of(cs.first().first()));
            assert(t.max_key == key_of(cs.last().last()));
            assert(valid_table_file(file_name@, bb));
            assert(t.blocks@.map_values(|b: BlockMut| b@) =~= cs);
        }
        Some(t)
    }
}

/// Index of the first underscore in `s`, if it has one.
fn find_underscore(s: &str) -> (r: Option<usize>)
    ensures
        match r {
            Some(p) => p < s@.len() && s@[p as int] == '_' && forall|i: int|
                0 <= i < p ==> s@[i] != '_',
            None => forall|i: int| 0 <= i < s@.len() ==> s@[i] != '_',
        },
{
    let len = s.unicode_len();
    let mut p: usize = 0;
    while p < len
        invariant
            p <= len,
            len == s@.len(),
            forall|i: int| 0 <= i < p ==> s@[i] != '_',
        decreases len - p,
    {
        if s.get_char(p) == '_' {
            return Some(p);
        }
        p = p + 1;
    }
    None
}

/// A valid file name carries its two canonical integers around its first
/// underscore, and both parse back to the contents' key range.
proof fn lemma_valid_name_parses(name: Seq<char>, bb: Seq<Seq<u8>>)
    requires
        valid_table_file(name, bb),
    ensures
        match parse_blocks(bb) {
            Some(cs) => {
                let k1 = key_of(cs.first().first());
                let k2 = key_of(cs.last().last());
                let p = i32_dec(k1).len() as int;
                &&& 0 <= p < name.len()
                &&& name[p] == '_'
                &&& forall|i: int| 0 <= i < p ==> name[i] != '_'
                &&& spec_parse_i32(name.take(p)) == Some(k1)
                &&& spec_parse_i32(name.skip(p + 1)) == Some(k2)
            },
            None => false,
        },
{
    match parse_blocks(bb) {
        Some(cs) => {
            let k1 = key_of(cs.first().first());
            let k2 = key_of(cs.last().last());
            lemma_name_split(name, k1, k2);
        }
        None => {}
    }
}

/// Two "first underscore" positions in one name coincide.
proof fn lemma_first_underscore_unique(name: Seq<char>, p: int, q: int)
    requires
        0 <= p < name.len(),
        0 <= q < name.len(),
        name[p] == '_',
        name[q] == '_',
        forall|i: int| 0 <= i < p ==> name[i] != '_',
        forall|i: int| 0 <= i < q ==> name[i] != '_',
    ensures
        p == q,
{
    if p < q {
        assert(name[p] != '_');
    } else if q < p {
        assert(name[q] != '_');
    }
}

} // verus!
