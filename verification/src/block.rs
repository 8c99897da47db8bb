//! Storage records and the fixed-size block they are packed into.
//!
//! A block is a 4096-byte page holding records in strictly ascending key
//! order.  A `Put(key, val)` record serializes as `[0x00][key:be32][val:be32]`
//! (9 bytes) and a `Delete(key)` tombstone as `[0x01][key:be32]` (5 bytes);
//! the unused tail of a page is filled with the sentinel byte `0xFF`.

use vstd::prelude::*;

use crate::BLOCK_SIZE_BYTES;

verus! {

/// One storage record: either a live key/value pair or a tombstone.
#[derive(Clone, Copy, Debug, PartialEq, Eq, Structural)]
pub enum Command {
    Delete(i32),
    Put(i32, i32),
}

/// The key a command is about.
pub open spec fn key_of(c: Command) -> i32 {
    match c {
        Command::Delete(key) => key,
        Command::Put(key, _) => key,
    }
}

/// The value a command binds its key to: `None` for a tombstone.
pub open spec fn entry_of(c: Command) -> Option<i32> {
    match c {
        Command::Delete(_) => None,
        Command::Put(_, val) => Some(val),
    }
}

/// Number of bytes a command occupies inside a block.
pub open spec fn cmd_size(c: Command) -> int {
    match c {
        Command::Delete(_) => 5,
        Command::Put(_, _) => 9,
    }
}

/// Total number of bytes a sequence of commands occupies inside a block.
pub open spec fn size_of_cmds(s: Seq<Command>) -> int
    decreases s.len(),
{
    if s.len() == 0 {
        0
    } else {
        cmd_size(s[0]) + size_of_cmds(s.drop_first())
    }
}

/// Strictly ascending by key: each key appears at most once.
pub open spec fn sorted_cmds(s: Seq<Command>) -> bool {
    forall|i: int, j: int| 0 <= i < j < s.len() ==> key_of(s[i]) < key_of(s[j])
}

/// The first command in `s` whose key is `k`, if any.  On a strictly
/// sorted sequence this is the unique command for `k`.
pub open spec fn cmds_get(s: Seq<Command>, k: i32) -> Option<Command>
    decreases s.len(),
{
    if s.len() == 0 {
        None
    } else if key_of(s[0]) == k {
        Some(s[0])
    } else {
        cmds_get(s.drop_first(), k)
    }
}

/// Sizes are nonnegative, and concatenation adds them.
pub proof fn lemma_size_of_cmds_concat(a: Seq<Command>, b: Seq<Command>)
    ensures
        size_of_cmds(a + b) == size_of_cmds(a) + size_of_cmds(b),
    decreases a.len(),
{
    if a.len() == 0 {
        assert(a + b =~= b);
    } else {
        assert((a + b).drop_first() =~= a.drop_first() + b);
        lemma_size_of_cmds_concat(a.drop_first(), b);
    }
}

pub proof fn lemma_size_of_cmds_nonneg(s: Seq<Command>)
    ensures
        size_of_cmds(s) >= 0,
        s.len() <= size_of_cmds(s) <= 9 * s.len(),
    decreases s.len(),
{
    if s.len() > 0 {
        lemma_size_of_cmds_nonneg(s.drop_first());
    }
}

/// Appending one command on the right adds its size.
pub proof fn lemma_size_of_cmds_push(s: Seq<Command>, c: Command)
    ensures
        size_of_cmds(s.push(c)) == size_of_cmds(s) + cmd_size(c),
{
    assert(s.push(c) =~= s + seq![c]);
    lemma_size_of_cmds_concat(s, seq![c]);
    assert(size_of_cmds(seq![c]) == cmd_size(c)) by {
        let s1 = seq![c];
        assert(s1.len() == 1 && s1[0] == c);
        assert(s1.drop_first() =~= Seq::<Command>::empty());
        assert(size_of_cmds(Seq::<Command>::empty()) == 0);
        assert(size_of_cmds(s1) == cmd_size(s1[0]) + size_of_cmds(s1.drop_first()));
    }
}

/// A lookup in a concatenation tries the left side first.
pub proof fn lemma_cmds_get_concat(a: Seq<Command>, b: Seq<Command>, k: i32)
    ensures
        cmds_get(a + b, k) == if cmds_get(a, k) is Some {
            cmds_get(a, k)
        } else {
            cmds_get(b, k)
        },
    decreases a.len(),
{
    if a.len() == 0 {
        assert(a + b =~= b);
    } else {
        assert((a + b).drop_first() =~= a.drop_first() + b);
        lemma_cmds_get_concat(a.drop_first(), b, k);
    }
}

/// A found command is a member of the sequence and carries the key
/// looked up; a miss means no member carries it.
pub proof fn lemma_cmds_get_membership(s: Seq<Command>, k: i32)
    ensures
        match cmds_get(s, k) {
            Some(c) => key_of(c) == k && exists|i: int| 0 <= i < s.len() && s[i] == c,
            None => forall|i: int| 0 <= i < s.len() ==> key_of(s[i]) != k,
        },
    decreases s.len(),
{
    if s.len() > 0 {
        lemma_cmds_get_membership(s.drop_first(), k);
        if key_of(s[0]) != k {
            match cmds_get(s.drop_first(), k) {
                Some(c) => {
                    let i = choose|i: int|
                        0 <= i < s.drop_first().len() && s.drop_first()[i] == c;
                    assert(s[i + 1] == c);
                }
                None => {
                    assert forall|i: int| 0 <= i < s.len() implies key_of(s[i]) != k by {
                        if i > 0 {
                            assert(s.drop_first()[i - 1] == s[i]);
                        }
                    }
                }
            }
        }
    }
}

/// On a sorted sequence, any member with key `k` is what `cmds_get` finds.
pub proof fn lemma_cmds_get_sorted(s: Seq<Command>, i: int)
    requires
        sorted_cmds(s),
        0 <= i < s.len(),
    ensures
        cmds_get(s, key_of(s[i])) == Some(s[i]),
    decreases s.len(),
{
    if i > 0 {
        assert(key_of(s[0]) != key_of(s[i]));
        assert(s.drop_first()[i - 1] == s[i]);
        assert(sorted_cmds(s.drop_first())) by {
            assert(forall|x: int, y: int|
                0 <= x < y < s.drop_first().len() ==> key_of(s.drop_first()[x]) == key_of(
                    s[x + 1],
                ) && key_of(s.drop_first()[y]) == key_of(s[y + 1]));
        }
        lemma_cmds_get_sorted(s.drop_first(), i - 1);
    }
}

impl Command {
    /// The key this command is about.
    pub fn key(&self) -> (r: i32)
        ensures
            r == key_of(*self),
    {
        match self {
            Self::Delete(key) => *key,
            Self::Put(key, _) => *key,
        }
    }

    /// The value this command binds its key to: `None` for a tombstone.
    pub fn value(&self) -> (r: Option<i32>)
        ensures
            r == entry_of(*self),
    {
        match self {
            Self::Delete(_) => None,
            Self::Put(_, val) => Some(*val),
        }
    }
}

/// The big-endian byte image of a 32-bit integer.
pub open spec fn be_bytes(x: i32) -> Seq<u8> {
    let u = x as u32;
    seq![
        ((u >> 24) & 0xff) as u8,
        ((u >> 16) & 0xff) as u8,
        ((u >> 8) & 0xff) as u8,
        (u & 0xff) as u8,
    ]
}

/// The 32-bit integer read back from four big-endian bytes.
pub open spec fn i32_from_be(b0: u8, b1: u8, b2: u8, b3: u8) -> i32 {
    (((b0 as u32) << 24) | ((b1 as u32) << 16) | ((b2 as u32) << 8) | (b3 as u32)) as i32
}

pub proof fn lemma_be_round_trip(x: i32)
    ensures
        i32_from_be(be_bytes(x)[0], be_bytes(x)[1], be_bytes(x)[2], be_bytes(x)[3]) == x,
{
    let u = x as u32;
    assert((((((u >> 24) & 0xff) as u8) as u32) << 24) | (((((u >> 16) & 0xff) as u8) as u32)
        << 16) | (((((u >> 8) & 0xff) as u8) as u32) << 8) | (((u & 0xff) as u8) as u32) == u)
        by (bit_vector);
    assert(((x as u32) as i32) == x) by (bit_vector);
}

/// The byte image of one record: a tag byte, the key, and for a `Put` the
/// value.
pub open spec fn enc_cmd(c: Command) -> Seq<u8> {
    match c {
        Command::Delete(key) => seq![1u8] + be_bytes(key),
        Command::Put(key, val) => seq![0u8] + be_bytes(key) + be_bytes(val),
    }
}

/// The packed byte image of a sequence of records.
pub open spec fn enc_cmds(s: Seq<Command>) -> Seq<u8>
    decreases s.len(),
{
    if s.len() == 0 {
        Seq::empty()
    } else {
        enc_cmd(s[0]) + enc_cmds(s.drop_first())
    }
}

/// `n` sentinel bytes.
pub open spec fn pad_ff(n: int) -> Seq<u8> {
    Seq::new(n as nat, |i: int| 0xffu8)
}

/// The full page image of a block: its records, then sentinel padding.
pub open spec fn block_bytes(s: Seq<Command>) -> Seq<u8> {
    enc_cmds(s) + pad_ff(BLOCK_SIZE_BYTES - size_of_cmds(s))
}

/// A record's byte image is as long as its bookkeeping says.
pub proof fn lemma_enc_cmds_len(s: Seq<Command>)
    ensures
        enc_cmds(s).len() == size_of_cmds(s),
    decreases s.len(),
{
    if s.len() > 0 {
        lemma_enc_cmds_len(s.drop_first());
    }
}

pub proof fn lemma_enc_cmds_push(s: Seq<Command>, c: Command)
    ensures
        enc_cmds(s.push(c)) == enc_cmds(s) + enc_cmd(c),
    decreases s.len(),
{
    if s.len() == 0 {
        let sp = s.push(c);
        assert(sp.len() == 1 && sp[0] == c);
        assert(sp.drop_first() =~= Seq::<Command>::empty());
        assert(enc_cmds(sp) == enc_cmd(c) + enc_cmds(sp.drop_first()));
        assert(enc_cmds(Seq::<Command>::empty()) == Seq::<u8>::empty());
        assert(enc_cmd(c) + Seq::<u8>::empty() =~= enc_cmd(c));
        assert(enc_cmds(s) + enc_cmd(c) =~= enc_cmd(c));
    } else {
        assert(s.push(c)[0] == s[0]);
        assert(s.push(c).drop_first() =~= s.drop_first().push(c));
        lemma_enc_cmds_push(s.drop_first(), c);
        assert(enc_cmd(s[0]) + (enc_cmds(s.drop_first()) + enc_cmd(c)) =~= (enc_cmd(s[0])
            + enc_cmds(s.drop_first())) + enc_cmd(c));
    }
}

/// Reads records off a page image until the sentinel tag, the end of the
/// bytes, or a malformed record.
pub open spec fn parse_cmds(b: Seq<u8>) -> Option<Seq<Command>>
    decreases b.len(),
{
    if b.len() == 0 {
        Some(Seq::empty())
    } else if b[0] == 0xff {
        Some(Seq::empty())
    } else if b[0] == 0x00 {
        if b.len() < 9 {
            None
        } else {
            match parse_cmds(b.skip(9)) {
                None => None,
                Some(rest) => Some(
                    seq![
                        Command::Put(
                            i32_from_be(b[1], b[2], b[3], b[4]),
                            i32_from_be(b[5], b[6], b[7], b[8]),
                        ),
                    ] + rest,
                ),
            }
        }
    } else if b[0] == 0x01 {
        if b.len() < 5 {
            None
        } else {
            match parse_cmds(b.skip(5)) {
                None => None,
                Some(rest) => Some(seq![Command::Delete(i32_from_be(b[1], b[2], b[3], b[4]))] + rest),
            }
        }
    } else {
        None
    }
}

/// Parsing a packed page image yields exactly the records that were
/// packed, whatever follows them as padding.
pub proof fn lemma_parse_enc(s: Seq<Command>, tail: Seq<u8>)
    requires
        tail.len() == 0 || tail[0] == 0xff,
    ensures
        parse_cmds(enc_cmds(s) + tail) == Some(s),
    decreases s.len(),
{
    let b = enc_cmds(s) + tail;
    if s.len() == 0 {
        assert(b =~= tail);
        assert(s =~= Seq::<Command>::empty());
    } else {
        let c = s[0];
        lemma_parse_enc(s.drop_first(), tail);
        lemma_enc_cmds_len(s);
        lemma_size_of_cmds_nonneg(s.drop_first());
        match c {
            Command::Put(key, val) => {
                assert(b[0] == 0x00);
                assert(b.skip(9) =~= enc_cmds(s.drop_first()) + tail);
                lemma_be_round_trip(key);
                lemma_be_round_trip(val);
                assert(b[1] == be_bytes(key)[0] && b[2] == be_bytes(key)[1] && b[3] == be_bytes(
                    key,
                )[2] && b[4] == be_bytes(key)[3]);
                assert(b[5] == be_bytes(val)[0] && b[6] == be_bytes(val)[1] && b[7] == be_bytes(
                    val,
                )[2] && b[8] == be_bytes(val)[3]);
                assert(seq![c] + s.drop_first() =~= s);
            }
            Command::Delete(key) => {
                assert(b[0] == 0x01);
                assert(b.skip(5) =~= enc_cmds(s.drop_first()) + tail);
                lemma_be_round_trip(key);
                assert(b[1] == be_bytes(key)[0] && b[2] == be_bytes(key)[1] && b[3] == be_bytes(
                    key,
                )[2] && b[4] == be_bytes(key)[3]);
                assert(seq![c] + s.drop_first() =~= s);
            }
        }
    }
}

/// An in-memory block under construction: commands are appended until the
/// page is full, then the block is handed to a table builder and cleared.
#[derive(Debug)]
pub struct BlockMut {
    commands: Vec<Command>,
    bytes_used: usize,
}

impl View for BlockMut {
    type V = Seq<Command>;

    closed spec fn view(&self) -> Seq<Command> {
        self.commands@
    }
}

impl BlockMut {
    /// The byte budget bookkeeping agrees with the commands held.
    pub closed spec fn inv(&self) -> bool {
        self.bytes_used == size_of_cmds(self.commands@)
    }

    /// The commands held fit in one page.
    pub open spec fn wf(&self) -> bool {
        &&& self.inv()
        &&& size_of_cmds(self@) <= BLOCK_SIZE_BYTES
    }

    pub fn new() -> (r: Self)
        ensures
            r.wf(),
            r@ == Seq::<Command>::empty(),
    {
        Self { commands: Vec::new(), bytes_used: 0 }
    }

    pub fn is_empty(&self) -> (r: bool)
        ensures
            r == (self@.len() == 0),
    {
        self.commands.len() == 0
    }

    pub fn clear(&mut self)
        ensures
            final(self).wf(),
            final(self)@ == Seq::<Command>::empty(),
    {
        self.commands.clear();
        self.bytes_used = 0;
    }

    /// The commands packed so far, in order.
    pub fn commands(&self) -> (r: &Vec<Command>)
        ensures
            r@ == self@,
    {
        &self.commands
    }

    /// Appends a command if its record still fits in the page.  Returns
    /// whether it fit; on `false` the block is left unchanged and is full
    /// enough to be sealed.
    pub fn push_command(&mut self, command: Command) -> (fit: bool)
        requires
            old(self).wf(),
        ensures
            final(self).wf(),
            fit == (size_of_cmds(old(self)@) + cmd_size(command) <= BLOCK_SIZE_BYTES),
            fit ==> final(self)@ == old(self)@.push(command),
            !fit ==> final(self)@ == old(self)@,
    {
        let bytes_to_write: usize = match command {
            Command::Delete(_) => 5,
            Command::Put(_, _) => 9,
        };

        if self.bytes_used + bytes_to_write > BLOCK_SIZE_BYTES {
            return false;
        }

        proof {
            lemma_size_of_cmds_push(self.commands@, command);
        }
        self.commands.push(command);
        self.bytes_used = self.bytes_used + bytes_to_write;
        true
    }

    /// An owned copy of this block.
    pub fn duplicate(&self) -> (r: Self)
        requires
            self.wf(),
        ensures
            r.wf(),
            r@ == self@,
    {
        let mut commands: Vec<Command> = Vec::new();
        let mut i: usize = 0;
        while i < self.commands.len()
            invariant
                i <= self.commands@.len(),
                commands@ == self.commands@.take(i as int),
            decreases self.commands@.len() - i,
        {
            commands.push(self.commands[i]);
            proof {
                assert(commands@ =~= self.commands@.take(i + 1));
            }
            i = i + 1;
        }
        proof {
            assert(self.commands@.take(self.commands@.len() as int) =~= self.commands@);
        }
        Self { commands, bytes_used: self.bytes_used }
    }

    /// A block holding exactly `commands`, which must fit in one page.
    pub fn from_commands(commands: Vec<Command>) -> (r: Self)
        requires
            size_of_cmds(commands@) <= BLOCK_SIZE_BYTES,
        ensures
            r.wf(),
            r@ == commands@,
    {
        let mut bytes_used: usize = 0;
        let mut i: usize = 0;
        while i < commands.len()
            invariant
                i <= commands@.len(),
                bytes_used == size_of_cmds(commands@.take(i as int)),
                size_of_cmds(commands@) <= BLOCK_SIZE_BYTES,
                bytes_used <= BLOCK_SIZE_BYTES,
            decreases commands@.len() - i,
        {
            let sz: usize = match commands[i] {
                Command::Delete(_) => 5,
                Command::Put(_, _) => 9,
            };
            proof {
                lemma_size_of_cmds_push(commands@.take(i as int), commands@[i as int]);
                assert(commands@.take(i + 1) =~= commands@.take(i as int).push(
                    commands@[i as int],
                ));
                lemma_size_prefix_bound(commands@, i + 1);
            }
            bytes_used = bytes_used + sz;
            i = i + 1;
        }
        proof {
            assert(commands@.take(commands@.len() as int) =~= commands@);
        }
        Self { commands, bytes_used }
    }

    /// The full 4096-byte page image of this block: its records packed in
    /// order, the tail filled with the sentinel byte.
    pub fn to_bytes(&self) -> (r: Vec<u8>)
        requires
            self.wf(),
        ensures
            r@ == block_bytes(self@),
            r@.len() == BLOCK_SIZE_BYTES,
    {
        let mut r: Vec<u8> = Vec::new();
        let mut i: usize = 0;
        while i < self.commands.len()
            invariant
                self.wf(),
                i <= self.commands.len(),
                r@ == enc_cmds(self@.take(i as int)),
            decreases self.commands.len() - i,
        {
            let c = self.commands[i];
            let ghost prefix = self@.take(i as int);
            match c {
                Command::Put(key, val) => {
                    r.push(0u8);
                    push_be(&mut r, key);
                    push_be(&mut r, val);
                    proof {
                        assert(r@ =~= enc_cmds(prefix) + enc_cmd(c));
                    }
                }
                Command::Delete(key) => {
                    r.push(1u8);
                    push_be(&mut r, key);
                    proof {
                        assert(r@ =~= enc_cmds(prefix) + enc_cmd(c));
                    }
                }
            }
            proof {
                lemma_enc_cmds_push(prefix, c);
                assert(self@.take(i + 1) =~= prefix.push(c));
            }
            i = i + 1;
        }
        proof {
            assert(self@.take(self.commands.len() as int) =~= self@);
            lemma_enc_cmds_len(self@);
            lemma_size_of_cmds_nonneg(self@);
        }
        while r.len() < BLOCK_SIZE_BYTES
            invariant
                size_of_cmds(self@) <= BLOCK_SIZE_BYTES,
                size_of_cmds(self@) <= r@.len() <= BLOCK_SIZE_BYTES,
                r@ == enc_cmds(self@) + pad_ff(r@.len() - size_of_cmds(self@)),
            decreases BLOCK_SIZE_BYTES - r.len(),
        {
            let ghost n = r@.len() - size_of_cmds(self@);
            r.push(0xffu8);
            proof {
                assert(r@ =~= enc_cmds(self@) + pad_ff(n + 1)) by {
                    lemma_enc_cmds_len(self@);
                }
            }
        }
        proof {
            assert(r@ == block_bytes(self@));
        }
        r
    }
}

/// A prefix of a command sequence never outweighs the whole.
pub proof fn lemma_size_prefix_bound(s: Seq<Command>, k: int)
    requires
        0 <= k <= s.len(),
    ensures
        size_of_cmds(s.take(k)) <= size_of_cmds(s),
{
    assert(s.take(k) + s.skip(k) =~= s);
    lemma_size_of_cmds_concat(s.take(k), s.skip(k));
    lemma_size_of_cmds_nonneg(s.skip(k));
}

/// Appends the big-endian image of `x`.
fn push_be(r: &mut Vec<u8>, x: i32)
    ensures
        final(r)@ == old(r)@ + be_bytes(x),
{
    let u = #[verifier::truncate] (x as u32);
    r.push(((u >> 24) & 0xff) as u8);
    r.push(((u >> 16) & 0xff) as u8);
    r.push(((u >> 8) & 0xff) as u8);
    r.push((u & 0xff) as u8);
    proof {
        assert(r@ =~= old(r)@ + be_bytes(x));
    }
}

/// Reads the big-endian integer at `pos`.
fn read_be(bytes: &Vec<u8>, pos: usize) -> (r: i32)
    requires
        pos + 4 <= bytes@.len(),
    ensures
        r == i32_from_be(bytes@[pos as int], bytes@[pos + 1], bytes@[pos + 2], bytes@[pos + 3]),
{
    let n: usize = bytes.len();
    let u = ((bytes[pos] as u32) << 24) | ((bytes[pos + 1] as u32) << 16) | ((bytes[pos + 2]
        as u32) << 8) | (bytes[pos + 3] as u32);
    #[verifier::truncate] (u as i32)
}

/// The parsed read-side view of one on-disk block.
pub struct BlockView {
    commands: Vec<Command>,
}

impl View for BlockView {
    type V = Seq<Command>;

    closed spec fn view(&self) -> Seq<Command> {
        self.commands@
    }
}

impl BlockView {
    /// An empty page: all sentinel bytes, no records.
    pub fn new() -> (r: Self)
        ensures
            r@ == Seq::<Command>::empty(),
    {
        Self { commands: Vec::new() }
    }

    /// The records read off the page, in order.
    pub fn commands(&self) -> (r: &Vec<Command>)
        ensures
            r@ == self@,
    {
        &self.commands
    }

    /// The records read off the page, surrendered.
    pub fn into_commands(self) -> (r: Vec<Command>)
        ensures
            r@ == self@,
    {
        self.commands
    }

    /// Reads a page image.  `None` means a malformed record: an unknown
    /// tag or a record running past the end of the page.
    pub fn parse(bytes: &Vec<u8>) -> (r: Option<Self>)
        ensures
            match r {
                Some(bv) => parse_cmds(bytes@) == Some(bv@),
                None => parse_cmds(bytes@) is None,
            },
    {
        let mut pos: usize = 0;
        let mut acc: Vec<Command> = Vec::new();
        proof {
            assert(bytes@.skip(0) =~= bytes@);
            if let Some(rest) = parse_cmds(bytes@) {
                assert(Seq::<Command>::empty() + rest =~= rest);
            }
        }
        loop
            invariant
                pos <= bytes@.len(),
                parse_cmds(bytes@) == match parse_cmds(bytes@.skip(pos as int)) {
                    Some(rest) => Some(acc@ + rest),
                    None => None::<Seq<Command>>,
                },
            decreases bytes@.len() - pos,
        {
            let ghost suffix = bytes@.skip(pos as int);
            if pos == bytes.len() {
                proof {
                    assert(suffix =~= Seq::<u8>::empty());
                    assert(acc@ + Seq::<Command>::empty() =~= acc@);
                }
                return Some(Self { commands: acc });
            }
            let tag = bytes[pos];
            proof {
                assert(suffix[0] == bytes@[pos as int]);
            }
            if tag == 0xff {
                proof {
                    assert(acc@ + Seq::<Command>::empty() =~= acc@);
                }
                return Some(Self { commands: acc });
            } else if tag == 0x00 {
                if bytes.len() - pos < 9 {
                    return None;
                }
                let key = read_be(bytes, pos + 1);
                let val = read_be(bytes, pos + 2 + 3);
                let c = Command::Put(key, val);
                proof {
                    assert(suffix.skip(9) =~= bytes@.skip(pos + 9));
                    assert(suffix[1] == bytes@[pos + 1] && suffix[2] == bytes@[pos + 2]
                        && suffix[3] == bytes@[pos + 3] && suffix[4] == bytes@[pos + 4]);
                    assert(suffix[5] == bytes@[pos + 5] && suffix[6] == bytes@[pos + 6]
                        && suffix[7] == bytes@[pos + 7] && suffix[8] == bytes@[pos + 8]);
                    if let Some(rest) = parse_cmds(bytes@.skip(pos + 9)) {
                        assert(acc@ + (seq![c] + rest) =~= acc@.push(c) + rest);
                    }
                }
                acc.push(c);
                pos = pos + 9;
            } else if tag == 0x01 {
                if bytes.len() - pos < 5 {
                    return None;
                }
                let key = read_be(bytes, pos + 1);
                let c = Command::Delete(key);
                proof {
                    assert(suffix.skip(5) =~= bytes@.skip(pos + 5));
                    assert(suffix[1] == bytes@[pos + 1] && suffix[2] == bytes@[pos + 2]
                        && suffix[3] == bytes@[pos + 3] && suffix[4] == bytes@[pos + 4]);
                    if let Some(rest) = parse_cmds(bytes@.skip(pos + 5)) {
                        assert(acc@ + (seq![c] + rest) =~= acc@.push(c) + rest);
                    }
                }
                acc.push(c);
                pos = pos + 5;
            } else {
                return None;
            }
        }
    }
}

/// What parses out of a page never outweighs the page.
pub proof fn lemma_parse_size(b: Seq<u8>)
    ensures
        match parse_cmds(b) {
            Some(s) => size_of_cmds(s) <= b.len(),
            None => true,
        },
    decreases b.len(),
{
    if b.len() == 0 || b[0] == 0xff {
        assert(size_of_cmds(Seq::<Command>::empty()) == 0);
    } else if b[0] == 0x00 && b.len() >= 9 {
        lemma_parse_size(b.skip(9));
        if let Some(rest) = parse_cmds(b.skip(9)) {
            let c = Command::Put(
                i32_from_be(b[1], b[2], b[3], b[4]),
                i32_from_be(b[5], b[6], b[7], b[8]),
            );
            lemma_size_of_cmds_concat(seq![c], rest);
            assert(seq![c].drop_first() =~= Seq::<Command>::empty());
            assert(size_of_cmds(Seq::<Command>::empty()) == 0);
            assert(size_of_cmds(seq![c]) == cmd_size(c) + size_of_cmds(seq![c].drop_first()));
            assert(parse_cmds(b) == Some(seq![c] + rest));
        }
    } else if b[0] == 0x01 && b.len() >= 5 {
        lemma_parse_size(b.skip(5));
        if let Some(rest) = parse_cmds(b.skip(5)) {
            let c = Command::Delete(i32_from_be(b[1], b[2], b[3], b[4]));
            lemma_size_of_cmds_concat(seq![c], rest);
            assert(seq![c].drop_first() =~= Seq::<Command>::empty());
            assert(size_of_cmds(Seq::<Command>::empty()) == 0);
            assert(size_of_cmds(seq![c]) == cmd_size(c) + size_of_cmds(seq![c].drop_first()));
            assert(parse_cmds(b) == Some(seq![c] + rest));
        }
    }
}

/// Iterating the page image built from a block's commands yields exactly
/// those commands: writing and reading a block are inverse.
pub proof fn lemma_block_round_trip(s: Seq<Command>)
    requires
        size_of_cmds(s) <= BLOCK_SIZE_BYTES,
    ensures
        parse_cmds(block_bytes(s)) == Some(s),
{
    let tail = pad_ff(BLOCK_SIZE_BYTES - size_of_cmds(s));
    lemma_parse_enc(s, tail);
}

} // verus!
