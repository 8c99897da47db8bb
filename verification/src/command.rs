//! The client-visible commands and their wire encoding.
//!
//! Each request is a tag byte followed by big-endian integer fields:
//! `p` put, `g` get, `d` delete, `l` load (a pair count, then that many
//! 8-byte key/value records on the stream), `r` range, `s` stats.  The
//! surrounding process reads the tag, then exactly the payload this
//! module declares, and hands both back here to decode.

use vstd::prelude::*;

use crate::block::be_bytes;

verus! {

/// One request against the store.
#[derive(Clone, Copy, Debug, PartialEq, Eq, Structural)]
#[allow(non_camel_case_types)]
pub enum Command {
    PUT { key: i32, val: i32 },
    GET { key: i32 },
    DELETE { key: i32 },
    LOAD { kv_pairs: u64 },
    RANGE { min_key: i32, max_key: i32 },
    STATS,
}

/// The big-endian image of an unsigned 64-bit count.
pub open spec fn be_bytes_u64(x: u64) -> Seq<u8> {
    seq![
        ((x >> 56) & 0xff) as u8,
        ((x >> 48) & 0xff) as u8,
        ((x >> 40) & 0xff) as u8,
        ((x >> 32) & 0xff) as u8,
        ((x >> 24) & 0xff) as u8,
        ((x >> 16) & 0xff) as u8,
        ((x >> 8) & 0xff) as u8,
        (x & 0xff) as u8,
    ]
}

/// The full wire image of a command: its tag byte, then its fields.
pub open spec fn wire_bytes(c: Command) -> Seq<u8> {
    match c {
        Command::PUT { key, val } => seq![112u8] + be_bytes(key) + be_bytes(val),
        Command::GET { key } => seq![103u8] + be_bytes(key),
        Command::DELETE { key } => seq![100u8] + be_bytes(key),
        Command::LOAD { kv_pairs } => seq![108u8] + be_bytes_u64(kv_pairs),
        Command::RANGE { min_key, max_key } => seq![114u8] + be_bytes(min_key) + be_bytes(
            max_key,
        ),
        Command::STATS => seq![115u8],
    }
}

/// How many payload bytes follow a tag; `None` marks an unknown tag,
/// a protocol error that closes the connection.
pub open spec fn spec_payload_len(tag: u8) -> Option<usize> {
    if tag == 112 || tag == 114 {
        Some(8usize)
    } else if tag == 103 || tag == 100 {
        Some(4usize)
    } else if tag == 108 {
        Some(8usize)
    } else if tag == 115 {
        Some(0usize)
    } else {
        None
    }
}

/// How many payload bytes to read after `tag`.
pub fn payload_len(tag: u8) -> (r: Option<usize>)
    ensures
        r == spec_payload_len(tag),
{
    if tag == 112 || tag == 114 {
        Some(8)
    } else if tag == 103 || tag == 100 {
        Some(4)
    } else if tag == 108 {
        Some(8)
    } else if tag == 115 {
        Some(0)
    } else {
        None
    }
}

/// What a tag and its payload decode to, if the tag is known and the
/// payload has the declared length.
pub open spec fn spec_decode(tag: u8, p: Seq<u8>) -> Option<Command> {
    if tag == 112 && p.len() == 8 {
        Some(
            Command::PUT {
                key: crate::block::i32_from_be(p[0], p[1], p[2], p[3]),
                val: crate::block::i32_from_be(p[4], p[5], p[6], p[7]),
            },
        )
    } else if tag == 103 && p.len() == 4 {
        Some(Command::GET { key: crate::block::i32_from_be(p[0], p[1], p[2], p[3]) })
    } else if tag == 100 && p.len() == 4 {
        Some(Command::DELETE { key: crate::block::i32_from_be(p[0], p[1], p[2], p[3]) })
    } else if tag == 108 && p.len() == 8 {
        Some(Command::LOAD { kv_pairs: u64_from_be(p) })
    } else if tag == 114 && p.len() == 8 {
        Some(
            Command::RANGE {
                min_key: crate::block::i32_from_be(p[0], p[1], p[2], p[3]),
                max_key: crate::block::i32_from_be(p[4], p[5], p[6], p[7]),
            },
        )
    } else if tag == 115 && p.len() == 0 {
        Some(Command::STATS)
    } else {
        None
    }
}

/// The unsigned 64-bit count read back from eight big-endian bytes.
pub open spec fn u64_from_be(p: Seq<u8>) -> u64 {
    ((p[0] as u64) << 56) | ((p[1] as u64) << 48) | ((p[2] as u64) << 40) | ((p[3] as u64) << 32)
        | ((p[4] as u64) << 24) | ((p[5] as u64) << 16) | ((p[6] as u64) << 8) | (p[7] as u64)
}

impl Command {
    /// The wire image of this command, ready to send.
    pub fn encode(&self) -> (r: Vec<u8>)
        ensures
            r@ == wire_bytes(*self),
    {
        let mut r: Vec<u8> = Vec::new();
        match *self {
            Command::PUT { key, val } => {
                r.push(112);
                push_be32(&mut r, key);
                push_be32(&mut r, val);
            }
            Command::GET { key } => {
                r.push(103);
                push_be32(&mut r, key);
            }
            Command::DELETE { key } => {
                r.push(100);
                push_be32(&mut r, key);
            }
            Command::LOAD { kv_pairs } => {
                r.push(108);
                push_be64(&mut r, kv_pairs);
            }
            Command::RANGE { min_key, max_key } => {
                r.push(114);
                push_be32(&mut r, min_key);
                push_be32(&mut r, max_key);
            }
            Command::STATS => {
                r.push(115);
            }
        }
        proof {
            assert(r@ =~= wire_bytes(*self));
        }
        r
    }

    /// Decodes the command a tag and its payload carry.  `None` is a
    /// protocol error: an unknown tag or a payload of the wrong length.
    pub fn decode(tag: u8, payload: &Vec<u8>) -> (r: Option<Command>)
        ensures
            r == spec_decode(tag, payload@),
    {
        let n = payload.len();
        if tag == 112 && n == 8 {
            Some(
                Command::PUT {
                    key: read_be32(payload, 0),
                    val: read_be32(payload, 4),
                },
            )
        } else if tag == 103 && n == 4 {
            Some(Command::GET { key: read_be32(payload, 0) })
        } else if tag == 100 && n == 4 {
            Some(Command::DELETE { key: read_be32(payload, 0) })
        } else if tag == 108 && n == 8 {
            let kv_pairs = ((payload[0] as u64) << 56) | ((payload[1] as u64) << 48) | ((
            payload[2] as u64) << 40) | ((payload[3] as u64) << 32) | ((payload[4] as u64) << 24)
                | ((payload[5] as u64) << 16) | ((payload[6] as u64) << 8) | (payload[7] as u64);
            Some(Command::LOAD { kv_pairs })
        } else if tag == 114 && n == 8 {
            Some(
                Command::RANGE {
                    min_key: read_be32(payload, 0),
                    max_key: read_be32(payload, 4),
                },
            )
        } else if tag == 115 && n == 0 {
            Some(Command::STATS)
        } else {
            None
        }
    }
}

/// Appends the big-endian image of a key or value.
fn push_be32(r: &mut Vec<u8>, x: i32)
    ensures
        final(r)@ == old(r)@ + be_bytes(x),
{
    let u = #[verifier::truncate] (x as u32);
    r.push(((u >> 24) & 0xff) as u8);
    r.push(((u >> 16) & 0xff) as u8);
    r.push(((u >> 8) & 0xff) as u8);
    r.push((u & 0xff) as u8);
    proof {
        assert(r@ =~= old(r)@ + be_bytes(x));
    }
}

/// Appends the big-endian image of a count.
fn push_be64(r: &mut Vec<u8>, x: u64)
    ensures
        final(r)@ == old(r)@ + be_bytes_u64(x),
{
    r.push(((x >> 56) & 0xff) as u8);
    r.push(((x >> 48) & 0xff) as u8);
    r.push(((x >> 40) & 0xff) as u8);
    r.push(((x >> 32) & 0xff) as u8);
    r.push(((x >> 24) & 0xff) as u8);
    r.push(((x >> 16) & 0xff) as u8);
    r.push(((x >> 8) & 0xff) as u8);
    r.push((x & 0xff) as u8);
    proof {
        assert(r@ =~= old(r)@ + be_bytes_u64(x));
    }
}

/// Reads the key or value at `pos`.
fn read_be32(p: &Vec<u8>, pos: usize) -> (r: i32)
    requires
        pos + 4 <= p@.len(),
    ensures
        r == crate::block::i32_from_be(p@[pos as int], p@[pos + 1], p@[pos + 2], p@[pos + 3]),
{
    let n: usize = p.len();
    let u = ((p[pos] as u32) << 24) | ((p[pos + 1] as u32) << 16) | ((p[pos + 2] as u32) << 8) | (
    p[pos + 3] as u32);
    #[verifier::truncate] (u as i32)
}

/// The textual body of a `RANGE` response: one `{k}:{v} ` fragment per
/// surviving pair, in order, each ended by a space.
pub open spec fn spec_range_fragments(pairs: Seq<(i32, i32)>) -> Seq<char>
    decreases pairs.len(),
{
    if pairs.len() == 0 {
        Seq::empty()
    } else {
        spec_range_fragments(pairs.drop_last()) + crate::decimal::i32_dec(pairs.last().0)
            + seq![':'] + crate::decimal::i32_dec(pairs.last().1) + seq![' ']
    }
}

/// Renders the pairs a range scan returned as the wire response body:
/// decimal key, a colon, decimal value, a trailing space, repeated.
pub fn render_range_response(pairs: &Vec<(i32, i32)>) -> (r: String)
    ensures
        r@ == spec_range_fragments(pairs@),
{
    let mut s = String::new();
    let mut i: usize = 0;
    proof {
        reveal_strlit(":");
        reveal_strlit(" ");
        assert(s@ =~= spec_range_fragments(pairs@.take(0)));
    }
    while i < pairs.len()
        invariant
            i <= pairs@.len(),
            s@ == spec_range_fragments(pairs@.take(i as int)),
        decreases pairs@.len() - i,
    {
        let ghost pre = s@;
        let (k, v) = pairs[i];
        let k_str = crate::decimal::i32_to_string(k);
        s.append(k_str.as_str());
        proof {
            reveal_strlit(":");
        }
        s.append(":");
        let v_str = crate::decimal::i32_to_string(v);
        s.append(v_str.as_str());
        proof {
            reveal_strlit(" ");
        }
        s.append(" ");
        proof {
            assert(":"@ =~= seq![':']);
            assert(" "@ =~= seq![' ']);
            assert(pairs@.take(i + 1).drop_last() =~= pairs@.take(i as int));
            assert(pairs@.take(i + 1).last() == pairs@[i as int]);
            assert(s@ =~= spec_range_fragments(pairs@.take(i + 1)));
        }
        i = i + 1;
    }
    proof {
        assert(pairs@.take(pairs@.len() as int) =~= pairs@);
    }
    s
}

/// Decoding inverts encoding: a command's wire image carries its own
/// tag and payload, and they decode back to exactly that command.
pub proof fn lemma_wire_round_trip(c: Command)
    ensures
        wire_bytes(c).len() >= 1,
        spec_payload_len(wire_bytes(c)[0]) == Some((wire_bytes(c).len() - 1) as usize),
        spec_decode(wire_bytes(c)[0], wire_bytes(c).drop_first()) == Some(c),
{
    let w = wire_bytes(c);
    match c {
        Command::PUT { key, val } => {
            assert(w.drop_first() =~= be_bytes(key) + be_bytes(val));
            crate::block::lemma_be_round_trip(key);
            crate::block::lemma_be_round_trip(val);
            let p = w.drop_first();
            assert(p[0] == be_bytes(key)[0] && p[1] == be_bytes(key)[1] && p[2] == be_bytes(
                key,
            )[2] && p[3] == be_bytes(key)[3]);
            assert(p[4] == be_bytes(val)[0] && p[5] == be_bytes(val)[1] && p[6] == be_bytes(
                val,
            )[2] && p[7] == be_bytes(val)[3]);
        }
        Command::GET { key } => {
            assert(w.drop_first() =~= be_bytes(key));
            crate::block::lemma_be_round_trip(key);
        }
        Command::DELETE { key } => {
            assert(w.drop_first() =~= be_bytes(key));
            crate::block::lemma_be_round_trip(key);
        }
        Command::LOAD { kv_pairs } => {
            assert(w.drop_first() =~= be_bytes_u64(kv_pairs));
            let x = kv_pairs;
            assert(((((x >> 56) & 0xff) as u8) as u64) << 56 | ((((x >> 48) & 0xff) as u8)
                as u64) << 48 | ((((x >> 40) & 0xff) as u8) as u64) << 40 | ((((x >> 32) & 0xff)
                as u8) as u64) << 32 | ((((x >> 24) & 0xff) as u8) as u64) << 24 | ((((x >> 16)
                & 0xff) as u8) as u64) << 16 | ((((x >> 8) & 0xff) as u8) as u64) << 8 | (((x
                & 0xff) as u8) as u64) == x) by (bit_vector);
        }
        Command::RANGE { min_key, max_key } => {
            assert(w.drop_first() =~= be_bytes(min_key) + be_bytes(max_key));
            crate::block::lemma_be_round_trip(min_key);
            crate::block::lemma_be_round_trip(max_key);
            let p = w.drop_first();
            assert(p[0] == be_bytes(min_key)[0] && p[1] == be_bytes(min_key)[1] && p[2]
                == be_bytes(min_key)[2] && p[3] == be_bytes(min_key)[3]);
            assert(p[4] == be_bytes(max_key)[0] && p[5] == be_bytes(max_key)[1] && p[6]
                == be_bytes(max_key)[2] && p[7] == be_bytes(max_key)[3]);
        }
        Command::STATS => {
            assert(w.drop_first() =~= Seq::<u8>::empty());
        }
    }
}

} // verus!
