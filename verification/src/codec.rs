//! A byte codec for the persisted snapshot.  The on-disk format is an
//! implementation choice of this crate; what matters, and what is proved,
//! is that decoding an encoded snapshot reproduces its cursors and map
//! contents exactly (see [`lemma_snapshot_round_trip`]).
//!
//! Layout: unsigned integers are eight bytes little-endian; signed vote
//! counts travel as their 32-bit two's-complement value; strings are a
//! byte length followed by their UTF-8 bytes; booleans are one byte; maps
//! are an entry count followed by the entries, each a key followed by the
//! record fields.

use std::collections::HashMap;

use vstd::prelude::*;
use vstd::std_specs::iter::IteratorSpec;
use vstd::utf8::{decode_utf8, encode_utf8, valid_utf8};

use crate::deck::Deck;
use crate::disk::{entries_match, insert_all, lemma_insert_all_enumerates, Disk};
use crate::gwentone::model::{CardData, CardFaction, CardGroup, CardRarity, CardType, CardView};
use crate::gwentone::storage;
use crate::playgwent::deck::{DeckMetadata, Faction, MetaView};

verus! {

broadcast use vstd::utf8::encode_utf8_valid_utf8, vstd::utf8::encode_utf8_decode_utf8, vstd::std_specs::hash::group_hash_axioms;

/// The eight-byte little-endian encoding of `n`.
pub open spec fn enc_u64(n: u64) -> Seq<u8> {
    seq![
        (n & 0xff) as u8,
        ((n >> 8) & 0xff) as u8,
        ((n >> 16) & 0xff) as u8,
        ((n >> 24) & 0xff) as u8,
        ((n >> 32) & 0xff) as u8,
        ((n >> 40) & 0xff) as u8,
        ((n >> 48) & 0xff) as u8,
        ((n >> 56) & 0xff) as u8,
    ]
}

/// The integer eight little-endian bytes at `pos` spell.
pub open spec fn word_at(b: Seq<u8>, pos: int) -> u64 {
    (b[pos] as u64) | ((b[pos + 1] as u64) << 8) | ((b[pos + 2] as u64) << 16) | ((b[pos
        + 3] as u64) << 24) | ((b[pos + 4] as u64) << 32) | ((b[pos + 5] as u64) << 40) | ((b[pos
        + 6] as u64) << 48) | ((b[pos + 7] as u64) << 56)
}

/// Reads an eight-byte integer at `pos`.
pub open spec fn sdec_u64(b: Seq<u8>, pos: int) -> Option<(u64, int)> {
    if 0 <= pos && pos + 8 <= b.len() {
        Some((word_at(b, pos), pos + 8))
    } else {
        None
    }
}

proof fn lemma_word_of_bytes(x: u64, e0: u8, e1: u8, e2: u8, e3: u8, e4: u8, e5: u8, e6: u8, e7: u8)
    by (bit_vector)
    requires
        e0 == (x & 0xff) as u8,
        e1 == ((x >> 8) & 0xff) as u8,
        e2 == ((x >> 16) & 0xff) as u8,
        e3 == ((x >> 24) & 0xff) as u8,
        e4 == ((x >> 32) & 0xff) as u8,
        e5 == ((x >> 40) & 0xff) as u8,
        e6 == ((x >> 48) & 0xff) as u8,
        e7 == ((x >> 56) & 0xff) as u8,
    ensures
        (e0 as u64) | ((e1 as u64) << 8) | ((e2 as u64) << 16) | ((e3 as u64) << 24) | ((
        e4 as u64) << 32) | ((e5 as u64) << 40) | ((e6 as u64) << 48) | ((e7 as u64) << 56) == x,
{
}

/// Reading eight bytes that encode `x` yields `x` back.
pub proof fn lemma_rt_u64(b: Seq<u8>, pos: int, x: u64)
    requires
        0 <= pos,
        pos + 8 <= b.len(),
        b.subrange(pos, pos + 8) == enc_u64(x),
    ensures
        sdec_u64(b, pos) == Some((x, pos + 8)),
{
    let sub = b.subrange(pos, pos + 8);
    assert(b[pos] == sub[0] && b[pos + 1] == sub[1] && b[pos + 2] == sub[2] && b[pos + 3] == sub[3]
        && b[pos + 4] == sub[4] && b[pos + 5] == sub[5] && b[pos + 6] == sub[6] && b[pos + 7]
        == sub[7]);
    lemma_word_of_bytes(
        x,
        sub[0],
        sub[1],
        sub[2],
        sub[3],
        sub[4],
        sub[5],
        sub[6],
        sub[7],
    );
}

/// Appends the eight-byte little-endian encoding of `n`.
pub fn push_u64(buf: &mut Vec<u8>, n: u64)
    ensures
        final(buf)@ == old(buf)@ + enc_u64(n),
{
    proof {
        assert((n & 0xff) <= 0xff && ((n >> 8) & 0xff) <= 0xff && ((n >> 16) & 0xff) <= 0xff && ((n
            >> 24) & 0xff) <= 0xff && ((n >> 32) & 0xff) <= 0xff && ((n >> 40) & 0xff) <= 0xff && ((
        n >> 48) & 0xff) <= 0xff && ((n >> 56) & 0xff) <= 0xff) by (bit_vector);
    }
    buf.push((n & 0xff) as u8);
    buf.push(((n >> 8) & 0xff) as u8);
    buf.push(((n >> 16) & 0xff) as u8);
    buf.push(((n >> 24) & 0xff) as u8);
    buf.push(((n >> 32) & 0xff) as u8);
    buf.push(((n >> 40) & 0xff) as u8);
    buf.push(((n >> 48) & 0xff) as u8);
    buf.push(((n >> 56) & 0xff) as u8);
    proof {
        assert(buf@ =~= old(buf)@ + enc_u64(n));
    }
}

/// Reads eight little-endian bytes at `pos` back into the integer they
/// encode; fails exactly when fewer than eight bytes remain.
pub fn read_u64(buf: &[u8], pos: usize) -> (r: Option<(u64, usize)>)
    ensures
        match r {
            Some(p) => sdec_u64(buf@, pos as int) == Some((p.0, p.1 as int)),
            None => sdec_u64(buf@, pos as int) is None,
        },
{
    if buf.len() < 8 || pos > buf.len() - 8 {
        return None;
    }
    let e0 = buf[pos];
    let e1 = buf[pos + 1];
    let e2 = buf[pos + 2];
    let e3 = buf[pos + 3];
    let e4 = buf[pos + 4];
    let e5 = buf[pos + 5];
    let e6 = buf[pos + 6];
    let e7 = buf[pos + 7];
    let n: u64 = (e0 as u64) | ((e1 as u64) << 8) | ((e2 as u64) << 16) | ((e3 as u64) << 24) | (
    (e4 as u64) << 32) | ((e5 as u64) << 40) | ((e6 as u64) << 48) | ((e7 as u64) << 56);
    Some((n, pos + 8))
}

/// The encoding of a machine-word cursor or count.
pub open spec fn enc_usize(n: usize) -> Seq<u8> {
    enc_u64(n as u64)
}

/// Reads a machine-word value: an eight-byte integer that must fit.
pub open spec fn sdec_usize(b: Seq<u8>, pos: int) -> Option<(usize, int)> {
    match sdec_u64(b, pos) {
        None => None,
        Some((n, p)) => if n <= usize::MAX as u64 {
            Some((n as usize, p))
        } else {
            None
        },
    }
}

/// Reading eight bytes that encode the machine word `x` yields `x` back.
pub proof fn lemma_rt_usize(b: Seq<u8>, pos: int, x: usize)
    requires
        0 <= pos,
        pos + 8 <= b.len(),
        b.subrange(pos, pos + 8) == enc_usize(x),
    ensures
        sdec_usize(b, pos) == Some((x, pos + 8)),
{
    lemma_rt_u64(b, pos, x as u64);
}

pub fn read_usize(buf: &[u8], pos: usize) -> (r: Option<(usize, usize)>)
    ensures
        match r {
            Some(p) => sdec_usize(buf@, pos as int) == Some((p.0, p.1 as int)),
            None => sdec_usize(buf@, pos as int) is None,
        },
{
    match read_u64(buf, pos) {
        None => None,
        Some((n, p)) => {
            if n <= usize::MAX as u64 {
                Some((n as usize, p))
            } else {
                None
            }
        },
    }
}

/// The 32-bit two's-complement image of a vote count.
pub open spec fn u32_of_i32(v: i32) -> u32 {
    if v >= 0 {
        v as u32
    } else {
        (v + 0x1_0000_0000) as u32
    }
}

/// The vote count a 32-bit two's-complement image stands for.
pub open spec fn i32_of_u32(w: u32) -> i32 {
    if w <= i32::MAX as u32 {
        w as i32
    } else {
        (w - 0x1_0000_0000) as i32
    }
}

/// The encoding of a vote count.
pub open spec fn enc_i32(v: i32) -> Seq<u8> {
    enc_u64(u32_of_i32(v) as u64)
}

/// Reads a vote count: an eight-byte integer within 32-bit range.
pub open spec fn sdec_i32(b: Seq<u8>, pos: int) -> Option<(i32, int)> {
    match sdec_u64(b, pos) {
        None => None,
        Some((n, p)) => if n <= u32::MAX as u64 {
            Some((i32_of_u32(n as u32), p))
        } else {
            None
        },
    }
}

/// Reading bytes that encode the vote count `v` yields `v` back.
pub proof fn lemma_rt_i32(b: Seq<u8>, pos: int, v: i32)
    requires
        0 <= pos,
        pos + 8 <= b.len(),
        b.subrange(pos, pos + 8) == enc_i32(v),
    ensures
        sdec_i32(b, pos) == Some((v, pos + 8)),
{
    lemma_rt_u64(b, pos, u32_of_i32(v) as u64);
}

pub fn push_i32(buf: &mut Vec<u8>, v: i32)
    ensures
        final(buf)@ == old(buf)@ + enc_i32(v),
{
    let w: u32 = if v >= 0 {
        v as u32
    } else {
        ((v as i64) + 0x1_0000_0000i64) as u32
    };
    push_u64(buf, w as u64);
}

pub fn read_i32(buf: &[u8], pos: usize) -> (r: Option<(i32, usize)>)
    ensures
        match r {
            Some(p) => sdec_i32(buf@, pos as int) == Some((p.0, p.1 as int)),
            None => sdec_i32(buf@, pos as int) is None,
        },
{
    match read_u64(buf, pos) {
        None => None,
        Some((n, p)) => {
            if n <= u32::MAX as u64 {
                let w = n as u32;
                let v: i32 = if w <= i32::MAX as u32 {
                    w as i32
                } else {
                    ((w as i64) - 0x1_0000_0000i64) as i32
                };
                Some((v, p))
            } else {
                None
            }
        },
    }
}

/// The one-byte encoding of a flag.
pub open spec fn enc_bool(v: bool) -> Seq<u8> {
    seq![if v { 1u8 } else { 0u8 }]
}

/// Reads a flag byte; only `0` and `1` are accepted.
pub open spec fn sdec_bool(b: Seq<u8>, pos: int) -> Option<(bool, int)> {
    if 0 <= pos && pos + 1 <= b.len() {
        if b[pos] == 1u8 {
            Some((true, pos + 1))
        } else if b[pos] == 0u8 {
            Some((false, pos + 1))
        } else {
            None
        }
    } else {
        None
    }
}

/// Reading a byte that encodes the flag `v` yields `v` back.
pub proof fn lemma_rt_bool(b: Seq<u8>, pos: int, v: bool)
    requires
        0 <= pos,
        pos + 1 <= b.len(),
        b.subrange(pos, pos + 1) == enc_bool(v),
    ensures
        sdec_bool(b, pos) == Some((v, pos + 1)),
{
    assert(b[pos] == b.subrange(pos, pos + 1)[0]);
}

pub fn push_bool(buf: &mut Vec<u8>, v: bool)
    ensures
        final(buf)@ == old(buf)@ + enc_bool(v),
{
    buf.push(if v {
        1u8
    } else {
        0u8
    });
    proof {
        assert(buf@ =~= old(buf)@ + enc_bool(v));
    }
}

pub fn read_bool(buf: &[u8], pos: usize) -> (r: Option<(bool, usize)>)
    ensures
        match r {
            Some(p) => sdec_bool(buf@, pos as int) == Some((p.0, p.1 as int)),
            None => sdec_bool(buf@, pos as int) is None,
        },
{
    if pos >= buf.len() {
        return None;
    }
    let byte = buf[pos];
    if byte == 1 {
        Some((true, pos + 1))
    } else if byte == 0 {
        Some((false, pos + 1))
    } else {
        None
    }
}

/// Relies on String::from_utf8: builds the string holding exactly the
/// bytes `v` when they are valid UTF-8, and fails otherwise.
#[verifier::external_body]
fn string_from_utf8(v: Vec<u8>) -> (r: Option<String>)
    ensures
        match r {
            Some(s) => valid_utf8(v@) && encode_utf8(s@) == v@ && s@ == decode_utf8(v@),
            None => !valid_utf8(v@),
        },
{
    String::from_utf8(v).ok()
}

/// The encoding of a string: its UTF-8 byte length, then its UTF-8 bytes.
pub open spec fn enc_str(s: Seq<char>) -> Seq<u8> {
    enc_u64(encode_utf8(s).len() as u64) + encode_utf8(s)
}

/// Reads a length-prefixed UTF-8 string.
pub open spec fn sdec_str(b: Seq<u8>, pos: int) -> Option<(Seq<char>, int)> {
    match sdec_u64(b, pos) {
        None => None,
        Some((n, p)) => if p + n <= b.len() && valid_utf8(b.subrange(p, p + n)) {
            Some((decode_utf8(b.subrange(p, p + n)), p + n))
        } else {
            None
        },
    }
}

/// Reading bytes that encode the string `s` yields `s` back.
pub proof fn lemma_rt_str(b: Seq<u8>, pos: int, s: Seq<char>)
    requires
        0 <= pos,
        encode_utf8(s).len() <= u64::MAX,
        pos + 8 + encode_utf8(s).len() <= b.len(),
        b.subrange(pos, pos + 8 + encode_utf8(s).len()) == enc_str(s),
    ensures
        sdec_str(b, pos) == Some((s, pos + 8 + encode_utf8(s).len())),
{
    let bytes = encode_utf8(s);
    let whole = b.subrange(pos, pos + 8 + bytes.len());
    assert(b.subrange(pos, pos + 8) =~= whole.subrange(0, 8));
    assert(whole.subrange(0, 8) =~= enc_u64(bytes.len() as u64));
    lemma_rt_u64(b, pos, bytes.len() as u64);
    assert(b.subrange(pos + 8, pos + 8 + bytes.len()) =~= whole.subrange(8, (8 + bytes.len()) as int));
    assert(whole.subrange(8, (8 + bytes.len()) as int) =~= bytes);
    assert(valid_utf8(bytes));
    assert(decode_utf8(encode_utf8(s)) == s);
}

pub fn push_str(buf: &mut Vec<u8>, s: &str)
    ensures
        final(buf)@ == old(buf)@ + enc_str(s@),
        encode_utf8(s@).len() <= usize::MAX,
{
    let bytes = vstd::string::StrSliceExecFns::as_bytes_vec(s);
    push_u64(buf, bytes.len() as u64);
    let mut bytes = bytes;
    buf.append(&mut bytes);
    proof {
        assert(buf@ =~= old(buf)@ + enc_str(s@));
    }
}

pub fn read_str(buf: &[u8], pos: usize) -> (r: Option<(String, usize)>)
    ensures
        match r {
            Some(p) => sdec_str(buf@, pos as int) == Some((p.0@, p.1 as int)),
            None => sdec_str(buf@, pos as int) is None,
        },
{
    match read_u64(buf, pos) {
        None => None,
        Some((n, p)) => {
            if n > (buf.len() - p) as u64 {
                return None;
            }
            let len = n as usize;
            let blen = buf.len();
            let mut bytes: Vec<u8> = Vec::new();
            let mut i: usize = 0;
            while i < len
                invariant
                    0 <= i <= len,
                    p + len <= blen,
                    blen == buf@.len(),
                    bytes@ =~= buf@.subrange(p as int, p + i),
                decreases len - i,
            {
                bytes.push(buf[p + i]);
                proof {
                    assert(bytes@ =~= buf@.subrange(p as int, p + i + 1));
                }
                i = i + 1;
            }
            match string_from_utf8(bytes) {
                None => None,
                Some(s) => Some((s, p + len)),
            }
        },
    }
}

/// The encoding of one metadata entry: its key, then the record fields in
/// declaration order.
pub open spec fn enc_meta_entry(k: usize, m: MetaView) -> Seq<u8> {
    enc_usize(k) + enc_usize(m.id) + enc_i32(m.votes) + enc_usize(m.leader) + enc_str(m.faction)
        + enc_bool(m.invalid)
}

/// Reads one metadata entry.
pub open spec fn sdec_meta_entry(b: Seq<u8>, pos: int) -> Option<((usize, MetaView), int)> {
    match sdec_usize(b, pos) {
        None => None,
        Some((k, p1)) => match sdec_usize(b, p1) {
            None => None,
            Some((id, p2)) => match sdec_i32(b, p2) {
                None => None,
                Some((votes, p3)) => match sdec_usize(b, p3) {
                    None => None,
                    Some((leader, p4)) => match sdec_str(b, p4) {
                        None => None,
                        Some((faction, p5)) => match sdec_bool(b, p5) {
                            None => None,
                            Some((invalid, p6)) => Some(
                                ((k, MetaView { id, votes, leader, faction, invalid }), p6),
                            ),
                        },
                    },
                },
            },
        },
    }
}

/// Whether a metadata entry's text fits the machine.
pub open spec fn meta_bounded(m: MetaView) -> bool {
    encode_utf8(m.faction).len() <= usize::MAX
}

/// Bytes that hold a concatenation hold its two parts, in place.
pub proof fn lemma_split_concat(b: Seq<u8>, pos: int, x: Seq<u8>, y: Seq<u8>)
    requires
        0 <= pos,
        pos + x.len() + y.len() <= b.len(),
        b.subrange(pos, pos + x.len() + y.len()) == x + y,
    ensures
        b.subrange(pos, pos + x.len()) == x,
        b.subrange(pos + x.len(), pos + x.len() + y.len()) == y,
{
    assert forall|j: int| 0 <= j < x.len() + y.len() implies b[pos + j] == (x + y)[j] by {
        assert(b.subrange(pos, pos + x.len() + y.len())[j] == b[pos + j]);
    }
    assert forall|j: int| 0 <= j < x.len() implies b.subrange(pos, pos + x.len())[j] == x[j] by {
        assert(b[pos + j] == (x + y)[j]);
    }
    assert(b.subrange(pos, pos + x.len()) =~= x);
    assert forall|j: int|
        0 <= j < y.len() implies b.subrange(pos + x.len(), pos + x.len() + y.len())[j] == y[j] by {
        assert(b[pos + (x.len() + j)] == (x + y)[x.len() + j]);
    }
    assert(b.subrange(pos + x.len(), pos + x.len() + y.len()) =~= y);
}

/// Reading bytes that encode the entry `(k, m)` yields it back.
pub proof fn lemma_rt_meta_entry(b: Seq<u8>, pos: int, k: usize, m: MetaView)
    requires
        0 <= pos,
        meta_bounded(m),
        pos + enc_meta_entry(k, m).len() <= b.len(),
        b.subrange(pos, pos + enc_meta_entry(k, m).len()) == enc_meta_entry(k, m),
    ensures
        sdec_meta_entry(b, pos) == Some(((k, m), pos + enc_meta_entry(k, m).len())),
{
    let s1 = enc_usize(k);
    let s2 = enc_usize(m.id);
    let s3 = enc_i32(m.votes);
    let s4 = enc_usize(m.leader);
    let s5 = enc_str(m.faction);
    let s6 = enc_bool(m.invalid);
    let sl = encode_utf8(m.faction).len() as int;
    assert(s5.len() == 8 + sl);
    lemma_split_concat(b, pos, s1 + s2 + s3 + s4 + s5, s6);
    lemma_split_concat(b, pos, s1 + s2 + s3 + s4, s5);
    lemma_split_concat(b, pos, s1 + s2 + s3, s4);
    lemma_split_concat(b, pos, s1 + s2, s3);
    lemma_split_concat(b, pos, s1, s2);
    lemma_rt_usize(b, pos, k);
    lemma_rt_usize(b, pos + 8, m.id);
    lemma_rt_i32(b, pos + 16, m.votes);
    lemma_rt_usize(b, pos + 24, m.leader);
    lemma_rt_str(b, pos + 32, m.faction);
    lemma_rt_bool(b, pos + 40 + sl, m.invalid);
}

/// Writes one metadata entry.
pub fn push_meta_entry(buf: &mut Vec<u8>, k: usize, dm: &DeckMetadata)
    ensures
        final(buf)@ == old(buf)@ + enc_meta_entry(k, dm@),
        meta_bounded(dm@),
{
    push_u64(buf, k as u64);
    push_u64(buf, dm.id as u64);
    push_i32(buf, dm.votes);
    push_u64(buf, dm.leader as u64);
    push_str(buf, dm.faction.short.as_str());
    push_bool(buf, dm.invalid);
    proof {
        assert(buf@ =~= old(buf)@ + enc_meta_entry(k, dm@));
    }
}

/// Reads one metadata entry back into a record.
pub fn read_meta_entry(buf: &[u8], pos: usize) -> (r: Option<(usize, DeckMetadata, usize)>)
    ensures
        match r {
            Some(t) => sdec_meta_entry(buf@, pos as int) == Some(((t.0, t.1@), t.2 as int)),
            None => sdec_meta_entry(buf@, pos as int) is None,
        },
{
    let (k, p1) = match read_usize(buf, pos) {
        Some(v) => v,
        None => {
            return None;
        },
    };
    let (id, p2) = match read_usize(buf, p1) {
        Some(v) => v,
        None => {
            return None;
        },
    };
    let (votes, p3) = match read_i32(buf, p2) {
        Some(v) => v,
        None => {
            return None;
        },
    };
    let (leader, p4) = match read_usize(buf, p3) {
        Some(v) => v,
        None => {
            return None;
        },
    };
    let (short, p5) = match read_str(buf, p4) {
        Some(v) => v,
        None => {
            return None;
        },
    };
    let (invalid, p6) = match read_bool(buf, p5) {
        Some(v) => v,
        None => {
            return None;
        },
    };
    let dm = DeckMetadata { id, votes, leader, faction: Faction { short }, invalid };
    Some((k, dm, p6))
}

/// The encoding of a metadata map: its entries in order.
pub open spec fn enc_metas(ms: Seq<(usize, MetaView)>) -> Seq<u8>
    decreases ms.len(),
{
    if ms.len() == 0 {
        Seq::empty()
    } else {
        enc_meta_entry(ms[0].0, ms[0].1) + enc_metas(ms.drop_first())
    }
}

/// Appending one entry extends the encoding at its end.
#[verifier::rlimit(50)]
pub proof fn lemma_enc_metas_push(ms: Seq<(usize, MetaView)>, k: usize, m: MetaView)
    ensures
        enc_metas(ms.push((k, m))) == enc_metas(ms) + enc_meta_entry(k, m),
    decreases ms.len(),
{
    if ms.len() == 0 {
        let one = ms.push((k, m));
        assert(one.drop_first() =~= Seq::<(usize, MetaView)>::empty());
        assert(enc_metas(Seq::<(usize, MetaView)>::empty()) =~= Seq::<u8>::empty());
        assert(one[0] == (k, m));
        assert(enc_metas(one) == enc_meta_entry(k, m) + enc_metas(one.drop_first()));
        assert(enc_meta_entry(k, m) + Seq::<u8>::empty() =~= enc_meta_entry(k, m));
        assert(enc_metas(ms) + enc_meta_entry(k, m) =~= enc_meta_entry(k, m));
    } else {
        assert(ms.push((k, m)).drop_first() =~= ms.drop_first().push((k, m)));
        assert(ms.push((k, m))[0] == ms[0]);
        lemma_enc_metas_push(ms.drop_first(), k, m);
        assert(enc_meta_entry(ms[0].0, ms[0].1) + (enc_metas(ms.drop_first()) + enc_meta_entry(
            k,
            m,
        )) =~= (enc_meta_entry(ms[0].0, ms[0].1) + enc_metas(ms.drop_first())) + enc_meta_entry(
            k,
            m,
        ));
    }
}

/// Reads `count` metadata entries.
pub open spec fn sdec_metas(b: Seq<u8>, pos: int, count: int) -> Option<
    (Seq<(usize, MetaView)>, int),
>
    decreases count,
{
    if count <= 0 {
        Some((Seq::empty(), pos))
    } else {
        match sdec_meta_entry(b, pos) {
            None => None,
            Some((e, p)) => match sdec_metas(b, p, count - 1) {
                None => None,
                Some((rest, p2)) => Some((seq![e] + rest, p2)),
            },
        }
    }
}

/// Whether every metadata entry's text fits the machine.
pub open spec fn metas_bounded(ms: Seq<(usize, MetaView)>) -> bool {
    ms.len() <= usize::MAX && forall|i: int| 0 <= i < ms.len() ==> meta_bounded(#[trigger] ms[i].1)
}

/// Reading bytes that encode the entries `ms` yields them back.
pub proof fn lemma_rt_metas(b: Seq<u8>, pos: int, ms: Seq<(usize, MetaView)>)
    requires
        0 <= pos,
        metas_bounded(ms),
        pos + enc_metas(ms).len() <= b.len(),
        b.subrange(pos, pos + enc_metas(ms).len()) == enc_metas(ms),
    ensures
        sdec_metas(b, pos, ms.len() as int) == Some((ms, pos + enc_metas(ms).len())),
    decreases ms.len(),
{
    if ms.len() > 0 {
        let e = enc_meta_entry(ms[0].0, ms[0].1);
        let rest = enc_metas(ms.drop_first());
        assert(enc_metas(ms) == e + rest);
        lemma_split_concat(b, pos, e, rest);
        lemma_rt_meta_entry(b, pos, ms[0].0, ms[0].1);
        assert(metas_bounded(ms.drop_first())) by {
            assert(forall|i: int|
                0 <= i < ms.drop_first().len() ==> #[trigger] ms.drop_first()[i].1 == ms[i + 1].1);
        }
        lemma_rt_metas(b, pos + e.len() as int, ms.drop_first());
        assert(seq![ms[0]] + ms.drop_first() =~= ms);
    }
}

/// Reads `count` metadata entries back into records.
pub fn read_metas(buf: &[u8], pos: usize, count: usize) -> (r: Option<
    (Vec<(usize, DeckMetadata)>, usize),
>)
    ensures
        match r {
            Some(t) => sdec_metas(buf@, pos as int, count as int) == Some(
                (meta_pairs_view(t.0@), t.1 as int),
            ) && t.0@.len() == count,
            None => sdec_metas(buf@, pos as int, count as int) is None,
        },
{
    let mut es: Vec<(usize, DeckMetadata)> = Vec::new();
    let mut p = pos;
    let mut i: usize = 0;
    while i < count
        invariant
            0 <= i <= count,
            es@.len() == i,
            match sdec_metas(buf@, p as int, (count - i) as int) {
                None => sdec_metas(buf@, pos as int, count as int) is None,
                Some((rest, p2)) => sdec_metas(buf@, pos as int, count as int) == Some(
                    (meta_pairs_view(es@) + rest, p2),
                ),
            },
        decreases count - i,
    {
        let ghost before = es@;
        match read_meta_entry(buf, p) {
            None => {
                return None;
            },
            Some((k, dm, p2)) => {
                es.push((k, dm));
                proof {
                    assert(meta_pairs_view(es@) =~= meta_pairs_view(before).push((k, dm@)));
                    if sdec_metas(buf@, p2 as int, (count - i - 1) as int) is Some {
                        let rest2 = sdec_metas(buf@, p2 as int, (count - i - 1) as int)->Some_0.0;
                        assert(meta_pairs_view(before) + (seq![(k, dm@)] + rest2)
                            =~= meta_pairs_view(es@) + rest2);
                    }
                }
                p = p2;
            },
        }
        i = i + 1;
    }
    proof {
        assert(meta_pairs_view(es@) + Seq::<(usize, MetaView)>::empty() =~= meta_pairs_view(es@));
    }
    Some((es, p))
}

/// Key-and-view pairs of decoded metadata records.
pub open spec fn meta_pairs_view(es: Seq<(usize, DeckMetadata)>) -> Seq<(usize, MetaView)> {
    es.map(|i: int, p: (usize, DeckMetadata)| (p.0, p.1@))
}

/// Key-and-view pairs of decoded detail records.
pub open spec fn deck_pairs_view(es: Seq<(usize, Deck)>) -> Seq<(usize, Seq<usize>)> {
    es.map(|i: int, p: (usize, Deck)| (p.0, p.1@))
}

/// The encoding of a card id list: each id in order.
pub open spec fn enc_cards(cs: Seq<usize>) -> Seq<u8>
    decreases cs.len(),
{
    if cs.len() == 0 {
        Seq::empty()
    } else {
        enc_usize(cs[0]) + enc_cards(cs.drop_first())
    }
}

/// Appending one id extends the encoding at its end.
#[verifier::rlimit(50)]
pub proof fn lemma_enc_cards_push(cs: Seq<usize>, c: usize)
    ensures
        enc_cards(cs.push(c)) == enc_cards(cs) + enc_usize(c),
    decreases cs.len(),
{
    if cs.len() == 0 {
        let one = cs.push(c);
        assert(one.drop_first() =~= Seq::<usize>::empty());
        assert(enc_cards(Seq::<usize>::empty()) =~= Seq::<u8>::empty());
        assert(one[0] == c);
        assert(enc_cards(one) == enc_usize(c) + enc_cards(one.drop_first()));
        assert(enc_usize(c) + Seq::<u8>::empty() =~= enc_usize(c));
        assert(enc_cards(cs) + enc_usize(c) =~= enc_usize(c));
    } else {
        assert(cs.push(c).drop_first() =~= cs.drop_first().push(c));
        assert(cs.push(c)[0] == cs[0]);
        lemma_enc_cards_push(cs.drop_first(), c);
        assert(enc_usize(cs[0]) + (enc_cards(cs.drop_first()) + enc_usize(c)) =~= (enc_usize(cs[0])
            + enc_cards(cs.drop_first())) + enc_usize(c));
    }
}

/// Reads `count` card ids.
pub open spec fn sdec_cards(b: Seq<u8>, pos: int, count: int) -> Option<(Seq<usize>, int)>
    decreases count,
{
    if count <= 0 {
        Some((Seq::empty(), pos))
    } else {
        match sdec_usize(b, pos) {
            None => None,
            Some((c, p)) => match sdec_cards(b, p, count - 1) {
                None => None,
                Some((rest, p2)) => Some((seq![c] + rest, p2)),
            },
        }
    }
}

/// Reading bytes that encode the ids `cs` yields them back.
pub proof fn lemma_rt_cards(b: Seq<u8>, pos: int, cs: Seq<usize>)
    requires
        0 <= pos,
        pos + enc_cards(cs).len() <= b.len(),
        b.subrange(pos, pos + enc_cards(cs).len()) == enc_cards(cs),
    ensures
        sdec_cards(b, pos, cs.len() as int) == Some((cs, pos + enc_cards(cs).len())),
    decreases cs.len(),
{
    if cs.len() > 0 {
        let e = enc_usize(cs[0]);
        let rest = enc_cards(cs.drop_first());
        assert(enc_cards(cs) == e + rest);
        lemma_split_concat(b, pos, e, rest);
        lemma_rt_usize(b, pos, cs[0]);
        lemma_rt_cards(b, pos + 8, cs.drop_first());
        assert(seq![cs[0]] + cs.drop_first() =~= cs);
    }
}

/// Reads `count` card ids back into a list.
pub fn read_cards(buf: &[u8], pos: usize, count: usize) -> (r: Option<(Vec<usize>, usize)>)
    ensures
        match r {
            Some(t) => sdec_cards(buf@, pos as int, count as int) == Some((t.0@, t.1 as int))
                && t.0@.len() == count,
            None => sdec_cards(buf@, pos as int, count as int) is None,
        },
{
    let mut cs: Vec<usize> = Vec::new();
    let mut p = pos;
    let mut i: usize = 0;
    while i < count
        invariant
            0 <= i <= count,
            cs@.len() == i,
            match sdec_cards(buf@, p as int, (count - i) as int) {
                None => sdec_cards(buf@, pos as int, count as int) is None,
                Some((rest, p2)) => sdec_cards(buf@, pos as int, count as int) == Some(
                    (cs@ + rest, p2),
                ),
            },
        decreases count - i,
    {
        let ghost before = cs@;
        match read_usize(buf, p) {
            None => {
                return None;
            },
            Some((c, p2)) => {
                cs.push(c);
                proof {
                    if sdec_cards(buf@, p2 as int, (count - i - 1) as int) is Some {
                        let rest2 = sdec_cards(buf@, p2 as int, (count - i - 1) as int)->Some_0.0;
                        assert(before + (seq![c] + rest2) =~= cs@ + rest2);
                    }
                }
                p = p2;
            },
        }
        i = i + 1;
    }
    proof {
        assert(cs@ + Seq::<usize>::empty() =~= cs@);
    }
    Some((cs, p))
}

/// Whether a detail record fits the machine.
pub open spec fn deck_bounded(cs: Seq<usize>) -> bool {
    cs.len() <= usize::MAX
}

/// The encoding of one detail entry: its key, the id count, the ids.
pub open spec fn enc_deck_entry(k: usize, cs: Seq<usize>) -> Seq<u8> {
    enc_usize(k) + enc_usize(cs.len() as usize) + enc_cards(cs)
}

/// Reads one detail entry.
pub open spec fn sdec_deck_entry(b: Seq<u8>, pos: int) -> Option<((usize, Seq<usize>), int)> {
    match sdec_usize(b, pos) {
        None => None,
        Some((k, p1)) => match sdec_usize(b, p1) {
            None => None,
            Some((count, p2)) => match sdec_cards(b, p2, count as int) {
                None => None,
                Some((cs, p3)) => Some(((k, cs), p3)),
            },
        },
    }
}

/// Reading bytes that encode the entry `(k, cs)` yields it back.
pub proof fn lemma_rt_deck_entry(b: Seq<u8>, pos: int, k: usize, cs: Seq<usize>)
    requires
        0 <= pos,
        deck_bounded(cs),
        pos + enc_deck_entry(k, cs).len() <= b.len(),
        b.subrange(pos, pos + enc_deck_entry(k, cs).len()) == enc_deck_entry(k, cs),
    ensures
        sdec_deck_entry(b, pos) == Some(((k, cs), pos + enc_deck_entry(k, cs).len())),
{
    let s1 = enc_usize(k);
    let s2 = enc_usize(cs.len() as usize);
    let s3 = enc_cards(cs);
    lemma_split_concat(b, pos, s1 + s2, s3);
    lemma_split_concat(b, pos, s1, s2);
    lemma_rt_usize(b, pos, k);
    lemma_rt_usize(b, pos + 8, cs.len() as usize);
    lemma_rt_cards(b, pos + 16, cs);
}

/// Writes one detail entry.
pub fn push_deck_entry(buf: &mut Vec<u8>, k: usize, deck: &Deck)
    ensures
        final(buf)@ == old(buf)@ + enc_deck_entry(k, deck@),
        deck_bounded(deck@),
{
    push_u64(buf, k as u64);
    push_u64(buf, deck.cards.len() as u64);
    let ghost mid = buf@;
    let mut i: usize = 0;
    while i < deck.cards.len()
        invariant
            0 <= i <= deck.cards@.len(),
            buf@ == mid + enc_cards(deck.cards@.take(i as int)),
        decreases deck.cards@.len() - i,
    {
        proof {
            assert(enc_cards(Seq::<usize>::empty()) =~= Seq::<u8>::empty());
        }
        push_u64(buf, deck.cards[i] as u64);
        proof {
            assert(deck.cards@.take(i + 1) =~= deck.cards@.take(i as int).push(
                deck.cards@[i as int],
            ));
            lemma_enc_cards_push(deck.cards@.take(i as int), deck.cards@[i as int]);
            assert((mid + enc_cards(deck.cards@.take(i as int))) + enc_usize(deck.cards@[i as int])
                =~= mid + enc_cards(deck.cards@.take(i + 1)));
        }
        i = i + 1;
    }
    proof {
        assert(enc_cards(Seq::<usize>::empty()) =~= Seq::<u8>::empty());
        assert(mid + enc_cards(Seq::<usize>::empty()) =~= mid);
        assert(deck.cards@.take(deck.cards@.len() as int) =~= deck.cards@);
        assert(buf@ =~= old(buf)@ + enc_deck_entry(k, deck@));
    }
}

/// Reads one detail entry back into a record.
pub fn read_deck_entry(buf: &[u8], pos: usize) -> (r: Option<(usize, Deck, usize)>)
    ensures
        match r {
            Some(t) => sdec_deck_entry(buf@, pos as int) == Some(((t.0, t.1@), t.2 as int)),
            None => sdec_deck_entry(buf@, pos as int) is None,
        },
{
    let (k, p1) = match read_usize(buf, pos) {
        Some(v) => v,
        None => {
            return None;
        },
    };
    let (count, p2) = match read_usize(buf, p1) {
        Some(v) => v,
        None => {
            return None;
        },
    };
    let (cards, p3) = match read_cards(buf, p2, count) {
        Some(v) => v,
        None => {
            return None;
        },
    };
    Some((k, Deck { cards }, p3))
}

/// The encoding of a detail map: its entries in order.
pub open spec fn enc_decks(ds: Seq<(usize, Seq<usize>)>) -> Seq<u8>
    decreases ds.len(),
{
    if ds.len() == 0 {
        Seq::empty()
    } else {
        enc_deck_entry(ds[0].0, ds[0].1) + enc_decks(ds.drop_first())
    }
}

/// Appending one entry extends the encoding at its end.
#[verifier::rlimit(50)]
pub proof fn lemma_enc_decks_push(ds: Seq<(usize, Seq<usize>)>, k: usize, cs: Seq<usize>)
    ensures
        enc_decks(ds.push((k, cs))) == enc_decks(ds) + enc_deck_entry(k, cs),
    decreases ds.len(),
{
    if ds.len() == 0 {
        let one = ds.push((k, cs));
        assert(one.drop_first() =~= Seq::<(usize, Seq<usize>)>::empty());
        assert(enc_decks(Seq::<(usize, Seq<usize>)>::empty()) =~= Seq::<u8>::empty());
        assert(one[0] == (k, cs));
        assert(enc_decks(one) == enc_deck_entry(k, cs) + enc_decks(one.drop_first()));
        assert(enc_deck_entry(k, cs) + Seq::<u8>::empty() =~= enc_deck_entry(k, cs));
        assert(enc_decks(ds) + enc_deck_entry(k, cs) =~= enc_deck_entry(k, cs));
    } else {
        assert(ds.push((k, cs)).drop_first() =~= ds.drop_first().push((k, cs)));
        assert(ds.push((k, cs))[0] == ds[0]);
        lemma_enc_decks_push(ds.drop_first(), k, cs);
        assert(enc_deck_entry(ds[0].0, ds[0].1) + (enc_decks(ds.drop_first()) + enc_deck_entry(
            k,
            cs,
        )) =~= (enc_deck_entry(ds[0].0, ds[0].1) + enc_decks(ds.drop_first())) + enc_deck_entry(
            k,
            cs,
        ));
    }
}

/// Reads `count` detail entries.
pub open spec fn sdec_decks(b: Seq<u8>, pos: int, count: int) -> Option<
    (Seq<(usize, Seq<usize>)>, int),
>
    decreases count,
{
    if count <= 0 {
        Some((Seq::empty(), pos))
    } else {
        match sdec_deck_entry(b, pos) {
            None => None,
            Some((e, p)) => match sdec_decks(b, p, count - 1) {
                None => None,
                Some((rest, p2)) => Some((seq![e] + rest, p2)),
            },
        }
    }
}

/// Whether every detail entry fits the machine.
pub open spec fn decks_bounded(ds: Seq<(usize, Seq<usize>)>) -> bool {
    ds.len() <= usize::MAX && forall|i: int| 0 <= i < ds.len() ==> deck_bounded(#[trigger] ds[i].1)
}

/// Reading bytes that encode the entries `ds` yields them back.
pub proof fn lemma_rt_decks(b: Seq<u8>, pos: int, ds: Seq<(usize, Seq<usize>)>)
    requires
        0 <= pos,
        decks_bounded(ds),
        pos + enc_decks(ds).len() <= b.len(),
        b.subrange(pos, pos + enc_decks(ds).len()) == enc_decks(ds),
    ensures
        sdec_decks(b, pos, ds.len() as int) == Some((ds, pos + enc_decks(ds).len())),
    decreases ds.len(),
{
    if ds.len() > 0 {
        let e = enc_deck_entry(ds[0].0, ds[0].1);
        let rest = enc_decks(ds.drop_first());
        assert(enc_decks(ds) == e + rest);
        lemma_split_concat(b, pos, e, rest);
        lemma_rt_deck_entry(b, pos, ds[0].0, ds[0].1);
        assert(decks_bounded(ds.drop_first())) by {
            assert(forall|i: int|
                0 <= i < ds.drop_first().len() ==> #[trigger] ds.drop_first()[i].1 == ds[i + 1].1);
        }
        lemma_rt_decks(b, pos + e.len() as int, ds.drop_first());
        assert(seq![ds[0]] + ds.drop_first() =~= ds);
    }
}

/// Reads `count` detail entries back into records.
pub fn read_decks(buf: &[u8], pos: usize, count: usize) -> (r: Option<
    (Vec<(usize, Deck)>, usize),
>)
    ensures
        match r {
            Some(t) => sdec_decks(buf@, pos as int, count as int) == Some(
                (deck_pairs_view(t.0@), t.1 as int),
            ) && t.0@.len() == count,
            None => sdec_decks(buf@, pos as int, count as int) is None,
        },
{
    let mut es: Vec<(usize, Deck)> = Vec::new();
    let mut p = pos;
    let mut i: usize = 0;
    while i < count
        invariant
            0 <= i <= count,
            es@.len() == i,
            match sdec_decks(buf@, p as int, (count - i) as int) {
                None => sdec_decks(buf@, pos as int, count as int) is None,
                Some((rest, p2)) => sdec_decks(buf@, pos as int, count as int) == Some(
                    (deck_pairs_view(es@) + rest, p2),
                ),
            },
        decreases count - i,
    {
        let ghost before = es@;
        match read_deck_entry(buf, p) {
            None => {
                return None;
            },
            Some((k, deck, p2)) => {
                es.push((k, deck));
                proof {
                    assert(deck_pairs_view(es@) =~= deck_pairs_view(before).push((k, deck@)));
                    if sdec_decks(buf@, p2 as int, (count - i - 1) as int) is Some {
                        let rest2 = sdec_decks(buf@, p2 as int, (count - i - 1) as int)->Some_0.0;
                        assert(deck_pairs_view(before) + (seq![(k, deck@)] + rest2)
                            =~= deck_pairs_view(es@) + rest2);
                    }
                }
                p = p2;
            },
        }
        i = i + 1;
    }
    proof {
        assert(deck_pairs_view(es@) + Seq::<(usize, Seq<usize>)>::empty() =~= deck_pairs_view(es@));
    }
    Some((es, p))
}

/// The abstract content of a metadata map: each record by its view.
pub open spec fn abs_meta(m: Map<usize, DeckMetadata>) -> Map<usize, MetaView> {
    Map::new(|k: usize| m.dom().contains(k), |k: usize| m[k]@)
}

/// The abstract content of a detail map: each record by its view.
pub open spec fn abs_decks(m: Map<usize, Deck>) -> Map<usize, Seq<usize>> {
    Map::new(|k: usize| m.dom().contains(k), |k: usize| m[k]@)
}

/// The encoding of a whole snapshot: both cursors, then each map as an
/// entry count followed by its entries.
pub open spec fn enc_snapshot(
    ps: usize,
    pe: usize,
    ms: Seq<(usize, MetaView)>,
    ds: Seq<(usize, Seq<usize>)>,
) -> Seq<u8> {
    enc_usize(ps) + enc_usize(pe) + enc_usize(ms.len() as usize) + enc_metas(ms) + enc_usize(
        ds.len() as usize,
    ) + enc_decks(ds)
}

/// Reads a whole snapshot; trailing bytes are rejected.
pub open spec fn sdec_snapshot(b: Seq<u8>) -> Option<
    (usize, usize, Seq<(usize, MetaView)>, Seq<(usize, Seq<usize>)>),
> {
    match sdec_usize(b, 0) {
        None => None,
        Some((ps, p1)) => match sdec_usize(b, p1) {
            None => None,
            Some((pe, p2)) => match sdec_usize(b, p2) {
                None => None,
                Some((nm, p3)) => match sdec_metas(b, p3, nm as int) {
                    None => None,
                    Some((ms, p4)) => match sdec_usize(b, p4) {
                        None => None,
                        Some((nd, p5)) => match sdec_decks(b, p5, nd as int) {
                            None => None,
                            Some((ds, p6)) => if p6 == b.len() {
                                Some((ps, pe, ms, ds))
                            } else {
                                None
                            },
                        },
                    },
                },
            },
        },
    }
}

/// Round-trip persistence: reading an encoded snapshot reproduces its
/// cursors and its map entries exactly.
#[verifier::rlimit(100)]
pub proof fn lemma_snapshot_round_trip(
    ps: usize,
    pe: usize,
    ms: Seq<(usize, MetaView)>,
    ds: Seq<(usize, Seq<usize>)>,
)
    requires
        metas_bounded(ms),
        decks_bounded(ds),
    ensures
        sdec_snapshot(enc_snapshot(ps, pe, ms, ds)) == Some((ps, pe, ms, ds)),
{
    let b = enc_snapshot(ps, pe, ms, ds);
    let s1 = enc_usize(ps);
    let s2 = enc_usize(pe);
    let s3 = enc_usize(ms.len() as usize);
    let s4 = enc_metas(ms);
    let s5 = enc_usize(ds.len() as usize);
    let s6 = enc_decks(ds);
    assert(b.subrange(0, b.len() as int) =~= b);
    lemma_split_concat(b, 0, s1 + s2 + s3 + s4 + s5, s6);
    lemma_split_concat(b, 0, s1 + s2 + s3 + s4, s5);
    lemma_split_concat(b, 0, s1 + s2 + s3, s4);
    lemma_split_concat(b, 0, s1 + s2, s3);
    lemma_split_concat(b, 0, s1, s2);
    lemma_rt_usize(b, 0, ps);
    lemma_rt_usize(b, 8, pe);
    lemma_rt_usize(b, 16, ms.len() as usize);
    lemma_rt_metas(b, 24, ms);
    lemma_rt_usize(b, 24 + s4.len() as int, ds.len() as usize);
    lemma_rt_decks(b, 32 + s4.len() as int, ds);
}

/// The entries of a metadata map, in some order, each cloned.
fn meta_entries(m: &HashMap<usize, DeckMetadata>) -> (r: Vec<(usize, DeckMetadata)>)
    ensures
        entries_match(meta_pairs_view(r@), abs_meta(m@)),
{
    let ghost entries = vstd::std_specs::hash::spec_hash_map_iter(m).remaining();
    let mut r: Vec<(usize, DeckMetadata)> = Vec::new();
    for kv in it: m.iter()
        invariant
            it.seq() == entries,
            entries.no_duplicates(),
            meta_pairs_view(r@) =~= entries.take(it.index() as int).map(
                |i: int, p: (&usize, &DeckMetadata)| (*p.0, p.1@),
            ),
    {
        let ghost idx = it.index() as int;
        let ghost before = r@;
        let (k, v) = kv;
        r.push((*k, v.clone()));
        proof {
            assert(kv == entries[idx]);
            assert(entries.take(idx + 1).drop_last() =~= entries.take(idx));
            assert(meta_pairs_view(r@) =~= meta_pairs_view(before).push((*kv.0, kv.1@)));
            assert(entries.take(idx + 1).map(|i: int, p: (&usize, &DeckMetadata)| (*p.0, p.1@))
                =~= entries.take(idx).map(|i: int, p: (&usize, &DeckMetadata)| (*p.0, p.1@)).push(
                (*kv.0, kv.1@),
            ));
        }
    }
    proof {
        assert(entries.take(entries.len() as int) =~= entries);
        vstd::std_specs::hash::axiom_spec_hash_map_iter(m);
        lemma_iter_views_enumerate::<DeckMetadata, MetaView>(
            entries,
            m@,
            entries.map(|i: int, p: (&usize, &DeckMetadata)| (*p.0, p.1@)),
            abs_meta(m@),
        );
    }
    r
}

/// The entries of a detail map, in some order, each cloned.
fn deck_entries(m: &HashMap<usize, Deck>) -> (r: Vec<(usize, Deck)>)
    ensures
        entries_match(deck_pairs_view(r@), abs_decks(m@)),
{
    let ghost entries = vstd::std_specs::hash::spec_hash_map_iter(m).remaining();
    let mut r: Vec<(usize, Deck)> = Vec::new();
    for kv in it: m.iter()
        invariant
            it.seq() == entries,
            entries.no_duplicates(),
            deck_pairs_view(r@) =~= entries.take(it.index() as int).map(
                |i: int, p: (&usize, &Deck)| (*p.0, p.1@),
            ),
    {
        let ghost idx = it.index() as int;
        let ghost before = r@;
        let (k, v) = kv;
        r.push((*k, v.clone()));
        proof {
            assert(kv == entries[idx]);
            assert(entries.take(idx + 1).drop_last() =~= entries.take(idx));
            assert(deck_pairs_view(r@) =~= deck_pairs_view(before).push((*kv.0, kv.1@)));
            assert(entries.take(idx + 1).map(|i: int, p: (&usize, &Deck)| (*p.0, p.1@))
                =~= entries.take(idx).map(|i: int, p: (&usize, &Deck)| (*p.0, p.1@)).push(
                (*kv.0, kv.1@),
            ));
        }
    }
    proof {
        assert(entries.take(entries.len() as int) =~= entries);
        vstd::std_specs::hash::axiom_spec_hash_map_iter(m);
        lemma_iter_views_enumerate::<Deck, Seq<usize>>(
            entries,
            m@,
            entries.map(|i: int, p: (&usize, &Deck)| (*p.0, p.1@)),
            abs_decks(m@),
        );
    }
    r
}

/// The borrowed entries a map iterator yields enumerate the map's
/// abstract content, whatever order they arrive in.
proof fn lemma_iter_views_enumerate<T: View<V = W>, W>(
    es: Seq<(&usize, &T)>,
    m: Map<usize, T>,
    ps: Seq<(usize, W)>,
    am: Map<usize, W>,
)
    requires
        es.len() == m.dom().len(),
        forall|i: int| 0 <= i < es.len() ==> #[trigger] m.contains_key(*es[i].0) && m[*es[i].0]
            == *es[i].1,
        forall|k: usize| #[trigger] m.contains_key(k) ==> es.contains((&k, &m[k])),
        es.no_duplicates(),
        ps == es.map(|i: int, p: (&usize, &T)| (*p.0, p.1@)),
        am == Map::new(|k: usize| m.dom().contains(k), |k: usize| m[k]@),
    ensures
        entries_match(ps, am),
{
    assert forall|i: int, j: int| 0 <= i < j < ps.len() implies ps[i].0 != ps[j].0 by {
        if *es[i].0 == *es[j].0 {
            assert(m.contains_key(*es[i].0));
            assert(m.contains_key(*es[j].0));
            assert(*es[i].1 == m[*es[i].0]);
            assert(*es[j].1 == m[*es[j].0]);
            assert(es[i] == es[j]);
        }
    }
    assert forall|i: int| 0 <= i < ps.len() implies #[trigger] am.contains_key(ps[i].0)
        && am[ps[i].0] == ps[i].1 by {
        assert(m.contains_key(*es[i].0));
    }
    assert forall|k: usize| #[trigger] am.contains_key(k) implies exists|i: int|
        0 <= i < ps.len() && ps[i].0 == k by {
        assert(m.contains_key(k));
        assert(es.contains((&k, &m[k])));
        let i = choose|i: int| 0 <= i < es.len() && es[i] == (&k, &m[k]);
        assert(ps[i].0 == k);
    }
}

/// Serializes the whole snapshot.
pub fn encode_snapshot(d: &Disk) -> (r: Vec<u8>)
    ensures
        exists|ms: Seq<(usize, MetaView)>, ds: Seq<(usize, Seq<usize>)>|
            {
                &&& metas_bounded(ms)
                &&& decks_bounded(ds)
                &&& entries_match(ms, abs_meta(d.deckmeta@))
                &&& entries_match(ds, abs_decks(d.decks@))
                &&& r@ == enc_snapshot(d.page_start, d.page_end, ms, ds)
            },
{
    let metas = meta_entries(&d.deckmeta);
    let decks = deck_entries(&d.decks);
    let ghost ms = meta_pairs_view(metas@);
    let ghost ds = deck_pairs_view(decks@);
    let mut buf: Vec<u8> = Vec::new();
    push_u64(&mut buf, d.page_start as u64);
    push_u64(&mut buf, d.page_end as u64);
    push_u64(&mut buf, metas.len() as u64);
    let ghost head = buf@;
    proof {
        assert(enc_metas(Seq::<(usize, MetaView)>::empty()) =~= Seq::<u8>::empty());
        assert(head + Seq::<u8>::empty() =~= head);
    }
    let mut i: usize = 0;
    while i < metas.len()
        invariant
            0 <= i <= metas@.len(),
            ms == meta_pairs_view(metas@),
            buf@ == head + enc_metas(ms.take(i as int)),
            forall|j: int| 0 <= j < i ==> meta_bounded(#[trigger] ms[j].1),
        decreases metas@.len() - i,
    {
        let entry = &metas[i];
        push_meta_entry(&mut buf, entry.0, &entry.1);
        proof {
            assert(ms[i as int] == (metas@[i as int].0, metas@[i as int].1@));
            assert(ms.take(i + 1) =~= ms.take(i as int).push(ms[i as int]));
            lemma_enc_metas_push(ms.take(i as int), ms[i as int].0, ms[i as int].1);
            assert((head + enc_metas(ms.take(i as int))) + enc_meta_entry(
                ms[i as int].0,
                ms[i as int].1,
            ) =~= head + enc_metas(ms.take(i + 1)));
        }
        i = i + 1;
    }
    proof {
        assert(ms.take(ms.len() as int) =~= ms);
    }
    push_u64(&mut buf, decks.len() as u64);
    let ghost head2 = buf@;
    proof {
        assert(enc_decks(Seq::<(usize, Seq<usize>)>::empty()) =~= Seq::<u8>::empty());
        assert(head2 + Seq::<u8>::empty() =~= head2);
    }
    let mut j: usize = 0;
    while j < decks.len()
        invariant
            0 <= j <= decks@.len(),
            ds == deck_pairs_view(decks@),
            buf@ == head2 + enc_decks(ds.take(j as int)),
            forall|l: int| 0 <= l < j ==> deck_bounded(#[trigger] ds[l].1),
        decreases decks@.len() - j,
    {
        let entry = &decks[j];
        push_deck_entry(&mut buf, entry.0, &entry.1);
        proof {
            assert(ds[j as int] == (decks@[j as int].0, decks@[j as int].1@));
            assert(ds.take(j + 1) =~= ds.take(j as int).push(ds[j as int]));
            lemma_enc_decks_push(ds.take(j as int), ds[j as int].0, ds[j as int].1);
            assert((head2 + enc_decks(ds.take(j as int))) + enc_deck_entry(
                ds[j as int].0,
                ds[j as int].1,
            ) =~= head2 + enc_decks(ds.take(j + 1)));
        }
        j = j + 1;
    }
    proof {
        assert(ds.take(ds.len() as int) =~= ds);
        assert(buf@ =~= enc_snapshot(d.page_start, d.page_end, ms, ds));
    }
    buf
}

/// Deserializes a whole snapshot; any malformed input is a uniform
/// failure, and well-formed input reproduces exactly the cursors and the
/// map contents that were encoded.
pub fn decode_snapshot(buf: &[u8]) -> (r: Option<Disk>)
    ensures
        match sdec_snapshot(buf@) {
            None => r is None,
            Some((ps, pe, ms, ds)) => match r {
                Some(d) => {
                    &&& d.page_start == ps
                    &&& d.page_end == pe
                    &&& abs_meta(d.deckmeta@) == insert_all(Map::<usize, MetaView>::empty(), ms)
                    &&& abs_decks(d.decks@) == insert_all(Map::<usize, Seq<usize>>::empty(), ds)
                },
                None => false,
            },
        },
{
    let (page_start, p1) = match read_usize(buf, 0) {
        Some(v) => v,
        None => {
            return None;
        },
    };
    let (page_end, p2) = match read_usize(buf, p1) {
        Some(v) => v,
        None => {
            return None;
        },
    };
    let (nm, p3) = match read_usize(buf, p2) {
        Some(v) => v,
        None => {
            return None;
        },
    };
    let (metas, p4) = match read_metas(buf, p3, nm) {
        Some(v) => v,
        None => {
            return None;
        },
    };
    let (nd, p5) = match read_usize(buf, p4) {
        Some(v) => v,
        None => {
            return None;
        },
    };
    let (decks, p6) = match read_decks(buf, p5, nd) {
        Some(v) => v,
        None => {
            return None;
        },
    };
    if p6 != buf.len() {
        return None;
    }
    let ghost ms = meta_pairs_view(metas@);
    let ghost ds = deck_pairs_view(decks@);
    let mut deckmeta: HashMap<usize, DeckMetadata> = HashMap::new();
    let mut metas = metas;
    proof {
        assert(abs_meta(deckmeta@) =~= insert_all(
            Map::<usize, MetaView>::empty(),
            ms.take(0),
        ));
    }
    while metas.len() > 0
        invariant
            metas@.len() <= ms.len(),
            meta_pairs_view(metas@) =~= ms.skip(ms.len() - metas@.len()),
            abs_meta(deckmeta@) == insert_all(
                Map::<usize, MetaView>::empty(),
                ms.take(ms.len() - metas@.len()),
            ),
        decreases metas.len(),
    {
        let ghost i = ms.len() - metas@.len();
        let ghost prev = metas@;
        let (k, dm) = metas.remove(0);
        proof {
            assert((k, dm) == prev[0]);
            assert(meta_pairs_view(prev)[0] == (prev[0].0, prev[0].1@));
            assert((k, dm@) == ms[i]);
            assert forall|l: int| 0 <= l < metas@.len() implies meta_pairs_view(metas@)[l] == ms.skip(
                i + 1,
            )[l] by {
                assert(metas@[l] == prev[l + 1]);
                assert(meta_pairs_view(prev)[l + 1] == (prev[l + 1].0, prev[l + 1].1@));
                assert(meta_pairs_view(metas@)[l] == (metas@[l].0, metas@[l].1@));
            }
            assert(meta_pairs_view(metas@) =~= ms.skip(i + 1));
            assert(ms.take(i + 1).drop_last() =~= ms.take(i));
            assert(ms.take(i + 1).last() == ms[i]);
        }
        let ghost before = deckmeta@;
        deckmeta.insert(k, dm);
        proof {
            assert(abs_meta(deckmeta@) =~= abs_meta(before).insert(k, dm@));
        }
    }
    proof {
        assert(ms.take(ms.len() as int) =~= ms);
    }
    let mut decksm: HashMap<usize, Deck> = HashMap::new();
    let mut decks = decks;
    proof {
        assert(abs_decks(decksm@) =~= insert_all(
            Map::<usize, Seq<usize>>::empty(),
            ds.take(0),
        ));
    }
    while decks.len() > 0
        invariant
            decks@.len() <= ds.len(),
            deck_pairs_view(decks@) =~= ds.skip(ds.len() - decks@.len()),
            abs_decks(decksm@) == insert_all(
                Map::<usize, Seq<usize>>::empty(),
                ds.take(ds.len() - decks@.len()),
            ),
        decreases decks.len(),
    {
        let ghost i = ds.len() - decks@.len();
        let ghost prev = decks@;
        let (k, deck) = decks.remove(0);
        proof {
            assert((k, deck) == prev[0]);
            assert(deck_pairs_view(prev)[0] == (prev[0].0, prev[0].1@));
            assert((k, deck@) == ds[i]);
            assert forall|l: int| 0 <= l < decks@.len() implies deck_pairs_view(decks@)[l] == ds.skip(
                i + 1,
            )[l] by {
                assert(decks@[l] == prev[l + 1]);
                assert(deck_pairs_view(prev)[l + 1] == (prev[l + 1].0, prev[l + 1].1@));
                assert(deck_pairs_view(decks@)[l] == (decks@[l].0, decks@[l].1@));
            }
            assert(deck_pairs_view(decks@) =~= ds.skip(i + 1));
            assert(ds.take(i + 1).drop_last() =~= ds.take(i));
            assert(ds.take(i + 1).last() == ds[i]);
        }
        let ghost before = decksm@;
        decksm.insert(k, deck);
        proof {
            assert(abs_decks(decksm@) =~= abs_decks(before).insert(k, deck@));
        }
    }
    proof {
        assert(ds.take(ds.len() as int) =~= ds);
    }
    Some(Disk { page_start, page_end, deckmeta, decks: decksm })
}

/// The one-byte encoding of a tag byte.
pub open spec fn enc_u8(v: u8) -> Seq<u8> {
    seq![v]
}

/// Reads one byte.
pub open spec fn sdec_u8(b: Seq<u8>, pos: int) -> Option<(u8, int)> {
    if 0 <= pos && pos + 1 <= b.len() {
        Some((b[pos], pos + 1))
    } else {
        None
    }
}

/// Reading a byte that encodes `v` yields `v` back.
pub proof fn lemma_rt_u8(b: Seq<u8>, pos: int, v: u8)
    requires
        0 <= pos,
        pos + 1 <= b.len(),
        b.subrange(pos, pos + 1) == enc_u8(v),
    ensures
        sdec_u8(b, pos) == Some((v, pos + 1)),
{
    assert(b[pos] == b.subrange(pos, pos + 1)[0]);
}

pub fn push_u8(buf: &mut Vec<u8>, v: u8)
    ensures
        final(buf)@ == old(buf)@ + enc_u8(v),
{
    buf.push(v);
    proof {
        assert(buf@ =~= old(buf)@ + enc_u8(v));
    }
}

pub fn read_u8(buf: &[u8], pos: usize) -> (r: Option<(u8, usize)>)
    ensures
        match r {
            Some(p) => sdec_u8(buf@, pos as int) == Some((p.0, p.1 as int)),
            None => sdec_u8(buf@, pos as int) is None,
        },
{
    if pos >= buf.len() {
        return None;
    }
    Some((buf[pos], pos + 1))
}

/// The byte standing for each member of the type enumeration.
pub open spec fn card_type_tag(t: CardType) -> u8 {
    match t {
        CardType::UNIT => 0,
        CardType::ABILITY => 1,
        CardType::SPELL => 2,
        CardType::STRATEGEM => 3,
        CardType::ARTIFACT => 4,
        CardType::SPECIAL => 5,
    }
}

/// The type enumeration member a tag byte stands for.
pub open spec fn card_type_of_tag(v: u8) -> Option<CardType> {
    if v == 0 {
        Some(CardType::UNIT)
    } else if v == 1 {
        Some(CardType::ABILITY)
    } else if v == 2 {
        Some(CardType::SPELL)
    } else if v == 3 {
        Some(CardType::STRATEGEM)
    } else if v == 4 {
        Some(CardType::ARTIFACT)
    } else if v == 5 {
        Some(CardType::SPECIAL)
    } else {
        None
    }
}

pub open spec fn card_rarity_tag(t: CardRarity) -> u8 {
    match t {
        CardRarity::LEGENDARY => 0,
        CardRarity::EPIC => 1,
        CardRarity::RARE => 2,
        CardRarity::COMMON => 3,
    }
}

pub open spec fn card_rarity_of_tag(v: u8) -> Option<CardRarity> {
    if v == 0 {
        Some(CardRarity::LEGENDARY)
    } else if v == 1 {
        Some(CardRarity::EPIC)
    } else if v == 2 {
        Some(CardRarity::RARE)
    } else if v == 3 {
        Some(CardRarity::COMMON)
    } else {
        None
    }
}

pub open spec fn card_group_tag(t: CardGroup) -> u8 {
    match t {
        CardGroup::GOLD => 0,
        CardGroup::BRONZE => 1,
        CardGroup::NONE => 2,
    }
}

pub open spec fn card_group_of_tag(v: u8) -> Option<CardGroup> {
    if v == 0 {
        Some(CardGroup::GOLD)
    } else if v == 1 {
        Some(CardGroup::BRONZE)
    } else if v == 2 {
        Some(CardGroup::NONE)
    } else {
        None
    }
}

pub open spec fn card_faction_tag(t: CardFaction) -> u8 {
    match t {
        CardFaction::NEUTRAL => 0,
        CardFaction::SKELLIGE => 1,
        CardFaction::SYNDICATE => 2,
        CardFaction::SCOIATAEL => 3,
        CardFaction::NILFGAARD => 4,
        CardFaction::NORTHERNREALMS => 5,
        CardFaction::MONSTER => 6,
    }
}

pub open spec fn card_faction_of_tag(v: u8) -> Option<CardFaction> {
    if v == 0 {
        Some(CardFaction::NEUTRAL)
    } else if v == 1 {
        Some(CardFaction::SKELLIGE)
    } else if v == 2 {
        Some(CardFaction::SYNDICATE)
    } else if v == 3 {
        Some(CardFaction::SCOIATAEL)
    } else if v == 4 {
        Some(CardFaction::NILFGAARD)
    } else if v == 5 {
        Some(CardFaction::NORTHERNREALMS)
    } else if v == 6 {
        Some(CardFaction::MONSTER)
    } else {
        None
    }
}

/// The encoding of a string list: each string in order.
pub open spec fn enc_strs(ss: Seq<Seq<char>>) -> Seq<u8>
    decreases ss.len(),
{
    if ss.len() == 0 {
        Seq::empty()
    } else {
        enc_str(ss[0]) + enc_strs(ss.skip(1))
    }
}

/// Appending one string extends the encoding at its end.
#[verifier::rlimit(50)]
pub proof fn lemma_enc_strs_push(ss: Seq<Seq<char>>, t: Seq<char>)
    ensures
        enc_strs(ss.push(t)) == enc_strs(ss) + enc_str(t),
    decreases ss.len(),
{
    if ss.len() == 0 {
        let one = ss.push(t);
        assert(one.skip(1) =~= Seq::<Seq<char>>::empty());
        assert(enc_strs(Seq::<Seq<char>>::empty()) =~= Seq::<u8>::empty());
        assert(one[0] == t);
        assert(enc_strs(one) == enc_str(t) + enc_strs(one.skip(1)));
        assert(enc_str(t) + Seq::<u8>::empty() =~= enc_str(t));
        assert(enc_strs(ss) + enc_str(t) =~= enc_str(t));
    } else {
        assert(ss.push(t).skip(1) =~= ss.skip(1).push(t));
        assert(ss.push(t)[0] == ss[0]);
        lemma_enc_strs_push(ss.skip(1), t);
        assert(enc_str(ss[0]) + (enc_strs(ss.skip(1)) + enc_str(t)) =~= (enc_str(ss[0]) + enc_strs(
            ss.skip(1),
        )) + enc_str(t));
    }
}

/// Reads `count` strings.
pub open spec fn sdec_strs(b: Seq<u8>, pos: int, count: int) -> Option<(Seq<Seq<char>>, int)>
    decreases count,
{
    if count <= 0 {
        Some((Seq::empty(), pos))
    } else {
        match sdec_str(b, pos) {
            None => None,
            Some((t, p)) => match sdec_strs(b, p, count - 1) {
                None => None,
                Some((rest, p2)) => Some((seq![t] + rest, p2)),
            },
        }
    }
}

/// Whether every string of a list fits the machine.
pub open spec fn strs_bounded(ss: Seq<Seq<char>>) -> bool {
    ss.len() <= usize::MAX && forall|i: int|
        0 <= i < ss.len() ==> encode_utf8(#[trigger] ss[i]).len() <= usize::MAX
}

/// Reading bytes that encode the strings `ss` yields them back.
pub proof fn lemma_rt_strs(b: Seq<u8>, pos: int, ss: Seq<Seq<char>>)
    requires
        0 <= pos,
        strs_bounded(ss),
        pos + enc_strs(ss).len() <= b.len(),
        b.subrange(pos, pos + enc_strs(ss).len()) == enc_strs(ss),
    ensures
        sdec_strs(b, pos, ss.len() as int) == Some((ss, pos + enc_strs(ss).len())),
    decreases ss.len(),
{
    if ss.len() > 0 {
        let e = enc_str(ss[0]);
        let rest = enc_strs(ss.skip(1));
        assert(enc_strs(ss) == e + rest);
        lemma_split_concat(b, pos, e, rest);
        lemma_rt_str(b, pos, ss[0]);
        assert(strs_bounded(ss.skip(1))) by {
            assert(forall|i: int| 0 <= i < ss.skip(1).len() ==> #[trigger] ss.skip(1)[i] == ss[i
                + 1]);
        }
        lemma_rt_strs(b, pos + e.len() as int, ss.skip(1));
        assert(seq![ss[0]] + ss.skip(1) =~= ss);
    }
}

/// Writes a string list.
pub fn push_strs(buf: &mut Vec<u8>, ss: &Vec<String>)
    ensures
        final(buf)@ == old(buf)@ + enc_strs(ss.deep_view()),
        strs_bounded(ss.deep_view()),
{
    let ghost views = ss.deep_view();
    proof {
        assert(enc_strs(Seq::<Seq<char>>::empty()) =~= Seq::<u8>::empty());
        assert(old(buf)@ + Seq::<u8>::empty() =~= old(buf)@);
        assert(views.take(0) =~= Seq::<Seq<char>>::empty());
    }
    let mut i: usize = 0;
    while i < ss.len()
        invariant
            0 <= i <= ss@.len(),
            views == ss.deep_view(),
            buf@ == old(buf)@ + enc_strs(views.take(i as int)),
            forall|j: int| 0 <= j < i ==> encode_utf8(#[trigger] views[j]).len() <= usize::MAX,
        decreases ss@.len() - i,
    {
        push_str(buf, ss[i].as_str());
        proof {
            assert(views[i as int] == ss@[i as int]@);
            assert(views.take(i + 1) =~= views.take(i as int).push(views[i as int]));
            lemma_enc_strs_push(views.take(i as int), views[i as int]);
            assert((old(buf)@ + enc_strs(views.take(i as int))) + enc_str(views[i as int])
                =~= old(buf)@ + enc_strs(views.take(i + 1)));
        }
        i = i + 1;
    }
    proof {
        assert(views.take(views.len() as int) =~= views);
    }
}

/// Reads `count` strings back into a list.
pub fn read_strs(buf: &[u8], pos: usize, count: usize) -> (r: Option<(Vec<String>, usize)>)
    ensures
        match r {
            Some(t) => sdec_strs(buf@, pos as int, count as int) == Some(
                (t.0.deep_view(), t.1 as int),
            ) && t.0@.len() == count,
            None => sdec_strs(buf@, pos as int, count as int) is None,
        },
{
    let mut ss: Vec<String> = Vec::new();
    let mut p = pos;
    let mut i: usize = 0;
    while i < count
        invariant
            0 <= i <= count,
            ss@.len() == i,
            match sdec_strs(buf@, p as int, (count - i) as int) {
                None => sdec_strs(buf@, pos as int, count as int) is None,
                Some((rest, p2)) => sdec_strs(buf@, pos as int, count as int) == Some(
                    (ss.deep_view() + rest, p2),
                ),
            },
        decreases count - i,
    {
        let ghost before = ss.deep_view();
        match read_str(buf, p) {
            None => {
                return None;
            },
            Some((t, p2)) => {
                ss.push(t);
                proof {
                    assert(ss.deep_view() =~= before.push(t@));
                    if sdec_strs(buf@, p2 as int, (count - i - 1) as int) is Some {
                        let rest2 = sdec_strs(buf@, p2 as int, (count - i - 1) as int)->Some_0.0;
                        assert(before + (seq![t@] + rest2) =~= ss.deep_view() + rest2);
                    }
                }
                p = p2;
            },
        }
        i = i + 1;
    }
    proof {
        assert(ss.deep_view() + Seq::<Seq<char>>::empty() =~= ss.deep_view());
    }
    Some((ss, p))
}

/// The encoding of one catalog entry: its key, then the record fields in
/// declaration order, string lists with a leading count and categorical
/// attributes as one tag byte each.
pub open spec fn enc_card_entry(k: usize, c: CardView) -> Seq<u8> {
    enc_usize(k) + enc_usize(c.id) + enc_str(c.name) + enc_usize(c.categories.len() as usize)
        + enc_strs(c.categories) + enc_usize(c.keywords.len() as usize) + enc_strs(c.keywords)
        + enc_usize(c.power) + enc_usize(c.provisions) + enc_usize(c.armor) + enc_u8(
        card_faction_tag(c.faction),
    ) + enc_u8(card_type_tag(c.card_type)) + enc_u8(card_rarity_tag(c.rarity)) + enc_u8(
        card_group_tag(c.group),
    )
}

/// Reads the fixed-width middle fields of a catalog entry — the three
/// numeric attributes and the four tags — after position `pos`.
pub open spec fn sdec_card_tail(
    b: Seq<u8>,
    pos: int,
) -> Option<((usize, usize, usize, CardFaction, CardType, CardRarity, CardGroup), int)> {
    match sdec_usize(b, pos) {
        None => None,
        Some((power, p1)) => match sdec_usize(b, p1) {
            None => None,
            Some((provisions, p2)) => match sdec_usize(b, p2) {
                None => None,
                Some((armor, p3)) => match sdec_u8(b, p3) {
                    None => None,
                    Some((ft, p4)) => match card_faction_of_tag(ft) {
                        None => None,
                        Some(faction) => match sdec_u8(b, p4) {
                            None => None,
                            Some((tt, p5)) => match card_type_of_tag(tt) {
                                None => None,
                                Some(card_type) => match sdec_u8(b, p5) {
                                    None => None,
                                    Some((rt, p6)) => match card_rarity_of_tag(rt) {
                                        None => None,
                                        Some(rarity) => match sdec_u8(b, p6) {
                                            None => None,
                                            Some((gt, p7)) => match card_group_of_tag(gt) {
                                                None => None,
                                                Some(group) => Some(
                                                    (
                                                        (
                                                            power,
                                                            provisions,
                                                            armor,
                                                            faction,
                                                            card_type,
                                                            rarity,
                                                            group,
                                                        ),
                                                        p7,
                                                    ),
                                                ),
                                            },
                                        },
                                    },
                                },
                            },
                        },
                    },
                },
            },
        },
    }
}

/// Reads one catalog entry.
pub open spec fn sdec_card_entry(b: Seq<u8>, pos: int) -> Option<((usize, CardView), int)> {
    match sdec_usize(b, pos) {
        None => None,
        Some((k, p1)) => match sdec_usize(b, p1) {
            None => None,
            Some((id, p2)) => match sdec_str(b, p2) {
                None => None,
                Some((name, p3)) => match sdec_usize(b, p3) {
                    None => None,
                    Some((nc, p4)) => match sdec_strs(b, p4, nc as int) {
                        None => None,
                        Some((categories, p5)) => match sdec_usize(b, p5) {
                            None => None,
                            Some((nk, p6)) => match sdec_strs(b, p6, nk as int) {
                                None => None,
                                Some((keywords, p7)) => match sdec_card_tail(b, p7) {
                                    None => None,
                                    Some((tail, p8)) => Some(
                                        (
                                            (
                                                k,
                                                CardView {
                                                    id,
                                                    name,
                                                    categories,
                                                    keywords,
                                                    power: tail.0,
                                                    provisions: tail.1,
                                                    armor: tail.2,
                                                    faction: tail.3,
                                                    card_type: tail.4,
                                                    rarity: tail.5,
                                                    group: tail.6,
                                                },
                                            ),
                                            p8,
                                        ),
                                    ),
                                },
                            },
                        },
                    },
                },
            },
        },
    }
}

/// Whether a catalog entry's text fits the machine.
pub open spec fn card_bounded(c: CardView) -> bool {
    encode_utf8(c.name).len() <= usize::MAX && strs_bounded(c.categories) && strs_bounded(
        c.keywords,
    )
}

/// Reading bytes that encode the entry `(k, c)` yields it back.
#[verifier::rlimit(100)]
pub proof fn lemma_rt_card_entry(b: Seq<u8>, pos: int, k: usize, c: CardView)
    requires
        0 <= pos,
        card_bounded(c),
        pos + enc_card_entry(k, c).len() <= b.len(),
        b.subrange(pos, pos + enc_card_entry(k, c).len()) == enc_card_entry(k, c),
    ensures
        sdec_card_entry(b, pos) == Some(((k, c), pos + enc_card_entry(k, c).len())),
{
    let s1 = enc_usize(k);
    let s2 = enc_usize(c.id);
    let s3 = enc_str(c.name);
    let s4 = enc_usize(c.categories.len() as usize);
    let s5 = enc_strs(c.categories);
    let s6 = enc_usize(c.keywords.len() as usize);
    let s7 = enc_strs(c.keywords);
    let s8 = enc_usize(c.power);
    let s9 = enc_usize(c.provisions);
    let s10 = enc_usize(c.armor);
    let s11 = enc_u8(card_faction_tag(c.faction));
    let s12 = enc_u8(card_type_tag(c.card_type));
    let s13 = enc_u8(card_rarity_tag(c.rarity));
    let s14 = enc_u8(card_group_tag(c.group));
    lemma_split_concat(
        b,
        pos,
        s1 + s2 + s3 + s4 + s5 + s6 + s7 + s8 + s9 + s10 + s11 + s12 + s13,
        s14,
    );
    lemma_split_concat(b, pos, s1 + s2 + s3 + s4 + s5 + s6 + s7 + s8 + s9 + s10 + s11 + s12, s13);
    lemma_split_concat(b, pos, s1 + s2 + s3 + s4 + s5 + s6 + s7 + s8 + s9 + s10 + s11, s12);
    lemma_split_concat(b, pos, s1 + s2 + s3 + s4 + s5 + s6 + s7 + s8 + s9 + s10, s11);
    lemma_split_concat(b, pos, s1 + s2 + s3 + s4 + s5 + s6 + s7 + s8 + s9, s10);
    lemma_split_concat(b, pos, s1 + s2 + s3 + s4 + s5 + s6 + s7 + s8, s9);
    lemma_split_concat(b, pos, s1 + s2 + s3 + s4 + s5 + s6 + s7, s8);
    lemma_split_concat(b, pos, s1 + s2 + s3 + s4 + s5 + s6, s7);
    lemma_split_concat(b, pos, s1 + s2 + s3 + s4 + s5, s6);
    lemma_split_concat(b, pos, s1 + s2 + s3 + s4, s5);
    lemma_split_concat(b, pos, s1 + s2 + s3, s4);
    lemma_split_concat(b, pos, s1 + s2, s3);
    lemma_split_concat(b, pos, s1, s2);
    let p2 = pos + 16;
    let p3 = p2 + s3.len() as int;
    let p5 = p3 + 8 + s5.len() as int;
    let p7 = p5 + 8 + s7.len() as int;
    lemma_rt_usize(b, pos, k);
    lemma_rt_usize(b, pos + 8, c.id);
    lemma_rt_str(b, p2, c.name);
    lemma_rt_usize(b, p3, c.categories.len() as usize);
    lemma_rt_strs(b, p3 + 8, c.categories);
    lemma_rt_usize(b, p5, c.keywords.len() as usize);
    lemma_rt_strs(b, p5 + 8, c.keywords);
    lemma_rt_usize(b, p7, c.power);
    lemma_rt_usize(b, p7 + 8, c.provisions);
    lemma_rt_usize(b, p7 + 16, c.armor);
    lemma_rt_u8(b, p7 + 24, card_faction_tag(c.faction));
    lemma_rt_u8(b, p7 + 25, card_type_tag(c.card_type));
    lemma_rt_u8(b, p7 + 26, card_rarity_tag(c.rarity));
    lemma_rt_u8(b, p7 + 27, card_group_tag(c.group));
}

/// Writes one catalog entry.
#[verifier::rlimit(100)]
pub fn push_card_entry(buf: &mut Vec<u8>, k: usize, c: &CardData)
    ensures
        final(buf)@ == old(buf)@ + enc_card_entry(k, c@),
        card_bounded(c@),
{
    let ghost b0 = old(buf)@;
    push_u64(buf, k as u64);
    push_u64(buf, c.id as u64);
    proof {
        assert(buf@ =~= b0 + (enc_usize(k) + enc_usize(c.id)));
    }
    push_str(buf, c.name.as_str());
    proof {
        assert(buf@ =~= b0 + (enc_usize(k) + enc_usize(c.id) + enc_str(c@.name)));
    }
    push_u64(buf, c.categories.len() as u64);
    proof {
        assert(buf@ =~= b0 + (enc_usize(k) + enc_usize(c.id) + enc_str(c@.name) + enc_usize(
            c@.categories.len() as usize,
        )));
    }
    push_strs(buf, &c.categories);
    proof {
        assert(buf@ =~= b0 + (enc_usize(k) + enc_usize(c.id) + enc_str(c@.name) + enc_usize(
            c@.categories.len() as usize,
        ) + enc_strs(c@.categories)));
    }
    push_u64(buf, c.keywords.len() as u64);
    push_strs(buf, &c.keywords);
    proof {
        assert(buf@ =~= b0 + (enc_usize(k) + enc_usize(c.id) + enc_str(c@.name) + enc_usize(
            c@.categories.len() as usize,
        ) + enc_strs(c@.categories) + enc_usize(c@.keywords.len() as usize) + enc_strs(
            c@.keywords,
        )));
    }
    push_u64(buf, c.power as u64);
    push_u64(buf, c.provisions as u64);
    push_u64(buf, c.armor as u64);
    proof {
        assert(buf@ =~= b0 + (enc_usize(k) + enc_usize(c.id) + enc_str(c@.name) + enc_usize(
            c@.categories.len() as usize,
        ) + enc_strs(c@.categories) + enc_usize(c@.keywords.len() as usize) + enc_strs(c@.keywords)
            + enc_usize(c@.power) + enc_usize(c@.provisions) + enc_usize(c@.armor)));
    }
    let ft: u8 = match c.faction {
        CardFaction::NEUTRAL => 0,
        CardFaction::SKELLIGE => 1,
        CardFaction::SYNDICATE => 2,
        CardFaction::SCOIATAEL => 3,
        CardFaction::NILFGAARD => 4,
        CardFaction::NORTHERNREALMS => 5,
        CardFaction::MONSTER => 6,
    };
    push_u8(buf, ft);
    let ghost s10 = enc_usize(k) + enc_usize(c.id) + enc_str(c@.name) + enc_usize(
        c@.categories.len() as usize,
    ) + enc_strs(c@.categories) + enc_usize(c@.keywords.len() as usize) + enc_strs(c@.keywords)
        + enc_usize(c@.power) + enc_usize(c@.provisions) + enc_usize(c@.armor);
    proof {
        assert(buf@ =~= b0 + (s10 + enc_u8(card_faction_tag(c@.faction))));
    }
    let tt: u8 = match c.card_type {
        CardType::UNIT => 0,
        CardType::ABILITY => 1,
        CardType::SPELL => 2,
        CardType::STRATEGEM => 3,
        CardType::ARTIFACT => 4,
        CardType::SPECIAL => 5,
    };
    push_u8(buf, tt);
    proof {
        assert(buf@ =~= b0 + (s10 + enc_u8(card_faction_tag(c@.faction)) + enc_u8(card_type_tag(
            c@.card_type,
        ))));
    }
    let rt: u8 = match c.rarity {
        CardRarity::LEGENDARY => 0,
        CardRarity::EPIC => 1,
        CardRarity::RARE => 2,
        CardRarity::COMMON => 3,
    };
    push_u8(buf, rt);
    proof {
        assert(buf@ =~= b0 + (s10 + enc_u8(card_faction_tag(c@.faction)) + enc_u8(card_type_tag(
            c@.card_type,
        )) + enc_u8(card_rarity_tag(c@.rarity))));
    }
    let gt: u8 = match c.group {
        CardGroup::GOLD => 0,
        CardGroup::BRONZE => 1,
        CardGroup::NONE => 2,
    };
    push_u8(buf, gt);
    proof {
        assert(buf@ =~= b0 + (s10 + enc_u8(card_faction_tag(c@.faction)) + enc_u8(card_type_tag(
            c@.card_type,
        )) + enc_u8(card_rarity_tag(c@.rarity)) + enc_u8(card_group_tag(c@.group))));
        assert(s10 + enc_u8(card_faction_tag(c@.faction)) + enc_u8(card_type_tag(c@.card_type))
            + enc_u8(card_rarity_tag(c@.rarity)) + enc_u8(card_group_tag(c@.group))
            == enc_card_entry(k, c@));
    }
}

/// Reads one catalog entry back into a record.
pub fn read_card_entry(buf: &[u8], pos: usize) -> (r: Option<(usize, CardData, usize)>)
    ensures
        match r {
            Some(t) => sdec_card_entry(buf@, pos as int) == Some(((t.0, t.1@), t.2 as int)),
            None => sdec_card_entry(buf@, pos as int) is None,
        },
{
    let (k, p1) = match read_usize(buf, pos) {
        Some(v) => v,
        None => {
            return None;
        },
    };
    let (id, p2) = match read_usize(buf, p1) {
        Some(v) => v,
        None => {
            return None;
        },
    };
    let (name, p3) = match read_str(buf, p2) {
        Some(v) => v,
        None => {
            return None;
        },
    };
    let (nc, p4) = match read_usize(buf, p3) {
        Some(v) => v,
        None => {
            return None;
        },
    };
    let (categories, p5) = match read_strs(buf, p4, nc) {
        Some(v) => v,
        None => {
            return None;
        },
    };
    let (nk, p6) = match read_usize(buf, p5) {
        Some(v) => v,
        None => {
            return None;
        },
    };
    let (keywords, p7) = match read_strs(buf, p6, nk) {
        Some(v) => v,
        None => {
            return None;
        },
    };
    let (power, p8) = match read_usize(buf, p7) {
        Some(v) => v,
        None => {
            return None;
        },
    };
    let (provisions, p9) = match read_usize(buf, p8) {
        Some(v) => v,
        None => {
            return None;
        },
    };
    let (armor, p10) = match read_usize(buf, p9) {
        Some(v) => v,
        None => {
            return None;
        },
    };
    let (ft, p11) = match read_u8(buf, p10) {
        Some(v) => v,
        None => {
            return None;
        },
    };
    let faction = if ft == 0 {
        CardFaction::NEUTRAL
    } else if ft == 1 {
        CardFaction::SKELLIGE
    } else if ft == 2 {
        CardFaction::SYNDICATE
    } else if ft == 3 {
        CardFaction::SCOIATAEL
    } else if ft == 4 {
        CardFaction::NILFGAARD
    } else if ft == 5 {
        CardFaction::NORTHERNREALMS
    } else if ft == 6 {
        CardFaction::MONSTER
    } else {
        return None;
    };
    let (tt, p12) = match read_u8(buf, p11) {
        Some(v) => v,
        None => {
            return None;
        },
    };
    let card_type = if tt == 0 {
        CardType::UNIT
    } else if tt == 1 {
        CardType::ABILITY
    } else if tt == 2 {
        CardType::SPELL
    } else if tt == 3 {
        CardType::STRATEGEM
    } else if tt == 4 {
        CardType::ARTIFACT
    } else if tt == 5 {
        CardType::SPECIAL
    } else {
        return None;
    };
    let (rt, p13) = match read_u8(buf, p12) {
        Some(v) => v,
        None => {
            return None;
        },
    };
    let rarity = if rt == 0 {
        CardRarity::LEGENDARY
    } else if rt == 1 {
        CardRarity::EPIC
    } else if rt == 2 {
        CardRarity::RARE
    } else if rt == 3 {
        CardRarity::COMMON
    } else {
        return None;
    };
    let (gt, p14) = match read_u8(buf, p13) {
        Some(v) => v,
        None => {
            return None;
        },
    };
    let group = if gt == 0 {
        CardGroup::GOLD
    } else if gt == 1 {
        CardGroup::BRONZE
    } else if gt == 2 {
        CardGroup::NONE
    } else {
        return None;
    };
    let card = CardData {
        id,
        name,
        categories,
        keywords,
        power,
        provisions,
        armor,
        faction,
        card_type,
        rarity,
        group,
    };
    Some((k, card, p14))
}

/// Key-and-view pairs of decoded catalog records.
pub open spec fn card_pairs_view(es: Seq<(usize, CardData)>) -> Seq<(usize, CardView)> {
    es.map(|i: int, p: (usize, CardData)| (p.0, p.1@))
}

/// The encoding of a catalog map: its entries in order.
pub open spec fn enc_card_entries(es: Seq<(usize, CardView)>) -> Seq<u8>
    decreases es.len(),
{
    if es.len() == 0 {
        Seq::empty()
    } else {
        enc_card_entry(es[0].0, es[0].1) + enc_card_entries(es.skip(1))
    }
}

/// Appending one entry extends the encoding at its end.
#[verifier::rlimit(50)]
pub proof fn lemma_enc_card_entries_push(es: Seq<(usize, CardView)>, k: usize, c: CardView)
    ensures
        enc_card_entries(es.push((k, c))) == enc_card_entries(es) + enc_card_entry(k, c),
    decreases es.len(),
{
    if es.len() == 0 {
        let one = es.push((k, c));
        assert(one.skip(1) =~= Seq::<(usize, CardView)>::empty());
        assert(enc_card_entries(Seq::<(usize, CardView)>::empty()) =~= Seq::<u8>::empty());
        assert(one[0] == (k, c));
        assert(enc_card_entries(one) == enc_card_entry(k, c) + enc_card_entries(one.skip(1)));
        assert(enc_card_entry(k, c) + Seq::<u8>::empty() =~= enc_card_entry(k, c));
        assert(enc_card_entries(es) + enc_card_entry(k, c) =~= enc_card_entry(k, c));
    } else {
        assert(es.push((k, c)).skip(1) =~= es.skip(1).push((k, c)));
        assert(es.push((k, c))[0] == es[0]);
        lemma_enc_card_entries_push(es.skip(1), k, c);
        assert(enc_card_entry(es[0].0, es[0].1) + (enc_card_entries(es.skip(1)) + enc_card_entry(
            k,
            c,
        )) =~= (enc_card_entry(es[0].0, es[0].1) + enc_card_entries(es.skip(1))) + enc_card_entry(
            k,
            c,
        ));
    }
}

/// Reads `count` catalog entries.
pub open spec fn sdec_card_entries(b: Seq<u8>, pos: int, count: int) -> Option<
    (Seq<(usize, CardView)>, int),
>
    decreases count,
{
    if count <= 0 {
        Some((Seq::empty(), pos))
    } else {
        match sdec_card_entry(b, pos) {
            None => None,
            Some((e, p)) => match sdec_card_entries(b, p, count - 1) {
                None => None,
                Some((rest, p2)) => Some((seq![e] + rest, p2)),
            },
        }
    }
}

/// Whether every catalog entry's text fits the machine.
pub open spec fn cards_bounded(es: Seq<(usize, CardView)>) -> bool {
    es.len() <= usize::MAX && forall|i: int| 0 <= i < es.len() ==> card_bounded(#[trigger] es[i].1)
}

/// Reading bytes that encode the entries `es` yields them back.
#[verifier::rlimit(100)]
#[verifier::spinoff_prover]
pub proof fn lemma_rt_card_entries(b: Seq<u8>, pos: int, es: Seq<(usize, CardView)>)
    requires
        0 <= pos,
        cards_bounded(es),
        pos + enc_card_entries(es).len() <= b.len(),
        b.subrange(pos, pos + enc_card_entries(es).len()) == enc_card_entries(es),
    ensures
        sdec_card_entries(b, pos, es.len() as int) == Some((es, pos + enc_card_entries(es).len())),
    decreases es.len(),
{
    if es.len() > 0 {
        let e = enc_card_entry(es[0].0, es[0].1);
        let rest = enc_card_entries(es.skip(1));
        assert(enc_card_entries(es) == e + rest);
        lemma_split_concat(b, pos, e, rest);
        lemma_rt_card_entry(b, pos, es[0].0, es[0].1);
        assert(cards_bounded(es.skip(1))) by {
            assert(forall|i: int|
                0 <= i < es.skip(1).len() ==> #[trigger] es.skip(1)[i].1 == es[i + 1].1);
        }
        lemma_rt_card_entries(b, pos + e.len() as int, es.skip(1));
        assert(seq![es[0]] + es.skip(1) =~= es);
    }
}

/// Reads `count` catalog entries back into records.
pub fn read_card_entries(buf: &[u8], pos: usize, count: usize) -> (r: Option<
    (Vec<(usize, CardData)>, usize),
>)
    ensures
        match r {
            Some(t) => sdec_card_entries(buf@, pos as int, count as int) == Some(
                (card_pairs_view(t.0@), t.1 as int),
            ) && t.0@.len() == count,
            None => sdec_card_entries(buf@, pos as int, count as int) is None,
        },
{
    let mut es: Vec<(usize, CardData)> = Vec::new();
    let mut p = pos;
    let mut i: usize = 0;
    while i < count
        invariant
            0 <= i <= count,
            es@.len() == i,
            match sdec_card_entries(buf@, p as int, (count - i) as int) {
                None => sdec_card_entries(buf@, pos as int, count as int) is None,
                Some((rest, p2)) => sdec_card_entries(buf@, pos as int, count as int) == Some(
                    (card_pairs_view(es@) + rest, p2),
                ),
            },
        decreases count - i,
    {
        let ghost before = es@;
        match read_card_entry(buf, p) {
            None => {
                return None;
            },
            Some((k, card, p2)) => {
                es.push((k, card));
                proof {
                    assert(card_pairs_view(es@) =~= card_pairs_view(before).push((k, card@)));
                    if sdec_card_entries(buf@, p2 as int, (count - i - 1) as int) is Some {
                        let rest2 = sdec_card_entries(
                            buf@,
                            p2 as int,
                            (count - i - 1) as int,
                        )->Some_0.0;
                        assert(card_pairs_view(before) + (seq![(k, card@)] + rest2)
                            =~= card_pairs_view(es@) + rest2);
                    }
                }
                p = p2;
            },
        }
        i = i + 1;
    }
    proof {
        assert(card_pairs_view(es@) + Seq::<(usize, CardView)>::empty() =~= card_pairs_view(es@));
    }
    Some((es, p))
}

/// The encoding of a whole catalog snapshot: an entry count, then the
/// entries.
pub open spec fn enc_card_snapshot(es: Seq<(usize, CardView)>) -> Seq<u8> {
    enc_usize(es.len() as usize) + enc_card_entries(es)
}

/// Reads a whole catalog snapshot; trailing bytes are rejected.
pub open spec fn sdec_card_snapshot(b: Seq<u8>) -> Option<Seq<(usize, CardView)>> {
    match sdec_usize(b, 0) {
        None => None,
        Some((n, p1)) => match sdec_card_entries(b, p1, n as int) {
            None => None,
            Some((es, p2)) => if p2 == b.len() {
                Some(es)
            } else {
                None
            },
        },
    }
}

/// Round-trip persistence of the catalog snapshot: reading an encoded
/// snapshot reproduces its entries exactly.
pub proof fn lemma_card_snapshot_round_trip(es: Seq<(usize, CardView)>)
    requires
        cards_bounded(es),
    ensures
        sdec_card_snapshot(enc_card_snapshot(es)) == Some(es),
{
    let b = enc_card_snapshot(es);
    let s1 = enc_usize(es.len() as usize);
    let s2 = enc_card_entries(es);
    assert(b.subrange(0, b.len() as int) =~= b);
    lemma_split_concat(b, 0, s1, s2);
    lemma_rt_usize(b, 0, es.len() as usize);
    lemma_rt_card_entries(b, 8, es);
}

/// The entries of a catalog map, in some order, each cloned.
fn card_entries_of(m: &HashMap<usize, CardData>) -> (r: Vec<(usize, CardData)>)
    ensures
        entries_match(card_pairs_view(r@), storage::abs_cards(m@)),
{
    let ghost entries = vstd::std_specs::hash::spec_hash_map_iter(m).remaining();
    let mut r: Vec<(usize, CardData)> = Vec::new();
    for kv in it: m.iter()
        invariant
            it.seq() == entries,
            entries.no_duplicates(),
            card_pairs_view(r@) =~= entries.take(it.index() as int).map(
                |i: int, p: (&usize, &CardData)| (*p.0, p.1@),
            ),
    {
        let ghost idx = it.index() as int;
        let ghost before = r@;
        let (k, v) = kv;
        r.push((*k, v.clone()));
        proof {
            assert(kv == entries[idx]);
            assert(entries.take(idx + 1).drop_last() =~= entries.take(idx));
            assert(card_pairs_view(r@) =~= card_pairs_view(before).push((*kv.0, kv.1@)));
            assert(entries.take(idx + 1).map(|i: int, p: (&usize, &CardData)| (*p.0, p.1@))
                =~= entries.take(idx).map(|i: int, p: (&usize, &CardData)| (*p.0, p.1@)).push(
                (*kv.0, kv.1@),
            ));
        }
    }
    proof {
        assert(entries.take(entries.len() as int) =~= entries);
        vstd::std_specs::hash::axiom_spec_hash_map_iter(m);
        lemma_iter_views_enumerate::<CardData, CardView>(
            entries,
            m@,
            entries.map(|i: int, p: (&usize, &CardData)| (*p.0, p.1@)),
            storage::abs_cards(m@),
        );
    }
    r
}

/// Serializes the whole catalog snapshot.
pub fn encode_card_snapshot(d: &storage::Disk) -> (r: Vec<u8>)
    ensures
        exists|es: Seq<(usize, CardView)>|
            {
                &&& cards_bounded(es)
                &&& entries_match(es, storage::abs_cards(d.cards@))
                &&& r@ == enc_card_snapshot(es)
            },
{
    let cards = card_entries_of(&d.cards);
    let ghost es = card_pairs_view(cards@);
    let mut buf: Vec<u8> = Vec::new();
    push_u64(&mut buf, cards.len() as u64);
    let ghost head = buf@;
    proof {
        assert(enc_card_entries(Seq::<(usize, CardView)>::empty()) =~= Seq::<u8>::empty());
        assert(head + Seq::<u8>::empty() =~= head);
    }
    let mut i: usize = 0;
    while i < cards.len()
        invariant
            0 <= i <= cards@.len(),
            es == card_pairs_view(cards@),
            buf@ == head + enc_card_entries(es.take(i as int)),
            forall|j: int| 0 <= j < i ==> card_bounded(#[trigger] es[j].1),
        decreases cards@.len() - i,
    {
        let entry = &cards[i];
        push_card_entry(&mut buf, entry.0, &entry.1);
        proof {
            assert(es[i as int] == (cards@[i as int].0, cards@[i as int].1@));
            assert(es.take(i + 1) =~= es.take(i as int).push(es[i as int]));
            lemma_enc_card_entries_push(es.take(i as int), es[i as int].0, es[i as int].1);
            assert((head + enc_card_entries(es.take(i as int))) + enc_card_entry(
                es[i as int].0,
                es[i as int].1,
            ) =~= head + enc_card_entries(es.take(i + 1)));
        }
        i = i + 1;
    }
    proof {
        assert(es.take(es.len() as int) =~= es);
        assert(buf@ =~= enc_card_snapshot(es));
    }
    buf
}

/// Deserializes a whole catalog snapshot; any malformed input is a
/// uniform failure, and well-formed input reproduces exactly the map
/// contents that were encoded.
pub fn decode_card_snapshot(buf: &[u8]) -> (r: Option<storage::Disk>)
    ensures
        match sdec_card_snapshot(buf@) {
            None => r is None,
            Some(es) => match r {
                Some(d) => storage::abs_cards(d.cards@) == insert_all(
                    Map::<usize, CardView>::empty(),
                    es,
                ),
                None => false,
            },
        },
{
    let (n, p1) = match read_usize(buf, 0) {
        Some(v) => v,
        None => {
            return None;
        },
    };
    let (entries, p2) = match read_card_entries(buf, p1, n) {
        Some(v) => v,
        None => {
            return None;
        },
    };
    if p2 != buf.len() {
        return None;
    }
    let ghost es = card_pairs_view(entries@);
    let mut cards: HashMap<usize, CardData> = HashMap::new();
    let mut entries = entries;
    proof {
        assert(storage::abs_cards(cards@) =~= insert_all(
            Map::<usize, CardView>::empty(),
            es.take(0),
        ));
    }
    while entries.len() > 0
        invariant
            entries@.len() <= es.len(),
            card_pairs_view(entries@) =~= es.skip(es.len() - entries@.len()),
            storage::abs_cards(cards@) == insert_all(
                Map::<usize, CardView>::empty(),
                es.take(es.len() - entries@.len()),
            ),
        decreases entries.len(),
    {
        let ghost i = es.len() - entries@.len();
        let ghost prev = entries@;
        let (k, card) = entries.remove(0);
        proof {
            assert((k, card) == prev[0]);
            assert(card_pairs_view(prev)[0] == (prev[0].0, prev[0].1@));
            assert((k, card@) == es[i]);
            assert forall|l: int| 0 <= l < entries@.len() implies card_pairs_view(entries@)[l]
                == es.skip(i + 1)[l] by {
                assert(entries@[l] == prev[l + 1]);
                assert(card_pairs_view(prev)[l + 1] == (prev[l + 1].0, prev[l + 1].1@));
                assert(card_pairs_view(entries@)[l] == (entries@[l].0, entries@[l].1@));
            }
            assert(card_pairs_view(entries@) =~= es.skip(i + 1));
            assert(es.take(i + 1).drop_last() =~= es.take(i));
            assert(es.take(i + 1).last() == es[i]);
        }
        let ghost before = cards@;
        cards.insert(k, card);
        proof {
            assert(storage::abs_cards(cards@) =~= storage::abs_cards(before).insert(k, card@));
        }
    }
    proof {
        assert(es.take(es.len() as int) =~= es);
    }
    Some(storage::Disk { cards })
}

} // verus!
