//! The binary wire format: every field is a one-byte tag followed either by
//! a varint value or by a varint byte count and the raw bytes. The spec
//! functions below define the encoding and the encoded size; the exec
//! functions produce exactly those bytes, and the size of the encoding
//! always equals the independently computed size estimate.
//!
//! Tags (fixed for server compatibility): `Log.time` = 1 (varint),
//! `Log.contents` = 2; `Pair.key` = 1, `Pair.value` = 2; `LogGroup.logs` = 1,
//! `LogGroup.topic` = 3, `LogGroup.source` = 4, `LogGroup.log_tags` = 6
//! (tag 2 is reserved and never emitted); `LogGroupList.log_group_list` = 1.
//! A tag byte is `field_number << 3 | wire_type`.
use vstd::prelude::*;
use vstd::string::*;
use vstd::utf8::encode_utf8;

use crate::model::{Log, LogGroup, LogGroupList, LogGroupV, LogV, Pair, PairV};
use crate::util::append_bytes;

verus! {

/// Little-endian base-128 encoding of an unsigned number, low group first,
/// the high bit of a byte marking a continuation.
pub open spec fn enc_varint(n: nat) -> Seq<u8>
    decreases n,
{
    if n < 128 {
        seq![n as u8]
    } else {
        seq![(n % 128 + 128) as u8] + enc_varint(n / 128)
    }
}

/// The byte count of `enc_varint(n)`, defined independently.
pub open spec fn size_varint(n: nat) -> nat
    decreases n,
{
    if n < 128 {
        1
    } else {
        1 + size_varint(n / 128)
    }
}

pub proof fn lemma_enc_varint_len(n: nat)
    ensures
        enc_varint(n).len() == size_varint(n),
    decreases n,
{
    if n >= 128 {
        lemma_enc_varint_len(n / 128);
    }
}

/// 128 to the power `k`, for bounding varint sizes.
spec fn pow128(k: nat) -> nat
    decreases k,
{
    if k == 0 {
        1
    } else {
        128 * pow128((k - 1) as nat)
    }
}

proof fn lemma_size_varint_bound(n: nat, k: nat)
    requires
        k >= 1,
        n < pow128(k),
    ensures
        size_varint(n) <= k,
    decreases k,
{
    if n >= 128 {
        assert(pow128(k) == 128 * pow128((k - 1) as nat));
        assert(n / 128 < pow128((k - 1) as nat)) by (nonlinear_arith)
            requires
                n < 128 * pow128((k - 1) as nat),
        ;
        assert((k - 1) as nat >= 1);
        lemma_size_varint_bound(n / 128, (k - 1) as nat);
    }
}

proof fn lemma_size_varint_u64(n: nat)
    requires
        n < 0x10000000000000000,
    ensures
        size_varint(n) <= 10,
{
    assert(pow128(0) == 1);
    assert(pow128(1) == 128);
    assert(pow128(2) == 0x4000);
    assert(pow128(3) == 0x200000);
    assert(pow128(4) == 0x10000000);
    assert(pow128(5) == 0x800000000);
    assert(pow128(6) == 0x40000000000);
    assert(pow128(7) == 0x2000000000000);
    assert(pow128(8) == 0x100000000000000);
    assert(pow128(9) == 0x8000000000000000);
    assert(pow128(10) == 0x400000000000000000);
    lemma_size_varint_bound(n, 10);
}

/// A length-delimited field: tag byte, varint byte count, raw bytes.
pub open spec fn enc_ld(tag: u8, payload: Seq<u8>) -> Seq<u8> {
    seq![tag] + enc_varint(payload.len()) + payload
}

/// Size of a varint byte count plus the counted bytes.
pub open spec fn size_len(n: nat) -> nat {
    size_varint(n) + n
}

pub proof fn lemma_enc_ld_len(tag: u8, payload: Seq<u8>)
    ensures
        enc_ld(tag, payload).len() == 1 + size_len(payload.len()),
{
    lemma_enc_varint_len(payload.len());
}

/// The UTF-8 bytes of a text field.
pub open spec fn text_bytes(t: Seq<char>) -> Seq<u8> {
    encode_utf8(t)
}

/// Encoding of one pair: key at tag 1, value at tag 2, both strings.
pub open spec fn enc_pair(p: PairV) -> Seq<u8> {
    enc_ld(10, text_bytes(p.key)) + enc_ld(18, text_bytes(p.value))
}

pub open spec fn size_pair(p: PairV) -> nat {
    2 + size_len(text_bytes(p.key).len()) + size_len(text_bytes(p.value).len())
}

pub proof fn lemma_enc_pair_len(p: PairV)
    ensures
        enc_pair(p).len() == size_pair(p),
{
    lemma_enc_ld_len(10, text_bytes(p.key));
    lemma_enc_ld_len(18, text_bytes(p.value));
}

/// Encoding of a repeated pair field, one tagged message per element,
/// in order; empty sequences contribute nothing.
pub open spec fn enc_pair_seq(ps: Seq<PairV>, tag: u8) -> Seq<u8>
    decreases ps.len(),
{
    if ps.len() == 0 {
        Seq::empty()
    } else {
        enc_pair_seq(ps.drop_last(), tag) + enc_ld(tag, enc_pair(ps.last()))
    }
}

pub open spec fn size_pair_seq(ps: Seq<PairV>) -> nat
    decreases ps.len(),
{
    if ps.len() == 0 {
        0
    } else {
        size_pair_seq(ps.drop_last()) + 1 + size_len(size_pair(ps.last()))
    }
}

pub proof fn lemma_enc_pair_seq_len(ps: Seq<PairV>, tag: u8)
    ensures
        enc_pair_seq(ps, tag).len() == size_pair_seq(ps),
    decreases ps.len(),
{
    if ps.len() != 0 {
        lemma_enc_pair_seq_len(ps.drop_last(), tag);
        lemma_enc_ld_len(tag, enc_pair(ps.last()));
        lemma_enc_pair_len(ps.last());
    }
}

proof fn lemma_pair_seq_take_step(ps: Seq<PairV>, tag: u8, i: int)
    requires
        0 <= i < ps.len(),
    ensures
        enc_pair_seq(ps.take(i + 1), tag) == enc_pair_seq(ps.take(i), tag) + enc_ld(
            tag,
            enc_pair(ps[i]),
        ),
        size_pair_seq(ps.take(i + 1)) == size_pair_seq(ps.take(i)) + 1 + size_len(size_pair(ps[i])),
{
    assert(ps.take(i + 1).drop_last() =~= ps.take(i));
    assert(ps.take(i + 1).last() == ps[i]);
}

proof fn lemma_size_pair_seq_take_le(ps: Seq<PairV>, i: int)
    requires
        0 <= i <= ps.len(),
    ensures
        size_pair_seq(ps.take(i)) <= size_pair_seq(ps),
    decreases ps.len(),
{
    if i == ps.len() {
        assert(ps.take(i) =~= ps);
    } else {
        assert(ps.drop_last().take(i) =~= ps.take(i));
        lemma_size_pair_seq_take_le(ps.drop_last(), i);
    }
}

/// Encoding of one log: its time at tag 1 as a varint (always present),
/// then each content pair at tag 2.
pub open spec fn enc_log(l: LogV) -> Seq<u8> {
    seq![8u8] + enc_varint(l.time as nat) + enc_pair_seq(l.contents, 18)
}

pub open spec fn size_log(l: LogV) -> nat {
    1 + size_varint(l.time as nat) + size_pair_seq(l.contents)
}

pub proof fn lemma_enc_log_len(l: LogV)
    ensures
        enc_log(l).len() == size_log(l),
{
    lemma_enc_varint_len(l.time as nat);
    lemma_enc_pair_seq_len(l.contents, 18);
}

/// Encoding of a repeated log field at tag 1.
pub open spec fn enc_log_seq(ls: Seq<LogV>) -> Seq<u8>
    decreases ls.len(),
{
    if ls.len() == 0 {
        Seq::empty()
    } else {
        enc_log_seq(ls.drop_last()) + enc_ld(10, enc_log(ls.last()))
    }
}

pub open spec fn size_log_seq(ls: Seq<LogV>) -> nat
    decreases ls.len(),
{
    if ls.len() == 0 {
        0
    } else {
        size_log_seq(ls.drop_last()) + 1 + size_len(size_log(ls.last()))
    }
}

pub proof fn lemma_enc_log_seq_len(ls: Seq<LogV>)
    ensures
        enc_log_seq(ls).len() == size_log_seq(ls),
    decreases ls.len(),
{
    if ls.len() != 0 {
        lemma_enc_log_seq_len(ls.drop_last());
        lemma_enc_ld_len(10, enc_log(ls.last()));
        lemma_enc_log_len(ls.last());
    }
}

proof fn lemma_log_seq_take_step(ls: Seq<LogV>, i: int)
    requires
        0 <= i < ls.len(),
    ensures
        enc_log_seq(ls.take(i + 1)) == enc_log_seq(ls.take(i)) + enc_ld(10, enc_log(ls[i])),
        size_log_seq(ls.take(i + 1)) == size_log_seq(ls.take(i)) + 1 + size_len(size_log(ls[i])),
{
    assert(ls.take(i + 1).drop_last() =~= ls.take(i));
    assert(ls.take(i + 1).last() == ls[i]);
}

proof fn lemma_size_log_seq_take_le(ls: Seq<LogV>, i: int)
    requires
        0 <= i <= ls.len(),
    ensures
        size_log_seq(ls.take(i)) <= size_log_seq(ls),
    decreases ls.len(),
{
    if i == ls.len() {
        assert(ls.take(i) =~= ls);
    } else {
        assert(ls.drop_last().take(i) =~= ls.take(i));
        lemma_size_log_seq_take_le(ls.drop_last(), i);
    }
}

/// Encoding of an optional string field: absent fields contribute nothing;
/// a present empty string still encodes its tag and a zero length byte.
pub open spec fn enc_opt_text(tag: u8, t: Option<Seq<char>>) -> Seq<u8> {
    match t {
        Some(s) => enc_ld(tag, text_bytes(s)),
        None => Seq::empty(),
    }
}

pub open spec fn size_opt_text(t: Option<Seq<char>>) -> nat {
    match t {
        Some(s) => 1 + size_len(text_bytes(s).len()),
        None => 0,
    }
}

pub proof fn lemma_enc_opt_text_len(tag: u8, t: Option<Seq<char>>)
    ensures
        enc_opt_text(tag, t).len() == size_opt_text(t),
{
    match t {
        Some(s) => lemma_enc_ld_len(tag, text_bytes(s)),
        None => (),
    }
}

/// Encoding of one log group, in ascending tag order: logs (tag 1), topic
/// (tag 3), source (tag 4), tags (tag 6). Tag 2 is reserved, never emitted.
pub open spec fn enc_log_group(g: LogGroupV) -> Seq<u8> {
    enc_log_seq(g.logs) + enc_opt_text(26, g.topic) + enc_opt_text(34, g.source) + enc_pair_seq(
        g.log_tags,
        50,
    )
}

pub open spec fn size_log_group(g: LogGroupV) -> nat {
    size_log_seq(g.logs) + size_opt_text(g.topic) + size_opt_text(g.source) + size_pair_seq(
        g.log_tags,
    )
}

/// The encoded byte length of a log group always equals the size estimate
/// computed without encoding.
pub proof fn lemma_enc_log_group_len(g: LogGroupV)
    ensures
        enc_log_group(g).len() == size_log_group(g),
{
    lemma_enc_log_seq_len(g.logs);
    lemma_enc_opt_text_len(26, g.topic);
    lemma_enc_opt_text_len(34, g.source);
    lemma_enc_pair_seq_len(g.log_tags, 50);
}

/// A log group with no logs, no tags, and neither topic nor source encodes
/// to the empty byte sequence: no fields at all are emitted.
pub proof fn lemma_empty_group_encodes_empty(g: LogGroupV)
    requires
        g.logs.len() == 0,
        g.log_tags.len() == 0,
        g.topic is None,
        g.source is None,
    ensures
        enc_log_group(g).len() == 0,
        enc_log_group(g) == Seq::<u8>::empty(),
{
    assert(enc_log_group(g) =~= Seq::<u8>::empty());
}

/// Encoding of a list of log groups, each at tag 1.
pub open spec fn enc_group_seq(gs: Seq<LogGroupV>) -> Seq<u8>
    decreases gs.len(),
{
    if gs.len() == 0 {
        Seq::empty()
    } else {
        enc_group_seq(gs.drop_last()) + enc_ld(10, enc_log_group(gs.last()))
    }
}

pub open spec fn size_group_seq(gs: Seq<LogGroupV>) -> nat
    decreases gs.len(),
{
    if gs.len() == 0 {
        0
    } else {
        size_group_seq(gs.drop_last()) + 1 + size_len(size_log_group(gs.last()))
    }
}

pub proof fn lemma_enc_group_seq_len(gs: Seq<LogGroupV>)
    ensures
        enc_group_seq(gs).len() == size_group_seq(gs),
    decreases gs.len(),
{
    if gs.len() != 0 {
        lemma_enc_group_seq_len(gs.drop_last());
        lemma_enc_ld_len(10, enc_log_group(gs.last()));
        lemma_enc_log_group_len(gs.last());
    }
}

proof fn lemma_group_seq_take_step(gs: Seq<LogGroupV>, i: int)
    requires
        0 <= i < gs.len(),
    ensures
        enc_group_seq(gs.take(i + 1)) == enc_group_seq(gs.take(i)) + enc_ld(
            10,
            enc_log_group(gs[i]),
        ),
        size_group_seq(gs.take(i + 1)) == size_group_seq(gs.take(i)) + 1 + size_len(
            size_log_group(gs[i]),
        ),
{
    assert(gs.take(i + 1).drop_last() =~= gs.take(i));
    assert(gs.take(i + 1).last() == gs[i]);
}

proof fn lemma_size_group_seq_take_le(gs: Seq<LogGroupV>, i: int)
    requires
        0 <= i <= gs.len(),
    ensures
        size_group_seq(gs.take(i)) <= size_group_seq(gs),
    decreases gs.len(),
{
    if i == gs.len() {
        assert(gs.take(i) =~= gs);
    } else {
        assert(gs.drop_last().take(i) =~= gs.take(i));
        lemma_size_group_seq_take_le(gs.drop_last(), i);
    }
}

/// Appends the varint encoding of `n`.
pub fn write_varint(out: &mut Vec<u8>, n: u64)
    ensures
        final(out)@ == old(out)@ + enc_varint(n as nat),
    decreases n,
{
    if n < 128 {
        out.push(n as u8);
        proof {
            assert(out@ =~= old(out)@ + enc_varint(n as nat));
        }
    } else {
        out.push((n % 128 + 128) as u8);
        write_varint(out, n / 128);
        proof {
            assert(out@ =~= old(out)@ + enc_varint(n as nat));
        }
    }
}

/// The byte count the varint encoding of `n` will take.
pub fn varint_size(n: u64) -> (r: usize)
    ensures
        r == size_varint(n as nat),
        r <= 10,
    decreases n,
{
    proof {
        lemma_size_varint_u64(n as nat);
    }
    if n < 128 {
        1
    } else {
        1 + varint_size(n / 128)
    }
}

impl Pair {
    /// Appends the wire encoding of this pair.
    pub fn write_message(&self, out: &mut Vec<u8>)
        ensures
            final(out)@ == old(out)@ + enc_pair(self@),
    {
        out.push(10);
        let kb = self.key.as_str().as_bytes_vec();
        write_varint(out, kb.len() as u64);
        append_bytes(out, &kb);
        out.push(18);
        let vb = self.value.as_str().as_bytes_vec();
        write_varint(out, vb.len() as u64);
        append_bytes(out, &vb);
        proof {
            assert(out@ =~= old(out)@ + enc_pair(self@));
        }
    }

    /// The exact byte count of the wire encoding of this pair.
    pub fn get_size(&self) -> (r: usize)
        requires
            size_pair(self@) <= usize::MAX,
        ensures
            r == size_pair(self@),
    {
        proof {
            assert(text_bytes(self@.key).len() <= usize::MAX);
            assert(text_bytes(self@.value).len() <= usize::MAX);
        }
        let kl = self.key.as_str().len();
        let vl = self.value.as_str().len();
        let ks = varint_size(kl as u64);
        let vs = varint_size(vl as u64);
        2 + ks + kl + vs + vl
    }
}

impl Log {
    /// Appends the wire encoding of this log: its time, then each content
    /// pair in order. A log with no contents still encodes its time.
    pub fn write_message(&self, out: &mut Vec<u8>)
        ensures
            final(out)@ == old(out)@ + enc_log(self@),
    {
        out.push(8);
        write_varint(out, self.time as u64);
        let ghost head = old(out)@ + seq![8u8] + enc_varint(self@.time as nat);
        proof {
            assert(out@ =~= head);
        }
        let mut i: usize = 0;
        while i < self.contents.len()
            invariant
                i <= self.contents.len(),
                out@ == head + enc_pair_seq(self@.contents.take(i as int), 18),
            decreases self.contents.len() - i,
        {
            let mut tmp: Vec<u8> = Vec::new();
            self.contents[i].write_message(&mut tmp);
            out.push(18);
            write_varint(out, tmp.len() as u64);
            append_bytes(out, &tmp);
            proof {
                lemma_pair_seq_take_step(self@.contents, 18, i as int);
                assert(out@ =~= head + enc_pair_seq(self@.contents.take(i + 1), 18));
            }
            i = i + 1;
        }
        proof {
            assert(self@.contents.take(self.contents@.len() as int) =~= self@.contents);
            assert(out@ =~= old(out)@ + enc_log(self@));
        }
    }

    /// The exact byte count of the wire encoding of this log.
    pub fn get_size(&self) -> (r: usize)
        requires
            size_log(self@) <= usize::MAX,
        ensures
            r == size_log(self@),
    {
        let vs = varint_size(self.time as u64);
        let mut r: usize = 1 + vs;
        let mut i: usize = 0;
        while i < self.contents.len()
            invariant
                i <= self.contents.len(),
                size_log(self@) <= usize::MAX,
                r == 1 + size_varint(self@.time as nat) + size_pair_seq(
                    self@.contents.take(i as int),
                ),
            decreases self.contents.len() - i,
        {
            proof {
                lemma_pair_seq_take_step(self@.contents, 18, i as int);
                lemma_size_pair_seq_take_le(self@.contents, i + 1);
            }
            let sz = self.contents[i].get_size();
            let szs = varint_size(sz as u64);
            r = r + 1 + szs + sz;
            i = i + 1;
        }
        proof {
            assert(self@.contents.take(self.contents@.len() as int) =~= self@.contents);
        }
        r
    }
}

impl LogGroup {
    /// Appends the wire encoding of this group, fields in ascending tag
    /// order; absent options and empty lists contribute nothing.
    #[verifier::rlimit(60)]
    pub fn write_message(&self, out: &mut Vec<u8>)
        ensures
            final(out)@ == old(out)@ + enc_log_group(self@),
    {
        let mut i: usize = 0;
        while i < self.logs.len()
            invariant
                i <= self.logs.len(),
                out@ == old(out)@ + enc_log_seq(self@.logs.take(i as int)),
            decreases self.logs.len() - i,
        {
            let mut tmp: Vec<u8> = Vec::new();
            self.logs[i].write_message(&mut tmp);
            out.push(10);
            write_varint(out, tmp.len() as u64);
            append_bytes(out, &tmp);
            proof {
                lemma_log_seq_take_step(self@.logs, i as int);
                assert(out@ =~= old(out)@ + enc_log_seq(self@.logs.take(i + 1)));
            }
            i = i + 1;
        }
        proof {
            assert(self@.logs.take(self.logs@.len() as int) =~= self@.logs);
        }
        let ghost mid1 = old(out)@ + enc_log_seq(self@.logs) + enc_opt_text(26, self@.topic);
        match &self.topic {
            Some(t) => {
                out.push(26);
                let tb = t.as_str().as_bytes_vec();
                write_varint(out, tb.len() as u64);
                append_bytes(out, &tb);
                proof {
                    assert(out@ =~= mid1);
                }
            },
            None => {
                proof {
                    assert(out@ =~= mid1);
                }
            },
        }
        let ghost mid2 = mid1 + enc_opt_text(34, self@.source);
        match &self.source {
            Some(s) => {
                out.push(34);
                let sb = s.as_str().as_bytes_vec();
                write_varint(out, sb.len() as u64);
                append_bytes(out, &sb);
                proof {
                    assert(out@ =~= mid2);
                }
            },
            None => {
                proof {
                    assert(out@ =~= mid2);
                }
            },
        }
        let mut j: usize = 0;
        while j < self.log_tags.len()
            invariant
                j <= self.log_tags.len(),
                out@ == mid2 + enc_pair_seq(self@.log_tags.take(j as int), 50),
            decreases self.log_tags.len() - j,
        {
            let mut tmp: Vec<u8> = Vec::new();
            self.log_tags[j].write_message(&mut tmp);
            out.push(50);
            write_varint(out, tmp.len() as u64);
            append_bytes(out, &tmp);
            proof {
                lemma_pair_seq_take_step(self@.log_tags, 50, j as int);
                assert(out@ =~= mid2 + enc_pair_seq(self@.log_tags.take(j + 1), 50));
            }
            j = j + 1;
        }
        proof {
            assert(self@.log_tags.take(self.log_tags@.len() as int) =~= self@.log_tags);
            assert(out@ =~= old(out)@ + enc_log_group(self@));
        }
    }

    /// The exact byte count of the wire encoding of this group, for sizing
    /// a buffer before encoding.
    #[verifier::rlimit(60)]
    pub fn get_size(&self) -> (r: usize)
        requires
            size_log_group(self@) <= usize::MAX,
        ensures
            r == size_log_group(self@),
    {
        let mut r: usize = 0;
        let mut i: usize = 0;
        while i < self.logs.len()
            invariant
                i <= self.logs.len(),
                size_log_group(self@) <= usize::MAX,
                r == size_log_seq(self@.logs.take(i as int)),
            decreases self.logs.len() - i,
        {
            proof {
                lemma_log_seq_take_step(self@.logs, i as int);
                lemma_size_log_seq_take_le(self@.logs, i + 1);
            }
            let sz = self.logs[i].get_size();
            let szs = varint_size(sz as u64);
            r = r + 1 + szs + sz;
            i = i + 1;
        }
        proof {
            assert(self@.logs.take(self.logs@.len() as int) =~= self@.logs);
        }
        match &self.topic {
            Some(t) => {
                proof {
                    assert(text_bytes(self@.topic.unwrap()).len() <= usize::MAX);
                }
                let tl = t.as_str().len();
                let ts = varint_size(tl as u64);
                r = r + 1 + ts + tl;
            },
            None => {},
        }
        match &self.source {
            Some(s) => {
                proof {
                    assert(text_bytes(self@.source.unwrap()).len() <= usize::MAX);
                }
                let sl = s.as_str().len();
                let ss = varint_size(sl as u64);
                r = r + 1 + ss + sl;
            },
            None => {},
        }
        let ghost base = size_log_seq(self@.logs) + size_opt_text(self@.topic) + size_opt_text(
            self@.source,
        );
        let mut j: usize = 0;
        while j < self.log_tags.len()
            invariant
                j <= self.log_tags.len(),
                size_log_group(self@) <= usize::MAX,
                base == size_log_seq(self@.logs) + size_opt_text(self@.topic) + size_opt_text(
                    self@.source,
                ),
                r == base + size_pair_seq(self@.log_tags.take(j as int)),
            decreases self.log_tags.len() - j,
        {
            proof {
                lemma_pair_seq_take_step(self@.log_tags, 50, j as int);
                lemma_size_pair_seq_take_le(self@.log_tags, j + 1);
                assert(base + size_pair_seq(self@.log_tags.take(j + 1)) <= size_log_group(self@));
            }
            let sz = self.log_tags[j].get_size();
            let szs = varint_size(sz as u64);
            r = r + 1 + szs + sz;
            j = j + 1;
        }
        proof {
            assert(self@.log_tags.take(self.log_tags@.len() as int) =~= self@.log_tags);
        }
        r
    }

    /// The full wire encoding of this group, deterministic: exactly the
    /// bytes of `enc_log_group` of its view.
    pub fn encode(&self) -> (r: Vec<u8>)
        ensures
            r@ == enc_log_group(self@),
    {
        let mut out: Vec<u8> = Vec::new();
        self.write_message(&mut out);
        proof {
            assert(out@ =~= enc_log_group(self@));
        }
        out
    }
}

impl LogGroupList {
    /// Appends the wire encoding of this list: each group at tag 1.
    pub fn write_message(&self, out: &mut Vec<u8>)
        ensures
            final(out)@ == old(out)@ + enc_group_seq(self@),
    {
        let mut i: usize = 0;
        while i < self.log_group_list.len()
            invariant
                i <= self.log_group_list.len(),
                out@ == old(out)@ + enc_group_seq(self@.take(i as int)),
            decreases self.log_group_list.len() - i,
        {
            let mut tmp: Vec<u8> = Vec::new();
            self.log_group_list[i].write_message(&mut tmp);
            out.push(10);
            write_varint(out, tmp.len() as u64);
            append_bytes(out, &tmp);
            proof {
                lemma_group_seq_take_step(self@, i as int);
                assert(out@ =~= old(out)@ + enc_group_seq(self@.take(i + 1)));
            }
            i = i + 1;
        }
        proof {
            assert(self@.take(self.log_group_list@.len() as int) =~= self@);
        }
    }

    /// The exact byte count of the wire encoding of this list.
    pub fn get_size(&self) -> (r: usize)
        requires
            size_group_seq(self@) <= usize::MAX,
        ensures
            r == size_group_seq(self@),
    {
        let mut r: usize = 0;
        let mut i: usize = 0;
        while i < self.log_group_list.len()
            invariant
                i <= self.log_group_list.len(),
                size_group_seq(self@) <= usize::MAX,
                r == size_group_seq(self@.take(i as int)),
            decreases self.log_group_list.len() - i,
        {
            proof {
                lemma_group_seq_take_step(self@, i as int);
                lemma_size_group_seq_take_le(self@, i + 1);
            }
            let sz = self.log_group_list[i].get_size();
            let szs = varint_size(sz as u64);
            r = r + 1 + szs + sz;
            i = i + 1;
        }
        proof {
            assert(self@.take(self.log_group_list@.len() as int) =~= self@);
        }
        r
    }
}

} // verus!
