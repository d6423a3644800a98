//! An ordered group of entries committed atomically. On the wire a batch
//! is one framed record: `crc32 ‖ length ‖ entries`, where `length`
//! counts the whole record and the checksum covers `length ‖ entries`.
use vstd::prelude::*;

use crate::checksum::{crc32_checksum, spec_crc32};
use crate::coding::{
    append_fixed_u32, decode_fixed_u32, lemma_fixed_u32_round_trip, spec_fixed_u32,
    spec_fixed_u32_dec,
};
use crate::entry::{
    lemma_entry_round_trip, spec_entry_dec, spec_entry_enc, entry_encodable, Entry, EntryModel,
};
use crate::error::{EikvError, EikvResult};

verus! {

/// The entry views of a sequence of entries.
pub open spec fn seq_views(s: Seq<Entry>) -> Seq<EntryModel> {
    s.map_values(|e: Entry| e@)
}

pub struct WriteBatch {
    entries: Vec<Entry>,
}

impl View for WriteBatch {
    type V = Seq<EntryModel>;

    closed spec fn view(&self) -> Seq<EntryModel> {
        seq_views(self.entries@)
    }
}

/// The wire form of the entries of a batch, in order.
pub open spec fn spec_wb_body(es: Seq<EntryModel>) -> Seq<u8>
    decreases es.len(),
{
    if es.len() == 0 {
        Seq::empty()
    } else {
        spec_entry_enc(es[0]) + spec_wb_body(es.skip(1))
    }
}

/// Every entry fits its length prefixes and the whole record length fits
/// the `u32` length field.
pub open spec fn batch_encodable(es: Seq<EntryModel>) -> bool {
    &&& forall|i: int| 0 <= i < es.len() ==> entry_encodable(#[trigger] es[i])
    &&& spec_wb_body(es).len() + 8 <= u32::MAX
}

/// The framed record of a batch: checksum, length (record included), and
/// the entries.
pub open spec fn spec_wb_enc(es: Seq<EntryModel>) -> Seq<u8> {
    let body = spec_wb_body(es);
    let len = (body.len() + 8) as u32;
    let covered = spec_fixed_u32(len) + body;
    spec_fixed_u32(spec_crc32(covered)) + covered
}

/// Decoding of a concatenation of entries; nothing on any ill-formed tail.
pub open spec fn spec_entries_dec(s: Seq<u8>) -> Option<Seq<EntryModel>>
    decreases s.len(),
{
    if s.len() == 0 {
        Some(Seq::empty())
    } else {
        match spec_entry_dec(s) {
            Some((e, n)) => {
                if 1 <= n <= s.len() {
                    match spec_entries_dec(s.skip(n as int)) {
                        Some(tail) => Some(seq![e] + tail),
                        None => None,
                    }
                } else {
                    None
                }
            },
            None => None,
        }
    }
}

/// Decoding of a framed record: the entries, or which check failed. A
/// short or mis-sized frame and an ill-formed entry are corruption; a
/// checksum mismatch is reported as such.
pub open spec fn spec_wb_dec(s: Seq<u8>) -> Result<Seq<EntryModel>, EikvError> {
    if s.len() < 8 {
        Err(EikvError::WalCorruption)
    } else if spec_fixed_u32_dec(s.subrange(4, 8)) != s.len() {
        Err(EikvError::WalCorruption)
    } else if spec_fixed_u32_dec(s.subrange(0, 4)) != spec_crc32(s.skip(4)) {
        Err(EikvError::ChecksumMismatch)
    } else {
        match spec_entries_dec(s.skip(8)) {
            Some(es) => Ok(es),
            None => Err(EikvError::WalCorruption),
        }
    }
}

/// Appending an entry appends its wire form.
pub proof fn lemma_wb_body_snoc(es: Seq<EntryModel>, e: EntryModel)
    ensures
        spec_wb_body(es.push(e)) == spec_wb_body(es) + spec_entry_enc(e),
    decreases es.len(),
{
    if es.len() == 0 {
        assert(es.push(e)[0] == e);
        assert(es.push(e).skip(1) =~= es);
        assert(spec_wb_body(es.push(e)) == spec_entry_enc(e) + spec_wb_body(es));
        assert(spec_entry_enc(e) + spec_wb_body(es) =~= spec_wb_body(es) + spec_entry_enc(e));
    } else {
        assert(es.push(e).skip(1) =~= es.skip(1).push(e));
        lemma_wb_body_snoc(es.skip(1), e);
        assert(spec_wb_body(es.push(e)) =~= spec_wb_body(es) + spec_entry_enc(e));
    }
}

/// The encoded entries of a batch decode back to themselves.
pub proof fn lemma_entries_round_trip(es: Seq<EntryModel>)
    requires
        forall|i: int| 0 <= i < es.len() ==> entry_encodable(#[trigger] es[i]),
    ensures
        spec_entries_dec(spec_wb_body(es)) == Some(es),
    decreases es.len(),
{
    let s = spec_wb_body(es);
    if es.len() == 0 {
        assert(s.len() == 0);
        assert(spec_entries_dec(s) == Some(es)) by {
            assert(Seq::<EntryModel>::empty() =~= es);
        }
    } else {
        let e = es[0];
        let enc = spec_entry_enc(e);
        let rest = spec_wb_body(es.skip(1));
        lemma_entry_round_trip(e, rest);
        let n = enc.len() as int;
        assert(n >= 1) by {
            assert(crate::coding::spec_bytes_with_len(e.key).len() >= 1);
        }
        assert(s.skip(n) =~= rest);
        lemma_entries_round_trip(es.skip(1));
        assert(seq![e] + es.skip(1) =~= es);
        assert(s.len() > 0);
    }
}

/// A batch's framed record decodes back to the batch, byte checks and all.
pub proof fn lemma_wb_round_trip(es: Seq<EntryModel>)
    requires
        batch_encodable(es),
    ensures
        spec_wb_dec(spec_wb_enc(es)) == Ok::<Seq<EntryModel>, EikvError>(es),
{
    let body = spec_wb_body(es);
    let len = (body.len() + 8) as u32;
    let covered = spec_fixed_u32(len) + body;
    let s = spec_wb_enc(es);
    assert(s.len() == body.len() + 8);
    assert(s.subrange(4, 8) =~= spec_fixed_u32(len));
    lemma_fixed_u32_round_trip(len);
    assert(s.subrange(0, 4) =~= spec_fixed_u32(spec_crc32(covered)));
    lemma_fixed_u32_round_trip(spec_crc32(covered));
    assert(s.skip(4) =~= covered);
    assert(s.skip(8) =~= body);
    lemma_entries_round_trip(es);
}

impl WriteBatch {
    pub fn new() -> (r: WriteBatch)
        ensures
            r@ == Seq::<EntryModel>::empty(),
    {
        let r = WriteBatch { entries: Vec::new() };
        proof {
            assert(r@ =~= Seq::<EntryModel>::empty());
        }
        r
    }

    pub fn entries(&self) -> (r: &Vec<Entry>)
        ensures
            seq_views(r@) == self@,
    {
        &self.entries
    }

    pub fn len(&self) -> (r: usize)
        ensures
            r == self@.len(),
    {
        self.entries.len()
    }

    pub fn is_empty(&self) -> (r: bool)
        ensures
            r == (self@.len() == 0),
    {
        self.entries.is_empty()
    }

    /// Moves every entry of `other` to the end of this batch, in order.
    pub fn extend(&mut self, other: WriteBatch)
        ensures
            final(self)@ == old(self)@ + other@,
    {
        let other = other;
        let mut rest = other.entries;
        let ghost rest0 = rest@;
        let ghost done: int = 0;
        while rest.len() > 0
            invariant
                0 <= done <= rest0.len(),
                rest@ =~= rest0.skip(done),
                seq_views(self.entries@) =~= old(self)@ + seq_views(rest0.take(done)),
            decreases rest@.len(),
        {
            let e = rest.remove(0);
            proof {
                assert(rest0[done] == e);
                assert(rest@ =~= rest0.skip(done + 1));
                assert(rest0.take(done + 1) =~= rest0.take(done).push(e));
                assert(seq_views(rest0.take(done).push(e)) =~= seq_views(rest0.take(done)).push(
                    e@,
                ));
                assert(seq_views(self.entries@.push(e)) =~= seq_views(self.entries@).push(e@));
            }
            self.entries.push(e);
            proof {
                done = done + 1;
            }
        }
        proof {
            assert(rest0.take(done) =~= rest0);
            assert(final(self)@ =~= old(self)@ + seq_views(rest0));
        }
    }

    /// Stamps the entries with the contiguous sequences `start..start+len`,
    /// in order, leaving keys and values as they were.
    pub fn set_seqs(&mut self, start: u64)
        requires
            start + old(self)@.len() <= u64::MAX,
        ensures
            final(self)@.len() == old(self)@.len(),
            forall|i: int|
                0 <= i < old(self)@.len() ==> #[trigger] final(self)@[i] == (EntryModel {
                    key: old(self)@[i].key,
                    seq: (start + i) as u64,
                    value: old(self)@[i].value,
                }),
    {
        let len = self.entries.len();
        let mut i: usize = 0;
        while i < len
            invariant
                len == self.entries@.len(),
                len == old(self)@.len(),
                start + len <= u64::MAX,
                i <= len,
                forall|j: int|
                    0 <= j < i ==> #[trigger] seq_views(self.entries@)[j] == (EntryModel {
                        key: old(self)@[j].key,
                        seq: (start + j) as u64,
                        value: old(self)@[j].value,
                    }),
                forall|j: int| i <= j < len ==> #[trigger] self.entries@[j] == old(self).entries@[j],
            decreases len - i,
        {
            let ghost prev = self.entries@;
            self.entries[i].seq = start + (i as u64);
            proof {
                assert(self.entries@ =~= prev.update(
                    i as int,
                    Entry {
                        key: prev[i as int].key,
                        seq: (start + i) as u64,
                        value: prev[i as int].value,
                    },
                ));
                assert forall|j: int| 0 <= j < i + 1 implies #[trigger] seq_views(self.entries@)[j]
                    == (EntryModel {
                    key: old(self)@[j].key,
                    seq: (start + j) as u64,
                    value: old(self)@[j].value,
                }) by {
                    assert(seq_views(self.entries@)[j] == self.entries@[j]@);
                    assert(seq_views(prev)[j] == prev[j]@);
                    if j == i {
                        assert(prev[j] == old(self).entries@[j]);
                        assert(old(self)@[j] == old(self).entries@[j]@);
                    }
                }
            }
            i = i + 1;
        }
    }

    /// Adds a put of `value` under `key`; the sequence is stamped at
    /// commit time.
    pub fn put(&mut self, key: Vec<u8>, value: Vec<u8>)
        ensures
            final(self)@ == old(self)@.push(
                EntryModel { key: key@, seq: 0, value: Some(value@) },
            ),
    {
        let entry = Entry { key, seq: 0, value: Some(value) };
        let ghost ev = entry@;
        self.entries.push(entry);
        proof {
            assert(final(self)@ =~= old(self)@.push(ev));
        }
    }

    /// Adds a tombstone under `key`.
    pub fn delete(&mut self, key: Vec<u8>)
        ensures
            final(self)@ == old(self)@.push(EntryModel { key: key@, seq: 0, value: None }),
    {
        let entry = Entry { key, seq: 0, value: None };
        let ghost ev = entry@;
        self.entries.push(entry);
        proof {
            assert(final(self)@ =~= old(self)@.push(ev));
        }
    }

    /// Appends the framed record of this batch to `buf`.
    pub fn encode(&self, buf: &mut Vec<u8>)
        requires
            batch_encodable(self@),
        ensures
            final(buf)@ == old(buf)@ + spec_wb_enc(self@),
    {
        let mut covered: Vec<u8> = Vec::new();
        append_fixed_u32(&mut covered, 0);
        let n = self.entries.len();
        let mut i: usize = 0;
        while i < n
            invariant
                n == self.entries@.len(),
                batch_encodable(seq_views(self.entries@)),
                i <= n,
                covered@ =~= spec_fixed_u32(0u32) + spec_wb_body(seq_views(self.entries@).take(
                    i as int,
                )),
            decreases n - i,
        {
            proof {
                assert(seq_views(self.entries@)[i as int] == self.entries@[i as int]@);
                assert(entry_encodable(self.entries@[i as int]@));
                lemma_wb_body_snoc(
                    seq_views(self.entries@).take(i as int),
                    self.entries@[i as int]@,
                );
                assert(seq_views(self.entries@).take(i + 1) =~= seq_views(
                    self.entries@,
                ).take(i as int).push(self.entries@[i as int]@));
            }
            let entry = &self.entries[i];
            entry.encode(&mut covered);
            i = i + 1;
        }
        proof {
            assert(seq_views(self.entries@).take(n as int) =~= self@);
        }
        let len = (covered.len() + 4) as u32;
        crate::coding::encode_fixed_u32(&mut covered, 0, len);
        proof {
            assert(covered@ =~= spec_fixed_u32(len) + spec_wb_body(self@));
        }
        let checksum = crc32_checksum(covered.as_slice());
        append_fixed_u32(buf, checksum);
        buf.extend_from_slice(covered.as_slice());
        proof {
            assert(final(buf)@ =~= old(buf)@ + spec_wb_enc(self@));
        }
    }

    /// Decodes a framed record back into a batch, checking the length
    /// field and the checksum.
    pub fn decode(buf: &[u8]) -> (r: EikvResult<WriteBatch>)
        ensures
            match r {
                Ok(wb) => spec_wb_dec(buf@) == Ok::<Seq<EntryModel>, EikvError>(wb@),
                Err(e) => spec_wb_dec(buf@) == Err::<Seq<EntryModel>, EikvError>(e),
            },
    {
        if buf.len() < 8 {
            return Err(EikvError::WalCorruption);
        }
        let header = &buf[4..8];
        let len = decode_fixed_u32(header);
        proof {
            lemma_fixed_u32_round_trip(len);
        }
        if !(len as usize == buf.len()) {
            return Err(EikvError::WalCorruption);
        }
        let crc_field = &buf[0..4];
        let stored = decode_fixed_u32(crc_field);
        proof {
            lemma_fixed_u32_round_trip(stored);
        }
        let covered_part = &buf[4..buf.len()];
        let computed = crc32_checksum(covered_part);
        proof {
            assert(buf@.skip(4) =~= buf@.subrange(4, buf@.len() as int));
        }
        if stored != computed {
            return Err(EikvError::ChecksumMismatch);
        }
        let mut entries: Vec<Entry> = Vec::new();
        let mut off: usize = 8;
        let ghost body = buf@.skip(8);
        while off < buf.len()
            invariant
                8 <= off <= buf@.len(),
                body == buf@.skip(8),
                spec_fixed_u32_dec(buf@.subrange(4, 8)) == buf@.len(),
                spec_fixed_u32_dec(buf@.subrange(0, 4)) == spec_crc32(buf@.skip(4)),
                match spec_entries_dec(buf@.subrange(off as int, buf@.len() as int)) {
                    Some(tail) => spec_entries_dec(body) == Some(seq_views(entries@) + tail),
                    None => spec_entries_dec(body) is None,
                },
            decreases buf@.len() - off,
        {
            let ghost rem = buf@.subrange(off as int, buf@.len() as int);
            let tail_part = &buf[off..buf.len()];
            let (entry, n) = match Entry::decode(tail_part) {
                Ok(x) => x,
                Err(e) => { return Err(e) },
            };
            proof {
                assert(rem.len() > 0);
                assert(rem.skip(n as int) =~= buf@.subrange(off + n, buf@.len() as int));
                assert(seq_views(entries@.push(entry)) =~= seq_views(entries@).push(entry@));
                match spec_entries_dec(rem.skip(n as int)) {
                    Some(tail) => {
                        assert(spec_entries_dec(rem) == Some(seq![entry@] + tail));
                        assert(seq_views(entries@) + (seq![entry@] + tail) =~= seq_views(
                            entries@,
                        ).push(entry@) + tail);
                    },
                    None => {
                        assert(spec_entries_dec(rem) is None);
                    },
                }
            }
            entries.push(entry);
            off = off + n;
        }
        proof {
            assert(buf@.subrange(off as int, buf@.len() as int).len() == 0);
            assert(seq_views(entries@) + Seq::<EntryModel>::empty() =~= seq_views(entries@));
        }
        Ok(WriteBatch { entries })
    }
}

/// Commits get disjoint, ordered sequence ranges: when one batch is
/// stamped from `start1` and a later one from `start2` at or past the
/// end of the first range, every sequence of the first batch is below
/// every sequence of the second.
pub proof fn lemma_sequence_monotonic(
    es1: Seq<EntryModel>,
    es2: Seq<EntryModel>,
    start1: u64,
    start2: u64,
)
    requires
        forall|i: int| 0 <= i < es1.len() ==> #[trigger] es1[i].seq == start1 + i,
        forall|j: int| 0 <= j < es2.len() ==> #[trigger] es2[j].seq == start2 + j,
        start1 + es1.len() <= start2,
        start2 + es2.len() <= u64::MAX,
    ensures
        forall|i: int, j: int|
            0 <= i < es1.len() && 0 <= j < es2.len() ==> #[trigger] es1[i].seq < #[trigger] es2[j].seq,
{
}

/// Any single-byte corruption of a batch's framed record is caught: a
/// changed checksum field no longer matches the record, a changed length
/// field fails the frame check, and any other changed byte flips the
/// recomputed checksum away from the stored one.
pub proof fn lemma_wb_corruption_detected(es: Seq<EntryModel>, i: int, b: u8)
    requires
        batch_encodable(es),
        0 <= i < spec_wb_enc(es).len(),
        b != spec_wb_enc(es)[i],
    ensures
        spec_wb_dec(spec_wb_enc(es).update(i, b)) is Err,
{
    let body = spec_wb_body(es);
    let len = (body.len() + 8) as u32;
    let covered = spec_fixed_u32(len) + body;
    let s1 = spec_wb_enc(es);
    let s2 = s1.update(i, b);
    assert(s2.len() == s1.len());
    assert(s1.len() == body.len() + 8);
    lemma_fixed_u32_round_trip(len);
    lemma_fixed_u32_round_trip(spec_crc32(covered));
    assert(s1.subrange(4, 8) =~= spec_fixed_u32(len));
    assert(s1.subrange(0, 4) =~= spec_fixed_u32(spec_crc32(covered)));
    assert(s1.skip(4) =~= covered);
    if i < 4 {
        assert(s2.subrange(4, 8) =~= s1.subrange(4, 8));
        assert(s2.skip(4) =~= s1.skip(4));
        assert(s2.subrange(0, 4)[i] != s1.subrange(0, 4)[i]);
        assert(forall|k: int|
            0 <= k < 4 && k != i ==> s2.subrange(0, 4)[k] == s1.subrange(0, 4)[k]);
        crate::coding::lemma_fixed_u32_dec_one_byte(s2.subrange(0, 4), s1.subrange(0, 4), i);
        assert(spec_fixed_u32_dec(s2.subrange(0, 4)) != spec_crc32(s2.skip(4)));
    } else if i < 8 {
        assert(s2.subrange(4, 8)[i - 4] != s1.subrange(4, 8)[i - 4]);
        assert(forall|k: int|
            0 <= k < 4 && k != i - 4 ==> s2.subrange(4, 8)[k] == s1.subrange(4, 8)[k]);
        crate::coding::lemma_fixed_u32_dec_one_byte(s2.subrange(4, 8), s1.subrange(4, 8), i - 4);
        assert(spec_fixed_u32_dec(s2.subrange(4, 8)) != s2.len());
    } else {
        assert(s2.subrange(4, 8) =~= s1.subrange(4, 8));
        assert(s2.subrange(0, 4) =~= s1.subrange(0, 4));
        assert(s2.skip(4)[i - 4] != s1.skip(4)[i - 4]);
        assert(forall|k: int|
            0 <= k < s1.skip(4).len() && k != i - 4 ==> s2.skip(4)[k] == s1.skip(4)[k]);
        crate::checksum::lemma_crc32_one_byte(s2.skip(4), s1.skip(4), i - 4);
        assert(spec_fixed_u32_dec(s2.subrange(0, 4)) == spec_crc32(s1.skip(4)));
        assert(spec_crc32(s2.skip(4)) != spec_crc32(s1.skip(4)));
    }
}

/// The wire form of a batch splits at any entry boundary.
pub proof fn lemma_wb_body_split(es: Seq<EntryModel>, j: int)
    requires
        0 <= j <= es.len(),
    ensures
        spec_wb_body(es) == spec_wb_body(es.take(j)) + spec_wb_body(es.skip(j)),
    decreases j,
{
    if j == 0 {
        assert(es.take(0).len() == 0);
        assert(es.skip(0) =~= es);
        assert(spec_wb_body(es.take(0)) + spec_wb_body(es) =~= spec_wb_body(es));
    } else {
        assert(es.len() > 0);
        assert(es.take(j)[0] == es[0]);
        assert(es.take(j).skip(1) =~= es.skip(1).take(j - 1));
        lemma_wb_body_split(es.skip(1), j - 1);
        assert(es.skip(1).skip(j - 1) =~= es.skip(j));
        assert(spec_wb_body(es) =~= spec_wb_body(es.take(j)) + spec_wb_body(es.skip(j)));
    }
}

impl WriteBatch {
    /// Whether this batch fits the wire format: every key and value fits
    /// its length prefix, and the whole record its length field. What
    /// `encode` requires, testable before committing.
    pub fn encodable(&self) -> (r: bool)
        ensures
            r == batch_encodable(self@),
    {
        let ghost es = self@;
        let n = self.entries.len();
        let mut total: u64 = 0;
        let mut i: usize = 0;
        proof {
            assert(es.take(0).len() == 0);
        }
        while i < n
            invariant
                n == self.entries@.len(),
                es == seq_views(self.entries@),
                i <= n,
                total == spec_wb_body(es.take(i as int)).len(),
                total + 8 <= u32::MAX,
                forall|j: int| 0 <= j < i ==> entry_encodable(#[trigger] es[j]),
            decreases n - i,
        {
            proof {
                assert(es[i as int] == self.entries@[i as int]@);
            }
            let len = match self.entries[i].enc_len_checked() {
                Some(len) => len,
                None => { return false },
            };
            proof {
                lemma_wb_body_snoc(es.take(i as int), es[i as int]);
                assert(es.take(i + 1) =~= es.take(i as int).push(es[i as int]));
                assert(len <= 0x300000000) by {
                    crate::coding::lemma_var_u32_len((es[i as int].key.len() as u32));
                    crate::coding::lemma_var_u64_len(es[i as int].seq);
                    match es[i as int].value {
                        Some(v) => {
                            crate::coding::lemma_var_u32_len((v.len() as u32));
                        },
                        None => {},
                    }
                }
            }
            if total + len > u32::MAX as u64 - 8 {
                proof {
                    lemma_wb_body_split(es, i + 1);
                }
                return false;
            }
            total = total + len;
            i = i + 1;
        }
        proof {
            assert(es.take(n as int) =~= es);
        }
        true
    }
}

} // verus!
