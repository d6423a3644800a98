//! The write-ahead log as a byte stream: framed batch records back to
//! back. Replay scans them in order; a short or mangled record stops the
//! scan with a corruption error, a bad checksum with a checksum error.
use vstd::prelude::*;

use crate::coding::{decode_fixed_u32, lemma_fixed_u32_round_trip, spec_fixed_u32_dec};
use crate::entry::EntryModel;
use crate::error::{EikvError, EikvResult};
use crate::write_batch::{
    batch_encodable, lemma_wb_round_trip, spec_wb_dec, spec_wb_enc, WriteBatch,
};

verus! {

/// The batch views of a sequence of batches.
pub open spec fn batch_views(s: Seq<WriteBatch>) -> Seq<Seq<EntryModel>> {
    s.map_values(|wb: WriteBatch| wb@)
}

/// A log is the framed records of its batches, in commit order.
pub open spec fn spec_wal_enc(bs: Seq<Seq<EntryModel>>) -> Seq<u8>
    decreases bs.len(),
{
    if bs.len() == 0 {
        Seq::empty()
    } else {
        spec_wb_enc(bs[0]) + spec_wal_enc(bs.skip(1))
    }
}

/// Decoding of a log: every batch in order, or the error of the first
/// record that fails its length, checksum or entry checks.
pub open spec fn spec_wal_dec(s: Seq<u8>) -> Result<Seq<Seq<EntryModel>>, EikvError>
    decreases s.len(),
{
    if s.len() == 0 {
        Ok(Seq::empty())
    } else if s.len() < 8 {
        Err(EikvError::WalCorruption)
    } else {
        let len = spec_fixed_u32_dec(s.subrange(4, 8));
        if len < 8 || len > s.len() {
            Err(EikvError::WalCorruption)
        } else {
            match spec_wb_dec(s.subrange(0, len)) {
                Ok(es) => match spec_wal_dec(s.skip(len)) {
                    Ok(tail) => Ok(seq![es] + tail),
                    Err(e) => Err(e),
                },
                Err(e) => Err(e),
            }
        }
    }
}

/// An encoded log replays to exactly the batches it was made from.
#[verifier::rlimit(50)]
pub proof fn lemma_wal_round_trip(bs: Seq<Seq<EntryModel>>)
    requires
        forall|i: int| 0 <= i < bs.len() ==> batch_encodable(#[trigger] bs[i]),
    ensures
        spec_wal_dec(spec_wal_enc(bs)) == Ok::<Seq<Seq<EntryModel>>, EikvError>(bs),
    decreases bs.len(),
{
    let s = spec_wal_enc(bs);
    if bs.len() == 0 {
        assert(Seq::<Seq<EntryModel>>::empty() =~= bs);
    } else {
        let record = spec_wb_enc(bs[0]);
        let rest = spec_wal_enc(bs.skip(1));
        let len = record.len() as int;
        assert(len >= 8);
        lemma_wb_round_trip(bs[0]);
        assert(s.subrange(0, len) =~= record);
        assert(s.subrange(4, 8) =~= record.subrange(4, 8));
        assert(record.subrange(4, 8) =~= crate::coding::spec_fixed_u32(
            (crate::write_batch::spec_wb_body(bs[0]).len() + 8) as u32,
        ));
        lemma_fixed_u32_round_trip((crate::write_batch::spec_wb_body(bs[0]).len() + 8) as u32);
        assert(spec_fixed_u32_dec(s.subrange(4, 8)) == len);
        assert(s.skip(len) =~= rest);
        lemma_wal_round_trip(bs.skip(1));
        assert(seq![bs[0]] + bs.skip(1) =~= bs);
    }
}

/// Scans a whole log image and returns its batches in commit order.
#[verifier::rlimit(100)]
pub fn read_wal_records(buf: &[u8]) -> (r: EikvResult<Vec<WriteBatch>>)
    ensures
        match r {
            Ok(bs) => spec_wal_dec(buf@) == Ok::<Seq<Seq<EntryModel>>, EikvError>(batch_views(
                bs@,
            )),
            Err(e) => spec_wal_dec(buf@) == Err::<Seq<Seq<EntryModel>>, EikvError>(e),
        },
{
    let mut batches: Vec<WriteBatch> = Vec::new();
    let mut off: usize = 0;
    proof {
        assert(buf@.subrange(0, buf@.len() as int) =~= buf@);
        assert(batch_views(batches@).len() == 0);
        match spec_wal_dec(buf@) {
            Ok(tail) => {
                assert(batch_views(batches@) + tail =~= tail);
            },
            Err(_) => {},
        }
    }
    while off < buf.len()
        invariant
            off <= buf@.len(),
            match spec_wal_dec(buf@.subrange(off as int, buf@.len() as int)) {
                Ok(tail) => spec_wal_dec(buf@) == Ok::<Seq<Seq<EntryModel>>, EikvError>(
                    batch_views(batches@) + tail,
                ),
                Err(e) => spec_wal_dec(buf@) == Err::<Seq<Seq<EntryModel>>, EikvError>(e),
            },
        decreases buf@.len() - off,
    {
        let ghost rem = buf@.subrange(off as int, buf@.len() as int);
        if buf.len() - off < 8 {
            return Err(EikvError::WalCorruption);
        }
        let len_field = &buf[off + 4..off + 8];
        let len = decode_fixed_u32(len_field);
        proof {
            lemma_fixed_u32_round_trip(len);
            assert(rem.subrange(4, 8) =~= buf@.subrange(off + 4, off + 8));
        }
        if len < 8 || len as usize > buf.len() - off {
            return Err(EikvError::WalCorruption);
        }
        let len = len as usize;
        let record = &buf[off..off + len];
        proof {
            assert(rem.subrange(0, len as int) =~= buf@.subrange(off as int, off + len));
        }
        let wb = match WriteBatch::decode(record) {
            Ok(wb) => wb,
            Err(e) => { return Err(e) },
        };
        proof {
            assert(rem.skip(len as int) =~= buf@.subrange(off + len, buf@.len() as int));
            match spec_wal_dec(rem.skip(len as int)) {
                Ok(tail) => {
                    assert(spec_wal_dec(rem) == Ok::<Seq<Seq<EntryModel>>, EikvError>(
                        seq![wb@] + tail,
                    ));
                    assert(batch_views(batches@.push(wb)) =~= batch_views(batches@).push(wb@));
                    assert(batch_views(batches@) + (seq![wb@] + tail) =~= batch_views(
                        batches@,
                    ).push(wb@) + tail);
                },
                Err(_) => {},
            }
        }
        batches.push(wb);
        off = off + len;
    }
    proof {
        assert(buf@.subrange(off as int, buf@.len() as int).len() == 0);
        assert(batch_views(batches@) + Seq::<Seq<EntryModel>>::empty() =~= batch_views(batches@));
    }
    Ok(batches)
}

/// A log ends with a whole record: cutting the last byte off a non-empty
/// encoded log leaves a final record shorter than its length field says,
/// and replay refuses it as corrupt.
pub proof fn lemma_wal_truncation_detected(bs: Seq<Seq<EntryModel>>)
    requires
        bs.len() >= 1,
        forall|i: int| 0 <= i < bs.len() ==> batch_encodable(#[trigger] bs[i]),
    ensures
        spec_wal_enc(bs).len() >= 8,
        spec_wal_dec(spec_wal_enc(bs).take(spec_wal_enc(bs).len() - 1)) == Err::<
            Seq<Seq<EntryModel>>,
            EikvError,
        >(EikvError::WalCorruption),
    decreases bs.len(),
{
    let s = spec_wal_enc(bs);
    let record = spec_wb_enc(bs[0]);
    let rest = spec_wal_enc(bs.skip(1));
    assert(s =~= record + rest);
    let body = crate::write_batch::spec_wb_body(bs[0]);
    let len0 = record.len() as int;
    assert(len0 == body.len() + 8);
    let t = s.take(s.len() - 1);
    lemma_wb_round_trip(bs[0]);
    if bs.len() == 1 {
        assert(rest.len() == 0);
        assert(t =~= record.take(len0 - 1));
        if len0 == 8 {
            assert(t.len() == 7);
        } else {
            assert(t.len() >= 8);
            assert(t.subrange(4, 8) =~= crate::coding::spec_fixed_u32((body.len() + 8) as u32));
            lemma_fixed_u32_round_trip((body.len() + 8) as u32);
            assert(spec_fixed_u32_dec(t.subrange(4, 8)) == len0);
            assert(len0 > t.len());
        }
    } else {
        lemma_wal_truncation_detected(bs.skip(1));
        assert(rest.len() >= 8);
        assert(t.len() >= len0 + 7);
        assert(t.subrange(4, 8) =~= record.subrange(4, 8));
        assert(record.subrange(4, 8) =~= crate::coding::spec_fixed_u32((body.len() + 8) as u32));
        lemma_fixed_u32_round_trip((body.len() + 8) as u32);
        assert(spec_fixed_u32_dec(t.subrange(4, 8)) == len0);
        assert(t.subrange(0, len0) =~= record);
        assert(t.skip(len0) =~= rest.take(rest.len() - 1));
    }
}

} // verus!
