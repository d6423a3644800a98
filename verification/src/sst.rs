//! The sorted string table file: data blocks back to back, padding to a
//! block boundary, sparse index blocks of data-block offsets, and a
//! footer naming the least and greatest entries and the data area.
use vstd::prelude::*;

use crate::checksum::{crc32_checksum, spec_crc32};
use crate::coding::{
    append_fixed_u32, append_fixed_u64, decode_fixed_u32, decode_fixed_u64,
    lemma_fixed_u32_round_trip, lemma_fixed_u64_round_trip, spec_fixed_u32, spec_fixed_u32_dec,
    spec_fixed_u64, spec_fixed_u64_dec,
};
use crate::entry::{
    entry_encodable, lemma_entry_round_trip, spec_entry_dec, spec_entry_enc, Entry, EntryModel,
};
use crate::error::{EikvError, EikvResult};

verus! {

/// The tail record of a table: its least and greatest entries, where the
/// data blocks end, and how many there are.
pub struct Footer {
    pub min_entry: Entry,
    pub max_entry: Entry,
    pub data_block_end: u64,
    pub data_block_count: u32,
}

pub ghost struct FooterModel {
    pub min_entry: EntryModel,
    pub max_entry: EntryModel,
    pub data_block_end: u64,
    pub data_block_count: u32,
}

impl View for Footer {
    type V = FooterModel;

    open spec fn view(&self) -> FooterModel {
        FooterModel {
            min_entry: self.min_entry@,
            max_entry: self.max_entry@,
            data_block_end: self.data_block_end,
            data_block_count: self.data_block_count,
        }
    }
}

/// The wire form of a footer body.
#[verifier::opaque]
pub open spec fn spec_footer_enc(f: FooterModel) -> Seq<u8> {
    spec_entry_enc(f.min_entry) + spec_entry_enc(f.max_entry) + spec_fixed_u64(f.data_block_end)
        + spec_fixed_u32(f.data_block_count)
}

/// Decoding of a footer body.
#[verifier::opaque]
pub open spec fn spec_footer_dec(s: Seq<u8>) -> Option<FooterModel> {
    match spec_entry_dec(s) {
        Some((min_e, n1)) => match spec_entry_dec(s.skip(n1 as int)) {
            Some((max_e, n2)) => {
                if n1 + n2 + 12 > s.len() {
                    None
                } else {
                    let dbe = spec_fixed_u64_dec(s.subrange(n1 + n2 as int, n1 + n2 + 8 as int));
                    let cnt = spec_fixed_u32_dec(s.subrange(n1 + n2 + 8 as int, n1 + n2 + 12 as int));
                    Some(
                        FooterModel {
                            min_entry: min_e,
                            max_entry: max_e,
                            data_block_end: dbe as u64,
                            data_block_count: cnt as u32,
                        },
                    )
                }
            },
            None => None,
        },
        None => None,
    }
}

pub open spec fn footer_encodable(f: FooterModel) -> bool {
    entry_encodable(f.min_entry) && entry_encodable(f.max_entry)
}

/// An encoded footer decodes back to itself.
#[verifier::rlimit(100)]
pub proof fn lemma_footer_round_trip(f: FooterModel)
    requires
        footer_encodable(f),
    ensures
        spec_footer_dec(spec_footer_enc(f)) == Some(f),
{
    reveal(crate::sst::spec_footer_enc);
    reveal(crate::sst::spec_footer_dec);
    let p1 = spec_entry_enc(f.min_entry);
    let p2 = spec_entry_enc(f.max_entry);
    let p3 = spec_fixed_u64(f.data_block_end);
    let p4 = spec_fixed_u32(f.data_block_count);
    let s = spec_footer_enc(f);
    assert(s =~= p1 + (p2 + p3 + p4));
    lemma_entry_round_trip(f.min_entry, p2 + p3 + p4);
    let n1 = p1.len() as int;
    assert(s.skip(n1) =~= p2 + (p3 + p4));
    lemma_entry_round_trip(f.max_entry, p3 + p4);
    let n2 = p2.len() as int;
    assert(s.subrange(n1 + n2, n1 + n2 + 8) =~= p3);
    lemma_fixed_u64_round_trip(f.data_block_end);
    assert(s.subrange(n1 + n2 + 8, n1 + n2 + 12) =~= p4);
    lemma_fixed_u32_round_trip(f.data_block_count);
}

impl Footer {
    /// Appends the footer body to `buf`.
    pub fn encode(&self, buf: &mut Vec<u8>)
        requires
            footer_encodable(self@),
        ensures
            final(buf)@ == old(buf)@ + spec_footer_enc(self@),
    {
        self.min_entry.encode(buf);
        self.max_entry.encode(buf);
        append_fixed_u64(buf, self.data_block_end);
        append_fixed_u32(buf, self.data_block_count);
        proof {
            reveal(crate::sst::spec_footer_enc);
            assert(buf@ =~= old(buf)@ + spec_footer_enc(self@));
        }
    }

    /// Decodes a footer body.
    pub fn decode(buf: &[u8]) -> (r: EikvResult<Footer>)
        ensures
            match r {
                Ok(f) => spec_footer_dec(buf@) == Some(f@),
                Err(e) => spec_footer_dec(buf@) is None && e == EikvError::SstCorruption,
            },
    {
        proof {
            reveal(crate::sst::spec_footer_dec);
        }
        let (min_entry, n1) = match Entry::decode_to_vec_u8(buf) {
            Some(x) => x,
            None => { return Err(EikvError::SstCorruption) },
        };
        proof {
            assert(buf@.skip(n1 as int) =~= buf@.subrange(n1 as int, buf@.len() as int));
        }
        let rest = &buf[n1..buf.len()];
        let (max_entry, n2) = match Entry::decode_to_vec_u8(rest) {
            Some(x) => x,
            None => { return Err(EikvError::SstCorruption) },
        };
        if buf.len() - n1 - n2 < 12 {
            return Err(EikvError::SstCorruption);
        }
        let dbe_field = &buf[n1 + n2..n1 + n2 + 8];
        let data_block_end = decode_fixed_u64(dbe_field);
        let cnt_field = &buf[n1 + n2 + 8..n1 + n2 + 12];
        let data_block_count = decode_fixed_u32(cnt_field);
        proof {
            lemma_fixed_u64_round_trip(data_block_end);
            lemma_fixed_u32_round_trip(data_block_count);
            assert(dbe_field@ =~= buf@.subrange(n1 + n2, n1 + n2 + 8));
            assert(cnt_field@ =~= buf@.subrange(n1 + n2 + 8, n1 + n2 + 12));
        }
        Ok(Footer { min_entry, max_entry, data_block_end, data_block_count })
    }
}

/// Fixed eight-byte encodings, back to back.
pub open spec fn spec_u64s_enc(xs: Seq<u64>) -> Seq<u8>
    decreases xs.len(),
{
    if xs.len() == 0 {
        Seq::empty()
    } else {
        spec_fixed_u64(xs[0]) + spec_u64s_enc(xs.skip(1))
    }
}

pub proof fn lemma_u64s_enc_len(xs: Seq<u64>)
    ensures
        spec_u64s_enc(xs).len() == 8 * xs.len(),
    decreases xs.len(),
{
    if xs.len() > 0 {
        lemma_u64s_enc_len(xs.skip(1));
    }
}

pub proof fn lemma_u64s_snoc(xs: Seq<u64>, x: u64)
    ensures
        spec_u64s_enc(xs.push(x)) == spec_u64s_enc(xs) + spec_fixed_u64(x),
    decreases xs.len(),
{
    if xs.len() == 0 {
        assert(xs.push(x)[0] == x);
        assert(xs.push(x).skip(1) =~= xs);
        assert(spec_u64s_enc(xs.push(x)) =~= spec_u64s_enc(xs) + spec_fixed_u64(x));
    } else {
        assert(xs.push(x)[0] == xs[0]);
        assert(xs.push(x).skip(1) =~= xs.skip(1).push(x));
        lemma_u64s_snoc(xs.skip(1), x);
        assert(spec_u64s_enc(xs.push(x)) =~= spec_u64s_enc(xs) + spec_fixed_u64(x));
    }
}

/// The first `m` eight-byte values at the head of a buffer.
pub open spec fn spec_u64s_dec(s: Seq<u8>, m: nat) -> Seq<u64>
    decreases m,
{
    if m == 0 || s.len() < 8 {
        Seq::empty()
    } else {
        seq![spec_fixed_u64_dec(s.subrange(0, 8)) as u64] + spec_u64s_dec(
            s.skip(8),
            (m - 1) as nat,
        )
    }
}

/// One index block: the group's offsets zero-filled to the block's slots,
/// one reserved word, and a checksum.
#[verifier::opaque]
pub open spec fn spec_index_group(g: Seq<u64>, per: nat) -> Seq<u8> {
    let padded = g + Seq::new((per - g.len()) as nat, |i: int| 0u64);
    let body = spec_u64s_enc(padded) + spec_fixed_u32(0);
    body + spec_fixed_u32(spec_crc32(body))
}

/// The index blocks of a table, one group of offsets per block.
pub open spec fn spec_index_blocks(offs: Seq<u64>, per: nat) -> Seq<u8>
    decreases offs.len(),
{
    if per == 0 || offs.len() == 0 {
        Seq::empty()
    } else if offs.len() <= per {
        spec_index_group(offs, per)
    } else {
        spec_index_group(offs.take(per as int), per) + spec_index_blocks(offs.skip(per as int), per)
    }
}

/// Reading `count` offsets back from an index area, block by block, each
/// block's checksum verified.
pub open spec fn spec_index_dec(s: Seq<u8>, bsz: nat, per: nat, count: nat) -> Option<Seq<u64>>
    decreases count,
{
    if per == 0 {
        None
    } else if count == 0 {
        Some(Seq::empty())
    } else if s.len() < bsz {
        None
    } else {
        let blk = s.subrange(0, bsz as int);
        if spec_fixed_u32_dec(blk.subrange(bsz - 4, bsz as int)) != spec_crc32(
            blk.subrange(0, bsz - 4),
        ) {
            None
        } else {
            let m = if count <= per {
                count
            } else {
                per
            };
            match spec_index_dec(s.skip(bsz as int), bsz, per, (count - m) as nat) {
                Some(rest) => Some(spec_u64s_dec(blk, m) + rest),
                None => None,
            }
        }
    }
}

/// Reading back the head of an encoded run of eight-byte values yields
/// the values written.
pub proof fn lemma_u64s_dec_prefix(xs: Seq<u64>, rest: Seq<u8>, m: nat)
    requires
        m <= xs.len(),
    ensures
        spec_u64s_dec(spec_u64s_enc(xs) + rest, m) == xs.take(m as int),
    decreases m,
{
    let s = spec_u64s_enc(xs) + rest;
    if m == 0 {
        assert(xs.take(0) =~= Seq::<u64>::empty());
    } else {
        assert(xs.len() > 0);
        lemma_u64s_enc_len(xs);
        assert(s.subrange(0, 8) =~= spec_fixed_u64(xs[0]));
        lemma_fixed_u64_round_trip(xs[0]);
        assert(s.skip(8) =~= spec_u64s_enc(xs.skip(1)) + rest);
        lemma_u64s_dec_prefix(xs.skip(1), rest, (m - 1) as nat);
        assert(seq![xs[0]] + xs.skip(1).take(m - 1) =~= xs.take(m as int));
    }
}

/// An index area reads back to exactly the offsets it was built from.
#[verifier::rlimit(100)]
pub proof fn lemma_index_round_trip(offs: Seq<u64>, per: nat, bsz: nat, rest: Seq<u8>)
    requires
        per >= 1,
        bsz == 8 * per + 8,
    ensures
        spec_index_dec(spec_index_blocks(offs, per) + rest, bsz, per, offs.len()) == Some(offs),
    decreases offs.len(),
{
    reveal(crate::sst::spec_index_group);
    let s = spec_index_blocks(offs, per) + rest;
    if offs.len() == 0 {
        assert(Seq::<u64>::empty() =~= offs);
    } else {
        let g = if offs.len() <= per {
            offs
        } else {
            offs.take(per as int)
        };
        let m: nat = if offs.len() <= per {
            offs.len()
        } else {
            per
        };
        let padded = g + Seq::new((per - g.len()) as nat, |i: int| 0u64);
        let body = spec_u64s_enc(padded) + spec_fixed_u32(0);
        let group = spec_index_group(g, per);
        lemma_u64s_enc_len(padded);
        assert(group.len() == bsz);
        assert(s.subrange(0, bsz as int) =~= group);
        let blk = s.subrange(0, bsz as int);
        assert(blk.subrange(bsz - 4, bsz as int) =~= spec_fixed_u32(spec_crc32(body)));
        lemma_fixed_u32_round_trip(spec_crc32(body));
        assert(blk.subrange(0, bsz - 4) =~= body);
        assert(blk =~= spec_u64s_enc(padded) + (spec_fixed_u32(0) + spec_fixed_u32(
            spec_crc32(body),
        )));
        lemma_u64s_dec_prefix(
            padded,
            spec_fixed_u32(0) + spec_fixed_u32(spec_crc32(body)),
            m,
        );
        assert(padded.take(m as int) =~= g.take(m as int));
        assert(g.take(m as int) =~= g);
        if offs.len() <= per {
            assert(s.skip(bsz as int) =~= rest);
            assert(spec_index_dec(rest, bsz, per, 0) == Some(Seq::<u64>::empty()));
            assert(spec_u64s_dec(blk, m) + Seq::<u64>::empty() =~= offs);
        } else {
            assert(s.skip(bsz as int) =~= spec_index_blocks(offs.skip(per as int), per) + rest);
            lemma_index_round_trip(offs.skip(per as int), per, bsz, rest);
            assert(spec_u64s_dec(blk, m) + offs.skip(per as int) =~= offs);
        }
    }
}

/// The data area: the encoded blocks back to back.
pub open spec fn spec_blocks_enc(bs: Seq<Seq<EntryModel>>, interval: nat) -> Seq<u8>
    decreases bs.len(),
{
    if bs.len() == 0 {
        Seq::empty()
    } else {
        crate::data_block::spec_block_enc(bs[0], interval) + spec_blocks_enc(bs.skip(1), interval)
    }
}

/// The starting offset of each block in the data area.
pub open spec fn spec_block_offs(bs: Seq<Seq<EntryModel>>, interval: nat, pos: int) -> Seq<u64>
    decreases bs.len(),
{
    if bs.len() == 0 {
        Seq::empty()
    } else {
        seq![pos as u64] + spec_block_offs(
            bs.skip(1),
            interval,
            pos + crate::data_block::spec_block_enc(bs[0], interval).len(),
        )
    }
}

#[verifier::rlimit(100)]
pub proof fn lemma_blocks_snoc(bs: Seq<Seq<EntryModel>>, b: Seq<EntryModel>, interval: nat, pos: int)
    ensures
        spec_blocks_enc(bs.push(b), interval) == spec_blocks_enc(bs, interval)
            + crate::data_block::spec_block_enc(b, interval),
        spec_block_offs(bs.push(b), interval, pos) == spec_block_offs(bs, interval, pos).push(
            (pos + spec_blocks_enc(bs, interval).len()) as u64,
        ),
    decreases bs.len(),
{
    if bs.len() == 0 {
        assert(bs.push(b)[0] == b);
        assert(bs.push(b).skip(1) =~= bs);
        assert(spec_blocks_enc(bs, interval) =~= Seq::<u8>::empty());
        assert(spec_block_offs(bs, interval, pos) =~= Seq::<u64>::empty());
        assert(spec_block_offs(
            bs,
            interval,
            pos + crate::data_block::spec_block_enc(b, interval).len(),
        ) =~= Seq::<u64>::empty());
        assert(spec_blocks_enc(bs.push(b), interval) =~= spec_blocks_enc(bs, interval)
            + crate::data_block::spec_block_enc(b, interval));
        assert(spec_block_offs(bs.push(b), interval, pos) =~= spec_block_offs(
            bs,
            interval,
            pos,
        ).push((pos + spec_blocks_enc(bs, interval).len()) as u64));
    } else {
        assert(bs.push(b)[0] == bs[0]);
        assert(bs.push(b).skip(1) =~= bs.skip(1).push(b));
        lemma_blocks_snoc(
            bs.skip(1),
            b,
            interval,
            pos + crate::data_block::spec_block_enc(bs[0], interval).len(),
        );
        assert(spec_blocks_enc(bs.push(b), interval) =~= spec_blocks_enc(bs, interval)
            + crate::data_block::spec_block_enc(b, interval));
        assert(spec_block_offs(bs.push(b), interval, pos) =~= spec_block_offs(
            bs,
            interval,
            pos,
        ).push((pos + spec_blocks_enc(bs, interval).len()) as u64));
    }
}

/// The entries of the blocks in order.
pub open spec fn spec_blocks_entries(bs: Seq<Seq<EntryModel>>) -> Seq<EntryModel>
    decreases bs.len(),
{
    if bs.len() == 0 {
        Seq::empty()
    } else {
        bs[0] + spec_blocks_entries(bs.skip(1))
    }
}

pub proof fn lemma_blocks_entries_snoc(bs: Seq<Seq<EntryModel>>, b: Seq<EntryModel>)
    ensures
        spec_blocks_entries(bs.push(b)) == spec_blocks_entries(bs) + b,
    decreases bs.len(),
{
    if bs.len() == 0 {
        assert(bs.push(b)[0] == b);
        assert(bs.push(b).skip(1) =~= bs);
        assert(spec_blocks_entries(bs.push(b)) =~= spec_blocks_entries(bs) + b);
    } else {
        assert(bs.push(b)[0] == bs[0]);
        assert(bs.push(b).skip(1) =~= bs.skip(1).push(b));
        lemma_blocks_entries_snoc(bs.skip(1), b);
        assert(spec_blocks_entries(bs.push(b)) =~= spec_blocks_entries(bs) + b);
    }
}

/// Builds one table from entries appended in ascending order, block by
/// block, in memory; the embedding layer streams the bytes to disk.
pub struct Writer {
    block_size: usize,
    restart_interval: usize,
    buf: Vec<u8>,
    block_builder: crate::data_block::Builder,
    block_offsets: Vec<u64>,
    size_limit: u64,
    min_entry: Option<Entry>,
    max_entry: Option<Entry>,
    blocks: Ghost<Seq<Seq<EntryModel>>>,
}

impl Writer {
    /// The finished blocks' entries, then the open block's.
    pub closed spec fn entries(&self) -> Seq<EntryModel> {
        spec_blocks_entries(self.blocks@) + self.block_builder.history()
    }

    /// The block list the finished file will hold.
    pub closed spec fn final_blocks(&self) -> Seq<Seq<EntryModel>> {
        if self.block_builder.history().len() == 0 {
            self.blocks@
        } else {
            self.blocks@.push(self.block_builder.history())
        }
    }

    pub closed spec fn interval(&self) -> nat {
        self.restart_interval as nat
    }

    pub closed spec fn block_size_spec(&self) -> nat {
        self.block_size as nat
    }

    pub closed spec fn size_limit_spec(&self) -> u64 {
        self.size_limit
    }

    /// The bytes of the finished blocks so far.
    pub closed spec fn bytes_len(&self) -> nat {
        self.buf@.len()
    }

    pub closed spec fn wf(&self) -> bool {
        &&& 16 <= self.block_size
        &&& self.block_size % 8 == 0
        &&& self.restart_interval >= 1
        &&& self.block_builder.wf()
        &&& self.block_builder.interval() == self.restart_interval as nat
        &&& self.block_builder.target_size() == self.block_size as nat
        &&& self.buf@ == spec_blocks_enc(self.blocks@, self.restart_interval as nat)
        &&& self.block_offsets@ == spec_block_offs(self.blocks@, self.restart_interval as nat, 0)
        &&& forall|k: int|
            0 <= k < self.blocks@.len() ==> crate::data_block::block_encodable(
                #[trigger] self.blocks@[k],
                self.restart_interval as nat,
            )
        &&& crate::data_block::entries_encodable(self.block_builder.history())
        &&& (self.block_builder.history().len() >= 1 ==> crate::data_block::spec_block_enc(
            self.block_builder.history(),
            self.restart_interval as nat,
        ).len() <= u32::MAX && crate::entry::entry_encodable(self.block_builder.history()[0]))
        &&& (self.entries().len() >= 1 ==> self.block_builder.history().len() >= 1)
        &&& match self.min_entry {
            None => self.entries().len() == 0,
            Some(m) => self.entries().len() >= 1 && m@ == self.entries()[0],
        }
        &&& match self.max_entry {
            None => self.entries().len() == 0,
            Some(m) => self.entries().len() >= 1 && m@ == self.entries().last(),
        }
    }

    pub fn new(options: crate::db::DBOptions, size_limit: u64) -> (r: Writer)
        requires
            16 <= options.block_size,
            options.block_size % 8 == 0,
            options.restart_interval >= 1,
        ensures
            r.wf(),
            r.entries() == Seq::<EntryModel>::empty(),
            r.interval() == options.restart_interval,
            r.block_size_spec() == options.block_size,
            r.size_limit_spec() == size_limit,
    {
        let r = Writer {
            block_size: options.block_size,
            restart_interval: options.restart_interval,
            buf: Vec::new(),
            block_builder: crate::data_block::Builder::new(options),
            block_offsets: Vec::new(),
            size_limit,
            min_entry: None,
            max_entry: None,
            blocks: Ghost(Seq::empty()),
        };
        proof {
            assert(r.buf@ =~= spec_blocks_enc(r.blocks@, r.restart_interval as nat));
            assert(r.block_offsets@ =~= spec_block_offs(r.blocks@, r.restart_interval as nat, 0));
            assert(r.entries() =~= Seq::<EntryModel>::empty());
        }
        r
    }

    /// Whether the bytes written so far have reached the output size
    /// limit, so the caller should rotate to a fresh table.
    pub fn full(&self) -> (r: bool)
        requires
            self.wf(),
        ensures
            r == (self.bytes_len() >= self.size_limit_spec()),
    {
        self.buf.len() as u64 >= self.size_limit
    }

    /// Appends the next entry; cuts a block first when the open one has
    /// reached the block size.
    #[verifier::rlimit(100)]
    pub fn append(&mut self, entry: Entry)
        requires
            old(self).wf(),
            crate::entry::entry_encodable(entry@),
            crate::data_block::spec_block_enc(
                old(self).block_builder_history().push(entry@),
                old(self).interval(),
            ).len() <= u32::MAX,
            crate::data_block::spec_block_enc(seq![entry@], old(self).interval()).len()
                <= u32::MAX,
        ensures
            final(self).wf(),
            final(self).entries() == old(self).entries().push(entry@),
            final(self).interval() == old(self).interval(),
            final(self).block_size_spec() == old(self).block_size_spec(),
            final(self).size_limit_spec() == old(self).size_limit_spec(),
    {
        let ghost ivl = self.restart_interval as nat;
        if self.block_builder.full() {
            let offset = self.buf.len() as u64;
            self.block_offsets.push(offset);
            let mut block_builder = crate::data_block::Builder::new(
                crate::db::DBOptions {
                    block_size: self.block_size,
                    create_if_missing: true,
                    restart_interval: self.restart_interval,
                    wal_size_limit: 0,
                },
            );
            core::mem::swap(&mut self.block_builder, &mut block_builder);
            let ghost done = block_builder.history();
            proof {
                block_builder.lemma_nonempty_when_bytes();
                assert(done.len() >= 1);
                lemma_blocks_snoc(self.blocks@, done, ivl, 0);
            }
            let bytes = block_builder.build();
            self.buf.extend_from_slice(bytes.as_slice());
            proof {
                self.blocks@ = self.blocks@.push(done);
                lemma_blocks_entries_snoc(old(self).blocks@, done);
                assert(self.buf@ =~= spec_blocks_enc(old(self).blocks@, ivl)
                    + crate::data_block::spec_block_enc(done, ivl));
                assert(self.buf@ == spec_blocks_enc(self.blocks@, ivl));
                assert(self.entries() =~= old(self).entries());
            }
        }
        let ghost pre = *self;
        if self.min_entry.is_none() {
            self.min_entry = Some(entry.dup());
        }
        let ghost max_e = entry@;
        self.max_entry = Some(entry.dup());
        self.block_builder.append(entry);
        proof {
            assert(self.entries() =~= pre.entries().push(max_e));
            assert(self.entries() =~= old(self).entries().push(max_e));
            assert(self.entries().last() == max_e);
            if old(self).entries().len() >= 1 {
                assert(self.entries()[0] == old(self).entries()[0]);
            }
            assert(self.block_builder.history() =~= pre.block_builder.history().push(max_e));
            if pre.block_builder.history().len() == 0 {
                assert(self.block_builder.history() =~= seq![max_e]);
            }
            assert forall|i: int|
                0 <= i < self.block_builder.history().len() implies crate::entry::entry_encodable(
                #[trigger] self.block_builder.history()[i],
            ) by {
                if i < pre.block_builder.history().len() {
                    assert(self.block_builder.history()[i] == pre.block_builder.history()[i]);
                } else {
                    assert(self.block_builder.history()[i] == max_e);
                }
            }
        }
    }

    /// The open block's entries, for stating when another fits.
    pub closed spec fn block_builder_history(&self) -> Seq<EntryModel> {
        self.block_builder.history()
    }

    /// Whether the next entry fits the block format's offsets — exactly
    /// what `append` asks of its caller, testable before the call.
    pub fn fits(&self, entry: &Entry) -> (r: bool)
        requires
            self.wf(),
        ensures
            r == (crate::entry::entry_encodable(entry@) && crate::data_block::spec_block_enc(
                self.block_builder_history().push(entry@),
                self.interval(),
            ).len() <= u32::MAX && crate::data_block::spec_block_enc(
                seq![entry@],
                self.interval(),
            ).len() <= u32::MAX),
    {
        if !self.block_builder.fits(entry) {
            return false;
        }
        let e_len = match entry.enc_len_checked() {
            Some(l) => l,
            None => {
                proof {
                    assert(false);
                }
                0
            },
        };
        proof {
            crate::data_block::lemma_singleton_block_len(
                entry@,
                self.restart_interval as nat,
            );
        }
        e_len <= u32::MAX as u64 - 12
    }
}

pub proof fn lemma_offs_len(bs: Seq<Seq<EntryModel>>, interval: nat, pos: int)
    ensures
        spec_block_offs(bs, interval, pos).len() == bs.len(),
    decreases bs.len(),
{
    if bs.len() > 0 {
        lemma_offs_len(
            bs.skip(1),
            interval,
            pos + crate::data_block::spec_block_enc(bs[0], interval).len(),
        );
    }
}

/// A whole table on the wire: the data blocks, zero padding to a block
/// boundary, the index blocks, the footer, its size, and its checksum.
pub open spec fn spec_sst_enc(bs: Seq<Seq<EntryModel>>, interval: nat, bsz: nat) -> Seq<u8> {
    let d = spec_blocks_enc(bs, interval);
    let offs = spec_block_offs(bs, interval, 0);
    let padlen: int = if d.len() as int % (bsz as int) == 0 {
        0
    } else {
        bsz - d.len() as int % (bsz as int)
    };
    let per = (bsz / 8 - 1) as nat;
    let idx = spec_index_blocks(offs, per);
    let es = spec_blocks_entries(bs);
    let fm = FooterModel {
        min_entry: es[0],
        max_entry: es.last(),
        data_block_end: d.len() as u64,
        data_block_count: bs.len() as u32,
    };
    let fenc = spec_footer_enc(fm);
    let tail = fenc + spec_fixed_u32(fenc.len() as u32);
    d + Seq::new(padlen as nat, |i: int| 0u8) + idx + tail + spec_fixed_u32(spec_crc32(tail))
}

/// Decoding of a table's footer from the end of the file.
pub open spec fn spec_sst_footer_dec(s: Seq<u8>) -> Result<FooterModel, EikvError> {
    if s.len() < 12 {
        Err(EikvError::SstCorruption)
    } else {
        let size = spec_fixed_u32_dec(s.subrange(s.len() - 8, s.len() - 4));
        let crc = spec_fixed_u32_dec(s.subrange(s.len() - 4, s.len() as int));
        if size + 12 > s.len() {
            Err(EikvError::SstCorruption)
        } else {
            let covered = s.subrange(s.len() - 8 - size, s.len() - 4);
            if spec_crc32(covered) != crc {
                Err(EikvError::ChecksumMismatch)
            } else {
                match spec_footer_dec(s.subrange(s.len() - 8 - size, s.len() - 8)) {
                    Some(f) => Ok(f),
                    None => Err(EikvError::SstCorruption),
                }
            }
        }
    }
}

/// Decoding of the data blocks named by the offsets: each block runs to
/// the next offset, the last to the end of the data area.
pub open spec fn spec_data_dec(s: Seq<u8>, offs: Seq<u64>, dbe: int) -> Result<
    Seq<EntryModel>,
    EikvError,
>
    decreases offs.len(),
{
    if offs.len() == 0 {
        Ok(Seq::empty())
    } else {
        let start = offs[0] as int;
        let end: int = if offs.len() == 1 {
            dbe
        } else {
            offs[1] as int
        };
        if !(0 <= start <= end <= s.len()) {
            Err(EikvError::SstCorruption)
        } else {
            match crate::data_block::spec_block_dec(s.subrange(start, end)) {
                Ok(es) => match spec_data_dec(s, offs.skip(1), dbe) {
                    Ok(rest) => Ok(es + rest),
                    Err(e) => Err(e),
                },
                Err(e) => Err(e),
            }
        }
    }
}

/// Locating a table's data: the end of the data area and the block
/// offsets, recovered from the footer and the index blocks.
pub open spec fn spec_sst_layout(s: Seq<u8>, bsz: nat) -> Result<(u64, Seq<u64>), EikvError> {
    match spec_sst_footer_dec(s) {
        Ok(f) => {
            let per = (bsz / 8 - 1) as int;
            let dbe = f.data_block_end as int;
            let count = f.data_block_count as int;
            let padlen: int = if dbe % (bsz as int) == 0 {
                0
            } else {
                bsz - dbe % (bsz as int)
            };
            let ibs = dbe + padlen;
            let ibc = (count + per - 1) / per;
            if ibs + ibc * bsz > s.len() {
                Err(EikvError::SstCorruption)
            } else {
                match spec_index_dec(
                    s.subrange(ibs, ibs + ibc * bsz),
                    bsz,
                    per as nat,
                    count as nat,
                ) {
                    Some(offs) => Ok((f.data_block_end, offs)),
                    None => Err(EikvError::SstCorruption),
                }
            }
        },
        Err(e) => Err(e),
    }
}

/// Decoding of a whole table: footer, index, then every data block.
pub open spec fn spec_sst_dec(s: Seq<u8>, bsz: nat) -> Result<Seq<EntryModel>, EikvError> {
    match spec_sst_layout(s, bsz) {
        Ok((dbe, offs)) => spec_data_dec(s, offs, dbe as int),
        Err(e) => Err(e),
    }
}

/// Builds the index blocks for the data block offsets.
pub fn build_index_blocks(offsets: &[u64], block_size: usize) -> (r: Vec<u8>)
    requires
        16 <= block_size,
        block_size % 8 == 0,
    ensures
        r@ == spec_index_blocks(offsets@, (block_size / 8 - 1) as nat),
    decreases offsets@.len(),
{
    proof {
        reveal(crate::sst::spec_index_group);
    }
    let per = block_size / 8 - 1;
    let ghost pern = per as nat;
    if offsets.len() == 0 {
        let r: Vec<u8> = Vec::new();
        proof {
            assert(r@ =~= spec_index_blocks(offsets@, pern));
        }
        return r;
    }
    let ghost g = if offsets@.len() <= pern {
        offsets@
    } else {
        offsets@.take(per as int)
    };
    let ghost padded = g + Seq::new((pern - g.len()) as nat, |i: int| 0u64);
    let mut body: Vec<u8> = Vec::new();
    let mut j: usize = 0;
    proof {
        assert(padded.take(0).len() == 0);
        assert(body@ =~= spec_u64s_enc(padded.take(0)));
    }
    while j < per
        invariant
            per == block_size / 8 - 1,
            16 <= block_size,
            block_size % 8 == 0,
            pern == per as nat,
            g == (if offsets@.len() <= pern {
                offsets@
            } else {
                offsets@.take(per as int)
            }),
            padded == g + Seq::new((pern - g.len()) as nat, |i: int| 0u64),
            offsets@.len() > 0,
            j <= per,
            body@ == spec_u64s_enc(padded.take(j as int)),
        decreases per - j,
    {
        let v: u64 = if j < offsets.len() {
            offsets[j]
        } else {
            0
        };
        proof {
            assert(padded[j as int] == v);
            lemma_u64s_snoc(padded.take(j as int), v);
            assert(padded.take(j + 1) =~= padded.take(j as int).push(v));
        }
        append_fixed_u64(&mut body, v);
        j = j + 1;
    }
    proof {
        assert(padded.take(per as int) =~= padded);
    }
    append_fixed_u32(&mut body, 0);
    let checksum = crc32_checksum(body.as_slice());
    append_fixed_u32(&mut body, checksum);
    if offsets.len() <= per {
        proof {
            assert(body@ =~= spec_index_group(offsets@, pern));
        }
        body
    } else {
        let rest = build_index_blocks(&offsets[per..offsets.len()], block_size);
        proof {
            assert((offsets@.subrange(per as int, offsets@.len() as int)) =~= offsets@.skip(
                per as int,
            ));
        }
        let mut out = body;
        out.extend_from_slice(rest.as_slice());
        proof {
            assert(out@ =~= spec_index_group(offsets@.take(per as int), pern)
                + spec_index_blocks(offsets@.skip(per as int), pern));
        }
        out
    }
}

/// Reads `count` offsets back out of an index area.
pub fn decode_index_offsets(area: &[u8], block_size: usize, count: u32) -> (r: EikvResult<
    Vec<u64>,
>)
    requires
        16 <= block_size <= 0x10000000,
        block_size % 8 == 0,
    ensures
        match r {
            Ok(offs) => spec_index_dec(
                area@,
                block_size as nat,
                (block_size / 8 - 1) as nat,
                count as nat,
            ) == Some(offs@),
            Err(e) => spec_index_dec(
                area@,
                block_size as nat,
                (block_size / 8 - 1) as nat,
                count as nat,
            ) is None && e == EikvError::SstCorruption,
        },
    decreases count,
{
    let per = block_size / 8 - 1;
    if count == 0 {
        let r: Vec<u64> = Vec::new();
        proof {
            assert(r@ =~= Seq::<u64>::empty());
        }
        return Ok(r);
    }
    if area.len() < block_size {
        return Err(EikvError::SstCorruption);
    }
    let blk = &area[0..block_size];
    let crc_field = &area[block_size - 4..block_size];
    let stored = decode_fixed_u32(crc_field);
    let front = &area[0..block_size - 4];
    let computed = crc32_checksum(front);
    proof {
        lemma_fixed_u32_round_trip(stored);
        assert(crc_field@ =~= blk@.subrange(block_size - 4, block_size as int));
        assert(front@ =~= blk@.subrange(0, block_size - 4));
    }
    if stored != computed {
        return Err(EikvError::SstCorruption);
    }
    let m: u32 = if count as usize <= per {
        count
    } else {
        per as u32
    };
    proof {
        assert(m as nat == (if count as nat <= per as nat {
            count as nat
        } else {
            per as nat
        }));
        assert(m >= 1);
    }
    let head = read_u64s(blk, m as usize);
    proof {
        assert(area@.skip(block_size as int) =~= area@.subrange(
            block_size as int,
            area@.len() as int,
        ));
    }
    let rest_area = &area[block_size..area.len()];
    let rest = match decode_index_offsets(rest_area, block_size, count - m) {
        Ok(x) => x,
        Err(e) => { return Err(e) },
    };
    let mut out = head;
    out.extend_from_slice(rest.as_slice());
    proof {
        assert(out@ =~= spec_u64s_dec(blk@, m as nat) + rest@);
    }
    Ok(out)
}

/// Reads the first `m` eight-byte values of a buffer.
fn read_u64s(s: &[u8], m: usize) -> (r: Vec<u64>)
    ensures
        r@ == spec_u64s_dec(s@, m as nat),
    decreases m,
{
    if m == 0 || s.len() < 8 {
        let r: Vec<u64> = Vec::new();
        proof {
            assert(r@ =~= spec_u64s_dec(s@, m as nat));
        }
        return r;
    }
    let field = &s[0..8];
    let v = decode_fixed_u64(field);
    proof {
        lemma_fixed_u64_round_trip(v);
        assert(field@ =~= s@.subrange(0, 8));
        assert(s@.skip(8) =~= s@.subrange(8, s@.len() as int));
    }
    let rest = read_u64s(&s[8..s.len()], m - 1);
    let mut out: Vec<u64> = Vec::new();
    out.push(v);
    out.extend_from_slice(rest.as_slice());
    proof {
        assert(out@ =~= seq![v] + rest@);
        assert(out@ =~= spec_u64s_dec(s@, m as nat));
    }
    out
}

pub proof fn lemma_final_blocks_entries(w: &Writer)
    requires
        w.wf(),
    ensures
        spec_blocks_entries(w.final_blocks()) == w.entries(),
{
    if w.block_builder_history().len() == 0 {
        assert(spec_blocks_entries(w.final_blocks()) + w.block_builder_history()
            =~= spec_blocks_entries(w.final_blocks()));
    } else {
        lemma_blocks_entries_snoc(w.blocks_ghost(), w.block_builder_history());
    }
}

impl Writer {
    /// The finished blocks' entry lists.
    pub closed spec fn blocks_ghost(&self) -> Seq<Seq<EntryModel>> {
        self.blocks@
    }

    /// Seals the table: cuts the open block, pads to a block boundary,
    /// writes the index blocks and the footer, and hands the file back.
    #[verifier::rlimit(100)]
    pub fn finish(self) -> (r: Vec<u8>)
        requires
            self.wf(),
            self.entries().len() >= 1,
            self.final_blocks().len() <= u32::MAX,
            spec_footer_enc(
                FooterModel {
                    min_entry: self.entries()[0],
                    max_entry: self.entries().last(),
                    data_block_end: spec_blocks_enc(
                        self.final_blocks(),
                        self.interval(),
                    ).len() as u64,
                    data_block_count: self.final_blocks().len() as u32,
                },
            ).len() + 4 <= u32::MAX,
        ensures
            r@ == spec_sst_enc(self.final_blocks(), self.interval(), self.block_size_spec()),
    {
        let ghost ivl = self.restart_interval as nat;
        let ghost fbs = self.final_blocks();
        proof {
            lemma_final_blocks_entries(&self);
        }
        let Writer {
            block_size,
            restart_interval,
            mut buf,
            block_builder,
            mut block_offsets,
            min_entry,
            max_entry,
            blocks,
            ..
        } = self;
        let offset = buf.len() as u64;
        block_offsets.push(offset);
        let ghost done = block_builder.history();
        proof {
            lemma_blocks_snoc(blocks@, done, ivl, 0);
            lemma_blocks_entries_snoc(blocks@, done);
        }
        let bytes = block_builder.build();
        buf.extend_from_slice(bytes.as_slice());
        let ghost d = spec_blocks_enc(fbs, ivl);
        proof {
            assert(fbs =~= blocks@.push(done));
            assert(buf@ == d);
            assert(block_offsets@ == spec_block_offs(fbs, ivl, 0));
        }
        let data_block_end = buf.len() as u64;
        let ghost padlen: int = if d.len() as int % (block_size as int) == 0 {
            0
        } else {
            block_size - d.len() as int % (block_size as int)
        };
        if buf.len() % block_size != 0 {
            let pad = block_size - buf.len() % block_size;
            let mut k: usize = 0;
            while k < pad
                invariant
                    k <= pad,
                    pad == padlen,
                    buf@ == d + Seq::new(k as nat, |i: int| 0u8),
                decreases pad - k,
            {
                buf.push(0);
                proof {
                    assert(buf@ =~= d + Seq::new((k + 1) as nat, |i: int| 0u8));
                }
                k = k + 1;
            }
        } else {
            proof {
                assert(buf@ =~= d + Seq::new(0nat, |i: int| 0u8));
            }
        }
        let idx = build_index_blocks(block_offsets.as_slice(), block_size);
        buf.extend_from_slice(idx.as_slice());
        let min_entry = match min_entry {
            Some(m) => m,
            None => {
                proof {
                    assert(false);
                }
                Entry { key: Vec::new(), seq: 0, value: None }
            },
        };
        let max_entry = match max_entry {
            Some(m) => m,
            None => {
                proof {
                    assert(false);
                }
                Entry { key: Vec::new(), seq: 0, value: None }
            },
        };
        proof {
            lemma_offs_len(fbs, ivl, 0);
        }
        let footer = Footer {
            min_entry,
            max_entry,
            data_block_end,
            data_block_count: block_offsets.len() as u32,
        };
        let mut tail: Vec<u8> = Vec::new();
        footer.encode(&mut tail);
        let footer_size = tail.len() as u32;
        append_fixed_u32(&mut tail, footer_size);
        let checksum = crc32_checksum(tail.as_slice());
        buf.extend_from_slice(tail.as_slice());
        append_fixed_u32(&mut buf, checksum);
        proof {
            assert(buf@ =~= spec_sst_enc(fbs, ivl, block_size as nat));
        }
        buf
    }
}

/// Reads a table's footer from the end of its bytes.
pub fn read_footer(buf: &[u8]) -> (r: EikvResult<Footer>)
    ensures
        match r {
            Ok(f) => spec_sst_footer_dec(buf@) == Ok::<FooterModel, EikvError>(f@),
            Err(e) => spec_sst_footer_dec(buf@) == Err::<FooterModel, EikvError>(e),
        },
{
    if buf.len() < 12 {
        return Err(EikvError::SstCorruption);
    }
    let len = buf.len();
    let size_field = &buf[len - 8..len - 4];
    let footer_size = decode_fixed_u32(size_field);
    let crc_field = &buf[len - 4..len];
    let stored = decode_fixed_u32(crc_field);
    proof {
        lemma_fixed_u32_round_trip(footer_size);
        lemma_fixed_u32_round_trip(stored);
    }
    if footer_size as usize > len - 12 {
        return Err(EikvError::SstCorruption);
    }
    let covered = &buf[len - 8 - footer_size as usize..len - 4];
    let computed = crc32_checksum(covered);
    if stored != computed {
        return Err(EikvError::ChecksumMismatch);
    }
    let body = &buf[len - 8 - footer_size as usize..len - 8];
    match Footer::decode(body) {
        Ok(f) => Ok(f),
        Err(e) => Err(e),
    }
}

/// Decodes one data block and appends its entries.
fn append_block_entries(entries: &mut Vec<Entry>, block: &[u8]) -> (r: EikvResult<()>)
    ensures
        match r {
            Ok(()) => match crate::data_block::spec_block_dec(block@) {
                Ok(es) => crate::write_batch::seq_views(final(entries)@)
                    == crate::write_batch::seq_views(old(entries)@) + es,
                Err(_) => false,
            },
            Err(e) => crate::data_block::spec_block_dec(block@) == Err::<
                Seq<EntryModel>,
                EikvError,
            >(e),
        },
{
    let block_entries = match crate::data_block::decode_block(block) {
        Ok(es) => es,
        Err(e) => { return Err(e) },
    };
    let ghost before = entries@;
    let nb = block_entries.len();
    let mut t: usize = 0;
    proof {
        assert(crate::write_batch::seq_views(entries@) =~= crate::write_batch::seq_views(before)
            + crate::write_batch::seq_views(block_entries@.subrange(0, 0)));
    }
    while t < nb
        invariant
            nb == block_entries@.len(),
            t <= nb,
            crate::write_batch::seq_views(entries@) =~= crate::write_batch::seq_views(before)
                + crate::write_batch::seq_views(block_entries@.subrange(0, t as int)),
        decreases nb - t,
    {
        let e = block_entries[t].dup();
        proof {
            assert(crate::write_batch::seq_views(entries@.push(e)) =~= crate::write_batch::seq_views(
                entries@,
            ).push(e@));
            assert(crate::write_batch::seq_views(block_entries@.subrange(0, t + 1))
                =~= crate::write_batch::seq_views(block_entries@.subrange(0, t as int)).push(
                block_entries@[t as int]@,
            ));
        }
        entries.push(e);
        t = t + 1;
    }
    proof {
        assert(block_entries@.subrange(0, nb as int) =~= block_entries@);
    }
    Ok(())
}

/// Locates a table's data blocks: the data end and their offsets.
#[verifier::rlimit(100)]
fn sst_layout(buf: &[u8], block_size: usize) -> (r: EikvResult<(u64, Vec<u64>)>)
    requires
        16 <= block_size <= 0x10000000,
        block_size % 8 == 0,
    ensures
        match r {
            Ok((dbe, offs)) => spec_sst_layout(buf@, block_size as nat) == Ok::<
                (u64, Seq<u64>),
                EikvError,
            >((dbe, offs@)),
            Err(e) => spec_sst_layout(buf@, block_size as nat) == Err::<
                (u64, Seq<u64>),
                EikvError,
            >(e),
        },
{
    let buf_len = buf.len();
    let footer = match read_footer(buf) {
        Ok(f) => f,
        Err(e) => { return Err(e) },
    };
    let per = block_size / 8 - 1;
    let dbe = footer.data_block_end;
    let count = footer.data_block_count;
    let ghost bszi = block_size as int;
    let ghost padlen_s: int = if dbe as int % bszi == 0 {
        0
    } else {
        bszi - dbe as int % bszi
    };
    let ghost ibs_s: int = dbe + padlen_s;
    let ghost ibc_s: int = (count + per - 1) as int / (per as int);
    proof {
        assert(ibc_s >= 0);
        assert(ibc_s * bszi >= 0) by (nonlinear_arith)
            requires
                ibc_s >= 0,
                bszi >= 16,
        ;
    }
    let padlen: u64 = if dbe % (block_size as u64) == 0 {
        0
    } else {
        block_size as u64 - dbe % (block_size as u64)
    };
    proof {
        assert(padlen == padlen_s);
    }
    let ibs = match dbe.checked_add(padlen) {
        Some(x) => x,
        None => { return Err(EikvError::SstCorruption) },
    };
    let ibc = (count as u64 + per as u64 - 1) / (per as u64);
    proof {
        assert(ibc == ibc_s);
    }
    let area = match ibc.checked_mul(block_size as u64) {
        Some(x) => x,
        None => { return Err(EikvError::SstCorruption) },
    };
    let area_end = match ibs.checked_add(area) {
        Some(x) => x,
        None => { return Err(EikvError::SstCorruption) },
    };
    if area_end > buf_len as u64 {
        return Err(EikvError::SstCorruption);
    }
    let area_slice = &buf[ibs as usize..area_end as usize];
    proof {
        assert(area_slice@ =~= buf@.subrange(ibs_s, ibs_s + ibc_s * bszi));
    }
    let offsets = match decode_index_offsets(area_slice, block_size, count) {
        Ok(x) => x,
        Err(e) => { return Err(e) },
    };
    Ok((dbe, offsets))
}

/// Reads every entry of a table, in order.
pub fn sst_entries(buf: &[u8], block_size: usize) -> (r: EikvResult<Vec<Entry>>)
    requires
        16 <= block_size <= 0x10000000,
        block_size % 8 == 0,
    ensures
        match r {
            Ok(es) => spec_sst_dec(buf@, block_size as nat) == Ok::<Seq<EntryModel>, EikvError>(
                crate::write_batch::seq_views(es@),
            ),
            Err(e) => spec_sst_dec(buf@, block_size as nat) == Err::<Seq<EntryModel>, EikvError>(
                e,
            ),
        },
{
    let (dbe, offsets) = match sst_layout(buf, block_size) {
        Ok(x) => x,
        Err(e) => { return Err(e) },
    };
    let mut entries: Vec<Entry> = Vec::new();
    let n = offsets.len();
    let mut j: usize = 0;
    proof {
        assert(offsets@.skip(0) =~= offsets@);
        match spec_data_dec(buf@, offsets@, dbe as int) {
            Ok(tail) => {
                assert(crate::write_batch::seq_views(entries@) + tail =~= tail);
            },
            Err(_) => {},
        }
    }
    while j < n
        invariant
            n == offsets@.len(),
            spec_sst_dec(buf@, block_size as nat) == spec_data_dec(buf@, offsets@, dbe as int),
            j <= n,
            match spec_data_dec(buf@, offsets@.skip(j as int), dbe as int) {
                Ok(tail) => spec_data_dec(buf@, offsets@, dbe as int) == Ok::<
                    Seq<EntryModel>,
                    EikvError,
                >(crate::write_batch::seq_views(entries@) + tail),
                Err(e) => spec_data_dec(buf@, offsets@, dbe as int) == Err::<
                    Seq<EntryModel>,
                    EikvError,
                >(e),
            },
        decreases n - j,
    {
        let ghost rem = offsets@.skip(j as int);
        let start = offsets[j];
        let end: u64 = if j + 1 == n {
            dbe
        } else {
            offsets[j + 1]
        };
        proof {
            assert(rem[0] == offsets@[j as int]);
            if j + 1 < n {
                assert(rem[1] == offsets@[j + 1]);
            }
            assert(rem.skip(1) =~= offsets@.skip(j + 1));
        }
        if !(start <= end && end <= buf.len() as u64) {
            return Err(EikvError::SstCorruption);
        }
        let block = &buf[start as usize..end as usize];
        let ghost before = entries@;
        match append_block_entries(&mut entries, block) {
            Ok(()) => (),
            Err(e) => { return Err(e) },
        }
        proof {
            match crate::data_block::spec_block_dec(block@) {
                Ok(es) => {
                    match spec_data_dec(buf@, offsets@.skip(j + 1), dbe as int) {
                        Ok(tail) => {
                            assert(crate::write_batch::seq_views(before) + (es + tail)
                                =~= crate::write_batch::seq_views(entries@) + tail);
                        },
                        Err(_) => {},
                    }
                },
                Err(_) => {},
            }
        }
        j = j + 1;
    }
    proof {
        assert(offsets@.skip(n as int).len() == 0);
        assert(crate::write_batch::seq_views(entries@) + Seq::<EntryModel>::empty()
            =~= crate::write_batch::seq_views(entries@));
    }
    Ok(entries)
}

/// What a writer hands back reads back to exactly what was appended.
pub proof fn lemma_writer_output_reads_back(w: &Writer, bsz: nat)
    requires
        w.wf(),
        w.entries().len() >= 1,
        bsz == w.block_size_spec(),
        sst_encodable(w.final_blocks(), w.interval(), bsz),
    ensures
        spec_sst_dec(spec_sst_enc(w.final_blocks(), w.interval(), bsz), bsz) == Ok::<
            Seq<EntryModel>,
            EikvError,
        >(w.entries()),
{
    lemma_sst_round_trip(w.final_blocks(), w.interval(), bsz);
    lemma_final_blocks_entries(w);
}

/// A block compression plug-in: compresses and restores byte strings.
pub trait Compressor {
    fn name(&self) -> &'static str;

    fn compress(&self, buf: &[u8]) -> EikvResult<Vec<u8>>;

    fn uncompress(&self, buf: &[u8]) -> EikvResult<Vec<u8>>;
}

/// A per-block membership filter plug-in.
pub trait Filter {
    fn add(&mut self, key: &[u8]);

    fn may_match(&self, key: &[u8]) -> bool;

    fn encode(&self, buf: &mut Vec<u8>) -> EikvResult<()>;
}

/// Makes and restores the filters of a table's blocks.
pub trait FilterFactory {
    type F: Filter;

    fn create(&self) -> Self::F;

    fn decode(&self, buf: &[u8]) -> EikvResult<Self::F>;
}

pub proof fn lemma_index_group_len(g: Seq<u64>, per: nat)
    requires
        g.len() <= per,
    ensures
        spec_index_group(g, per).len() == 8 * per + 8,
{
    reveal(crate::sst::spec_index_group);
    let padded = g + Seq::new((per - g.len()) as nat, |i: int| 0u64);
    lemma_u64s_enc_len(padded);
}

#[verifier::rlimit(100)]
pub proof fn lemma_index_blocks_len(offs: Seq<u64>, per: nat, bsz: nat)
    requires
        per >= 1,
        bsz == 8 * per + 8,
    ensures
        spec_index_blocks(offs, per).len() == ((offs.len() + per - 1) as int / (per as int)) * bsz,
    decreases offs.len(),
{
    if offs.len() == 0 {
        assert((0 + per - 1) as int / (per as int) == 0) by (nonlinear_arith)
            requires
                per >= 1,
        ;
    } else if offs.len() <= per {
        lemma_index_group_len(offs, per);
        assert(spec_index_group(offs, per).len() == bsz);
        assert((offs.len() + per - 1) as int / (per as int) == 1) by {
            assert((per as int) <= ((offs.len() + per - 1) as int));
            assert(((offs.len() + per - 1) as int) < 2 * (per as int));
            assert((offs.len() + per - 1) as int / (per as int) >= 1 && (offs.len() + per
                - 1) as int / (per as int) < 2) by (nonlinear_arith)
                requires
                    (per as int) <= ((offs.len() + per - 1) as int),
                    ((offs.len() + per - 1) as int) < 2 * (per as int),
                    per >= 1,
            ;
        }
    } else {
        lemma_index_group_len(offs.take(per as int), per);
        assert(spec_index_group(offs.take(per as int), per).len() == bsz);
        lemma_index_blocks_len(offs.skip(per as int), per, bsz);
        let ibc2 = (offs.skip(per as int).len() + per - 1) as int / (per as int);
        assert((offs.len() + per - 1) as int / (per as int) == 1 + ibc2) by {
            let a = (offs.len() + per - 1) as int;
            let p = per as int;
            assert(a == (offs.skip(per as int).len() + per - 1) as int + p);
            assert((a - p) / p + 1 == a / p) by (nonlinear_arith)
                requires
                    p >= 1,
                    a >= p,
            ;
        }
        assert((1 + ibc2) * bsz == bsz + ibc2 * bsz) by (nonlinear_arith);
    }
}

/// The data blocks named by the offsets decode back to the entries they
/// were built from, inside any file that holds them at `pos`.
pub proof fn lemma_data_round_trip(
    bs: Seq<Seq<EntryModel>>,
    interval: nat,
    s: Seq<u8>,
    pos: int,
    dbe: int,
)
    requires
        forall|k: int|
            0 <= k < bs.len() ==> crate::data_block::block_encodable(
                #[trigger] bs[k],
                interval,
            ),
        0 <= pos,
        dbe == pos + spec_blocks_enc(bs, interval).len(),
        dbe <= s.len(),
        dbe <= u64::MAX,
        s.subrange(pos, dbe) == spec_blocks_enc(bs, interval),
    ensures
        spec_data_dec(s, spec_block_offs(bs, interval, pos), dbe) == Ok::<
            Seq<EntryModel>,
            EikvError,
        >(spec_blocks_entries(bs)),
    decreases bs.len(),
{
    let offs = spec_block_offs(bs, interval, pos);
    if bs.len() == 0 {
        assert(Seq::<EntryModel>::empty() =~= spec_blocks_entries(bs));
    } else {
        let enc0 = crate::data_block::spec_block_enc(bs[0], interval);
        let rest = spec_blocks_enc(bs.skip(1), interval);
        assert(spec_blocks_enc(bs, interval) =~= enc0 + rest);
        assert(offs[0] == pos as u64);
        let end: int = if offs.len() == 1 {
            dbe
        } else {
            offs[1] as int
        };
        lemma_offs_len(bs, interval, pos);
        lemma_offs_len(bs.skip(1), interval, pos + enc0.len());
        if offs.len() == 1 {
            assert(bs.skip(1).len() == 0);
            assert(rest.len() == 0);
            assert(end == pos + enc0.len());
        } else {
            assert(bs.skip(1).len() >= 1);
            assert(offs[1] == spec_block_offs(bs.skip(1), interval, pos + enc0.len())[0]);
            assert(offs[1] == (pos + enc0.len()) as u64);
            assert(pos + enc0.len() <= dbe);
            assert(end == pos + enc0.len());
        }
        assert(0 <= pos <= end <= s.len());
        assert forall|i: int| 0 <= i < enc0.len() implies s.subrange(pos, end)[i] == enc0[i] by {
            assert(s.subrange(pos, end)[i] == s[pos + i]);
            assert(s.subrange(pos, dbe)[i] == s[pos + i]);
            assert((enc0 + rest)[i] == enc0[i]);
        }
        assert(s.subrange(pos, end) =~= enc0);
        crate::data_block::lemma_block_round_trip(bs[0], interval);
        assert(offs.skip(1) =~= spec_block_offs(bs.skip(1), interval, pos + enc0.len()));
        assert forall|i: int|
            0 <= i < rest.len() implies s.subrange(pos + enc0.len(), dbe)[i] == rest[i] by {
            assert(s.subrange(pos + enc0.len(), dbe)[i] == s[pos + enc0.len() + i]);
            assert(s.subrange(pos, dbe)[enc0.len() + i] == s[pos + enc0.len() + i]);
            assert((enc0 + rest)[enc0.len() + i] == rest[i]);
        }
        assert(s.subrange(pos + enc0.len(), dbe) =~= rest);
        lemma_data_round_trip(bs.skip(1), interval, s, pos + enc0.len(), dbe);
        assert(spec_blocks_entries(bs) =~= bs[0] + spec_blocks_entries(bs.skip(1)));
    }
}

/// The conditions under which a built table is within the format's
/// limits: sizes that fit the offset and length fields.
pub open spec fn sst_encodable(bs: Seq<Seq<EntryModel>>, interval: nat, bsz: nat) -> bool {
    &&& 16 <= bsz <= 0x10000000
    &&& bsz % 8 == 0
    &&& 1 <= bs.len() <= u32::MAX
    &&& (forall|k: int|
        0 <= k < bs.len() ==> crate::data_block::block_encodable(#[trigger] bs[k], interval))
    &&& spec_blocks_enc(bs, interval).len() <= u64::MAX
    &&& spec_footer_enc(
        FooterModel {
            min_entry: spec_blocks_entries(bs)[0],
            max_entry: spec_blocks_entries(bs).last(),
            data_block_end: spec_blocks_enc(bs, interval).len() as u64,
            data_block_count: bs.len() as u32,
        },
    ).len() + 4 <= u32::MAX
}

/// Every entry of the blocks is encodable, and there is at least one.
pub proof fn lemma_blocks_entries_encodable(bs: Seq<Seq<EntryModel>>, interval: nat)
    requires
        forall|k: int|
            0 <= k < bs.len() ==> crate::data_block::block_encodable(#[trigger] bs[k], interval),
    ensures
        forall|i: int|
            0 <= i < spec_blocks_entries(bs).len() ==> crate::entry::entry_encodable(
                #[trigger] spec_blocks_entries(bs)[i],
            ),
        spec_blocks_entries(bs).len() >= bs.len(),
    decreases bs.len(),
{
    if bs.len() > 0 {
        lemma_blocks_entries_encodable(bs.skip(1), interval);
        let es = spec_blocks_entries(bs);
        let rest = spec_blocks_entries(bs.skip(1));
        assert forall|i: int| 0 <= i < es.len() implies crate::entry::entry_encodable(
            #[trigger] es[i],
        ) by {
            if i < bs[0].len() {
                assert(es[i] == bs[0][i]);
                assert(crate::data_block::entries_encodable(bs[0]));
            } else {
                assert(es[i] == rest[i - bs[0].len()]);
            }
        }
    }
}

/// The footer of a built table reads back to the footer written.
#[verifier::rlimit(100)]
pub proof fn lemma_sst_footer_recovery(bs: Seq<Seq<EntryModel>>, interval: nat, bsz: nat)
    requires
        sst_encodable(bs, interval, bsz),
    ensures
        spec_sst_footer_dec(spec_sst_enc(bs, interval, bsz)) == Ok::<FooterModel, EikvError>(
            FooterModel {
                min_entry: spec_blocks_entries(bs)[0],
                max_entry: spec_blocks_entries(bs).last(),
                data_block_end: spec_blocks_enc(bs, interval).len() as u64,
                data_block_count: bs.len() as u32,
            },
        ),
        spec_sst_enc(bs, interval, bsz).len() >= 12,
{
    let d = spec_blocks_enc(bs, interval);
    let offs = spec_block_offs(bs, interval, 0);
    let padlen: int = if d.len() as int % (bsz as int) == 0 {
        0
    } else {
        bsz - d.len() as int % (bsz as int)
    };
    let per = (bsz / 8 - 1) as nat;
    let idx = spec_index_blocks(offs, per);
    let es = spec_blocks_entries(bs);
    let fm = FooterModel {
        min_entry: es[0],
        max_entry: es.last(),
        data_block_end: d.len() as u64,
        data_block_count: bs.len() as u32,
    };
    let fenc = spec_footer_enc(fm);
    let tail = fenc + spec_fixed_u32(fenc.len() as u32);
    let s = spec_sst_enc(bs, interval, bsz);
    let pad = Seq::new(padlen as nat, |i: int| 0u8);
    assert(s =~= d + pad + idx + tail + spec_fixed_u32(spec_crc32(tail)));
    assert(fenc.len() >= 6) by {
        reveal(crate::sst::spec_footer_enc);
        assert(crate::coding::spec_bytes_with_len(fm.min_entry.key).len() >= 1);
        assert(crate::coding::spec_var_u64(fm.min_entry.seq).len() >= 1);
        assert(crate::coding::spec_bytes_with_len(fm.max_entry.key).len() >= 1);
        assert(crate::coding::spec_var_u64(fm.max_entry.seq).len() >= 1);
    }
    assert(s.len() >= 12);
    let fsize = fenc.len() as u32;
    assert(s.subrange(s.len() - 8, s.len() - 4) =~= spec_fixed_u32(fsize));
    crate::coding::lemma_fixed_u32_round_trip(fsize);
    assert(s.subrange(s.len() - 4, s.len() as int) =~= spec_fixed_u32(spec_crc32(tail)));
    crate::coding::lemma_fixed_u32_round_trip(spec_crc32(tail));
    assert(idx.len() >= bsz) by {
        lemma_offs_len(bs, interval, 0);
        lemma_index_blocks_len(offs, per, bsz);
        assert(((bs.len() + per - 1) as int) >= (per as int));
        assert((bs.len() + per - 1) as int / (per as int) >= 1) by (nonlinear_arith)
            requires
                ((bs.len() + per - 1) as int) >= (per as int),
                per >= 1,
        ;
        assert(((bs.len() + per - 1) as int / (per as int)) * bsz >= bsz) by (nonlinear_arith)
            requires
                (bs.len() + per - 1) as int / (per as int) >= 1,
                bsz >= 16,
        ;
    }
    assert(fsize + 12 <= s.len());
    assert(s.subrange(s.len() - 8 - fsize, s.len() - 4) =~= tail);
    assert(s.subrange(s.len() - 8 - fsize, s.len() - 8) =~= fenc);
    assert(footer_encodable(fm)) by {
        lemma_blocks_entries_encodable(bs, interval);
        assert(es.len() >= 1);
        assert(crate::entry::entry_encodable(es[0]));
        assert(es.last() == es[es.len() - 1]);
        assert(crate::entry::entry_encodable(es[es.len() - 1]));
    }
    lemma_footer_round_trip(fm);
}

/// The index area of a built table reads back to the offsets written.
#[verifier::rlimit(100)]
pub proof fn lemma_sst_layout_recovery(bs: Seq<Seq<EntryModel>>, interval: nat, bsz: nat)
    requires
        sst_encodable(bs, interval, bsz),
    ensures
        spec_sst_layout(spec_sst_enc(bs, interval, bsz), bsz) == Ok::<(u64, Seq<u64>), EikvError>(
            (
                spec_blocks_enc(bs, interval).len() as u64,
                spec_block_offs(bs, interval, 0),
            ),
        ),
{
    let d = spec_blocks_enc(bs, interval);
    let offs = spec_block_offs(bs, interval, 0);
    let padlen: int = if d.len() as int % (bsz as int) == 0 {
        0
    } else {
        bsz - d.len() as int % (bsz as int)
    };
    let per = (bsz / 8 - 1) as nat;
    let idx = spec_index_blocks(offs, per);
    let es = spec_blocks_entries(bs);
    let fm = FooterModel {
        min_entry: es[0],
        max_entry: es.last(),
        data_block_end: d.len() as u64,
        data_block_count: bs.len() as u32,
    };
    let fenc = spec_footer_enc(fm);
    let tail = fenc + spec_fixed_u32(fenc.len() as u32);
    let s = spec_sst_enc(bs, interval, bsz);
    let pad = Seq::new(padlen as nat, |i: int| 0u8);
    assert(s =~= d + pad + idx + tail + spec_fixed_u32(spec_crc32(tail)));
    lemma_sst_footer_recovery(bs, interval, bsz);
    assert(bsz == 8 * per + 8);
    lemma_offs_len(bs, interval, 0);
    lemma_index_blocks_len(offs, per, bsz);
    let ibc = (bs.len() + per - 1) as int / (per as int);
    assert(idx.len() == ibc * bsz);
    assert(ibc >= 1) by {
        assert(((bs.len() + per - 1) as int) >= (per as int));
        assert((bs.len() + per - 1) as int / (per as int) >= 1) by (nonlinear_arith)
            requires
                ((bs.len() + per - 1) as int) >= (per as int),
                per >= 1,
        ;
    }
    let ibs = d.len() as int + padlen;
    assert(ibs + ibc * bsz <= s.len());
    assert(s.subrange(ibs, ibs + ibc * bsz) =~= idx);
    lemma_index_round_trip(offs, per, bsz, Seq::empty());
    assert(idx + Seq::<u8>::empty() =~= idx);
    assert(spec_index_dec(s.subrange(ibs, ibs + ibc * bsz), bsz, per, bs.len() as nat) == Some(
        offs,
    ));
}

/// A whole table decodes back to exactly the entries it was built from:
/// writing a sorted run and reading the table yields the run unchanged.
#[verifier::rlimit(100)]
pub proof fn lemma_sst_round_trip(bs: Seq<Seq<EntryModel>>, interval: nat, bsz: nat)
    requires
        sst_encodable(bs, interval, bsz),
    ensures
        spec_sst_dec(spec_sst_enc(bs, interval, bsz), bsz) == Ok::<Seq<EntryModel>, EikvError>(
            spec_blocks_entries(bs),
        ),
{
    let d = spec_blocks_enc(bs, interval);
    let offs = spec_block_offs(bs, interval, 0);
    let s = spec_sst_enc(bs, interval, bsz);
    lemma_sst_layout_recovery(bs, interval, bsz);
    assert(s.subrange(0, d.len() as int) =~= d) by {
        let per = (bsz / 8 - 1) as nat;
        let padlen: int = if d.len() as int % (bsz as int) == 0 {
            0
        } else {
            bsz - d.len() as int % (bsz as int)
        };
        let es = spec_blocks_entries(bs);
        let fm = FooterModel {
            min_entry: es[0],
            max_entry: es.last(),
            data_block_end: d.len() as u64,
            data_block_count: bs.len() as u32,
        };
        let fenc = spec_footer_enc(fm);
        let tail = fenc + spec_fixed_u32(fenc.len() as u32);
        assert(s =~= d + Seq::new(padlen as nat, |i: int| 0u8) + spec_index_blocks(offs, per)
            + tail + spec_fixed_u32(spec_crc32(tail)));
    }
    lemma_data_round_trip(bs, interval, s, 0, d.len() as int);
}

} // verus!
