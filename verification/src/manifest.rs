//! The manifest: the live file set of the store. It tracks the log files
//! and, per level, the sorted string tables with their metadata, and
//! hands out strictly increasing file numbers from one counter.
use vstd::prelude::*;

use crate::entry::{compare_entries, entry_le, Entry, EntryModel};
use crate::error::{EikvError, EikvResult};
use crate::paths::{spec_dec, spec_dec_pad, spec_digit, u64_to_dec_pad};

verus! {

/// The lowest level tables are flushed to.
pub const LEVEL_MIN: usize = 1;

/// The deepest level; major compactions never write past it.
pub const LEVEL_MAX: usize = 7;

/// A table's metadata as mathematics.
pub ghost struct SstMetaModel {
    pub file_size: u64,
    pub block_size: usize,
    pub data_block_count: u32,
    pub data_block_end: u64,
    pub index_block_start: u64,
    pub index_block_end: u64,
    pub min_entry: EntryModel,
    pub max_entry: EntryModel,
}

/// What is known of one table without reading its blocks: sizes, the
/// block layout, and its least and greatest entries.
pub struct SstMeta {
    pub file_size: u64,
    pub block_size: usize,
    pub data_block_count: u32,
    pub data_block_end: u64,
    pub index_block_start: u64,
    pub index_block_end: u64,
    pub min_entry: Entry,
    pub max_entry: Entry,
}

impl View for SstMeta {
    type V = SstMetaModel;

    open spec fn view(&self) -> SstMetaModel {
        SstMetaModel {
            file_size: self.file_size,
            block_size: self.block_size,
            data_block_count: self.data_block_count,
            data_block_end: self.data_block_end,
            index_block_start: self.index_block_start,
            index_block_end: self.index_block_end,
            min_entry: self.min_entry@,
            max_entry: self.max_entry@,
        }
    }
}

impl SstMeta {
    /// Lays out a table's index area from its footer fields: the index
    /// blocks start at the next block boundary after the data and hold
    /// `block_size/8 - 1` offsets each.
    pub fn new(
        min_entry: Entry,
        max_entry: Entry,
        data_block_end: u64,
        data_block_count: u32,
        block_size: usize,
        file_size: u64,
    ) -> (r: crate::error::EikvResult<SstMeta>)
        requires
            16 <= block_size,
            block_size % 8 == 0,
        ensures
            ({
                let bs = block_size as int;
                let per = bs / 8 - 1;
                let pad = if data_block_end % (bs as u64) == 0 {
                    0int
                } else {
                    bs - data_block_end % (bs as u64)
                };
                let ibc = (data_block_count + per - 1) / per;
                &&& (r is Ok <==> data_block_end + pad + ibc * bs <= u64::MAX)
                &&& match r {
                    Ok(m) => {
                        &&& m@.min_entry == min_entry@
                        &&& m@.max_entry == max_entry@
                        &&& m@.data_block_end == data_block_end
                        &&& m@.data_block_count == data_block_count
                        &&& m@.block_size == block_size
                        &&& m@.file_size == file_size
                        &&& m@.index_block_start == data_block_end + pad
                        &&& m@.index_block_end == data_block_end + pad + ibc * bs
                    },
                    Err(e) => e == crate::error::EikvError::SstCorruption,
                }
            }),
    {
        let bs64 = block_size as u64;
        let padding_size: u64 = if data_block_end % bs64 == 0 {
            0
        } else {
            bs64 - data_block_end % bs64
        };
        let index_block_start = match data_block_end.checked_add(padding_size) {
            Some(x) => x,
            None => { return Err(crate::error::EikvError::SstCorruption) },
        };
        let per = block_size as u64 / 8 - 1;
        let index_block_count = (data_block_count as u64 + per - 1) / per;
        let area = match index_block_count.checked_mul(bs64) {
            Some(x) => x,
            None => { return Err(crate::error::EikvError::SstCorruption) },
        };
        let index_block_end = match index_block_start.checked_add(area) {
            Some(x) => x,
            None => { return Err(crate::error::EikvError::SstCorruption) },
        };
        proof {
            assert(per == block_size as int / 8 - 1) by {
                assert(block_size as u64 / 8 == block_size as int / 8);
            }
            assert((data_block_count + per - 1) as u64 / per == (data_block_count + per - 1) as int
                / (per as int));
        }
        Ok(
            SstMeta {
                file_size,
                block_size,
                data_block_count,
                data_block_end,
                index_block_start,
                index_block_end,
                min_entry,
                max_entry,
            },
        )
    }
}

/// One live table of a level.
pub struct LevelFile {
    pub file_seq: u64,
    pub meta: SstMeta,
}

pub ghost struct LevelFileModel {
    pub file_seq: u64,
    pub meta: SstMetaModel,
}

impl View for LevelFile {
    type V = LevelFileModel;

    open spec fn view(&self) -> LevelFileModel {
        LevelFileModel { file_seq: self.file_seq, meta: self.meta@ }
    }
}

/// The files of a sequence of level entries.
pub open spec fn level_views(s: Seq<LevelFile>) -> Seq<LevelFileModel> {
    s.map_values(|f: LevelFile| f@)
}

/// No two files of a level share a number.
pub open spec fn keys_unique(s: Seq<LevelFileModel>) -> bool {
    forall|i: int, j: int|
        0 <= i < j < s.len() ==> (#[trigger] s[i]).file_seq != (#[trigger] s[j]).file_seq
}

pub open spec fn has_key(s: Seq<LevelFileModel>, k: u64) -> bool {
    exists|i: int| 0 <= i < s.len() && (#[trigger] s[i]).file_seq == k
}

/// The metadata under a file number, if the level holds it.
pub open spec fn spec_level_get(s: Seq<LevelFileModel>, k: u64) -> Option<SstMetaModel>
    decreases s.len(),
{
    if s.len() == 0 {
        None
    } else if s[0].file_seq == k {
        Some(s[0].meta)
    } else {
        spec_level_get(s.skip(1), k)
    }
}

/// The saturating sum of the file sizes.
pub open spec fn spec_level_size(s: Seq<LevelFileModel>) -> int
    decreases s.len(),
{
    if s.len() == 0 {
        0
    } else {
        s[0].meta.file_size + spec_level_size(s.skip(1))
    }
}

/// The least file number, or `u64::MAX` of an empty level.
pub open spec fn spec_min_key(s: Seq<LevelFileModel>) -> u64
    decreases s.len(),
{
    if s.len() == 0 {
        u64::MAX
    } else {
        let rest = spec_min_key(s.skip(1));
        if s[0].file_seq < rest {
            s[0].file_seq
        } else {
            rest
        }
    }
}

/// The first occurrence of a file number taken out.
pub open spec fn spec_level_remove(s: Seq<LevelFileModel>, k: u64) -> Seq<LevelFileModel>
    decreases s.len(),
{
    if s.len() == 0 {
        s
    } else if s[0].file_seq == k {
        s.skip(1)
    } else {
        seq![s[0]] + spec_level_remove(s.skip(1), k)
    }
}

/// Tracks the live log files and per-level tables, and hands out file
/// numbers from one strictly increasing counter.
pub struct Manifest {
    next_file_seq: u64,
    wals: Vec<u64>,
    levels: Vec<Vec<LevelFile>>,
}

impl Manifest {
    pub closed spec fn next_seq(&self) -> u64 {
        self.next_file_seq
    }

    pub closed spec fn wals_view(&self) -> Seq<u64> {
        self.wals@
    }

    /// The files of one level, `LEVEL_MIN` through `LEVEL_MAX`.
    pub closed spec fn level_view(&self, level: int) -> Seq<LevelFileModel> {
        level_views(self.levels@[level - 1]@)
    }

    pub open spec fn wf(&self) -> bool {
        &&& self.levels_count() == LEVEL_MAX
        &&& forall|i: int, j: int|
            0 <= i < j < self.wals_view().len() ==> self.wals_view()[i] < self.wals_view()[j]
        &&& forall|i: int|
            0 <= i < self.wals_view().len() ==> #[trigger] self.wals_view()[i] < self.next_seq()
        &&& forall|lv: int|
            LEVEL_MIN <= lv <= LEVEL_MAX ==> keys_unique(#[trigger] self.level_view(lv))
        &&& forall|lv: int, i: int|
            LEVEL_MIN <= lv <= LEVEL_MAX && 0 <= i < self.level_view(lv).len() ==> (
            #[trigger] self.level_view(lv)[i]).file_seq < self.next_seq()
    }

    pub closed spec fn levels_count(&self) -> int {
        self.levels@.len() as int
    }

    /// A fresh manifest: no files yet, numbering starts at one.
    pub fn new() -> (r: Manifest)
        ensures
            r.wf(),
            r.next_seq() == 1,
            r.wals_view() == Seq::<u64>::empty(),
            forall|lv: int| LEVEL_MIN <= lv <= LEVEL_MAX ==> (#[trigger] r.level_view(lv)).len() == 0,
    {
        let mut levels: Vec<Vec<LevelFile>> = Vec::new();
        let mut lv: usize = 0;
        while lv < LEVEL_MAX
            invariant
                lv == levels@.len(),
                lv <= LEVEL_MAX,
                forall|i: int| 0 <= i < lv ==> (#[trigger] levels@[i])@.len() == 0,
            decreases LEVEL_MAX - lv,
        {
            levels.push(Vec::new());
            lv = lv + 1;
        }
        let r = Manifest { next_file_seq: 1, wals: Vec::new(), levels };
        proof {
            assert forall|lv2: int| LEVEL_MIN <= lv2 <= LEVEL_MAX implies (#[trigger] r.level_view(
                lv2,
            )).len() == 0 by {
                assert(r.level_view(lv2) == level_views(levels@[lv2 - 1]@));
            }
        }
        r
    }

    pub fn get_level(&self, level: usize) -> (r: &Vec<LevelFile>)
        requires
            self.wf(),
            LEVEL_MIN <= level <= LEVEL_MAX,
        ensures
            level_views(r@) == self.level_view(level as int),
    {
        &self.levels[level - 1]
    }

    pub fn level_sst_count(&self, level: usize) -> (r: usize)
        requires
            self.wf(),
            LEVEL_MIN <= level <= LEVEL_MAX,
        ensures
            r == self.level_view(level as int).len(),
    {
        self.levels[level - 1].len()
    }

    /// The bytes the level holds, saturating at the top of `u64`.
    pub fn level_size(&self, level: usize) -> (r: u64)
        requires
            self.wf(),
            LEVEL_MIN <= level <= LEVEL_MAX,
        ensures
            r == if spec_level_size(self.level_view(level as int)) > u64::MAX {
                u64::MAX as int
            } else {
                spec_level_size(self.level_view(level as int))
            },
    {
        let files = &self.levels[level - 1];
        let ghost s = self.level_view(level as int);
        let n = files.len();
        let mut size: u64 = 0;
        let mut i: usize = 0;
        proof {
            assert(s.skip(0) =~= s);
        }
        while i < n
            invariant
                n == files@.len(),
                s == level_views(files@),
                i <= n,
                spec_level_size(s) == size + spec_level_size(s.skip(i as int)) || (size == u64::MAX
                    && spec_level_size(s) > u64::MAX),
                size <= u64::MAX,
            decreases n - i,
        {
            proof {
                assert(s[i as int] == files@[i as int]@);
                assert(s.skip(i as int)[0] == s[i as int]);
                assert(s.skip(i as int).skip(1) =~= s.skip(i + 1));
                lemma_level_size_nonneg(s.skip(i + 1));
            }
            size = size.saturating_add(files[i].meta.file_size);
            i = i + 1;
        }
        proof {
            assert(s.skip(n as int).len() == 0);
        }
        size
    }

    /// The least file number of the level, `u64::MAX` when it is empty.
    pub fn min_file_seq(&self, level: usize) -> (r: u64)
        requires
            self.wf(),
            LEVEL_MIN <= level <= LEVEL_MAX,
        ensures
            r == spec_min_key(self.level_view(level as int)),
    {
        let files = &self.levels[level - 1];
        let ghost s = self.level_view(level as int);
        let n = files.len();
        let mut min_seq: u64 = u64::MAX;
        let mut i: usize = 0;
        proof {
            assert(s.skip(0) =~= s);
            lemma_min_key_le_max(s);
        }
        while i < n
            invariant
                n == files@.len(),
                s == level_views(files@),
                i <= n,
                spec_min_key(s) == (if min_seq < spec_min_key(s.skip(i as int)) {
                    min_seq
                } else {
                    spec_min_key(s.skip(i as int))
                }),
            decreases n - i,
        {
            proof {
                assert(s[i as int] == files@[i as int]@);
                assert(s.skip(i as int)[0] == s[i as int]);
                assert(s.skip(i as int).skip(1) =~= s.skip(i + 1));
            }
            let seq = files[i].file_seq;
            if seq < min_seq {
                min_seq = seq;
            }
            i = i + 1;
        }
        proof {
            assert(s.skip(n as int).len() == 0);
        }
        min_seq
    }

    /// The metadata stored under a file number of a level.
    pub fn sst_meta(&self, level: usize, file_seq: u64) -> (r: Option<&SstMeta>)
        requires
            self.wf(),
            LEVEL_MIN <= level <= LEVEL_MAX,
        ensures
            match r {
                Some(m) => spec_level_get(self.level_view(level as int), file_seq) == Some(m@),
                None => spec_level_get(self.level_view(level as int), file_seq) is None,
            },
    {
        let files = &self.levels[level - 1];
        let ghost s = self.level_view(level as int);
        let n = files.len();
        let mut i: usize = 0;
        proof {
            assert(s.skip(0) =~= s);
        }
        while i < n
            invariant
                n == files@.len(),
                s == level_views(files@),
                s == self.level_view(level as int),
                i <= n,
                spec_level_get(s, file_seq) == spec_level_get(s.skip(i as int), file_seq),
            decreases n - i,
        {
            proof {
                assert(s[i as int] == files@[i as int]@);
                assert(s.skip(i as int)[0] == s[i as int]);
                assert(s.skip(i as int).skip(1) =~= s.skip(i + 1));
            }
            if files[i].file_seq == file_seq {
                proof {
                    assert(spec_level_get(s.skip(i as int), file_seq) == Some(s[i as int].meta));
                }
                return Some(&files[i].meta);
            }
            i = i + 1;
        }
        proof {
            assert(s.skip(n as int).len() == 0);
        }
        None
    }

    /// The least and greatest entries of one table of a level.
    pub fn min_and_max_entries(&self, level: usize, file_seq: u64) -> (r: Option<(&Entry, &Entry)>)
        requires
            self.wf(),
            LEVEL_MIN <= level <= LEVEL_MAX,
        ensures
            match r {
                Some((lo, hi)) => match spec_level_get(self.level_view(level as int), file_seq) {
                    Some(m) => lo@ == m.min_entry && hi@ == m.max_entry,
                    None => false,
                },
                None => spec_level_get(self.level_view(level as int), file_seq) is None,
            },
    {
        match self.sst_meta(level, file_seq) {
            Some(meta) => Some((&meta.min_entry, &meta.max_entry)),
            None => None,
        }
    }

    pub fn wals(&self) -> (r: &Vec<u64>)
        ensures
            r@ == self.wals_view(),
    {
        &self.wals
    }

    /// The number the next allocation will hand out.
    pub fn next_file_seq(&self) -> (r: u64)
        ensures
            r == self.next_seq(),
    {
        self.next_file_seq
    }

    /// Allocates the next file number to a fresh log file.
    pub fn alloc_wal(&mut self) -> (r: u64)
        requires
            old(self).wf(),
            old(self).next_seq() < u64::MAX,
        ensures
            final(self).wf(),
            r == old(self).next_seq(),
            final(self).next_seq() == old(self).next_seq() + 1,
            final(self).wals_view() == old(self).wals_view().push(r),
            forall|lv: int|
                LEVEL_MIN <= lv <= LEVEL_MAX ==> #[trigger] final(self).level_view(lv) == old(
                    self,
                ).level_view(lv),
    {
        let file_seq = self.next_file_seq;
        self.next_file_seq = self.next_file_seq + 1;
        self.wals.push(file_seq);
        proof {
            assert(self.levels == old(self).levels);
            assert forall|lv: int| LEVEL_MIN <= lv <= LEVEL_MAX implies #[trigger] self.level_view(
                lv,
            ) == old(self).level_view(lv) by {
                assert(self.levels@[lv - 1] == old(self).levels@[lv - 1]);
            }
            assert forall|i: int, j: int|
                0 <= i < j < self.wals_view().len() implies self.wals_view()[i]
                < self.wals_view()[j] by {
                if j == self.wals_view().len() - 1 {
                    assert(self.wals_view()[j] == file_seq);
                    assert(self.wals_view()[i] == old(self).wals_view()[i]);
                    assert(old(self).wals_view()[i] < old(self).next_seq());
                } else {
                    assert(self.wals_view()[i] == old(self).wals_view()[i]);
                    assert(self.wals_view()[j] == old(self).wals_view()[j]);
                    assert(old(self).wals_view()[i] < old(self).wals_view()[j]);
                }
            }
            assert forall|i: int|
                0 <= i < self.wals_view().len() implies #[trigger] self.wals_view()[i]
                < self.next_seq() by {
                if i < self.wals_view().len() - 1 {
                    assert(self.wals_view()[i] == old(self).wals_view()[i]);
                    assert(old(self).wals_view()[i] < old(self).next_seq());
                } else {
                    assert(self.wals_view()[i] == file_seq);
                }
            }
            lemma_manifest_levels_wf_bump(old(self), self);
        }
        file_seq
    }

    /// Allocates the next file number to a fresh table of a level; its
    /// metadata is recorded when the table is in place.
    pub fn alloc_sst(&mut self, level: usize) -> (r: u64)
        requires
            old(self).wf(),
            old(self).next_seq() < u64::MAX,
            LEVEL_MIN <= level <= LEVEL_MAX,
        ensures
            final(self).wf(),
            r == old(self).next_seq(),
            final(self).next_seq() == old(self).next_seq() + 1,
            final(self).wals_view() == old(self).wals_view(),
            forall|lv: int|
                LEVEL_MIN <= lv <= LEVEL_MAX ==> #[trigger] final(self).level_view(lv) == old(
                    self,
                ).level_view(lv),
    {
        let file_seq = self.next_file_seq;
        self.next_file_seq = self.next_file_seq + 1;
        proof {
            assert(self.levels == old(self).levels);
            assert forall|lv: int| LEVEL_MIN <= lv <= LEVEL_MAX implies #[trigger] self.level_view(
                lv,
            ) == old(self).level_view(lv) by {
                assert(self.levels@[lv - 1] == old(self).levels@[lv - 1]);
            }
            assert forall|i: int|
                0 <= i < self.wals_view().len() implies #[trigger] self.wals_view()[i]
                < self.next_seq() by {
                assert(old(self).wals_view()[i] < old(self).next_seq());
            }
            lemma_manifest_levels_wf_bump(old(self), self);
        }
        file_seq
    }

    /// Takes the oldest log file out of the live set and names it.
    pub fn remove_wal(&mut self) -> (r: u64)
        requires
            old(self).wf(),
            old(self).wals_view().len() > 0,
        ensures
            final(self).wf(),
            r == old(self).wals_view()[0],
            final(self).wals_view() == old(self).wals_view().skip(1),
            final(self).next_seq() == old(self).next_seq(),
            forall|lv: int|
                LEVEL_MIN <= lv <= LEVEL_MAX ==> #[trigger] final(self).level_view(lv) == old(
                    self,
                ).level_view(lv),
    {
        let r = self.wals.remove(0);
        proof {
            assert(self.levels == old(self).levels);
            assert forall|lv: int| LEVEL_MIN <= lv <= LEVEL_MAX implies #[trigger] self.level_view(
                lv,
            ) == old(self).level_view(lv) by {
                assert(self.levels@[lv - 1] == old(self).levels@[lv - 1]);
            }
            assert(self.wals@ =~= old(self).wals@.skip(1));
            assert forall|i: int, j: int|
                0 <= i < j < self.wals_view().len() implies self.wals_view()[i]
                < self.wals_view()[j] by {
                assert(self.wals_view()[i] == old(self).wals_view()[i + 1]);
                assert(self.wals_view()[j] == old(self).wals_view()[j + 1]);
                assert(old(self).wals_view()[i + 1] < old(self).wals_view()[j + 1]);
            }
            assert forall|i: int|
                0 <= i < self.wals_view().len() implies #[trigger] self.wals_view()[i]
                < self.next_seq() by {
                assert(self.wals_view()[i] == old(self).wals_view()[i + 1]);
                assert(old(self).wals_view()[i + 1] < old(self).next_seq());
            }
            lemma_manifest_levels_wf_bump(old(self), self);
        }
        r
    }

    /// Takes one table out of a level's live set.
    pub fn remove_sst(&mut self, level: usize, file_seq: u64)
        requires
            old(self).wf(),
            LEVEL_MIN <= level <= LEVEL_MAX,
        ensures
            final(self).wf(),
            final(self).level_view(level as int) == spec_level_remove(
                old(self).level_view(level as int),
                file_seq,
            ),
            final(self).next_seq() == old(self).next_seq(),
            final(self).wals_view() == old(self).wals_view(),
            forall|lv: int|
                LEVEL_MIN <= lv <= LEVEL_MAX && lv != level ==> #[trigger] final(self).level_view(
                    lv,
                ) == old(self).level_view(lv),
    {
        let ghost s = self.level_view(level as int);
        let found = self.level_find(level, file_seq);
        match found {
            Some(i) => {
                let lvl = &mut self.levels[level - 1];
                lvl.remove(i);
                proof {
                    lemma_level_remove_at(s, file_seq, i as int);
                    assert(level_views(self.levels@[level - 1]@) =~= s.subrange(0, i as int)
                        + s.skip(i + 1));
                    assert forall|lv: int|
                        LEVEL_MIN <= lv <= LEVEL_MAX && lv != level implies #[trigger] self.level_view(
                        lv,
                    ) == old(self).level_view(lv) by {
                        assert(self.levels@[lv - 1] == old(self).levels@[lv - 1]);
                    }
                }
            },
            None => {
                proof {
                    lemma_level_remove_absent(s, file_seq);
                    assert forall|lv: int|
                        LEVEL_MIN <= lv <= LEVEL_MAX && lv != level implies #[trigger] self.level_view(
                        lv,
                    ) == old(self).level_view(lv) by {
                        assert(self.levels@[lv - 1] == old(self).levels@[lv - 1]);
                    }
                }
            },
        }
        proof {
            assert(self.wals == old(self).wals);
            assert forall|i: int, j: int|
                0 <= i < j < self.wals_view().len() implies self.wals_view()[i]
                < self.wals_view()[j] by {
                assert(old(self).wals_view()[i] < old(self).wals_view()[j]);
            }
            assert forall|i: int|
                0 <= i < self.wals_view().len() implies #[trigger] self.wals_view()[i]
                < self.next_seq() by {
                assert(old(self).wals_view()[i] < old(self).next_seq());
            }
            lemma_level_remove_members(s, file_seq);
            assert forall|lv: int| LEVEL_MIN <= lv <= LEVEL_MAX implies keys_unique(
                #[trigger] self.level_view(lv),
            ) by {
                assert(keys_unique(old(self).level_view(lv)));
                if lv == level {
                    assert(self.level_view(lv) == spec_level_remove(s, file_seq));
                }
            }
            assert forall|lv: int, i: int|
                LEVEL_MIN <= lv <= LEVEL_MAX && 0 <= i < self.level_view(lv).len() implies (
            #[trigger] self.level_view(lv)[i]).file_seq < self.next_seq() by {
                if lv == level {
                    assert(s.contains(self.level_view(lv)[i]));
                    let m = choose|m: int| 0 <= m < s.len() && s[m] == self.level_view(lv)[i];
                    assert(old(self).level_view(lv)[m].file_seq < old(self).next_seq());
                } else {
                    assert(old(self).level_view(lv)[i].file_seq < old(self).next_seq());
                }
            }
        }
    }

    /// The position of a file number within a level.
    fn level_find(&self, level: usize, file_seq: u64) -> (r: Option<usize>)
        requires
            self.wf(),
            LEVEL_MIN <= level <= LEVEL_MAX,
        ensures
            match r {
                Some(i) => i < self.level_view(level as int).len() && self.level_view(
                    level as int,
                )[i as int].file_seq == file_seq && (forall|j: int|
                    0 <= j < i ==> (#[trigger] self.level_view(level as int)[j]).file_seq
                        != file_seq),
                None => forall|j: int|
                    0 <= j < self.level_view(level as int).len() ==> (#[trigger] self.level_view(
                        level as int,
                    )[j]).file_seq != file_seq,
            },
    {
        let files = &self.levels[level - 1];
        let ghost s = self.level_view(level as int);
        let n = files.len();
        let mut i: usize = 0;
        while i < n
            invariant
                n == files@.len(),
                s == level_views(files@),
                s == self.level_view(level as int),
                i <= n,
                forall|j: int| 0 <= j < i ==> (#[trigger] s[j]).file_seq != file_seq,
            decreases n - i,
        {
            proof {
                assert(s[i as int] == files@[i as int]@);
            }
            if files[i].file_seq == file_seq {
                return Some(i);
            }
            i = i + 1;
        }
        None
    }

    /// Records the metadata of a table now in place under its number.
    pub fn set_sst_meta(&mut self, level: usize, file_seq: u64, sst_meta: SstMeta)
        requires
            old(self).wf(),
            LEVEL_MIN <= level <= LEVEL_MAX,
            file_seq < old(self).next_seq(),
        ensures
            final(self).wf(),
            final(self).level_view(level as int) == spec_level_remove(
                old(self).level_view(level as int),
                file_seq,
            ).push(LevelFileModel { file_seq, meta: sst_meta@ }),
            final(self).next_seq() == old(self).next_seq(),
            final(self).wals_view() == old(self).wals_view(),
            forall|lv: int|
                LEVEL_MIN <= lv <= LEVEL_MAX && lv != level ==> #[trigger] final(self).level_view(
                    lv,
                ) == old(self).level_view(lv),
    {
        self.remove_sst(level, file_seq);
        let ghost mid = self.level_view(level as int);
        let ghost mids: Seq<Vec<LevelFile>> = self.levels@;
        proof {
            lemma_level_remove_members(old(self).level_view(level as int), file_seq);
            assert forall|lv: int|
                LEVEL_MIN <= lv <= LEVEL_MAX && lv != level implies level_views(mids[lv - 1]@)
                == old(self).level_view(lv) by {
                assert(self.level_view(lv) == old(self).level_view(lv));
            }
            assert forall|lv: int, i: int|
                LEVEL_MIN <= lv <= LEVEL_MAX && 0 <= i < level_views(mids[lv - 1]@).len() implies (
            #[trigger] level_views(mids[lv - 1]@)[i]).file_seq < self.next_seq() by {
                assert(self.level_view(lv)[i].file_seq < self.next_seq());
            }
            assert forall|lv: int| LEVEL_MIN <= lv <= LEVEL_MAX implies keys_unique(
                #[trigger] level_views(mids[lv - 1]@),
            ) by {
                assert(keys_unique(self.level_view(lv)));
            }
            assert(forall|j: int|
                0 <= j < mid.len() ==> (#[trigger] mid[j]).file_seq != file_seq);
        }
        let lvl = &mut self.levels[level - 1];
        lvl.push(LevelFile { file_seq, meta: sst_meta });
        proof {
            assert(level_views(self.levels@[level - 1]@) =~= mid.push(
                LevelFileModel { file_seq, meta: sst_meta@ },
            ));
            assert forall|lv: int|
                LEVEL_MIN <= lv <= LEVEL_MAX && lv != level implies #[trigger] self.level_view(
                lv,
            ) == old(self).level_view(lv) by {
                assert(self.levels@[lv - 1] == mids[lv - 1]);
            }
            assert forall|lv: int| LEVEL_MIN <= lv <= LEVEL_MAX implies keys_unique(
                #[trigger] self.level_view(lv),
            ) by {
                assert(keys_unique(level_views(mids[lv - 1]@)));
                if lv == level {
                    assert forall|p: int, q: int|
                        0 <= p < q < self.level_view(lv).len() implies (#[trigger] self.level_view(
                            lv,
                        )[p]).file_seq != (#[trigger] self.level_view(lv)[q]).file_seq by {
                        if q == self.level_view(lv).len() - 1 {
                            assert(self.level_view(lv)[p] == mid[p]);
                        } else {
                            assert(self.level_view(lv)[p] == mid[p]);
                            assert(self.level_view(lv)[q] == mid[q]);
                        }
                    }
                }
            }
            assert forall|lv: int, i: int|
                LEVEL_MIN <= lv <= LEVEL_MAX && 0 <= i < self.level_view(lv).len() implies (
            #[trigger] self.level_view(lv)[i]).file_seq < self.next_seq() by {
                if lv == level && i == self.level_view(lv).len() - 1 {
                } else {
                    assert(self.level_view(lv)[i] == level_views(mids[lv - 1]@)[i]);
                }
            }
        }
    }
}

/// When the levels are untouched and the counter does not go down, the
/// level clauses of well-formedness carry over.
pub proof fn lemma_manifest_levels_wf_bump(m1: &Manifest, m2: &Manifest)
    requires
        m1.wf(),
        m1.levels_count() == m2.levels_count(),
        forall|lv: int|
            LEVEL_MIN <= lv <= LEVEL_MAX ==> #[trigger] m2.level_view(lv) == m1.level_view(lv),
        m1.next_seq() <= m2.next_seq(),
    ensures
        forall|lv: int| LEVEL_MIN <= lv <= LEVEL_MAX ==> keys_unique(#[trigger] m2.level_view(lv)),
        forall|lv: int, i: int|
            LEVEL_MIN <= lv <= LEVEL_MAX && 0 <= i < m2.level_view(lv).len() ==> (
            #[trigger] m2.level_view(lv)[i]).file_seq < m2.next_seq(),
{
    assert forall|lv: int| LEVEL_MIN <= lv <= LEVEL_MAX implies keys_unique(
        #[trigger] m2.level_view(lv),
    ) by {
        assert(keys_unique(m1.level_view(lv)));
    }
    assert forall|lv: int, i: int|
        LEVEL_MIN <= lv <= LEVEL_MAX && 0 <= i < m2.level_view(lv).len() implies (
    #[trigger] m2.level_view(lv)[i]).file_seq < m2.next_seq() by {
        assert(m1.level_view(lv)[i].file_seq < m1.next_seq());
    }
}

pub proof fn lemma_level_size_nonneg(s: Seq<LevelFileModel>)
    ensures
        spec_level_size(s) >= 0,
    decreases s.len(),
{
    if s.len() > 0 {
        lemma_level_size_nonneg(s.skip(1));
    }
}

pub proof fn lemma_min_key_le_max(s: Seq<LevelFileModel>)
    ensures
        spec_min_key(s) <= u64::MAX,
    decreases s.len(),
{
    if s.len() > 0 {
        lemma_min_key_le_max(s.skip(1));
    }
}

/// Removing a number that no entry carries changes nothing.
pub proof fn lemma_level_remove_absent(s: Seq<LevelFileModel>, k: u64)
    requires
        forall|j: int| 0 <= j < s.len() ==> (#[trigger] s[j]).file_seq != k,
    ensures
        spec_level_remove(s, k) == s,
    decreases s.len(),
{
    if s.len() > 0 {
        assert(forall|j: int| 0 <= j < s.skip(1).len() ==> s.skip(1)[j] == s[j + 1]);
        lemma_level_remove_absent(s.skip(1), k);
        assert(spec_level_remove(s, k) =~= s);
    }
}

/// Removal takes out exactly the entry at the first match.
pub proof fn lemma_level_remove_at(s: Seq<LevelFileModel>, k: u64, i: int)
    requires
        0 <= i < s.len(),
        s[i].file_seq == k,
        forall|j: int| 0 <= j < i ==> (#[trigger] s[j]).file_seq != k,
    ensures
        spec_level_remove(s, k) == s.subrange(0, i) + s.skip(i + 1),
    decreases i,
{
    if i == 0 {
        assert(spec_level_remove(s, k) =~= s.subrange(0, 0) + s.skip(1));
    } else {
        assert(forall|j: int| 0 <= j < i - 1 ==> s.skip(1)[j] == s[j + 1]);
        assert(s.skip(1)[i - 1] == s[i]);
        lemma_level_remove_at(s.skip(1), k, i - 1);
        assert(seq![s[0]] + (s.skip(1).subrange(0, i - 1) + s.skip(1).skip(i)) =~= s.subrange(0, i)
            + s.skip(i + 1));
        assert(s.skip(1).skip(i) =~= s.skip(i + 1));
    }
}

/// What remains after a removal was there before, under its own number.
pub proof fn lemma_level_remove_members(s: Seq<LevelFileModel>, k: u64)
    ensures
        forall|j: int|
            0 <= j < spec_level_remove(s, k).len() ==> s.contains(
                #[trigger] spec_level_remove(s, k)[j],
            ),
        keys_unique(s) ==> keys_unique(spec_level_remove(s, k)),
        keys_unique(s) ==> forall|j: int|
            0 <= j < spec_level_remove(s, k).len() ==> (#[trigger] spec_level_remove(s, k)[j]).file_seq
                != k,
    decreases s.len(),
{
    let r = spec_level_remove(s, k);
    if s.len() == 0 {
    } else if s[0].file_seq == k {
        assert forall|j: int| 0 <= j < r.len() implies s.contains(#[trigger] r[j]) by {
            assert(r[j] == s[j + 1]);
        }
        if keys_unique(s) {
            assert forall|j: int| 0 <= j < r.len() implies (#[trigger] r[j]).file_seq != k by {
                assert(r[j] == s[j + 1]);
                assert(s[0].file_seq != s[j + 1].file_seq);
            }
        }
    } else {
        assert(forall|j: int| 0 <= j < s.skip(1).len() ==> s.skip(1)[j] == s[j + 1]);
        lemma_level_remove_members(s.skip(1), k);
        assert(keys_unique(s) ==> keys_unique(s.skip(1)));
        let r1 = spec_level_remove(s.skip(1), k);
        assert forall|j: int| 0 <= j < r.len() implies s.contains(#[trigger] r[j]) by {
            if j == 0 {
                assert(s.contains(s[0]));
            } else {
                assert(r[j] == r1[j - 1]);
                assert(s.skip(1).contains(r1[j - 1]));
                let m = choose|m: int| 0 <= m < s.skip(1).len() && s.skip(1)[m] == r1[j - 1];
                assert(s[m + 1] == r1[j - 1]);
            }
        }
        if keys_unique(s) {
            assert forall|p: int, q: int| 0 <= p < q < r.len() implies (#[trigger] r[p]).file_seq
                != (#[trigger] r[q]).file_seq by {
                if p == 0 {
                    assert(r[q] == r1[q - 1]);
                    assert(s.skip(1).contains(r1[q - 1]));
                    let m = choose|m: int| 0 <= m < s.skip(1).len() && s.skip(1)[m] == r1[q - 1];
                    assert(s[m + 1] == r1[q - 1]);
                    assert(s[0].file_seq != s[m + 1].file_seq);
                } else {
                    assert(r[p] == r1[p - 1] && r[q] == r1[q - 1]);
                }
            }
        }
    }
}

/// How many of the flags are set.
pub open spec fn count_true(s: Seq<bool>) -> int
    decreases s.len(),
{
    if s.len() == 0 {
        0
    } else {
        (if s[0] {
            1int
        } else {
            0
        }) + count_true(s.skip(1))
    }
}

pub proof fn lemma_count_true_bounds(s: Seq<bool>)
    ensures
        0 <= count_true(s) <= s.len(),
    decreases s.len(),
{
    if s.len() > 0 {
        lemma_count_true_bounds(s.skip(1));
    }
}

pub proof fn lemma_count_true_update(s: Seq<bool>, i: int)
    requires
        0 <= i < s.len(),
        !s[i],
    ensures
        count_true(s.update(i, true)) == count_true(s) + 1,
    decreases s.len(),
{
    if i == 0 {
        assert(s.update(0, true)[0]);
        assert(s.update(0, true).skip(1) =~= s.skip(1));
    } else {
        assert(s.update(i, true)[0] == s[0]);
        assert(s.update(i, true).skip(1) =~= s.skip(1).update(i - 1, true));
        assert(s.skip(1)[i - 1] == s[i]);
        lemma_count_true_update(s.skip(1), i - 1);
    }
}

pub proof fn lemma_count_true_zeros(n: nat)
    ensures
        count_true(Seq::new(n, |i: int| false)) == 0,
    decreases n,
{
    if n > 0 {
        assert(Seq::new(n, |i: int| false).skip(1) =~= Seq::new((n - 1) as nat, |i: int| false));
        lemma_count_true_zeros((n - 1) as nat);
    }
}

pub proof fn lemma_entry_le_trans(a: EntryModel, b: EntryModel, c: EntryModel)
    requires
        entry_le(a, b),
        entry_le(b, c),
    ensures
        entry_le(a, c),
{
    if crate::entry::entry_lt(a, b) && crate::entry::entry_lt(b, c) {
        crate::mem_table::lemma_entry_lt_trans(a, b, c);
    }
}

/// The file numbers of the flagged tables among the first `i`.
pub open spec fn spec_selected_keys(s: Seq<LevelFileModel>, sel: Seq<bool>, i: int) -> Seq<u64>
    decreases i,
{
    if i <= 0 {
        Seq::empty()
    } else {
        spec_selected_keys(s, sel, i - 1) + (if sel[i - 1] {
            seq![s[i - 1].file_seq]
        } else {
            Seq::empty()
        })
    }
}

/// The selected numbers name exactly the flagged tables, once each.
pub proof fn lemma_selected_keys_props(s: Seq<LevelFileModel>, sel: Seq<bool>, i: int)
    requires
        keys_unique(s),
        sel.len() == s.len(),
        0 <= i <= s.len(),
    ensures
        forall|k: u64|
            #[trigger] spec_selected_keys(s, sel, i).contains(k) ==> exists|j: int|
                0 <= j < i && sel[j] && (#[trigger] s[j]).file_seq == k,
        forall|j: int|
            0 <= j < i ==> (sel[j] <==> spec_selected_keys(s, sel, i).contains(
                (#[trigger] s[j]).file_seq,
            )),
        forall|p: int, q: int|
            0 <= p < q < spec_selected_keys(s, sel, i).len() ==> spec_selected_keys(s, sel, i)[p]
                != spec_selected_keys(s, sel, i)[q],
    decreases i,
{
    if i > 0 {
        lemma_selected_keys_props(s, sel, i - 1);
        let r0 = spec_selected_keys(s, sel, i - 1);
        let r = spec_selected_keys(s, sel, i);
        assert forall|k: u64| #[trigger] r.contains(k) implies exists|j: int|
            0 <= j < i && sel[j] && (#[trigger] s[j]).file_seq == k by {
            let p = choose|p: int| 0 <= p < r.len() && r[p] == k;
            if p < r0.len() {
                assert(r[p] == r0[p]);
                assert(r0.contains(k));
                let j = choose|j: int| 0 <= j < i - 1 && sel[j] && (#[trigger] s[j]).file_seq == k;
                assert(0 <= j < i && sel[j] && s[j].file_seq == k);
            } else {
                assert(sel[i - 1]);
                assert(r[p] == s[i - 1].file_seq);
                assert(0 <= i - 1 < i && sel[i - 1] && s[i - 1].file_seq == k);
            }
        }
        assert forall|j: int| 0 <= j < i implies (sel[j] <==> r.contains(
            (#[trigger] s[j]).file_seq,
        )) by {
            if j < i - 1 {
                if sel[j] {
                    let p = choose|p: int| 0 <= p < r0.len() && r0[p] == s[j].file_seq;
                    assert(r[p] == s[j].file_seq);
                    assert(r.contains(s[j].file_seq));
                }
                if r.contains(s[j].file_seq) {
                    let p = choose|p: int| 0 <= p < r.len() && r[p] == s[j].file_seq;
                    if p < r0.len() {
                        assert(r0.contains(s[j].file_seq));
                    } else {
                        assert(sel[i - 1] && s[i - 1].file_seq == s[j].file_seq);
                        assert(false);
                    }
                }
            } else {
                if sel[j] {
                    assert(r[r.len() - 1] == s[i - 1].file_seq);
                    assert(r.contains(s[j].file_seq));
                }
                if !sel[j] && r.contains(s[j].file_seq) {
                    let p = choose|p: int| 0 <= p < r.len() && r[p] == s[j].file_seq;
                    assert(r[p] == r0[p]);
                    assert(r0.contains(r0[p]));
                    let m = choose|m: int|
                        0 <= m < i - 1 && sel[m] && (#[trigger] s[m]).file_seq == r0[p];
                    assert(false);
                }
            }
        }
        assert forall|p: int, q: int| 0 <= p < q < r.len() implies r[p] != r[q] by {
            if q < r0.len() {
                assert(r[p] == r0[p] && r[q] == r0[q]);
            } else {
                assert(r[q] == s[i - 1].file_seq);
                assert(r[p] == r0[p]);
                assert(r0.contains(r0[p]));
                let m = choose|m: int|
                    0 <= m < i - 1 && sel[m] && (#[trigger] s[m]).file_seq == r0[p];
                assert(s[m].file_seq != s[i - 1].file_seq);
            }
        }
    }
}

/// Some table of the level named by the candidate set reaches up to or
/// past `m`'s least entry.
pub open spec fn some_covers_min(
    s: Seq<LevelFileModel>,
    c: Seq<u64>,
    m: SstMetaModel,
) -> bool {
    exists|a: int|
        0 <= a < s.len() && c.contains((#[trigger] s[a]).file_seq) && entry_le(
            m.min_entry,
            s[a].meta.max_entry,
        )
}

/// Some table of the level named by the candidate set starts at or below
/// `m`'s greatest entry.
pub open spec fn some_covers_max(
    s: Seq<LevelFileModel>,
    c: Seq<u64>,
    m: SstMetaModel,
) -> bool {
    exists|b: int|
        0 <= b < s.len() && c.contains((#[trigger] s[b]).file_seq) && entry_le(
            s[b].meta.min_entry,
            m.max_entry,
        )
}

/// `m` crosses the hull `[lo, hi]` of the candidate tables, where `lo`
/// is the least of their least entries and `hi` the greatest of their
/// greatest: its range reaches into the interval the candidates span.
pub open spec fn hull_crosses(
    s0: Seq<LevelFileModel>,
    s1: Seq<LevelFileModel>,
    c0: Seq<u64>,
    c1: Seq<u64>,
    m: SstMetaModel,
) -> bool {
    &&& (some_covers_min(s0, c0, m) || some_covers_min(s1, c1, m))
    &&& (some_covers_max(s0, c0, m) || some_covers_max(s1, c1, m))
}

/// A candidate pair that holds the seed and every table of either level
/// that crosses its hull: exactly the sets the overlap closure may not
/// leave.
pub open spec fn closure_closed(
    s0: Seq<LevelFileModel>,
    s1: Seq<LevelFileModel>,
    c0: Seq<u64>,
    c1: Seq<u64>,
    seed: u64,
) -> bool {
    &&& c0.contains(seed)
    &&& forall|i: int|
        0 <= i < s0.len() && hull_crosses(s0, s1, c0, c1, (#[trigger] s0[i]).meta)
            ==> c0.contains(s0[i].file_seq)
    &&& forall|i: int|
        0 <= i < s1.len() && hull_crosses(s0, s1, c0, c1, (#[trigger] s1[i]).meta)
            ==> c1.contains(s1[i].file_seq)
}

/// The value is the least entry of some flagged table of the level.
pub open spec fn attained_min(s: Seq<LevelFileModel>, sel: Seq<bool>, v: EntryModel) -> bool {
    exists|a: int| 0 <= a < s.len() && sel[a] && v == (#[trigger] s[a]).meta.min_entry
}

/// The value is the greatest entry of some flagged table of the level.
pub open spec fn attained_max(s: Seq<LevelFileModel>, sel: Seq<bool>, v: EntryModel) -> bool {
    exists|a: int| 0 <= a < s.len() && sel[a] && v == (#[trigger] s[a]).meta.max_entry
}

/// A table crossing the attained hull of a selection that a closed
/// candidate pair already contains crosses that pair's hull too.
pub proof fn lemma_crossing_joins_closure(
    s0: Seq<LevelFileModel>,
    s1: Seq<LevelFileModel>,
    c0: Seq<u64>,
    c1: Seq<u64>,
    seed: u64,
    sel0: Seq<bool>,
    sel1: Seq<bool>,
    lo: EntryModel,
    hi: EntryModel,
    m: SstMetaModel,
)
    requires
        closure_closed(s0, s1, c0, c1, seed),
        sel0.len() == s0.len(),
        sel1.len() == s1.len(),
        forall|j: int| 0 <= j < s0.len() && sel0[j] ==> c0.contains((#[trigger] s0[j]).file_seq),
        forall|j: int| 0 <= j < s1.len() && sel1[j] ==> c1.contains((#[trigger] s1[j]).file_seq),
        attained_min(s0, sel0, lo) || attained_min(s1, sel1, lo),
        attained_max(s0, sel0, hi) || attained_max(s1, sel1, hi),
        entry_le(m.min_entry, hi),
        entry_le(lo, m.max_entry),
    ensures
        hull_crosses(s0, s1, c0, c1, m),
{
    if attained_max(s0, sel0, hi) {
        let w = choose|w: int|
            0 <= w < s0.len() && sel0[w] && hi == (#[trigger] s0[w]).meta.max_entry;
        assert(c0.contains(s0[w].file_seq) && entry_le(m.min_entry, s0[w].meta.max_entry));
        assert(some_covers_min(s0, c0, m));
    } else {
        let w = choose|w: int|
            0 <= w < s1.len() && sel1[w] && hi == (#[trigger] s1[w]).meta.max_entry;
        assert(c1.contains(s1[w].file_seq) && entry_le(m.min_entry, s1[w].meta.max_entry));
        assert(some_covers_min(s1, c1, m));
    }
    if attained_min(s0, sel0, lo) {
        let w = choose|w: int|
            0 <= w < s0.len() && sel0[w] && lo == (#[trigger] s0[w]).meta.min_entry;
        assert(c0.contains(s0[w].file_seq) && entry_le(s0[w].meta.min_entry, m.max_entry));
        assert(some_covers_max(s0, c0, m));
    } else {
        let w = choose|w: int|
            0 <= w < s1.len() && sel1[w] && lo == (#[trigger] s1[w]).meta.min_entry;
        assert(c1.contains(s1[w].file_seq) && entry_le(s1[w].meta.min_entry, m.max_entry));
        assert(some_covers_max(s1, c1, m));
    }
}

/// A table crossing the hull of the returned numbers crosses the loop's
/// final range, whose flags the numbers mirror.
pub proof fn lemma_result_crossing_is_selected(
    s0: Seq<LevelFileModel>,
    s1: Seq<LevelFileModel>,
    r0: Seq<u64>,
    r1: Seq<u64>,
    sel0: Seq<bool>,
    sel1: Seq<bool>,
    lo: EntryModel,
    hi: EntryModel,
    m: SstMetaModel,
)
    requires
        sel0.len() == s0.len(),
        sel1.len() == s1.len(),
        keys_unique(s0),
        keys_unique(s1),
        forall|j: int| 0 <= j < s0.len() ==> (sel0[j] <==> r0.contains((#[trigger] s0[j]).file_seq)),
        forall|j: int| 0 <= j < s1.len() ==> (sel1[j] <==> r1.contains((#[trigger] s1[j]).file_seq)),
        sel_within(s0, sel0, lo, hi),
        sel_within(s1, sel1, lo, hi),
        hull_crosses(s0, s1, r0, r1, m),
    ensures
        entry_le(m.min_entry, hi),
        entry_le(lo, m.max_entry),
{
    if some_covers_min(s0, r0, m) {
        let a = choose|a: int|
            0 <= a < s0.len() && r0.contains((#[trigger] s0[a]).file_seq) && entry_le(
                m.min_entry,
                s0[a].meta.max_entry,
            );
        assert(sel0[a]);
        lemma_entry_le_trans(m.min_entry, s0[a].meta.max_entry, hi);
    } else {
        let a = choose|a: int|
            0 <= a < s1.len() && r1.contains((#[trigger] s1[a]).file_seq) && entry_le(
                m.min_entry,
                s1[a].meta.max_entry,
            );
        assert(sel1[a]);
        lemma_entry_le_trans(m.min_entry, s1[a].meta.max_entry, hi);
    }
    if some_covers_max(s0, r0, m) {
        let b = choose|b: int|
            0 <= b < s0.len() && r0.contains((#[trigger] s0[b]).file_seq) && entry_le(
                s0[b].meta.min_entry,
                m.max_entry,
            );
        assert(sel0[b]);
        lemma_entry_le_trans(lo, s0[b].meta.min_entry, m.max_entry);
    } else {
        let b = choose|b: int|
            0 <= b < s1.len() && r1.contains((#[trigger] s1[b]).file_seq) && entry_le(
                s1[b].meta.min_entry,
                m.max_entry,
            );
        assert(sel1[b]);
        lemma_entry_le_trans(lo, s1[b].meta.min_entry, m.max_entry);
    }
}

/// The flagged tables of one level all lie within `[lo, hi]`.
pub open spec fn sel_within(
    s: Seq<LevelFileModel>,
    sel: Seq<bool>,
    lo: EntryModel,
    hi: EntryModel,
) -> bool {
    forall|i: int|
        0 <= i < s.len() && sel[i] ==> entry_le(lo, (#[trigger] s[i]).meta.min_entry) && entry_le(
            s[i].meta.max_entry,
            hi,
        )
}

/// Every table of the level crossing `[lo, hi]` is flagged.
pub open spec fn sel_closed(
    s: Seq<LevelFileModel>,
    sel: Seq<bool>,
    lo: EntryModel,
    hi: EntryModel,
) -> bool {
    forall|i: int|
        0 <= i < s.len() && entry_le((#[trigger] s[i]).meta.min_entry, hi) && entry_le(
            lo,
            s[i].meta.max_entry,
        ) ==> sel[i]
}

impl Manifest {
    /// Widens `[lo, hi]` over the flagged tables of one level, so that
    /// every table already within the pair stays within it.
    fn widen_range(
        &self,
        level: usize,
        sel: &Vec<bool>,
        lo: &mut Entry,
        hi: &mut Entry,
    )
        requires
            self.wf(),
            LEVEL_MIN <= level <= LEVEL_MAX,
            sel@.len() == self.level_view(level as int).len(),
        ensures
            entry_le(final(lo)@, old(lo)@),
            entry_le(old(hi)@, final(hi)@),
            sel_within(self.level_view(level as int), sel@, final(lo)@, final(hi)@),
            final(lo)@ == old(lo)@ || (exists|i: int|
                0 <= i < sel@.len() && sel@[i] && final(lo)@ == (#[trigger] self.level_view(
                    level as int,
                )[i]).meta.min_entry),
            final(hi)@ == old(hi)@ || (exists|i: int|
                0 <= i < sel@.len() && sel@[i] && final(hi)@ == (#[trigger] self.level_view(
                    level as int,
                )[i]).meta.max_entry),
    {
        let ghost s = self.level_view(level as int);
        let files = self.get_level(level);
        let n = files.len();
        let mut i: usize = 0;
        proof {
            assert(entry_le(lo@, lo@));
            assert(entry_le(hi@, hi@));
        }
        while i < n
            invariant
                n == files@.len(),
                s == level_views(files@),
                sel@.len() == n,
                i <= n,
                entry_le(lo@, old(lo)@),
                entry_le(old(hi)@, hi@),
                forall|j: int|
                    0 <= j < i && sel@[j] ==> entry_le(lo@, (#[trigger] s[j]).meta.min_entry)
                        && entry_le(s[j].meta.max_entry, hi@),
                lo@ == old(lo)@ || (exists|j: int|
                    0 <= j < sel@.len() && sel@[j] && lo@ == (#[trigger] s[j]).meta.min_entry),
                hi@ == old(hi)@ || (exists|j: int|
                    0 <= j < sel@.len() && sel@[j] && hi@ == (#[trigger] s[j]).meta.max_entry),
            decreases n - i,
        {
            let ghost lo_before = lo@;
            let ghost hi_before = hi@;
            proof {
                assert(s[i as int] == files@[i as int]@);
            }
            if sel[i] {
                let f = &files[i];
                if matches!(compare_entries(&f.meta.min_entry, lo), core::cmp::Ordering::Less) {
                    *lo = f.meta.min_entry.dup();
                    proof {
                        assert(sel@[i as int] && lo@ == s[i as int].meta.min_entry);
                    }
                }
                if matches!(compare_entries(&f.meta.max_entry, hi), core::cmp::Ordering::Greater) {
                    *hi = f.meta.max_entry.dup();
                    proof {
                        assert(sel@[i as int] && hi@ == s[i as int].meta.max_entry);
                    }
                }
            }
            proof {
                crate::mem_table::lemma_entry_trichotomy(lo@, lo_before);
                crate::mem_table::lemma_entry_trichotomy(hi_before, hi@);
                assert(entry_le(lo@, lo_before) && entry_le(hi_before, hi@));
                lemma_entry_le_trans(lo@, lo_before, old(lo)@);
                lemma_entry_le_trans(old(hi)@, hi_before, hi@);
                assert forall|j: int|
                    0 <= j < i + 1 && sel@[j] implies entry_le(
                    lo@,
                    (#[trigger] s[j]).meta.min_entry,
                ) && entry_le(s[j].meta.max_entry, hi@) by {
                    if j < i {
                        lemma_entry_le_trans(lo@, lo_before, s[j].meta.min_entry);
                        lemma_entry_le_trans(s[j].meta.max_entry, hi_before, hi@);
                    } else {
                        crate::mem_table::lemma_entry_trichotomy(s[j].meta.min_entry, lo_before);
                        crate::mem_table::lemma_entry_trichotomy(hi_before, s[j].meta.max_entry);
                        if entry_le(lo_before, s[j].meta.min_entry) {
                            lemma_entry_le_trans(lo@, lo_before, s[j].meta.min_entry);
                        }
                        if entry_le(s[j].meta.max_entry, hi_before) {
                            lemma_entry_le_trans(s[j].meta.max_entry, hi_before, hi@);
                        }
                    }
                }
            }
            i = i + 1;
        }
    }

    /// One growing pass over a level: flags every unflagged table that
    /// crosses `[lo, hi]`. Reports whether anything was flagged.
    fn grow_selection(
        &self,
        level: usize,
        sel: &mut Vec<bool>,
        lo: &Entry,
        hi: &Entry,
        selected: &mut u128,
        other_count: Ghost<int>,
    ) -> (grew: bool)
        requires
            self.wf(),
            LEVEL_MIN <= level <= LEVEL_MAX,
            old(sel)@.len() == self.level_view(level as int).len(),
            *old(selected) == count_true(old(sel)@) + other_count@,
            0 <= other_count@ <= u64::MAX,
        ensures
            final(sel)@.len() == old(sel)@.len(),
            forall|j: int| 0 <= j < old(sel)@.len() && old(sel)@[j] ==> final(sel)@[j],
            *final(selected) == count_true(final(sel)@) + other_count@,
            grew ==> *final(selected) > *old(selected),
            !grew ==> *final(selected) == *old(selected),
            !grew ==> final(sel)@ == old(sel)@,
            !grew ==> sel_closed(self.level_view(level as int), final(sel)@, lo@, hi@),
            forall|j: int|
                0 <= j < old(sel)@.len() && final(sel)@[j] && !old(sel)@[j] ==> entry_le(
                    (#[trigger] self.level_view(level as int)[j]).meta.min_entry,
                    hi@,
                ) && entry_le(lo@, self.level_view(level as int)[j].meta.max_entry),
    {
        let ghost s = self.level_view(level as int);
        let files = self.get_level(level);
        let n = files.len();
        let mut grew = false;
        let mut i: usize = 0;
        proof {
            lemma_count_true_bounds(sel@);
        }
        while i < n
            invariant
                n == files@.len(),
                s == level_views(files@),
                sel@.len() == n,
                i <= n,
                *selected == count_true(sel@) + other_count@,
                0 <= other_count@ <= u64::MAX,
                forall|j: int| 0 <= j < n && old(sel)@[j] ==> sel@[j],
                grew ==> *selected > *old(selected),
                !grew ==> *selected == *old(selected),
                !grew ==> sel@ == old(sel)@,
                forall|j: int|
                    0 <= j < n && sel@[j] && !old(sel)@[j] ==> entry_le(
                        (#[trigger] s[j]).meta.min_entry,
                        hi@,
                    ) && entry_le(lo@, s[j].meta.max_entry),
                !grew ==> forall|j: int|
                    0 <= j < i && entry_le((#[trigger] s[j]).meta.min_entry, hi@) && entry_le(
                        lo@,
                        s[j].meta.max_entry,
                    ) ==> sel@[j],
            decreases n - i,
        {
            proof {
                assert(s[i as int] == files@[i as int]@);
            }
            if !sel[i] {
                let f = &files[i];
                let min_le_hi = !matches!(
                    compare_entries(&f.meta.min_entry, hi),
                    core::cmp::Ordering::Greater,
                );
                let lo_le_max = !matches!(
                    compare_entries(&f.meta.max_entry, lo),
                    core::cmp::Ordering::Less,
                );
                proof {
                    crate::mem_table::lemma_entry_trichotomy(s[i as int].meta.min_entry, hi@);
                    crate::mem_table::lemma_entry_trichotomy(lo@, s[i as int].meta.max_entry);
                }
                if min_le_hi && lo_le_max {
                    proof {
                        lemma_count_true_update(sel@, i as int);
                        lemma_count_true_bounds(sel@.update(i as int, true));
                        lemma_count_true_bounds(sel@);
                        assert(*selected < u128::MAX);
                    }
                    sel.set(i, true);
                    *selected = *selected + 1;
                    grew = true;
                }
            }
            i = i + 1;
        }
        grew
    }

    /// The tables a compaction of `level` must take: the seed, grown by
    /// overlap at this level and the next until nothing more overlaps.
    /// Returns the chosen file numbers of the two levels; any table of
    /// either level overlapping a chosen one is itself chosen, and the
    /// seed is.
    pub fn should_merge(&self, level: usize, file_seq: u64) -> (r: (Vec<u64>, Vec<u64>))
        requires
            self.wf(),
            LEVEL_MIN <= level < LEVEL_MAX,
            has_key(self.level_view(level as int), file_seq),
        ensures
            ({
                let s0 = self.level_view(level as int);
                let s1 = self.level_view(level as int + 1);
                &&& r.0@.contains(file_seq)
                &&& forall|k: u64| #[trigger] r.0@.contains(k) ==> has_key(s0, k)
                &&& forall|k: u64| #[trigger] r.1@.contains(k) ==> has_key(s1, k)
                &&& forall|i: int, j: int| 0 <= i < j < r.0@.len() ==> r.0@[i] != r.0@[j]
                &&& forall|i: int, j: int| 0 <= i < j < r.1@.len() ==> r.1@[i] != r.1@[j]
                &&& closure_closed(s0, s1, r.0@, r.1@, file_seq)
                &&& forall|c0: Seq<u64>, c1: Seq<u64>|
                    #[trigger] closure_closed(s0, s1, c0, c1, file_seq) ==> ((forall|k: u64|
                        #[trigger] r.0@.contains(k) ==> c0.contains(k)) && (forall|k: u64|
                        #[trigger] r.1@.contains(k) ==> c1.contains(k)))
            }),
    {
        let ghost s0 = self.level_view(level as int);
        let ghost s1 = self.level_view(level as int + 1);
        let n0 = self.get_level(level).len();
        let n1 = self.get_level(level + 1).len();
        let seed_idx = match self.level_find(level, file_seq) {
            Some(i) => i,
            None => {
                proof {
                    assert(false);
                }
                0
            },
        };
        let (mut lo, mut hi) = {
            let files = self.get_level(level);
            (files[seed_idx].meta.min_entry.dup(), files[seed_idx].meta.max_entry.dup())
        };
        let mut sel0: Vec<bool> = vec![false; n0];
        let mut sel1: Vec<bool> = vec![false; n1];
        let ghost z0 = sel0@;
        proof {
            assert(z0 =~= Seq::new(n0 as nat, |i: int| false));
            assert(sel1@ =~= Seq::new(n1 as nat, |i: int| false));
            lemma_count_true_zeros(n0 as nat);
            lemma_count_true_zeros(n1 as nat);
            lemma_count_true_update(z0, seed_idx as int);
        }
        sel0.set(seed_idx, true);
        let mut selected: u128 = 1;
        proof {
            assert(sel0@ =~= z0.update(seed_idx as int, true));
            lemma_count_true_bounds(sel0@);
            lemma_count_true_bounds(sel1@);
        }
        let ghost mut glo: EntryModel = arbitrary();
        let ghost mut ghi: EntryModel = arbitrary();
        proof {
            assert(attained_min(s0, sel0@, s0[seed_idx as int].meta.min_entry));
            assert(attained_max(s0, sel0@, s0[seed_idx as int].meta.max_entry));
            assert forall|c0: Seq<u64>, c1: Seq<u64>|
                #[trigger] closure_closed(s0, s1, c0, c1, file_seq) implies ((forall|j: int|
                    0 <= j < n0 && sel0@[j] ==> c0.contains((#[trigger] s0[j]).file_seq)) && (
            forall|j: int|
                    0 <= j < n1 && sel1@[j] ==> c1.contains((#[trigger] s1[j]).file_seq))) by {
                assert forall|j: int| 0 <= j < n0 && sel0@[j] implies c0.contains(
                    (#[trigger] s0[j]).file_seq,
                ) by {
                    assert(j == seed_idx);
                    assert(s0[j].file_seq == file_seq);
                }
            }
        }
        let mut changed = true;
        while changed
            invariant
                self.wf(),
                LEVEL_MIN <= level < LEVEL_MAX,
                s0 == self.level_view(level as int),
                s1 == self.level_view(level as int + 1),
                n0 == s0.len(),
                n1 == s1.len(),
                sel0@.len() == n0,
                sel1@.len() == n1,
                seed_idx < n0,
                sel0@[seed_idx as int],
                s0[seed_idx as int].file_seq == file_seq,
                selected as int == count_true(sel0@) + count_true(sel1@),
                attained_min(s0, sel0@, lo@) || attained_min(s1, sel1@, lo@),
                attained_max(s0, sel0@, hi@) || attained_max(s1, sel1@, hi@),
                forall|c0: Seq<u64>, c1: Seq<u64>|
                    #[trigger] closure_closed(s0, s1, c0, c1, file_seq) ==> ((forall|j: int|
                        0 <= j < n0 && sel0@[j] ==> c0.contains((#[trigger] s0[j]).file_seq)) && (
                    forall|j: int|
                        0 <= j < n1 && sel1@[j] ==> c1.contains((#[trigger] s1[j]).file_seq))),
                !changed ==> sel_within(s0, sel0@, glo, ghi) && sel_within(s1, sel1@, glo, ghi)
                    && sel_closed(s0, sel0@, glo, ghi) && sel_closed(s1, sel1@, glo, ghi),
            decreases (n0 + n1 + 2 - selected) + (if changed {
                1int
            } else {
                0
            }),
        {
            let ghost sel_before = selected as int;
            let ghost sel0_in = sel0@;
            let ghost sel1_in = sel1@;
            changed = false;
            self.widen_range(level, &sel0, &mut lo, &mut hi);
            let ghost lo_mid = lo@;
            let ghost hi_mid = hi@;
            self.widen_range(level + 1, &sel1, &mut lo, &mut hi);
            proof {
                glo = lo@;
                ghi = hi@;
                assert forall|i: int|
                    0 <= i < s0.len() && sel0@[i] implies entry_le(
                    glo,
                    (#[trigger] s0[i]).meta.min_entry,
                ) && entry_le(s0[i].meta.max_entry, ghi) by {
                    lemma_entry_le_trans(glo, lo_mid, s0[i].meta.min_entry);
                    lemma_entry_le_trans(s0[i].meta.max_entry, hi_mid, ghi);
                }
                lemma_count_true_bounds(sel0@);
                lemma_count_true_bounds(sel1@);
            }
            let grew1 = self.grow_selection(
                level + 1,
                &mut sel1,
                &lo,
                &hi,
                &mut selected,
                Ghost(count_true(sel0@)),
            );
            proof {
                lemma_count_true_bounds(sel1@);
            }
            let grew0 = self.grow_selection(
                level,
                &mut sel0,
                &lo,
                &hi,
                &mut selected,
                Ghost(count_true(sel1@)),
            );
            if grew0 || grew1 {
                changed = true;
                proof {
                    lemma_count_true_bounds(sel0@);
                    lemma_count_true_bounds(sel1@);
                    assert(selected as int > sel_before);
                }
            } else {
                proof {
                    assert(sel_within(s0, sel0@, glo, ghi));
                    assert(sel_within(s1, sel1@, glo, ghi));
                }
            }
            proof {
                if attained_min(s0, sel0_in, glo) {
                    let a = choose|a: int|
                        0 <= a < s0.len() && sel0_in[a] && glo == (#[trigger] s0[a]).meta.min_entry;
                    assert(sel0@[a]);
                    assert(attained_min(s0, sel0@, glo));
                } else if attained_min(s1, sel1_in, glo) {
                    let a = choose|a: int|
                        0 <= a < s1.len() && sel1_in[a] && glo == (#[trigger] s1[a]).meta.min_entry;
                    assert(sel1@[a]);
                    assert(attained_min(s1, sel1@, glo));
                }
                if attained_max(s0, sel0_in, ghi) {
                    let b = choose|b: int|
                        0 <= b < s0.len() && sel0_in[b] && ghi == (#[trigger] s0[b]).meta.max_entry;
                    assert(sel0@[b]);
                    assert(attained_max(s0, sel0@, ghi));
                } else if attained_max(s1, sel1_in, ghi) {
                    let b = choose|b: int|
                        0 <= b < s1.len() && sel1_in[b] && ghi == (#[trigger] s1[b]).meta.max_entry;
                    assert(sel1@[b]);
                    assert(attained_max(s1, sel1@, ghi));
                }
                assert forall|c0: Seq<u64>, c1: Seq<u64>|
                    #[trigger] closure_closed(s0, s1, c0, c1, file_seq) implies ((forall|j: int|
                        0 <= j < n0 && sel0@[j] ==> c0.contains((#[trigger] s0[j]).file_seq)) && (
                forall|j: int|
                        0 <= j < n1 && sel1@[j] ==> c1.contains(
                            (#[trigger] s1[j]).file_seq,
                        ))) by {
                    assert forall|j: int|
                        0 <= j < n0 && sel0@[j] implies c0.contains(
                        (#[trigger] s0[j]).file_seq,
                    ) by {
                        if !sel0_in[j] {
                            lemma_crossing_joins_closure(
                                s0, s1, c0, c1, file_seq, sel0_in, sel1_in, glo, ghi,
                                s0[j].meta,
                            );
                        }
                    }
                    assert forall|j: int|
                        0 <= j < n1 && sel1@[j] implies c1.contains(
                        (#[trigger] s1[j]).file_seq,
                    ) by {
                        if !sel1_in[j] {
                            lemma_crossing_joins_closure(
                                s0, s1, c0, c1, file_seq, sel0_in, sel1_in, glo, ghi,
                                s1[j].meta,
                            );
                        }
                    }
                }
            }
        }
        let mut this_level: Vec<u64> = Vec::new();
        let mut next_level: Vec<u64> = Vec::new();
        let files0 = self.get_level(level);
        let mut i: usize = 0;
        while i < n0
            invariant
                n0 == files0@.len(),
                s0 == level_views(files0@),
                sel0@.len() == n0,
                i <= n0,
                this_level@ == spec_selected_keys(s0, sel0@, i as int),
            decreases n0 - i,
        {
            proof {
                assert(s0[i as int] == files0@[i as int]@);
            }
            if sel0[i] {
                this_level.push(files0[i].file_seq);
                proof {
                    assert(this_level@ =~= spec_selected_keys(s0, sel0@, i + 1));
                }
            } else {
                proof {
                    assert(this_level@ =~= spec_selected_keys(s0, sel0@, i + 1));
                }
            }
            i = i + 1;
        }
        let files1 = self.get_level(level + 1);
        let mut i: usize = 0;
        while i < n1
            invariant
                n1 == files1@.len(),
                s1 == level_views(files1@),
                sel1@.len() == n1,
                i <= n1,
                next_level@ == spec_selected_keys(s1, sel1@, i as int),
            decreases n1 - i,
        {
            proof {
                assert(s1[i as int] == files1@[i as int]@);
            }
            if sel1[i] {
                next_level.push(files1[i].file_seq);
                proof {
                    assert(next_level@ =~= spec_selected_keys(s1, sel1@, i + 1));
                }
            } else {
                proof {
                    assert(next_level@ =~= spec_selected_keys(s1, sel1@, i + 1));
                }
            }
            i = i + 1;
        }
        proof {
            lemma_selected_keys_props(s0, sel0@, n0 as int);
            lemma_selected_keys_props(s1, sel1@, n1 as int);
        }
        proof {
            assert(this_level@.contains(s0[seed_idx as int].file_seq));
            assert(s0[seed_idx as int].file_seq == file_seq);
            assert forall|k: u64| #[trigger] this_level@.contains(k) implies has_key(s0, k) by {
                let j = choose|j: int|
                    0 <= j < n0 && sel0@[j] && (#[trigger] s0[j]).file_seq == k;
                assert(has_key(s0, k));
            }
            assert forall|k: u64| #[trigger] next_level@.contains(k) implies has_key(s1, k) by {
                let j = choose|j: int|
                    0 <= j < n1 && sel1@[j] && (#[trigger] s1[j]).file_seq == k;
                assert(has_key(s1, k));
            }
            assert forall|i: int|
                0 <= i < s0.len() && hull_crosses(
                    s0,
                    s1,
                    this_level@,
                    next_level@,
                    (#[trigger] s0[i]).meta,
                ) implies this_level@.contains(s0[i].file_seq) by {
                lemma_result_crossing_is_selected(
                    s0, s1, this_level@, next_level@, sel0@, sel1@, glo, ghi, s0[i].meta,
                );
                assert(sel0@[i]);
            }
            assert forall|i: int|
                0 <= i < s1.len() && hull_crosses(
                    s0,
                    s1,
                    this_level@,
                    next_level@,
                    (#[trigger] s1[i]).meta,
                ) implies next_level@.contains(s1[i].file_seq) by {
                lemma_result_crossing_is_selected(
                    s0, s1, this_level@, next_level@, sel0@, sel1@, glo, ghi, s1[i].meta,
                );
                assert(sel1@[i]);
            }
            assert(closure_closed(s0, s1, this_level@, next_level@, file_seq));
            assert forall|c0: Seq<u64>, c1: Seq<u64>|
                #[trigger] closure_closed(s0, s1, c0, c1, file_seq) implies ((forall|k: u64|
                    #[trigger] this_level@.contains(k) ==> c0.contains(k)) && (forall|k: u64|
                    #[trigger] next_level@.contains(k) ==> c1.contains(k))) by {
                assert forall|k: u64| #[trigger] this_level@.contains(k) implies c0.contains(
                    k,
                ) by {
                    let j = choose|j: int|
                        0 <= j < n0 && sel0@[j] && (#[trigger] s0[j]).file_seq == k;
                    assert(c0.contains(s0[j].file_seq));
                }
                assert forall|k: u64| #[trigger] next_level@.contains(k) implies c1.contains(
                    k,
                ) by {
                    let j = choose|j: int|
                        0 <= j < n1 && sel1@[j] && (#[trigger] s1[j]).file_seq == k;
                    assert(c1.contains(s1[j].file_seq));
                }
            }
        }
        (this_level, next_level)
    }
}

/// A number the getter finds is carried by some entry.
pub proof fn lemma_level_get_has_key(s: Seq<LevelFileModel>, k: u64)
    ensures
        spec_level_get(s, k) is Some ==> has_key(s, k),
        has_key(s, k) ==> spec_level_get(s, k) is Some,
    decreases s.len(),
{
    if s.len() > 0 {
        lemma_level_get_has_key(s.skip(1), k);
        if s[0].file_seq == k {
            assert(has_key(s, k));
        } else {
            if has_key(s.skip(1), k) {
                let i = choose|i: int| 0 <= i < s.skip(1).len() && (#[trigger] s.skip(1)[i]).file_seq == k;
                assert(s[i + 1].file_seq == k);
            }
            if has_key(s, k) {
                let i = choose|i: int| 0 <= i < s.len() && (#[trigger] s[i]).file_seq == k;
                assert(s.skip(1)[i - 1].file_seq == k);
                assert(has_key(s.skip(1), k));
            }
        }
    }
}



/// Pushing the flagged number keeps the output aligned with the flags.
pub proof fn lemma_select_push(s: Seq<LevelFileModel>, out: Seq<u64>, i: int)
    requires
        0 <= i < s.len(),
    ensures
        out.push(s[i].file_seq).contains(s[i].file_seq),
        forall|k: u64| #[trigger] out.push(s[i].file_seq).contains(k) ==> out.contains(k) || k == s[i].file_seq,
        forall|k: u64| out.contains(k) ==> #[trigger] out.push(s[i].file_seq).contains(k),
{
    let r = out.push(s[i].file_seq);
    assert(r[out.len() as int] == s[i].file_seq);
    assert forall|k: u64| #[trigger] r.contains(k) implies out.contains(k) || k == s[i].file_seq by {
        let p = choose|p: int| 0 <= p < r.len() && r[p] == k;
        if p < out.len() {
            assert(out[p] == k);
        }
    }
    assert forall|k: u64| out.contains(k) implies #[trigger] r.contains(k) by {
        let p = choose|p: int| 0 <= p < out.len() && out[p] == k;
        assert(r[p] == k);
    }
}



/// 5^k, the growth factor of the level size budget.
pub open spec fn pow5(k: nat) -> int
    decreases k,
{
    if k == 0 {
        1
    } else {
        5 * pow5((k - 1) as nat)
    }
}

/// Clamped into `u64`.
pub open spec fn sat64(x: int) -> int {
    if x > u64::MAX {
        u64::MAX as int
    } else {
        x
    }
}

/// Whether a level is due for compaction: more than six tables, or more
/// bytes than the write budget grown five-fold per level.
pub open spec fn compaction_due(m: &Manifest, lv: int, wal_size_limit: u64) -> bool {
    m.level_view(lv).len() > 6 || sat64(spec_level_size(m.level_view(lv))) > sat64(
        wal_size_limit * sat64(pow5(lv as nat)),
    )
}

impl Manifest {
    /// The first level due for compaction, never the deepest one: its
    /// tables would have nowhere to go.
    pub fn pick_compaction_level(&self, wal_size_limit: u64) -> (r: Option<usize>)
        requires
            self.wf(),
        ensures
            match r {
                Some(lv) => LEVEL_MIN <= lv < LEVEL_MAX && compaction_due(
                    self,
                    lv as int,
                    wal_size_limit,
                ) && (forall|l2: int|
                    LEVEL_MIN <= l2 < lv ==> !compaction_due(self, l2, wal_size_limit)),
                None => forall|l2: int|
                    LEVEL_MIN <= l2 < LEVEL_MAX ==> !compaction_due(self, l2, wal_size_limit),
            },
    {
        let mut lv: usize = LEVEL_MIN;
        while lv < LEVEL_MAX
            invariant
                self.wf(),
                LEVEL_MIN <= lv <= LEVEL_MAX,
                forall|l2: int| LEVEL_MIN <= l2 < lv ==> !compaction_due(self, l2, wal_size_limit),
            decreases LEVEL_MAX - lv,
        {
            let count = self.level_sst_count(lv);
            let size = self.level_size(lv);
            let mut p: u64 = 1;
            let mut k: usize = 0;
            while k < lv
                invariant
                    k <= lv,
                    p == sat64(pow5(k as nat)),
                decreases lv - k,
            {
                proof {
                    assert(pow5((k + 1) as nat) == 5 * pow5(k as nat));
                    lemma_pow5_pos(k as nat);
                }
                p = match p.checked_mul(5) {
                    Some(x) => x,
                    None => u64::MAX,
                };
                k = k + 1;
            }
            let size_max = match wal_size_limit.checked_mul(p) {
                Some(x) => x,
                None => u64::MAX,
            };
            if count > 6 || size > size_max {
                return Some(lv);
            }
            lv = lv + 1;
        }
        None
    }
}

pub proof fn lemma_pow5_pos(k: nat)
    ensures
        pow5(k) >= 1,
    decreases k,
{
    if k > 0 {
        lemma_pow5_pos((k - 1) as nat);
    }
}

/// The publish protocol as a model: the snapshot files on disk and the
/// number the pointer file names. The embedding layer mutates the real
/// directory in the order the model's states list.
pub ghost struct PublishState {
    pub snapshots: Map<u64, Seq<u8>>,
    pub current: u64,
}

/// The pointer names a snapshot that is really there.
pub open spec fn publish_wf(s: PublishState) -> bool {
    s.snapshots.dom().contains(s.current)
}

/// The states a publish passes through, in order: the fresh snapshot is
/// written beside the old one, the pointer is flipped by one atomic
/// rename, and only then is the old snapshot removed.
pub open spec fn publish_states(s0: PublishState, listing: Seq<u8>) -> Seq<PublishState> {
    let written = PublishState {
        snapshots: s0.snapshots.insert((s0.current + 1) as u64, listing),
        current: s0.current,
    };
    let flipped = PublishState { snapshots: written.snapshots, current: (s0.current + 1) as u64 };
    let cleaned = PublishState {
        snapshots: flipped.snapshots.remove(s0.current),
        current: flipped.current,
    };
    seq![s0, written, flipped, cleaned]
}

/// A crash anywhere between the steps leaves the store openable: the
/// pointer always names a present snapshot, holding either the old
/// listing or the new one.
pub proof fn lemma_publish_crash_atomic(s0: PublishState, listing: Seq<u8>, i: int)
    requires
        publish_wf(s0),
        s0.current < u64::MAX,
        0 <= i < publish_states(s0, listing).len(),
    ensures
        publish_wf(publish_states(s0, listing)[i]),
        publish_states(s0, listing)[i].snapshots[publish_states(s0, listing)[i].current]
            == s0.snapshots[s0.current] || publish_states(s0, listing)[i].snapshots[publish_states(
            s0,
            listing,
        )[i].current] == listing,
{
    let states = publish_states(s0, listing);
    if i == 0 {
    } else if i == 1 {
        assert(states[1].snapshots.dom().contains(states[1].current));
        assert(states[1].snapshots[states[1].current] == s0.snapshots[s0.current]);
    } else if i == 2 {
        assert(states[2].snapshots.dom().contains(states[2].current));
        assert(states[2].snapshots[states[2].current] == listing);
    } else {
        assert(states[3].snapshots.dom().contains(states[3].current));
        assert(states[3].snapshots[states[3].current] == listing);
    }
}

/// The numeric value of a decimal digit character; ten for anything else.
pub open spec fn spec_digit_val(c: char) -> int {
    if c == '0' {
        0
    } else if c == '1' {
        1
    } else if c == '2' {
        2
    } else if c == '3' {
        3
    } else if c == '4' {
        4
    } else if c == '5' {
        5
    } else if c == '6' {
        6
    } else if c == '7' {
        7
    } else if c == '8' {
        8
    } else if c == '9' {
        9
    } else {
        10
    }
}

/// Reading a decimal number left to right onto an accumulator; nothing on
/// a non-digit or past the top of `u64`.
pub open spec fn spec_parse_num(s: Seq<char>, acc: int) -> Option<u64>
    decreases s.len(),
{
    if s.len() == 0 {
        Some(acc as u64)
    } else {
        let v = spec_digit_val(s[0]);
        if v > 9 {
            None
        } else if acc * 10 + v > u64::MAX {
            None
        } else {
            spec_parse_num(s.skip(1), acc * 10 + v)
        }
    }
}

/// The characters of one listing line, up to the line break.
pub open spec fn spec_line_len(s: Seq<char>) -> nat
    decreases s.len(),
{
    if s.len() == 0 || s[0] == '\n' {
        0
    } else {
        1 + spec_line_len(s.skip(1))
    }
}

/// One listing line sorted to its kind: a log number, a table number, or
/// neither; a recognized suffix with a bad stem is an error.
pub open spec fn spec_line_dec(line: Seq<char>) -> Result<Option<(u64, bool)>, EikvError> {
    if line.len() >= 4 && line.subrange(line.len() - 4, line.len() as int) == ".wal"@ {
        match spec_parse_num(line.subrange(0, line.len() - 4), 0) {
            Some(v) => Ok(Some((v, true))),
            None => Err(EikvError::ManifestError),
        }
    } else if line.len() >= 4 && line.subrange(line.len() - 4, line.len() as int) == ".sst"@ {
        match spec_parse_num(line.subrange(0, line.len() - 4), 0) {
            Some(v) => Ok(Some((v, false))),
            None => Err(EikvError::ManifestError),
        }
    } else {
        Ok(None)
    }
}

/// Decoding of a manifest listing: the log numbers and table numbers, in
/// the order their lines stand; lines of neither kind are passed over.
pub open spec fn spec_listing_dec(s: Seq<char>) -> Result<(Seq<u64>, Seq<u64>), EikvError>
    decreases s.len(),
{
    if s.len() == 0 {
        Ok((Seq::empty(), Seq::empty()))
    } else {
        let n = spec_line_len(s) as int;
        let line = s.subrange(0, n);
        let rest = if n < s.len() {
            s.skip(n + 1)
        } else {
            Seq::empty()
        };
        match spec_line_dec(line) {
            Ok(kind) => match spec_listing_dec(rest) {
                Ok((wals, ssts)) => match kind {
                    Some((v, true)) => Ok((seq![v] + wals, ssts)),
                    Some((v, false)) => Ok((wals, seq![v] + ssts)),
                    None => Ok((wals, ssts)),
                },
                Err(e) => Err(e),
            },
            Err(e) => Err(e),
        }
    }
}

/// The length of one line, walked to the break or the end.
fn line_len(text: &str, off: usize) -> (r: usize)
    requires
        off <= text@.len(),
    ensures
        r == spec_line_len(text@.skip(off as int)),
        off + r <= text@.len(),
    decreases text@.len() - off,
{
    if off == text.unicode_len() {
        proof {
            assert(text@.skip(off as int).len() == 0);
        }
        return 0;
    }
    let c = text.get_char(off);
    proof {
        assert(text@.skip(off as int)[0] == text@[off as int]);
    }
    if c == '\n' {
        0
    } else {
        proof {
            assert(text@.skip(off as int).skip(1) =~= text@.skip(off + 1));
        }
        1 + line_len(text, off + 1)
    }
}

/// The digit value of one character, ten for a non-digit.
fn digit_val(c: char) -> (r: u64)
    ensures
        r == spec_digit_val(c),
{
    if c == '0' {
        0
    } else if c == '1' {
        1
    } else if c == '2' {
        2
    } else if c == '3' {
        3
    } else if c == '4' {
        4
    } else if c == '5' {
        5
    } else if c == '6' {
        6
    } else if c == '7' {
        7
    } else if c == '8' {
        8
    } else if c == '9' {
        9
    } else {
        10
    }
}

/// Reads the decimal number in `text[start..end]`.
fn parse_num(text: &str, start: usize, end: usize, acc: u64) -> (r: Option<u64>)
    requires
        start <= end <= text@.len(),
    ensures
        r == spec_parse_num(text@.subrange(start as int, end as int), acc as int),
    decreases end - start,
{
    let ghost s = text@.subrange(start as int, end as int);
    if start == end {
        return Some(acc);
    }
    let c = text.get_char(start);
    proof {
        assert(s[0] == text@[start as int]);
    }
    let v = digit_val(c);
    if v > 9 {
        return None;
    }
    if acc > (u64::MAX - v) / 10 {
        proof {
            assert(acc * 10 + v > u64::MAX) by (nonlinear_arith)
                requires
                    acc > (u64::MAX - v) / 10,
                    0 <= v <= 9,
                    acc <= u64::MAX,
            ;
        }
        return None;
    }
    proof {
        assert(acc * 10 + v <= u64::MAX) by (nonlinear_arith)
            requires
                acc <= (u64::MAX - v) / 10,
                0 <= v <= 9,
                0 <= acc,
        ;
        assert(s.skip(1) =~= text@.subrange(start + 1, end as int));
    }
    parse_num(text, start + 1, end, acc * 10 + v)
}

/// Whether `text[off..off+4]` is the given four-character suffix.
fn has_suffix(text: &str, off: usize, a: char, b: char, c: char, d: char) -> (r: bool)
    requires
        off + 4 <= text@.len(),
    ensures
        r == (text@.subrange(off as int, off + 4) =~= seq![a, b, c, d]),
{
    let l = text.unicode_len();
    proof {
        assert(off + 4 <= l);
    }
    let r = text.get_char(off) == a && text.get_char(off + 1) == b && text.get_char(off + 2) == c
        && text.get_char(off + 3) == d;
    proof {
        if r {
            assert(text@.subrange(off as int, off + 4) =~= seq![a, b, c, d]);
        } else {
            assert(!(text@.subrange(off as int, off + 4) =~= seq![a, b, c, d]));
        }
    }
    r
}

/// Reads a manifest listing back: the log file numbers and the table
/// file numbers, in line order.
pub fn parse_listing(text: &str) -> (r: EikvResult<(Vec<u64>, Vec<u64>)>)
    ensures
        match r {
            Ok((wals, ssts)) => spec_listing_dec(text@) == Ok::<(Seq<u64>, Seq<u64>), EikvError>(
                (wals@, ssts@),
            ),
            Err(e) => spec_listing_dec(text@) == Err::<(Seq<u64>, Seq<u64>), EikvError>(e),
        },
{
    let r = parse_listing_from(text, 0);
    proof {
        assert(text@.skip(0) =~= text@);
        assert(spec_listing_dec(text@.skip(0)) == spec_listing_dec(text@));
    }
    r
}

fn parse_listing_from(text: &str, off: usize) -> (r: EikvResult<(Vec<u64>, Vec<u64>)>)
    requires
        off <= text@.len(),
    ensures
        match r {
            Ok((wals, ssts)) => spec_listing_dec(text@.skip(off as int)) == Ok::<
                (Seq<u64>, Seq<u64>),
                EikvError,
            >((wals@, ssts@)),
            Err(e) => spec_listing_dec(text@.skip(off as int)) == Err::<
                (Seq<u64>, Seq<u64>),
                EikvError,
            >(e),
        },
    decreases text@.len() - off,
{
    let ghost s = text@.skip(off as int);
    let len = text.unicode_len();
    if off == len {
        let r: (Vec<u64>, Vec<u64>) = (Vec::new(), Vec::new());
        proof {
            assert(s.len() == 0);
            assert(r.0@ =~= Seq::<u64>::empty());
            assert(r.1@ =~= Seq::<u64>::empty());
        }
        return Ok(r);
    }
    let n = line_len(text, off);
    proof {
        assert(s.subrange(0, n as int) =~= text@.subrange(off as int, off + n));
        if off + n < text@.len() {
            assert(s.skip(n + 1) =~= text@.skip(off + n + 1));
        } else {
            assert(text@.skip(off + n) =~= Seq::<char>::empty());
        }
        reveal_strlit(".wal");
        reveal_strlit(".sst");
        let line = s.subrange(0, n as int);
        if n >= 4 {
            assert(line.subrange(n - 4, n as int) =~= text@.subrange(off + n - 4, off + n));
            assert(line.subrange(0, n - 4) =~= text@.subrange(off as int, off + n - 4));
            assert(".wal"@ =~= seq!['.', 'w', 'a', 'l']);
            assert(".sst"@ =~= seq!['.', 's', 's', 't']);
        }
    }
    let kind: Option<(u64, bool)> = if n >= 4 && has_suffix(text, off + n - 4, '.', 'w', 'a', 'l') {
        match parse_num(text, off, off + n - 4, 0) {
            Some(v) => Some((v, true)),
            None => { return Err(EikvError::ManifestError) },
        }
    } else if n >= 4 && has_suffix(text, off + n - 4, '.', 's', 's', 't') {
        match parse_num(text, off, off + n - 4, 0) {
            Some(v) => Some((v, false)),
            None => { return Err(EikvError::ManifestError) },
        }
    } else {
        None
    };
    let next = if off + n < len {
        off + n + 1
    } else {
        off + n
    };
    let (rest_wals, rest_ssts) = match parse_listing_from(text, next) {
        Ok(x) => x,
        Err(e) => { return Err(e) },
    };
    match kind {
        Some((v, true)) => {
            let mut wals: Vec<u64> = Vec::new();
            wals.push(v);
            wals.extend_from_slice(rest_wals.as_slice());
            proof {
                assert(wals@ =~= seq![v] + rest_wals@);
            }
            Ok((wals, rest_ssts))
        },
        Some((v, false)) => {
            let mut ssts: Vec<u64> = Vec::new();
            ssts.push(v);
            ssts.extend_from_slice(rest_ssts.as_slice());
            proof {
                assert(ssts@ =~= seq![v] + rest_ssts@);
            }
            Ok((rest_wals, ssts))
        },
        None => Ok((rest_wals, rest_ssts)),
    }
}

/// One listing line: the six-digit number, the kind's suffix, a break.
pub open spec fn spec_line_enc(seq: u64, wal: bool) -> Seq<char> {
    spec_dec_pad(seq as int, 6) + (if wal {
        ".wal"@
    } else {
        ".sst"@
    }) + seq!['\n']
}

/// The log files' lines, in order.
pub open spec fn spec_wal_lines(wals: Seq<u64>) -> Seq<char>
    decreases wals.len(),
{
    if wals.len() == 0 {
        Seq::empty()
    } else {
        spec_line_enc(wals[0], true) + spec_wal_lines(wals.skip(1))
    }
}

/// One level's table lines, in order.
pub open spec fn spec_sst_lines(ssts: Seq<u64>) -> Seq<char>
    decreases ssts.len(),
{
    if ssts.len() == 0 {
        Seq::empty()
    } else {
        spec_line_enc(ssts[0], false) + spec_sst_lines(ssts.skip(1))
    }
}

/// Every level's table lines, lowest level first.
pub open spec fn spec_sst_lines_all(levels: Seq<Seq<u64>>) -> Seq<char>
    decreases levels.len(),
{
    if levels.len() == 0 {
        Seq::empty()
    } else {
        spec_sst_lines(levels[0]) + spec_sst_lines_all(levels.skip(1))
    }
}

/// The manifest listing: the log files' lines, then each level's tables.
pub open spec fn spec_listing_enc(wals: Seq<u64>, levels: Seq<Seq<u64>>) -> Seq<char> {
    spec_wal_lines(wals) + spec_sst_lines_all(levels)
}

/// The number lists of the level tables.
pub open spec fn u64_tables_views(s: Seq<Vec<u64>>) -> Seq<Seq<u64>> {
    s.map_values(|v: Vec<u64>| v@)
}

pub proof fn lemma_wal_lines_snoc(ws: Seq<u64>, w: u64)
    ensures
        spec_wal_lines(ws.push(w)) == spec_wal_lines(ws) + spec_line_enc(w, true),
    decreases ws.len(),
{
    if ws.len() == 0 {
        assert(ws.push(w)[0] == w);
        assert(ws.push(w).skip(1) =~= ws);
        assert(spec_wal_lines(ws.push(w)) =~= spec_wal_lines(ws) + spec_line_enc(w, true));
    } else {
        assert(ws.push(w)[0] == ws[0]);
        assert(ws.push(w).skip(1) =~= ws.skip(1).push(w));
        lemma_wal_lines_snoc(ws.skip(1), w);
        assert(spec_wal_lines(ws.push(w)) =~= spec_wal_lines(ws) + spec_line_enc(w, true));
    }
}

pub proof fn lemma_sst_lines_snoc(ss: Seq<u64>, x: u64)
    ensures
        spec_sst_lines(ss.push(x)) == spec_sst_lines(ss) + spec_line_enc(x, false),
    decreases ss.len(),
{
    if ss.len() == 0 {
        assert(ss.push(x)[0] == x);
        assert(ss.push(x).skip(1) =~= ss);
        assert(spec_sst_lines(ss.push(x)) =~= spec_sst_lines(ss) + spec_line_enc(x, false));
    } else {
        assert(ss.push(x)[0] == ss[0]);
        assert(ss.push(x).skip(1) =~= ss.skip(1).push(x));
        lemma_sst_lines_snoc(ss.skip(1), x);
        assert(spec_sst_lines(ss.push(x)) =~= spec_sst_lines(ss) + spec_line_enc(x, false));
    }
}

pub proof fn lemma_sst_lines_all_snoc(ls: Seq<Seq<u64>>, l: Seq<u64>)
    ensures
        spec_sst_lines_all(ls.push(l)) == spec_sst_lines_all(ls) + spec_sst_lines(l),
    decreases ls.len(),
{
    if ls.len() == 0 {
        assert(ls.push(l)[0] == l);
        assert(ls.push(l).skip(1) =~= ls);
        assert(spec_sst_lines_all(ls.push(l)) =~= spec_sst_lines_all(ls) + spec_sst_lines(l));
    } else {
        assert(ls.push(l)[0] == ls[0]);
        assert(ls.push(l).skip(1) =~= ls.skip(1).push(l));
        lemma_sst_lines_all_snoc(ls.skip(1), l);
        assert(spec_sst_lines_all(ls.push(l)) =~= spec_sst_lines_all(ls) + spec_sst_lines(l));
    }
}

/// Writes the manifest listing for the given log numbers and per-level
/// table numbers.
pub fn render_listing(wals: &Vec<u64>, levels: &Vec<Vec<u64>>) -> (r: String)
    ensures
        r@ == spec_listing_enc(wals@, u64_tables_views(levels@)),
{
    proof {
        reveal_strlit(".wal");
        reveal_strlit(".sst");
        reveal_strlit("\n");
    }
    let mut out = String::new();
    let nw = wals.len();
    let mut i: usize = 0;
    proof {
        assert(wals@.take(0).len() == 0);
        assert(out@ =~= spec_wal_lines(wals@.take(0)));
    }
    while i < nw
        invariant
            nw == wals@.len(),
            i <= nw,
            out@ == spec_wal_lines(wals@.take(i as int)),
        decreases nw - i,
    {
        proof {
            reveal_strlit(".wal");
            reveal_strlit("\n");
            lemma_wal_lines_snoc(wals@.take(i as int), wals@[i as int]);
            assert(wals@.take(i + 1) =~= wals@.take(i as int).push(wals@[i as int]));
        }
        let digits = u64_to_dec_pad(wals[i], 6);
        out.append(digits.as_str());
        out.append(".wal");
        out.append("\n");
        proof {
            assert(out@ =~= spec_wal_lines(wals@.take(i + 1)));
        }
        i = i + 1;
    }
    proof {
        assert(wals@.take(nw as int) =~= wals@);
    }
    let ghost wal_part = out@;
    let nl = levels.len();
    let mut lv: usize = 0;
    proof {
        assert(u64_tables_views(levels@).take(0).len() == 0);
        assert(out@ =~= wal_part + spec_sst_lines_all(u64_tables_views(levels@).take(0)));
    }
    while lv < nl
        invariant
            nl == levels@.len(),
            lv <= nl,
            out@ == wal_part + spec_sst_lines_all(u64_tables_views(levels@).take(lv as int)),
        decreases nl - lv,
    {
        let ghost done = u64_tables_views(levels@).take(lv as int);
        let level = &levels[lv];
        let ghost cur = level@;
        proof {
            assert(u64_tables_views(levels@)[lv as int] == levels@[lv as int]@);
        }
        let ns = level.len();
        let mut j: usize = 0;
        proof {
            assert(cur.take(0).len() == 0);
            assert(out@ =~= wal_part + spec_sst_lines_all(done) + spec_sst_lines(cur.take(0)));
        }
        while j < ns
            invariant
                ns == level@.len(),
                cur == level@,
                j <= ns,
                out@ == wal_part + spec_sst_lines_all(done) + spec_sst_lines(cur.take(j as int)),
            decreases ns - j,
        {
            proof {
                reveal_strlit(".sst");
                reveal_strlit("\n");
                lemma_sst_lines_snoc(cur.take(j as int), cur[j as int]);
                assert(cur.take(j + 1) =~= cur.take(j as int).push(cur[j as int]));
            }
            let digits = u64_to_dec_pad(level[j], 6);
            out.append(digits.as_str());
            out.append(".sst");
            out.append("\n");
            proof {
                assert(out@ =~= wal_part + spec_sst_lines_all(done) + spec_sst_lines(
                    cur.take(j + 1),
                ));
            }
            j = j + 1;
        }
        proof {
            assert(cur.take(ns as int) =~= cur);
            lemma_sst_lines_all_snoc(done, cur);
            assert(u64_tables_views(levels@).take(lv + 1) =~= done.push(cur));
            assert(out@ =~= wal_part + spec_sst_lines_all(u64_tables_views(levels@).take(lv + 1)));
        }
        lv = lv + 1;
    }
    proof {
        assert(u64_tables_views(levels@).take(nl as int) =~= u64_tables_views(levels@));
    }
    out
}

/// Appending a table leaves earlier numbers' lookups alone and makes the
/// new number find the new table, provided it was absent.
pub proof fn lemma_level_get_push(s: Seq<LevelFileModel>, f: LevelFileModel, k: u64)
    ensures
        has_key(s, k) ==> spec_level_get(s.push(f), k) == spec_level_get(s, k),
        !has_key(s, k) && k == f.file_seq ==> spec_level_get(s.push(f), k) == Some(f.meta),
        !has_key(s, k) && k != f.file_seq ==> spec_level_get(s.push(f), k) is None,
    decreases s.len(),
{
    lemma_level_get_has_key(s, k);
    if s.len() == 0 {
        assert(s.push(f)[0] == f);
        assert(s.push(f).skip(1) =~= s);
    } else {
        assert(s.push(f)[0] == s[0]);
        assert(s.push(f).skip(1) =~= s.skip(1).push(f));
        lemma_level_get_push(s.skip(1), f, k);
        if s[0].file_seq != k {
            lemma_level_get_has_key(s.skip(1), k);
            if has_key(s.skip(1), k) {
                let i = choose|i: int|
                    0 <= i < s.skip(1).len() && (#[trigger] s.skip(1)[i]).file_seq == k;
                assert(s[i + 1].file_seq == k);
                assert(has_key(s, k));
            }
            if has_key(s, k) {
                let i = choose|i: int| 0 <= i < s.len() && (#[trigger] s[i]).file_seq == k;
                assert(s.skip(1)[i - 1].file_seq == k);
                assert(has_key(s.skip(1), k));
            }
        }
    }
}

/// A list ascending step by step ascends across any distance.
pub proof fn lemma_adjacent_ascending(ws: Seq<u64>)
    requires
        forall|a: int| 0 <= a && a + 1 < ws.len() ==> #[trigger] ws[a] < ws[a + 1],
    ensures
        forall|a: int, b: int| 0 <= a < b < ws.len() ==> ws[a] < ws[b],
{
    assert forall|a: int, b: int| 0 <= a < b < ws.len() implies ws[a] < ws[b] by {
        lemma_ascending_pair(ws, a, b);
    }
}

pub proof fn lemma_ascending_pair(ws: Seq<u64>, a: int, b: int)
    requires
        forall|c: int| 0 <= c && c + 1 < ws.len() ==> #[trigger] ws[c] < ws[c + 1],
        0 <= a < b < ws.len(),
    ensures
        ws[a] < ws[b],
    decreases b - a,
{
    if a + 1 == b {
        assert(ws[a] < ws[a + 1]);
    } else {
        lemma_ascending_pair(ws, a + 1, b);
        assert(ws[a] < ws[a + 1]);
    }
}

/// Inputs a manifest can be rebuilt from: log numbers strictly ascending,
/// levels in range, every number positive, below the counter's top, and
/// distinct across the whole listing.
pub open spec fn recover_ok(ws: Seq<u64>, ss: Seq<(usize, u64, SstMeta)>) -> bool {
    &&& forall|i: int, j: int| 0 <= i < j < ws.len() ==> ws[i] < ws[j]
    &&& forall|i: int| 0 <= i < ws.len() ==> 1 <= #[trigger] ws[i] < u64::MAX
    &&& forall|p: int|
        0 <= p < ss.len() ==> LEVEL_MIN <= (#[trigger] ss[p]).0 <= LEVEL_MAX && 1 <= ss[p].1
            < u64::MAX
    &&& forall|p: int, q: int| 0 <= p < q < ss.len() ==> (#[trigger] ss[p]).1 != (#[trigger] ss[q]).1
    &&& forall|i: int, p: int|
        0 <= i < ws.len() && 0 <= p < ss.len() ==> #[trigger] ws[i] != (#[trigger] ss[p]).1
}

/// Rebuilds the manifest a listing describes: the given log files live,
/// each table recorded at its level, and the number counter past every
/// listed file, so fresh allocations stay fresh.
pub fn recover(wal_seqs: Vec<u64>, ssts: Vec<(usize, u64, SstMeta)>) -> (r: EikvResult<Manifest>)
    ensures
        r is Ok <==> recover_ok(wal_seqs@, ssts@),
        match r {
            Ok(m) => {
                &&& m.wf()
                &&& m.wals_view() == wal_seqs@
                &&& forall|p: int|
                    0 <= p < ssts@.len() ==> spec_level_get(
                        m.level_view((#[trigger] ssts@[p]).0 as int),
                        ssts@[p].1,
                    ) == Some(ssts@[p].2@)
                &&& forall|i: int| 0 <= i < wal_seqs@.len() ==> #[trigger] wal_seqs@[i] < m.next_seq()
                &&& forall|p: int| 0 <= p < ssts@.len() ==> (#[trigger] ssts@[p]).1 < m.next_seq()
            },
            Err(e) => e == EikvError::ManifestError,
        },
{
    let nw = wal_seqs.len();
    let ns = ssts.len();
    let mut i: usize = 0;
    while i < nw
        invariant
            nw == wal_seqs@.len(),
            i <= nw,
            forall|a: int| 0 <= a < i && a + 1 < nw ==> #[trigger] wal_seqs@[a] < wal_seqs@[a + 1],
            forall|a: int| 0 <= a < i ==> 1 <= #[trigger] wal_seqs@[a] < u64::MAX,
        decreases nw - i,
    {
        if wal_seqs[i] < 1 || wal_seqs[i] == u64::MAX {
            return Err(EikvError::ManifestError);
        }
        if i + 1 < nw && wal_seqs[i] >= wal_seqs[i + 1] {
            return Err(EikvError::ManifestError);
        }
        i = i + 1;
    }
    proof {
        lemma_adjacent_ascending(wal_seqs@);
    }
    let mut p: usize = 0;
    while p < ns
        invariant
            ns == ssts@.len(),
            nw == wal_seqs@.len(),
            p <= ns,
            forall|a: int|
                0 <= a < p ==> LEVEL_MIN <= (#[trigger] ssts@[a]).0 <= LEVEL_MAX && 1 <= ssts@[a].1
                    < u64::MAX,
            forall|a: int, b: int| 0 <= a < b < p ==> (#[trigger] ssts@[a]).1 != (
            #[trigger] ssts@[b]).1,
            forall|a: int, b: int|
                0 <= a < nw && 0 <= b < p ==> #[trigger] wal_seqs@[a] != (#[trigger] ssts@[b]).1,
        decreases ns - p,
    {
        let (lv, sq, _) = (&ssts[p].0, &ssts[p].1, ());
        if *lv < LEVEL_MIN || *lv > LEVEL_MAX || *sq < 1 || *sq == u64::MAX {
            return Err(EikvError::ManifestError);
        }
        let mut q: usize = 0;
        while q < p
            invariant
                ns == ssts@.len(),
                p < ns,
                q <= p,
                forall|b: int| 0 <= b < q ==> (#[trigger] ssts@[b]).1 != ssts@[p as int].1,
            decreases p - q,
        {
            if ssts[q].1 == ssts[p].1 {
                return Err(EikvError::ManifestError);
            }
            q = q + 1;
        }
        let mut w: usize = 0;
        while w < nw
            invariant
                ns == ssts@.len(),
                nw == wal_seqs@.len(),
                p < ns,
                w <= nw,
                forall|a: int| 0 <= a < w ==> #[trigger] wal_seqs@[a] != ssts@[p as int].1,
            decreases nw - w,
        {
            if wal_seqs[w] == ssts[p].1 {
                return Err(EikvError::ManifestError);
            }
            w = w + 1;
        }
        p = p + 1;
    }
    proof {
        assert(recover_ok(wal_seqs@, ssts@));
    }
    let mut max_seen: u64 = 0;
    let mut i: usize = 0;
    while i < nw
        invariant
            nw == wal_seqs@.len(),
            i <= nw,
            max_seen < u64::MAX,
            forall|a: int| 0 <= a < i ==> #[trigger] wal_seqs@[a] <= max_seen,
            recover_ok(wal_seqs@, ssts@),
        decreases nw - i,
    {
        if wal_seqs[i] > max_seen {
            max_seen = wal_seqs[i];
        }
        i = i + 1;
    }
    let mut p: usize = 0;
    while p < ns
        invariant
            ns == ssts@.len(),
            nw == wal_seqs@.len(),
            p <= ns,
            max_seen < u64::MAX,
            forall|a: int| 0 <= a < nw ==> #[trigger] wal_seqs@[a] <= max_seen,
            forall|a: int| 0 <= a < p ==> (#[trigger] ssts@[a]).1 <= max_seen,
            recover_ok(wal_seqs@, ssts@),
        decreases ns - p,
    {
        if ssts[p].1 > max_seen {
            max_seen = ssts[p].1;
        }
        p = p + 1;
    }
    let mut m = Manifest::new();
    let mut k: usize = 0;
    let mut num: u64 = 1;
    while num <= max_seen
        invariant
            nw == wal_seqs@.len(),
            ns == ssts@.len(),
            max_seen < u64::MAX,
            recover_ok(wal_seqs@, ssts@),
            forall|a: int| 0 <= a < nw ==> #[trigger] wal_seqs@[a] <= max_seen,
            forall|a: int| 0 <= a < ns ==> (#[trigger] ssts@[a]).1 <= max_seen,
            m.wf(),
            1 <= num <= max_seen + 1,
            m.next_seq() == num,
            k <= nw,
            m.wals_view() == wal_seqs@.take(k as int),
            forall|a: int| k <= a < nw ==> #[trigger] wal_seqs@[a] >= num,
            forall|lv: int| LEVEL_MIN <= lv <= LEVEL_MAX ==> (#[trigger] m.level_view(lv)).len()
                == 0,
        decreases max_seen + 1 - num,
    {
        if k < nw && wal_seqs[k] == num {
            let got = m.alloc_wal();
            proof {
                assert(wal_seqs@.take(k + 1) =~= wal_seqs@.take(k as int).push(
                    wal_seqs@[k as int],
                ));
            }
            k = k + 1;
        } else {
            let got = m.alloc_sst(LEVEL_MIN);
        }
        num = num + 1;
    }
    proof {
        assert(k == nw) by {
            if k < nw {
                assert(wal_seqs@[k as int] >= num);
                assert(wal_seqs@[k as int] <= max_seen);
            }
        }
        assert(wal_seqs@.take(nw as int) =~= wal_seqs@);
    }
    let mut rest = ssts;
    let ghost all = rest@;
    let ghost placed: int = 0;
    while rest.len() > 0
        invariant
            all.len() == ns,
            0 <= placed <= ns,
            rest@ =~= all.skip(placed),
            recover_ok(wal_seqs@, all),
            m.wf(),
            m.next_seq() == max_seen + 1,
            max_seen < u64::MAX,
            forall|a: int| 0 <= a < ns ==> (#[trigger] all[a]).1 <= max_seen,
            m.wals_view() == wal_seqs@,
            forall|q: int|
                0 <= q < placed ==> spec_level_get(
                    m.level_view((#[trigger] all[q]).0 as int),
                    all[q].1,
                ) == Some(all[q].2@),
            forall|lv: int, j: int|
                LEVEL_MIN <= lv <= LEVEL_MAX && 0 <= j < m.level_view(lv).len() ==> exists|q: int|
                    0 <= q < placed && (#[trigger] all[q]).0 == lv && all[q].1 == (
                    #[trigger] m.level_view(lv)[j]).file_seq,
        decreases rest@.len(),
    {
        let (lv, sq, meta) = rest.remove(0);
        proof {
            assert(all[placed] == (lv, sq, meta));
            assert(rest@ =~= all.skip(placed + 1));
        }
        let ghost before = m.level_view(lv as int);
        proof {
            assert(!has_key(before, sq)) by {
                if has_key(before, sq) {
                    let j = choose|j: int|
                        0 <= j < before.len() && (#[trigger] before[j]).file_seq == sq;
                    let q = choose|q: int|
                        0 <= q < placed && (#[trigger] all[q]).0 == lv && all[q].1 == before[
                            j
                        ].file_seq;
                    assert(all[q].1 == all[placed as int].1);
                }
            }
            lemma_level_remove_absent_keys(before, sq);
        }
        m.set_sst_meta(lv, sq, meta);
        proof {
            let ghost f = LevelFileModel { file_seq: sq, meta: meta@ };
            assert(m.level_view(lv as int) == before.push(f));
            lemma_level_get_push(before, f, sq);
            assert forall|q: int|
                0 <= q < placed + 1 implies spec_level_get(
                m.level_view((#[trigger] all[q]).0 as int),
                all[q].1,
            ) == Some(all[q].2@) by {
                if q < placed {
                    if all[q].0 == lv {
                        lemma_level_get_has_key_of(before, all[q].1);
                        lemma_level_get_push(before, f, all[q].1);
                    }
                }
            }
            assert forall|lv2: int, j: int|
                LEVEL_MIN <= lv2 <= LEVEL_MAX && 0 <= j < m.level_view(lv2).len() implies exists|
                q: int,
            |
                0 <= q < placed + 1 && (#[trigger] all[q]).0 == lv2 && all[q].1 == (
                #[trigger] m.level_view(lv2)[j]).file_seq by {
                if lv2 == lv && j == m.level_view(lv2).len() - 1 {
                    assert(m.level_view(lv2)[j] == f);
                    assert(all[placed as int].0 == lv2 && all[placed as int].1 == f.file_seq);
                } else {
                    if lv2 == lv {
                        assert(m.level_view(lv2)[j] == before[j]);
                    }
                    let q = choose|q: int|
                        0 <= q < placed && (#[trigger] all[q]).0 == lv2 && all[q].1 == (m.level_view(
                            lv2,
                        )[j]).file_seq;
                    assert(0 <= q < placed + 1);
                }
            }
            placed = placed + 1;
        }
    }
    proof {
        assert(all.skip(placed).len() == 0);
        assert(placed == ns);
    }
    Ok(m)
}

/// Removing an absent number is the identity, phrased over keys.
pub proof fn lemma_level_remove_absent_keys(s: Seq<LevelFileModel>, k: u64)
    requires
        !has_key(s, k),
    ensures
        spec_level_remove(s, k) == s,
{
    assert forall|j: int| 0 <= j < s.len() implies (#[trigger] s[j]).file_seq != k by {
        if s[j].file_seq == k {
            assert(has_key(s, k));
        }
    }
    lemma_level_remove_absent(s, k);
}

/// A recorded lookup names a held key.
pub proof fn lemma_level_get_has_key_of(s: Seq<LevelFileModel>, k: u64)
    ensures
        spec_level_get(s, k) is Some ==> has_key(s, k),
{
    lemma_level_get_has_key(s, k);
}

/// The table numbers of every level, in listing order.
pub open spec fn spec_flat(ls: Seq<Seq<u64>>) -> Seq<u64>
    decreases ls.len(),
{
    if ls.len() == 0 {
        Seq::empty()
    } else {
        ls[0] + spec_flat(ls.skip(1))
    }
}

/// Leading zeros leave a number's reading alone.
pub proof fn lemma_parse_zeros(k: nat, s: Seq<char>)
    ensures
        spec_parse_num(Seq::new(k, |i: int| '0') + s, 0) == spec_parse_num(s, 0),
    decreases k,
{
    if k == 0 {
        assert(Seq::new(0, |i: int| '0') + s =~= s);
    } else {
        let t = Seq::new(k, |i: int| '0') + s;
        assert(t[0] == '0');
        assert(t.skip(1) =~= Seq::new((k - 1) as nat, |i: int| '0') + s);
        lemma_parse_zeros((k - 1) as nat, s);
    }
}

/// Reading one more digit multiplies the number read so far by ten.
pub proof fn lemma_parse_snoc(s: Seq<char>, c: char, acc: int)
    requires
        0 <= acc <= u64::MAX,
    ensures
        spec_parse_num(s.push(c), acc) == (match spec_parse_num(s, acc) {
            Some(m) => {
                if spec_digit_val(c) <= 9 && m * 10 + spec_digit_val(c) <= u64::MAX {
                    Some(((m * 10 + spec_digit_val(c)) as u64))
                } else {
                    None
                }
            },
            None => None,
        }),
    decreases s.len(),
{
    if s.len() == 0 {
        assert(s.push(c)[0] == c);
        assert(s.push(c).skip(1) =~= s);
        let dv = spec_digit_val(c);
        if dv <= 9 && acc * 10 + dv <= u64::MAX {
            assert(spec_parse_num(s, acc * 10 + dv) == Some(((acc * 10 + dv) as u64)));
        }
    } else {
        assert(s.push(c)[0] == s[0]);
        assert(s.push(c).skip(1) =~= s.skip(1).push(c));
        let v = spec_digit_val(s[0]);
        if v <= 9 && acc * 10 + v <= u64::MAX {
            lemma_parse_snoc(s.skip(1), c, acc * 10 + v);
        }
    }
}

/// The decimal digits of a number read back to the number.
pub proof fn lemma_parse_dec(v: u64)
    ensures
        spec_parse_num(spec_dec(v as int), 0) == Some(v),
    decreases v,
{
    if v < 10 {
        assert(spec_digit_val(spec_digit(v as int)) == v);
        assert(spec_dec(v as int) =~= seq![spec_digit(v as int)]);
        assert(spec_dec(v as int).skip(1) =~= Seq::<char>::empty());
        assert(spec_parse_num(spec_dec(v as int).skip(1), v as int) == Some(v));
    } else {
        lemma_parse_dec(v / 10);
        lemma_parse_snoc(spec_dec(v as int / 10), spec_digit(v as int % 10), 0);
        assert(spec_dec(v as int) == spec_dec(v as int / 10).push(spec_digit(v as int % 10)));
        assert(spec_digit_val(spec_digit(v as int % 10)) == v % 10);
        assert((v / 10) * 10 + v % 10 == v);
    }
}

/// The padded digits of a number read back to the number.
pub proof fn lemma_parse_pad(v: u64, width: int)
    ensures
        spec_parse_num(spec_dec_pad(v as int, width), 0) == Some(v),
{
    lemma_parse_dec(v);
    let d = spec_dec(v as int);
    if d.len() < width {
        lemma_parse_zeros((width - d.len()) as nat, d);
    }
}

/// Every character of a number's digits is a digit — never a line break.
pub proof fn lemma_dec_chars(n: int)
    ensures
        forall|i: int|
            0 <= i < spec_dec(n).len() ==> spec_digit_val(#[trigger] spec_dec(n)[i]) <= 9,
    decreases n,
{
    if n < 10 {
    } else {
        lemma_dec_chars(n / 10);
        assert forall|i: int|
            0 <= i < spec_dec(n).len() implies spec_digit_val(#[trigger] spec_dec(n)[i]) <= 9 by {
            if i < spec_dec(n / 10).len() {
                assert(spec_dec(n)[i] == spec_dec(n / 10)[i]);
            } else {
                assert(spec_dec(n)[i] == spec_digit(n % 10));
            }
        }
    }
}

pub proof fn lemma_pad_chars(v: u64, width: int)
    ensures
        forall|i: int|
            0 <= i < spec_dec_pad(v as int, width).len() ==> spec_digit_val(
                #[trigger] spec_dec_pad(v as int, width)[i],
            ) <= 9,
{
    lemma_dec_chars(v as int);
    let d = spec_dec(v as int);
    let p = spec_dec_pad(v as int, width);
    if d.len() < width {
        assert forall|i: int| 0 <= i < p.len() implies spec_digit_val(#[trigger] p[i]) <= 9 by {
            if i < width - d.len() {
                assert(p[i] == '0');
            } else {
                assert(p[i] == d[i - (width - d.len())]);
            }
        }
    }
}

/// A line free of breaks runs to the break that follows it.
pub proof fn lemma_line_len_at(s: Seq<char>, n: int)
    requires
        0 <= n <= s.len(),
        forall|i: int| 0 <= i < n ==> #[trigger] s[i] != '\n',
        n < s.len() ==> s[n] == '\n',
    ensures
        spec_line_len(s) == n,
    decreases n,
{
    if n == 0 {
    } else {
        assert(s[0] != '\n');
        assert(forall|i: int| 0 <= i < n - 1 ==> #[trigger] s.skip(1)[i] == s[i + 1]);
        if n - 1 < s.skip(1).len() {
            assert(s.skip(1)[n - 1] == s[n]);
        }
        lemma_line_len_at(s.skip(1), n - 1);
    }
}

/// The log lines of a listing read back as the log numbers they carry.
pub proof fn lemma_dec_wal_lines(ws: Seq<u64>, x: Seq<char>)
    ensures
        spec_listing_dec(spec_wal_lines(ws) + x) == (match spec_listing_dec(x) {
            Ok((w2, s2)) => Ok::<(Seq<u64>, Seq<u64>), EikvError>((ws + w2, s2)),
            Err(e) => Err(e),
        }),
    decreases ws.len(),
{
    reveal_strlit(".wal");
    reveal_strlit(".sst");
    if ws.len() == 0 {
        assert(spec_wal_lines(ws) + x =~= x);
        match spec_listing_dec(x) {
            Ok((w2, s2)) => {
                assert(ws + w2 =~= w2);
            },
            Err(_) => {},
        }
    } else {
        let v = ws[0];
        let stem = spec_dec_pad(v as int, 6);
        let line = stem + ".wal"@;
        let s = spec_wal_lines(ws) + x;
        let rest = spec_wal_lines(ws.skip(1)) + x;
        assert(s =~= line + seq!['\n'] + rest);
        lemma_pad_chars(v, 6);
        assert(".wal"@ =~= seq!['.', 'w', 'a', 'l']);
        assert forall|i: int| 0 <= i < line.len() implies #[trigger] s[i] != '\n' by {
            if i < stem.len() {
                assert(s[i] == stem[i]);
                assert(spec_digit_val(stem[i]) <= 9);
            } else {
                assert(s[i] == ".wal"@[i - stem.len()]);
            }
        }
        assert(s[line.len() as int] == '\n');
        lemma_line_len_at(s, line.len() as int);
        assert(s.subrange(0, line.len() as int) =~= line);
        assert(line.subrange(line.len() - 4, line.len() as int) =~= ".wal"@);
        assert(line.subrange(0, line.len() - 4) =~= stem);
        lemma_parse_pad(v, 6);
        assert(s.skip(line.len() as int + 1) =~= rest);
        lemma_dec_wal_lines(ws.skip(1), x);
        match spec_listing_dec(x) {
            Ok((w2, s2)) => {
                assert(seq![v] + (ws.skip(1) + w2) =~= ws + w2);
            },
            Err(_) => {},
        }
    }
}

/// One level's table lines read back as the table numbers they carry.
pub proof fn lemma_dec_sst_lines(ss: Seq<u64>, x: Seq<char>)
    ensures
        spec_listing_dec(spec_sst_lines(ss) + x) == (match spec_listing_dec(x) {
            Ok((w2, s2)) => Ok::<(Seq<u64>, Seq<u64>), EikvError>((w2, ss + s2)),
            Err(e) => Err(e),
        }),
    decreases ss.len(),
{
    reveal_strlit(".wal");
    reveal_strlit(".sst");
    if ss.len() == 0 {
        assert(spec_sst_lines(ss) + x =~= x);
        match spec_listing_dec(x) {
            Ok((w2, s2)) => {
                assert(ss + s2 =~= s2);
            },
            Err(_) => {},
        }
    } else {
        let v = ss[0];
        let stem = spec_dec_pad(v as int, 6);
        let line = stem + ".sst"@;
        let s = spec_sst_lines(ss) + x;
        let rest = spec_sst_lines(ss.skip(1)) + x;
        assert(s =~= line + seq!['\n'] + rest);
        lemma_pad_chars(v, 6);
        assert(".sst"@ =~= seq!['.', 's', 's', 't']);
        assert(".wal"@ =~= seq!['.', 'w', 'a', 'l']);
        assert forall|i: int| 0 <= i < line.len() implies #[trigger] s[i] != '\n' by {
            if i < stem.len() {
                assert(s[i] == stem[i]);
                assert(spec_digit_val(stem[i]) <= 9);
            } else {
                assert(s[i] == ".sst"@[i - stem.len()]);
            }
        }
        assert(s[line.len() as int] == '\n');
        lemma_line_len_at(s, line.len() as int);
        assert(s.subrange(0, line.len() as int) =~= line);
        assert(line.subrange(line.len() - 4, line.len() as int) =~= ".sst"@);
        assert(line.subrange(line.len() - 4, line.len() as int) != ".wal"@) by {
            assert(".sst"@[1] != ".wal"@[1]);
        }
        assert(line.subrange(0, line.len() - 4) =~= stem);
        lemma_parse_pad(v, 6);
        assert(s.skip(line.len() as int + 1) =~= rest);
        lemma_dec_sst_lines(ss.skip(1), x);
        match spec_listing_dec(x) {
            Ok((w2, s2)) => {
                assert(seq![v] + (ss.skip(1) + s2) =~= ss + s2);
            },
            Err(_) => {},
        }
    }
}

/// Every level's table lines read back as the flattened numbers.
pub proof fn lemma_dec_sst_lines_all(ls: Seq<Seq<u64>>, x: Seq<char>)
    ensures
        spec_listing_dec(spec_sst_lines_all(ls) + x) == (match spec_listing_dec(x) {
            Ok((w2, s2)) => Ok::<(Seq<u64>, Seq<u64>), EikvError>((w2, spec_flat(ls) + s2)),
            Err(e) => Err(e),
        }),
    decreases ls.len(),
{
    if ls.len() == 0 {
        assert(spec_sst_lines_all(ls) + x =~= x);
        match spec_listing_dec(x) {
            Ok((w2, s2)) => {
                assert(spec_flat(ls) + s2 =~= s2);
            },
            Err(_) => {},
        }
    } else {
        let rest = spec_sst_lines_all(ls.skip(1)) + x;
        assert(spec_sst_lines_all(ls) + x =~= spec_sst_lines(ls[0]) + rest);
        lemma_dec_sst_lines_all(ls.skip(1), x);
        lemma_dec_sst_lines(ls[0], rest);
        match spec_listing_dec(x) {
            Ok((w2, s2)) => {
                assert(ls[0] + (spec_flat(ls.skip(1)) + s2) =~= spec_flat(ls) + s2);
            },
            Err(_) => {},
        }
    }
}

/// A rendered listing reads back to exactly the numbers it was rendered
/// from: the log files in order and every level's tables flattened in
/// level order. With `recover`, loading after a dump restores the state.
pub proof fn lemma_listing_round_trip(ws: Seq<u64>, ls: Seq<Seq<u64>>)
    ensures
        spec_listing_dec(spec_listing_enc(ws, ls)) == Ok::<(Seq<u64>, Seq<u64>), EikvError>(
            (ws, spec_flat(ls)),
        ),
{
    let x = spec_sst_lines_all(ls);
    assert(spec_listing_enc(ws, ls) =~= spec_wal_lines(ws) + x);
    assert(x =~= x + Seq::<char>::empty());
    lemma_dec_sst_lines_all(ls, Seq::empty());
    assert(spec_listing_dec(Seq::<char>::empty()) == Ok::<(Seq<u64>, Seq<u64>), EikvError>(
        (Seq::empty(), Seq::empty()),
    ));
    assert(spec_flat(ls) + Seq::<u64>::empty() =~= spec_flat(ls));
    lemma_dec_wal_lines(ws, x);
    assert(ws + Seq::<u64>::empty() =~= ws);
}

} // verus!
