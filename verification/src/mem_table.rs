//! The in-memory tables: entries held in ascending `(key, sequence)`
//! order. The mutable table takes new writes; the immutable one holds a
//! frozen table until it is dumped to a sorted string table.
use vstd::prelude::*;

use crate::entry::{
    compare_bytes, compare_entries, entry_lt, lemma_bytes_trichotomy, Entry, EntryModel,
};
use crate::error::{EikvError, EikvResult};
use crate::wal::{batch_views, read_wal_records, spec_wal_dec};
use crate::write_batch::WriteBatch;

verus! {

/// Strictly ascending in the entry order: no two entries share a key and
/// a sequence.
pub open spec fn sorted(s: Seq<EntryModel>) -> bool {
    forall|i: int, j: int| 0 <= i < j < s.len() ==> entry_lt(#[trigger] s[i], #[trigger] s[j])
}

/// Where an entry lands: after every entry below it. An entry already
/// present under the same key and sequence is kept unchanged.
pub open spec fn spec_table_insert(s: Seq<EntryModel>, e: EntryModel) -> Seq<EntryModel>
    decreases s.len(),
{
    if s.len() == 0 {
        seq![e]
    } else if entry_lt(s[0], e) {
        seq![s[0]] + spec_table_insert(s.skip(1), e)
    } else if s[0].key == e.key && s[0].seq == e.seq {
        s
    } else {
        seq![e] + s
    }
}

/// The point lookup: scanning from the top of the order, the first entry
/// under the key whose sequence does not exceed the guard — on a sorted
/// table, the match with the greatest sequence at most the guard.
pub open spec fn spec_table_get(s: Seq<EntryModel>, key: Seq<u8>, guard: u64) -> Option<EntryModel>
    decreases s.len(),
{
    if s.len() == 0 {
        None
    } else {
        let last = s[s.len() - 1];
        if last.key == key && last.seq <= guard {
            Some(last)
        } else {
            spec_table_get(s.drop_last(), key, guard)
        }
    }
}

/// Inserting every entry of a batch in order.
pub open spec fn spec_update(s: Seq<EntryModel>, es: Seq<EntryModel>) -> Seq<EntryModel>
    decreases es.len(),
{
    if es.len() == 0 {
        s
    } else {
        spec_update(spec_table_insert(s, es[0]), es.skip(1))
    }
}

/// The lexicographic order on byte strings is transitive.
pub proof fn lemma_bytes_lt_trans(a: Seq<u8>, b: Seq<u8>, c: Seq<u8>)
    requires
        crate::entry::bytes_lt(a, b),
        crate::entry::bytes_lt(b, c),
    ensures
        crate::entry::bytes_lt(a, c),
    decreases a.len(),
{
    if a.len() == 0 {
    } else if b.len() == 0 {
    } else if c.len() == 0 {
    } else {
        if a[0] == b[0] && b[0] == c[0] {
            lemma_bytes_lt_trans(a.skip(1), b.skip(1), c.skip(1));
        }
    }
}

/// The entry order is transitive.
pub proof fn lemma_entry_lt_trans(a: EntryModel, b: EntryModel, c: EntryModel)
    requires
        entry_lt(a, b),
        entry_lt(b, c),
    ensures
        entry_lt(a, c),
{
    lemma_bytes_trichotomy(a.key, b.key);
    lemma_bytes_trichotomy(b.key, c.key);
    lemma_bytes_trichotomy(a.key, c.key);
    if crate::entry::bytes_lt(a.key, b.key) && crate::entry::bytes_lt(b.key, c.key) {
        lemma_bytes_lt_trans(a.key, b.key, c.key);
    }
}

/// Of two entries, exactly one of below, same place, above holds.
pub proof fn lemma_entry_trichotomy(a: EntryModel, b: EntryModel)
    ensures
        entry_lt(a, b) || (a.key == b.key && a.seq == b.seq) || entry_lt(b, a),
        entry_lt(a, b) ==> !entry_lt(b, a) && !(a.key == b.key && a.seq == b.seq),
{
    lemma_bytes_trichotomy(a.key, b.key);
}

/// What an insertion holds: everything it holds was there or is the new
/// entry, and everything that was there it still holds.
pub proof fn lemma_insert_members(s: Seq<EntryModel>, e: EntryModel)
    ensures
        forall|x: EntryModel|
            #[trigger] spec_table_insert(s, e).contains(x) ==> s.contains(x) || x == e,
        forall|x: EntryModel| s.contains(x) ==> #[trigger] spec_table_insert(s, e).contains(x),
        spec_table_insert(s, e).contains(e) || (exists|i: int|
            0 <= i < s.len() && (#[trigger] s[i]).key == e.key && s[i].seq == e.seq),
    decreases s.len(),
{
    let r = spec_table_insert(s, e);
    if s.len() == 0 {
        assert(r[0] == e);
        assert(r.contains(e));
    } else if entry_lt(s[0], e) {
        lemma_insert_members(s.skip(1), e);
        let r1 = spec_table_insert(s.skip(1), e);
        assert forall|x: EntryModel| #[trigger] r.contains(x) implies s.contains(x) || x == e by {
            let i = choose|i: int| 0 <= i < r.len() && r[i] == x;
            if i == 0 {
                assert(s.contains(s[0]));
            } else {
                assert(r1[i - 1] == x);
                assert(r1.contains(x));
                if s.skip(1).contains(x) {
                    let j = choose|j: int| 0 <= j < s.skip(1).len() && s.skip(1)[j] == x;
                    assert(s[j + 1] == x);
                    assert(s.contains(x));
                }
            }
        }
        assert forall|x: EntryModel| s.contains(x) implies #[trigger] r.contains(x) by {
            let i = choose|i: int| 0 <= i < s.len() && s[i] == x;
            if i == 0 {
                assert(r[0] == x);
            } else {
                assert(s.skip(1)[i - 1] == x);
                assert(s.skip(1).contains(x));
                assert(r1.contains(x));
                let j = choose|j: int| 0 <= j < r1.len() && r1[j] == x;
                assert(r[j + 1] == x);
            }
        }
        if r1.contains(e) {
            let j = choose|j: int| 0 <= j < r1.len() && r1[j] == e;
            assert(r[j + 1] == e);
            assert(r.contains(e));
        } else {
            let i = choose|i: int|
                0 <= i < s.skip(1).len() && (#[trigger] s.skip(1)[i]).key == e.key && s.skip(
                    1,
                )[i].seq == e.seq;
            assert(s[i + 1].key == e.key && s[i + 1].seq == e.seq);
        }
    } else if s[0].key == e.key && s[0].seq == e.seq {
        assert(s[0].key == e.key && s[0].seq == e.seq);
    } else {
        assert(r[0] == e);
        assert(r.contains(e));
        assert forall|x: EntryModel| #[trigger] r.contains(x) implies s.contains(x) || x == e by {
            let i = choose|i: int| 0 <= i < r.len() && r[i] == x;
            if i > 0 {
                assert(s[i - 1] == x);
                assert(s.contains(x));
            }
        }
        assert forall|x: EntryModel| s.contains(x) implies #[trigger] r.contains(x) by {
            let i = choose|i: int| 0 <= i < s.len() && s[i] == x;
            assert(r[i + 1] == x);
        }
    }
}

/// Insertion keeps the table sorted.
pub proof fn lemma_insert_sorted(s: Seq<EntryModel>, e: EntryModel)
    requires
        sorted(s),
    ensures
        sorted(spec_table_insert(s, e)),
    decreases s.len(),
{
    let r = spec_table_insert(s, e);
    if s.len() == 0 {
    } else if entry_lt(s[0], e) {
        assert(sorted(s.skip(1))) by {
            assert(forall|i: int, j: int|
                0 <= i < j < s.skip(1).len() ==> s.skip(1)[i] == s[i + 1] && s.skip(1)[j] == s[j
                    + 1]);
        }
        lemma_insert_sorted(s.skip(1), e);
        lemma_insert_members(s.skip(1), e);
        let r1 = spec_table_insert(s.skip(1), e);
        assert forall|i: int, j: int| 0 <= i < j < r.len() implies entry_lt(
            #[trigger] r[i],
            #[trigger] r[j],
        ) by {
            if i == 0 {
                assert(r[j] == r1[j - 1]);
                assert(r1.contains(r1[j - 1]));
                if s.skip(1).contains(r1[j - 1]) {
                    let k = choose|k: int| 0 <= k < s.skip(1).len() && s.skip(1)[k] == r1[j - 1];
                    assert(s[k + 1] == r1[j - 1]);
                    assert(entry_lt(s[0], s[k + 1]));
                } else {
                    assert(r1[j - 1] == e);
                }
            } else {
                assert(r[i] == r1[i - 1] && r[j] == r1[j - 1]);
            }
        }
    } else if s[0].key == e.key && s[0].seq == e.seq {
    } else {
        lemma_entry_trichotomy(s[0], e);
        assert(entry_lt(e, s[0]));
        assert forall|i: int, j: int| 0 <= i < j < r.len() implies entry_lt(
            #[trigger] r[i],
            #[trigger] r[j],
        ) by {
            if i == 0 {
                if j == 1 {
                } else {
                    lemma_entry_lt_trans(e, s[0], s[j - 1]);
                }
            }
        }
    }
}

/// What the lookup returns on a sorted table: a held entry under the key
/// within the guard, with the greatest sequence among those; or nothing
/// when the table holds no such entry.
pub proof fn lemma_get_characterization(s: Seq<EntryModel>, key: Seq<u8>, guard: u64)
    requires
        sorted(s),
    ensures
        match spec_table_get(s, key, guard) {
            Some(e) => s.contains(e) && e.key == key && e.seq <= guard && (forall|x: EntryModel|
                s.contains(x) && x.key == key && x.seq <= guard ==> x.seq <= e.seq),
            None => forall|x: EntryModel| s.contains(x) ==> !(x.key == key && x.seq <= guard),
        },
    decreases s.len(),
{
    if s.len() == 0 {
    } else {
        let last = s[s.len() - 1];
        let front = s.drop_last();
        assert(sorted(front)) by {
            assert(forall|i: int, j: int|
                0 <= i < j < front.len() ==> front[i] == s[i] && front[j] == s[j]);
        }
        if last.key == key && last.seq <= guard {
            assert(s.contains(last));
            assert forall|x: EntryModel|
                s.contains(x) && x.key == key && x.seq <= guard implies x.seq <= last.seq by {
                let i = choose|i: int| 0 <= i < s.len() && s[i] == x;
                if i < s.len() - 1 {
                    assert(entry_lt(s[i], last));
                    lemma_bytes_trichotomy(x.key, last.key);
                }
            }
        } else {
            lemma_get_characterization(front, key, guard);
            assert forall|x: EntryModel| s.contains(x) implies (front.contains(x) || x
                == last) by {
                let i = choose|i: int| 0 <= i < s.len() && s[i] == x;
                if i < s.len() - 1 {
                    assert(front[i] == x);
                }
            }
            assert(forall|x: EntryModel| front.contains(x) ==> s.contains(x)) by {
                assert(forall|i: int| 0 <= i < front.len() ==> front[i] == s[i]);
            }
            match spec_table_get(front, key, guard) {
                Some(e) => {
                    assert(front.contains(e));
                },
                None => {},
            }
        }
    }
}

/// On a sorted table no two entries share a key and a sequence, so the
/// lookup's answer is pinned to the one entry it describes.
pub proof fn lemma_sorted_unique(s: Seq<EntryModel>, a: EntryModel, b: EntryModel)
    requires
        sorted(s),
        s.contains(a),
        s.contains(b),
        a.key == b.key,
        a.seq == b.seq,
    ensures
        a == b,
{
    let i = choose|i: int| 0 <= i < s.len() && s[i] == a;
    let j = choose|j: int| 0 <= j < s.len() && s[j] == b;
    if i < j {
        assert(entry_lt(s[i], s[j]));
        lemma_bytes_trichotomy(a.key, b.key);
    } else if j < i {
        assert(entry_lt(s[j], s[i]));
        lemma_bytes_trichotomy(a.key, b.key);
    }
}

/// After inserting an entry whose sequence is new for its key, a lookup
/// under that key returns it, provided no other entry under the key sits
/// between it and the guard.
pub proof fn lemma_get_after_insert(s: Seq<EntryModel>, e: EntryModel, guard: u64)
    requires
        sorted(s),
        e.seq <= guard,
        forall|x: EntryModel|
            s.contains(x) && (#[trigger] x.key) == e.key ==> x.seq < e.seq || x.seq > guard,
    ensures
        spec_table_get(spec_table_insert(s, e), e.key, guard) == Some(e),
{
    let r = spec_table_insert(s, e);
    lemma_insert_sorted(s, e);
    lemma_insert_members(s, e);
    assert(r.contains(e)) by {
        if !r.contains(e) {
            let i = choose|i: int|
                0 <= i < s.len() && (#[trigger] s[i]).key == e.key && s[i].seq == e.seq;
            assert(s.contains(s[i]));
        }
    }
    lemma_get_characterization(r, e.key, guard);
    match spec_table_get(r, e.key, guard) {
        Some(g) => {
            assert(g.seq <= guard);
            assert(e.seq <= g.seq);
            if s.contains(g) {
                assert(g.seq < e.seq || g.seq > guard);
            }
            assert(g == e);
        },
        None => {
            assert(false);
        },
    }
}

/// A lookup under a different key does not see the insertion.
pub proof fn lemma_get_other_key(s: Seq<EntryModel>, e: EntryModel, key: Seq<u8>, guard: u64)
    requires
        sorted(s),
        key != e.key,
    ensures
        spec_table_get(spec_table_insert(s, e), key, guard) == spec_table_get(s, key, guard),
{
    let r = spec_table_insert(s, e);
    lemma_insert_sorted(s, e);
    lemma_insert_members(s, e);
    lemma_get_characterization(r, key, guard);
    lemma_get_characterization(s, key, guard);
    match spec_table_get(r, key, guard) {
        Some(g) => {
            assert(g != e);
            assert(s.contains(g));
            match spec_table_get(s, key, guard) {
                Some(h) => {
                    assert(r.contains(h));
                    assert(g.seq <= h.seq && h.seq <= g.seq);
                    lemma_sorted_unique(s, g, h);
                },
                None => {
                    assert(false);
                },
            }
        },
        None => {
            match spec_table_get(s, key, guard) {
                Some(h) => {
                    assert(r.contains(h));
                    assert(false);
                },
                None => {},
            }
        },
    }
}

/// An ordered table of entries.
pub struct Table {
    entries: Vec<Entry>,
}

impl View for Table {
    type V = Seq<EntryModel>;

    closed spec fn view(&self) -> Seq<EntryModel> {
        crate::write_batch::seq_views(self.entries@)
    }
}

impl Table {
    pub fn new() -> (r: Table)
        ensures
            r@ == Seq::<EntryModel>::empty(),
            sorted(r@),
    {
        let r = Table { entries: Vec::new() };
        proof {
            assert(r@ =~= Seq::<EntryModel>::empty());
        }
        r
    }

    pub fn len(&self) -> (r: usize)
        ensures
            r == self@.len(),
    {
        self.entries.len()
    }

    /// The entries in ascending order.
    pub fn entries(&self) -> (r: &Vec<Entry>)
        ensures
            crate::write_batch::seq_views(r@) == self@,
    {
        &self.entries
    }

    /// The index the entry belongs at: past every entry below it.
    fn insert_pos(&self, e: &Entry) -> (i: usize)
        ensures
            i <= self@.len(),
            forall|j: int| 0 <= j < i ==> entry_lt(#[trigger] self@[j], e@),
            i < self@.len() ==> !entry_lt(self@[i as int], e@),
    {
        let ghost s = self@;
        let n = self.entries.len();
        let mut i: usize = 0;
        while i < n
            invariant
                n == self.entries@.len(),
                s == crate::write_batch::seq_views(self.entries@),
                i <= n,
                forall|j: int| 0 <= j < i ==> entry_lt(#[trigger] s[j], e@),
            decreases n - i,
        {
            let c = compare_entries(&self.entries[i], e);
            proof {
                assert(s[i as int] == self.entries@[i as int]@);
            }
            if !matches!(c, core::cmp::Ordering::Less) {
                return i;
            }
            i = i + 1;
        }
        i
    }

    /// Places the entry in order; an entry already present under the same
    /// key and sequence is kept.
    pub fn insert(&mut self, e: Entry)
        requires
            sorted(old(self)@),
        ensures
            final(self)@ == spec_table_insert(old(self)@, e@),
            sorted(final(self)@),
    {
        proof {
            lemma_insert_sorted(old(self)@, e@);
        }
        let ghost s = self@;
        let n = self.entries.len();
        let i = self.insert_pos(&e);
        if i < n {
            let c = compare_entries(&self.entries[i], &e);
            proof {
                assert(s[i as int] == self.entries@[i as int]@);
            }
            if matches!(c, core::cmp::Ordering::Equal) {
                proof {
                    lemma_insert_at(s, e@, i as int);
                }
                return ;
            }
            proof {
                lemma_entry_trichotomy(s[i as int], e@);
            }
        }
        proof {
            lemma_insert_at(s, e@, i as int);
        }
        self.entries.insert(i, e);
        proof {
            assert(crate::write_batch::seq_views(self.entries@) =~= s.take(i as int) + seq![e@]
                + s.skip(i as int));
        }
    }

    /// The entry under `key` with the greatest sequence at most
    /// `seq_guard`, if the table holds one.
    pub fn get(&self, key: &[u8], seq_guard: u64) -> (r: Option<&Entry>)
        ensures
            match r {
                Some(e) => spec_table_get(self@, key@, seq_guard) == Some(e@),
                None => spec_table_get(self@, key@, seq_guard) is None,
            },
    {
        let ghost s = self@;
        let mut i: usize = self.entries.len();
        proof {
            assert(s.take(i as int) =~= s);
        }
        while i > 0
            invariant
                i <= self.entries@.len(),
                s == crate::write_batch::seq_views(self.entries@),
                spec_table_get(s.take(i as int), key@, seq_guard) == spec_table_get(
                    s,
                    key@,
                    seq_guard,
                ),
            decreases i,
        {
            i = i - 1;
            let entry = &self.entries[i];
            proof {
                assert(s[i as int] == self.entries@[i as int]@);
                assert(s.take(i + 1).drop_last() =~= s.take(i as int));
                assert(s.take(i + 1)[i as int] == s[i as int]);
            }
            let key_cmp = compare_bytes(entry.key.as_slice(), key);
            if matches!(key_cmp, core::cmp::Ordering::Equal) && entry.seq <= seq_guard {
                return Some(entry);
            }
        }
        proof {
            assert(s.take(0).len() == 0);
        }
        None
    }
}

/// The position an entry lands at: past the entries below it.
pub proof fn lemma_insert_at(s: Seq<EntryModel>, e: EntryModel, i: int)
    requires
        0 <= i <= s.len(),
        forall|j: int| 0 <= j < i ==> entry_lt(#[trigger] s[j], e),
        i < s.len() ==> !entry_lt(s[i], e),
    ensures
        spec_table_insert(s, e) == (if i < s.len() && s[i].key == e.key && s[i].seq == e.seq {
            s
        } else {
            s.take(i) + seq![e] + s.skip(i)
        }),
    decreases i,
{
    if i == 0 {
        if s.len() == 0 {
            assert(spec_table_insert(s, e) =~= s.take(0) + seq![e] + s.skip(0));
        } else {
            assert(!entry_lt(s[0], e));
            if s[0].key == e.key && s[0].seq == e.seq {
            } else {
                assert(seq![e] + s =~= s.take(0) + seq![e] + s.skip(0));
            }
        }
    } else {
        assert(entry_lt(s[0], e));
        let s1 = s.skip(1);
        assert(forall|j: int| 0 <= j < i - 1 ==> s1[j] == s[j + 1] && entry_lt(
            #[trigger] s[j + 1],
            e,
        ));
        assert(forall|j: int| 0 <= j < i - 1 ==> entry_lt(#[trigger] s1[j], e));
        if i - 1 < s1.len() {
            assert(s1[i - 1] == s[i]);
        }
        lemma_insert_at(s1, e, i - 1);
        if i < s.len() && s[i].key == e.key && s[i].seq == e.seq {
            assert(seq![s[0]] + s1 =~= s);
        } else {
            assert(seq![s[0]] + (s1.take(i - 1) + seq![e] + s1.skip(i - 1)) =~= s.take(i) + seq![e]
                + s.skip(i));
        }
    }
}

/// Replaying batches in commit order: every entry of every batch, in order.
pub open spec fn spec_replay(s: Seq<EntryModel>, bs: Seq<Seq<EntryModel>>) -> Seq<EntryModel>
    decreases bs.len(),
{
    if bs.len() == 0 {
        s
    } else {
        spec_replay(spec_update(s, bs[0]), bs.skip(1))
    }
}

/// The greatest sequence seen in the entries, starting from `acc`.
pub open spec fn seq_max_seq(acc: u64, es: Seq<EntryModel>) -> u64
    decreases es.len(),
{
    if es.len() == 0 {
        acc
    } else {
        seq_max_seq(if acc >= es[0].seq { acc } else { es[0].seq }, es.skip(1))
    }
}

/// The greatest sequence seen in the batches, starting from `acc`.
pub open spec fn wal_max_seq(acc: u64, bs: Seq<Seq<EntryModel>>) -> u64
    decreases bs.len(),
{
    if bs.len() == 0 {
        acc
    } else {
        wal_max_seq(seq_max_seq(acc, bs[0]), bs.skip(1))
    }
}

pub proof fn lemma_update_snoc(s: Seq<EntryModel>, es: Seq<EntryModel>, e: EntryModel)
    ensures
        spec_update(s, es.push(e)) == spec_table_insert(spec_update(s, es), e),
    decreases es.len(),
{
    if es.len() == 0 {
        assert(es.push(e)[0] == e);
        assert(es.push(e).skip(1) =~= es);
        assert(spec_update(spec_table_insert(s, e), es) == spec_table_insert(s, e));
        assert(spec_update(s, es) == s);
    } else {
        assert(es.push(e)[0] == es[0]);
        assert(es.push(e).skip(1) =~= es.skip(1).push(e));
        lemma_update_snoc(spec_table_insert(s, es[0]), es.skip(1), e);
    }
}

pub proof fn lemma_max_snoc(acc: u64, es: Seq<EntryModel>, e: EntryModel)
    ensures
        seq_max_seq(acc, es.push(e)) == (if seq_max_seq(acc, es) >= e.seq {
            seq_max_seq(acc, es)
        } else {
            e.seq
        }),
    decreases es.len(),
{
    if es.len() == 0 {
        assert(es.push(e)[0] == e);
        assert(es.push(e).skip(1) =~= es);
        let m1 = if acc >= e.seq { acc } else { e.seq };
        assert(seq_max_seq(m1, es) == m1);
        assert(seq_max_seq(acc, es) == acc);
    } else {
        assert(es.push(e)[0] == es[0]);
        assert(es.push(e).skip(1) =~= es.skip(1).push(e));
        lemma_max_snoc(if acc >= es[0].seq { acc } else { es[0].seq }, es.skip(1), e);
    }
}

pub proof fn lemma_replay_snoc(s: Seq<EntryModel>, bs: Seq<Seq<EntryModel>>, b: Seq<EntryModel>)
    ensures
        spec_replay(s, bs.push(b)) == spec_update(spec_replay(s, bs), b),
    decreases bs.len(),
{
    if bs.len() == 0 {
        assert(bs.push(b)[0] == b);
        assert(bs.push(b).skip(1) =~= bs);
        assert(spec_replay(spec_update(s, b), bs) == spec_update(s, b));
        assert(spec_replay(s, bs) == s);
    } else {
        assert(bs.push(b)[0] == bs[0]);
        assert(bs.push(b).skip(1) =~= bs.skip(1).push(b));
        lemma_replay_snoc(spec_update(s, bs[0]), bs.skip(1), b);
    }
}

pub proof fn lemma_wal_max_snoc(acc: u64, bs: Seq<Seq<EntryModel>>, b: Seq<EntryModel>)
    ensures
        wal_max_seq(acc, bs.push(b)) == seq_max_seq(wal_max_seq(acc, bs), b),
    decreases bs.len(),
{
    if bs.len() == 0 {
        assert(bs.push(b)[0] == b);
        assert(bs.push(b).skip(1) =~= bs);
        assert(wal_max_seq(seq_max_seq(acc, b), bs) == seq_max_seq(acc, b));
        assert(wal_max_seq(acc, bs) == acc);
    } else {
        assert(bs.push(b)[0] == bs[0]);
        assert(bs.push(b).skip(1) =~= bs.skip(1).push(b));
        lemma_wal_max_snoc(seq_max_seq(acc, bs[0]), bs.skip(1), b);
    }
}

/// Updating with a batch keeps the table sorted.
pub proof fn lemma_update_sorted(s: Seq<EntryModel>, es: Seq<EntryModel>)
    requires
        sorted(s),
    ensures
        sorted(spec_update(s, es)),
    decreases es.len(),
{
    if es.len() > 0 {
        lemma_insert_sorted(s, es[0]);
        lemma_update_sorted(spec_table_insert(s, es[0]), es.skip(1));
    }
}

/// The visible value of a key: what the newest entry under it holds —
/// nothing when there is none, or when it is a tombstone.
pub open spec fn visible_value(s: Seq<EntryModel>, key: Seq<u8>) -> Option<Seq<u8>> {
    match spec_table_get(s, key, u64::MAX) {
        Some(e) => e.value,
        None => None,
    }
}

/// A put is readable: inserting a value entry under a sequence fresher
/// than every entry of its key makes that value the visible one.
pub proof fn lemma_put_get_round_trip(s: Seq<EntryModel>, key: Seq<u8>, v: Seq<u8>, n: u64)
    requires
        sorted(s),
        forall|x: EntryModel| s.contains(x) && (#[trigger] x.key) == key ==> x.seq < n,
    ensures
        visible_value(
            spec_table_insert(s, EntryModel { key, seq: n, value: Some(v) }),
            key,
        ) == Some(v),
{
    lemma_get_after_insert(s, EntryModel { key, seq: n, value: Some(v) }, u64::MAX);
}

/// A delete is readable: inserting a fresh tombstone hides the key.
pub proof fn lemma_delete_hides(s: Seq<EntryModel>, key: Seq<u8>, n: u64)
    requires
        sorted(s),
        forall|x: EntryModel| s.contains(x) && (#[trigger] x.key) == key ==> x.seq < n,
    ensures
        visible_value(
            spec_table_insert(s, EntryModel { key, seq: n, value: None }),
            key,
        ) is None,
{
    lemma_get_after_insert(s, EntryModel { key, seq: n, value: None }, u64::MAX);
}

/// Writes under one key leave every other key's visible value alone.
pub proof fn lemma_write_other_key(s: Seq<EntryModel>, e: EntryModel, key: Seq<u8>)
    requires
        sorted(s),
        key != e.key,
    ensures
        visible_value(spec_table_insert(s, e), key) == visible_value(s, key),
{
    lemma_get_other_key(s, e, key, u64::MAX);
}

/// The lookup across the two tables: the mutable one wins.
pub open spec fn spec_memtable_get(
    mt: Seq<EntryModel>,
    it: Seq<EntryModel>,
    key: Seq<u8>,
    guard: u64,
) -> Option<EntryModel> {
    match spec_table_get(mt, key, guard) {
        Some(e) => Some(e),
        None => spec_table_get(it, key, guard),
    }
}

/// The pair of tables: the mutable sink for new writes, and at most one
/// frozen table awaiting its dump.
pub struct MemTable {
    mut_table: Table,
    immut_table: Table,
}

impl MemTable {
    pub closed spec fn mut_view(&self) -> Seq<EntryModel> {
        self.mut_table@
    }

    pub closed spec fn immut_view(&self) -> Seq<EntryModel> {
        self.immut_table@
    }

    pub open spec fn wf(&self) -> bool {
        sorted(self.mut_view()) && sorted(self.immut_view())
    }

    pub fn new() -> (r: MemTable)
        ensures
            r.wf(),
            r.mut_view() == Seq::<EntryModel>::empty(),
            r.immut_view() == Seq::<EntryModel>::empty(),
    {
        MemTable { mut_table: Table::new(), immut_table: Table::new() }
    }

    /// Applies every entry of the batch to the mutable table, in order.
    pub fn update(&mut self, write_batch: &WriteBatch)
        requires
            old(self).wf(),
        ensures
            final(self).wf(),
            final(self).mut_view() == spec_update(old(self).mut_view(), write_batch@),
            final(self).immut_view() == old(self).immut_view(),
    {
        let entries = write_batch.entries();
        let ghost es = write_batch@;
        let n = entries.len();
        let mut i: usize = 0;
        proof {
            assert(es.take(0).len() == 0);
        }
        while i < n
            invariant
                n == entries@.len(),
                es == crate::write_batch::seq_views(entries@),
                i <= n,
                sorted(self.mut_table@),
                self.mut_table@ == spec_update(old(self).mut_view(), es.take(i as int)),
                self.immut_table@ == old(self).immut_view(),
            decreases n - i,
        {
            let e = entries[i].dup();
            proof {
                assert(es[i as int] == entries@[i as int]@);
                lemma_update_snoc(old(self).mut_view(), es.take(i as int), e@);
                assert(es.take(i + 1) =~= es.take(i as int).push(es[i as int]));
            }
            self.mut_table.insert(e);
            i = i + 1;
        }
        proof {
            assert(es.take(n as int) =~= es);
        }
    }

    /// Moves the mutable table into the immutable slot. The caller must
    /// have drained the previous immutable table first.
    pub fn freeze(&mut self)
        requires
            old(self).wf(),
            old(self).immut_view().len() == 0,
        ensures
            final(self).wf(),
            final(self).immut_view() == old(self).mut_view(),
            final(self).mut_view() == Seq::<EntryModel>::empty(),
    {
        core::mem::swap(&mut self.mut_table, &mut self.immut_table);
        proof {
            assert(self.mut_table@ =~= Seq::<EntryModel>::empty());
        }
    }

    /// The newest entry under the key within the guard, the mutable table
    /// taking precedence.
    pub fn get(&self, key: &[u8], seq_guard: u64) -> (r: Option<&Entry>)
        ensures
            match r {
                Some(e) => spec_memtable_get(self.mut_view(), self.immut_view(), key@, seq_guard)
                    == Some(e@),
                None => spec_memtable_get(
                    self.mut_view(),
                    self.immut_view(),
                    key@,
                    seq_guard,
                ) is None,
            },
    {
        match self.mut_table.get(key, seq_guard) {
            Some(e) => Some(e),
            None => self.immut_table.get(key, seq_guard),
        }
    }

    /// Installs a recovered mutable table.
    pub fn recover_mut_table(&mut self, table: Table)
        requires
            sorted(table@),
        ensures
            final(self).mut_view() == table@,
            final(self).immut_view() == old(self).immut_view(),
            sorted(final(self).mut_view()),
    {
        self.mut_table = table;
    }

    /// Installs a recovered immutable table.
    pub fn recover_immut_table(&mut self, table: Table)
        requires
            sorted(table@),
        ensures
            final(self).immut_view() == table@,
            final(self).mut_view() == old(self).mut_view(),
            sorted(final(self).immut_view()),
    {
        self.immut_table = table;
    }

    /// Hands out the immutable table's entries (for a dump) and leaves the
    /// slot empty.
    pub fn release_immut(&mut self) -> (r: Table)
        requires
            old(self).wf(),
        ensures
            final(self).wf(),
            r@ == old(self).immut_view(),
            sorted(r@),
            final(self).immut_view() == Seq::<EntryModel>::empty(),
            final(self).mut_view() == old(self).mut_view(),
    {
        let mut t = Table::new();
        core::mem::swap(&mut t, &mut self.immut_table);
        proof {
            assert(self.immut_table@ =~= Seq::<EntryModel>::empty());
        }
        t
    }
}

/// Replays a whole log image into a fresh table: every entry of every
/// batch in commit order, with the greatest sequence seen.
pub fn read_wal(buf: &[u8]) -> (r: EikvResult<(Table, u64)>)
    ensures
        match r {
            Ok((t, max_seq)) => match spec_wal_dec(buf@) {
                Ok(bs) => t@ == spec_replay(Seq::<EntryModel>::empty(), bs) && sorted(t@)
                    && max_seq == wal_max_seq(0, bs),
                Err(_) => false,
            },
            Err(e) => spec_wal_dec(buf@) == Err::<Seq<Seq<EntryModel>>, EikvError>(e),
        },
{
    let batches = match read_wal_records(buf) {
        Ok(bs) => bs,
        Err(e) => { return Err(e) },
    };
    let ghost bs = batch_views(batches@);
    let mut table = Table::new();
    let mut max_seq: u64 = 0;
    let nb = batches.len();
    let mut b: usize = 0;
    proof {
        assert(bs.take(0).len() == 0);
    }
    while b < nb
        invariant
            nb == batches@.len(),
            bs == batch_views(batches@),
            b <= nb,
            sorted(table@),
            table@ == spec_replay(Seq::<EntryModel>::empty(), bs.take(b as int)),
            max_seq == wal_max_seq(0, bs.take(b as int)),
        decreases nb - b,
    {
        let ghost t_start = table@;
        let ghost m_start = max_seq;
        let entries = batches[b].entries();
        let ghost es = bs[b as int];
        proof {
            assert(bs[b as int] == batches@[b as int]@);
            assert(es == crate::write_batch::seq_views(entries@));
        }
        let n = entries.len();
        let mut i: usize = 0;
        proof {
            assert(es.take(0).len() == 0);
        }
        while i < n
            invariant
                n == entries@.len(),
                es == crate::write_batch::seq_views(entries@),
                i <= n,
                sorted(table@),
                table@ == spec_update(t_start, es.take(i as int)),
                max_seq == seq_max_seq(m_start, es.take(i as int)),
            decreases n - i,
        {
            let e = entries[i].dup();
            proof {
                assert(es[i as int] == entries@[i as int]@);
                lemma_update_snoc(t_start, es.take(i as int), e@);
                lemma_max_snoc(m_start, es.take(i as int), e@);
                assert(es.take(i + 1) =~= es.take(i as int).push(es[i as int]));
            }
            if e.seq > max_seq {
                max_seq = e.seq;
            }
            table.insert(e);
            i = i + 1;
        }
        proof {
            assert(es.take(n as int) =~= es);
            lemma_replay_snoc(Seq::<EntryModel>::empty(), bs.take(b as int), es);
            lemma_wal_max_snoc(0, bs.take(b as int), es);
            assert(bs.take(b + 1) =~= bs.take(b as int).push(es));
        }
        b = b + 1;
    }
    proof {
        assert(bs.take(nb as int) =~= bs);
    }
    Ok((table, max_seq))
}

/// Writes under other keys leave a key's visible value alone.
pub proof fn lemma_update_other_keys(s: Seq<EntryModel>, es: Seq<EntryModel>, key: Seq<u8>)
    requires
        sorted(s),
        forall|i: int| 0 <= i < es.len() ==> (#[trigger] es[i]).key != key,
    ensures
        visible_value(spec_update(s, es), key) == visible_value(s, key),
        sorted(spec_update(s, es)),
    decreases es.len(),
{
    lemma_update_sorted(s, es);
    if es.len() > 0 {
        lemma_insert_sorted(s, es[0]);
        lemma_write_other_key(s, es[0], key);
        assert(forall|i: int|
            0 <= i < es.skip(1).len() ==> (#[trigger] es.skip(1)[i]) == es[i + 1]);
        lemma_update_other_keys(spec_table_insert(s, es[0]), es.skip(1), key);
    }
}

/// Recovery reads back a committed batch: after applying a batch of
/// writes under distinct keys, stamped with sequences above everything
/// already in the table, each written key's visible value is exactly
/// what the batch wrote — the put value, or nothing after a delete.
pub proof fn lemma_batch_writes_readable(s: Seq<EntryModel>, es: Seq<EntryModel>, start: u64)
    requires
        sorted(s),
        forall|i: int| 0 <= i < es.len() ==> (#[trigger] es[i]).seq == start + i,
        start + es.len() <= u64::MAX,
        forall|x: EntryModel| s.contains(x) ==> (#[trigger] x.seq) < start,
        forall|i: int, j: int|
            0 <= i < j < es.len() ==> (#[trigger] es[i]).key != (#[trigger] es[j]).key,
    ensures
        forall|i: int|
            0 <= i < es.len() ==> visible_value(spec_update(s, es), (#[trigger] es[i]).key)
                == es[i].value,
    decreases es.len(),
{
    if es.len() > 0 {
        let e = es[0];
        let s1 = spec_table_insert(s, e);
        lemma_insert_sorted(s, e);
        lemma_insert_members(s, e);
        assert forall|x: EntryModel| s.contains(x) && (#[trigger] x.key) == e.key implies x.seq
            < e.seq by {}
        lemma_get_after_insert(s, e, u64::MAX);
        assert(forall|i: int|
            0 <= i < es.skip(1).len() ==> (#[trigger] es.skip(1)[i]) == es[i + 1]);
        assert forall|x: EntryModel| s1.contains(x) implies (#[trigger] x.seq) < start + 1 by {
            if s.contains(x) {
            } else {
                assert(x == e);
            }
        }
        lemma_batch_writes_readable(s1, es.skip(1), (start + 1) as u64);
        assert forall|i: int|
            0 <= i < es.len() implies visible_value(spec_update(s, es), (#[trigger] es[i]).key)
            == es[i].value by {
            if i == 0 {
                assert(forall|j: int|
                    0 <= j < es.skip(1).len() ==> (#[trigger] es.skip(1)[j]).key != e.key);
                lemma_update_other_keys(s1, es.skip(1), e.key);
                assert(spec_update(s, es) == spec_update(s1, es.skip(1)));
                assert(visible_value(s1, e.key) == e.value);
            } else {
                assert(es.skip(1)[i - 1] == es[i]);
            }
        }
    }
}

/// Updating with two batches in a row is updating with both at once.
pub proof fn lemma_update_concat(s: Seq<EntryModel>, es1: Seq<EntryModel>, es2: Seq<EntryModel>)
    ensures
        spec_update(s, es1 + es2) == spec_update(spec_update(s, es1), es2),
    decreases es1.len(),
{
    if es1.len() == 0 {
        assert(es1 + es2 =~= es2);
    } else {
        assert((es1 + es2)[0] == es1[0]);
        assert((es1 + es2).skip(1) =~= es1.skip(1) + es2);
        lemma_update_concat(spec_table_insert(s, es1[0]), es1.skip(1), es2);
    }
}

/// Replaying batches one after another is one update with all their
/// entries in order.
pub proof fn lemma_replay_is_update(s: Seq<EntryModel>, bs: Seq<Seq<EntryModel>>)
    ensures
        spec_replay(s, bs) == spec_update(s, crate::merger::concat_all(bs)),
    decreases bs.len(),
{
    if bs.len() == 0 {
        assert(crate::merger::concat_all(bs).len() == 0);
    } else {
        lemma_replay_is_update(spec_update(s, bs[0]), bs.skip(1));
        lemma_update_concat(s, bs[0], crate::merger::concat_all(bs.skip(1)));
        assert(crate::merger::concat_all(bs) =~= bs[0] + crate::merger::concat_all(bs.skip(1)));
    }
}

/// Recovery reads a whole log back: when the batches of a log put
/// distinct keys under contiguous fresh sequences, replaying the log's
/// bytes yields a table in which every written key's visible value is
/// exactly what its batch wrote — a put's value, nothing after a delete.
pub proof fn lemma_recovery_reads_back(bs: Seq<Seq<EntryModel>>, start: u64)
    requires
        forall|b: int| 0 <= b < bs.len() ==> crate::write_batch::batch_encodable(#[trigger] bs[b]),
        forall|i: int|
            0 <= i < crate::merger::concat_all(bs).len() ==> (#[trigger] crate::merger::concat_all(
                bs,
            )[i]).seq == start + i,
        start + crate::merger::concat_all(bs).len() <= u64::MAX,
        forall|i: int, j: int|
            0 <= i < j < crate::merger::concat_all(bs).len() ==> (#[trigger] crate::merger::concat_all(
                bs,
            )[i]).key != (#[trigger] crate::merger::concat_all(bs)[j]).key,
    ensures
        spec_wal_dec(crate::wal::spec_wal_enc(bs)) == Ok::<Seq<Seq<EntryModel>>, EikvError>(bs),
        forall|i: int|
            0 <= i < crate::merger::concat_all(bs).len() ==> visible_value(
                spec_replay(Seq::<EntryModel>::empty(), bs),
                (#[trigger] crate::merger::concat_all(bs)[i]).key,
            ) == crate::merger::concat_all(bs)[i].value,
{
    crate::wal::lemma_wal_round_trip(bs);
    lemma_replay_is_update(Seq::<EntryModel>::empty(), bs);
    let all = crate::merger::concat_all(bs);
    assert forall|x: EntryModel|
        Seq::<EntryModel>::empty().contains(x) implies (#[trigger] x.seq) < start by {}
    lemma_batch_writes_readable(Seq::<EntryModel>::empty(), all, start);
}

} // verus!
