//! Compaction's merge: the entries of several tables combined in order,
//! with old versions collapsed. Entries at or below the version guard are
//! collapsed to the newest one per key; entries above it are all kept.
use vstd::prelude::*;

use crate::entry::{entry_lt, Entry, EntryModel};
use crate::mem_table::{
    lemma_entry_trichotomy, lemma_insert_members, sorted, spec_table_insert, spec_update, Table,
};
use crate::write_batch::seq_views;

verus! {

/// All entries of all inputs, in input order.
pub open spec fn concat_all(ss: Seq<Seq<EntryModel>>) -> Seq<EntryModel>
    decreases ss.len(),
{
    if ss.len() == 0 {
        Seq::empty()
    } else {
        ss[0] + concat_all(ss.skip(1))
    }
}

/// What survives the collapse: every entry above the guard, and of each
/// run of same-key entries at or below the guard, only the last — on a
/// sorted table, the one with the greatest sequence.
pub open spec fn spec_collapse(s: Seq<EntryModel>, guard: u64) -> Seq<EntryModel>
    decreases s.len(),
{
    if s.len() == 0 {
        Seq::empty()
    } else {
        let keep = s[0].seq > guard || s.len() == 1 || s[1].key != s[0].key || s[1].seq > guard;
        (if keep {
            seq![s[0]]
        } else {
            Seq::empty()
        }) + spec_collapse(s.skip(1), guard)
    }
}

/// Everything an update holds comes from the table or the batch, and both
/// stay represented: each batch entry keeps a holder of its key and
/// sequence.
pub proof fn lemma_update_members(s: Seq<EntryModel>, es: Seq<EntryModel>)
    ensures
        forall|x: EntryModel|
            #[trigger] spec_update(s, es).contains(x) ==> s.contains(x) || es.contains(x),
        forall|x: EntryModel| s.contains(x) ==> #[trigger] spec_update(s, es).contains(x),
        forall|i: int|
            0 <= i < es.len() ==> exists|y: EntryModel|
                #[trigger] spec_update(s, es).contains(y) && y.key == (#[trigger] es[i]).key
                    && y.seq == es[i].seq,
    decreases es.len(),
{
    if es.len() == 0 {
    } else {
        let s1 = spec_table_insert(s, es[0]);
        lemma_insert_members(s, es[0]);
        lemma_update_members(s1, es.skip(1));
        assert forall|x: EntryModel| #[trigger] spec_update(s, es).contains(x) implies s.contains(
            x,
        ) || es.contains(x) by {
            assert(spec_update(s1, es.skip(1)).contains(x));
            if s1.contains(x) && !s.contains(x) {
                assert(x == es[0]);
                assert(es.contains(x));
            }
            if es.skip(1).contains(x) {
                let j = choose|j: int| 0 <= j < es.skip(1).len() && es.skip(1)[j] == x;
                assert(es[j + 1] == x);
                assert(es.contains(x));
            }
        }
        assert forall|x: EntryModel| s.contains(x) implies #[trigger] spec_update(s, es).contains(
            x,
        ) by {
            assert(s1.contains(x));
            assert(spec_update(s1, es.skip(1)).contains(x));
        }
        assert forall|i: int| 0 <= i < es.len() implies exists|y: EntryModel|
            #[trigger] spec_update(s, es).contains(y) && y.key == (#[trigger] es[i]).key && y.seq
                == es[i].seq by {
            if i == 0 {
                if s1.contains(es[0]) {
                    let y = es[0];
                    assert(spec_update(s1, es.skip(1)).contains(y));
                    assert(spec_update(s, es).contains(y) && y.key == es[0].key && y.seq
                        == es[0].seq);
                } else {
                    let k = choose|k: int|
                        0 <= k < s.len() && (#[trigger] s[k]).key == es[0].key && s[k].seq
                            == es[0].seq;
                    let y = s[k];
                    assert(s.contains(y));
                    assert(s1.contains(y));
                    assert(spec_update(s1, es.skip(1)).contains(y));
                    assert(spec_update(s, es).contains(y) && y.key == es[0].key && y.seq
                        == es[0].seq);
                }
            } else {
                assert(es.skip(1)[i - 1] == es[i]);
                let y = choose|y: EntryModel|
                    #[trigger] spec_update(s1, es.skip(1)).contains(y) && y.key == es.skip(1)[i
                        - 1].key && y.seq == es.skip(1)[i - 1].seq;
                assert(spec_update(s, es).contains(y) && y.key == es[i].key && y.seq == es[i].seq);
            }
        }
    }
}

/// Only held entries survive the collapse.
pub proof fn lemma_collapse_subset(s: Seq<EntryModel>, guard: u64)
    ensures
        forall|x: EntryModel| #[trigger] spec_collapse(s, guard).contains(x) ==> s.contains(x),
    decreases s.len(),
{
    if s.len() > 0 {
        lemma_collapse_subset(s.skip(1), guard);
        assert forall|x: EntryModel| #[trigger] spec_collapse(s, guard).contains(x) implies
            s.contains(x) by {
            let c = spec_collapse(s, guard);
            let i = choose|i: int| 0 <= i < c.len() && c[i] == x;
            let keep = s[0].seq > guard || s.len() == 1 || s[1].key != s[0].key || s[1].seq
                > guard;
            if keep && i == 0 {
                assert(s.contains(s[0]));
            } else {
                let base: int = if keep {
                    1
                } else {
                    0
                };
                assert(spec_collapse(s.skip(1), guard)[i - base] == x);
                assert(spec_collapse(s.skip(1), guard).contains(x));
                let j = choose|j: int| 0 <= j < s.skip(1).len() && s.skip(1)[j] == x;
                assert(s[j + 1] == x);
                assert(s.contains(x));
            }
        }
    }
}

/// Entries above the guard all survive the collapse.
pub proof fn lemma_collapse_keeps_high(s: Seq<EntryModel>, guard: u64)
    ensures
        forall|i: int|
            0 <= i < s.len() && (#[trigger] s[i]).seq > guard ==> spec_collapse(s, guard).contains(
                s[i],
            ),
    decreases s.len(),
{
    if s.len() > 0 {
        lemma_collapse_keeps_high(s.skip(1), guard);
        let c = spec_collapse(s, guard);
        let keep = s[0].seq > guard || s.len() == 1 || s[1].key != s[0].key || s[1].seq > guard;
        let base: int = if keep {
            1
        } else {
            0
        };
        assert forall|i: int|
            0 <= i < s.len() && (#[trigger] s[i]).seq > guard implies c.contains(s[i]) by {
            if i == 0 {
                assert(c[0] == s[0]);
                assert(c.contains(s[0]));
            } else {
                assert(s.skip(1)[i - 1] == s[i]);
                assert(spec_collapse(s.skip(1), guard).contains(s[i]));
                let j = choose|j: int|
                    0 <= j < spec_collapse(s.skip(1), guard).len() && spec_collapse(
                        s.skip(1),
                        guard,
                    )[j] == s[i];
                assert(c[j + base] == s[i]);
                assert(c.contains(s[i]));
            }
        }
    }
}

/// Of each key, the entry with the greatest sequence at or below the
/// guard survives the collapse.
pub proof fn lemma_collapse_keeps_max(s: Seq<EntryModel>, guard: u64, i: int)
    requires
        sorted(s),
        0 <= i < s.len(),
        s[i].seq <= guard,
        forall|j: int|
            0 <= j < s.len() && (#[trigger] s[j]).key == s[i].key && s[j].seq <= guard ==> s[j].seq
                <= s[i].seq,
    ensures
        spec_collapse(s, guard).contains(s[i]),
    decreases s.len(),
{
    let c = spec_collapse(s, guard);
    let keep = s[0].seq > guard || s.len() == 1 || s[1].key != s[0].key || s[1].seq > guard;
    let base: int = if keep {
        1
    } else {
        0
    };
    if i == 0 {
        assert(keep) by {
            if !(s.len() == 1 || s[1].key != s[0].key || s[1].seq > guard) {
                assert(entry_lt(s[0], s[1]));
                lemma_entry_trichotomy(s[0], s[1]);
                assert(s[1].seq <= s[0].seq);
            }
        }
        assert(c[0] == s[0]);
        assert(c.contains(s[0]));
    } else {
        assert(sorted(s.skip(1))) by {
            assert(forall|p: int, q: int|
                0 <= p < q < s.skip(1).len() ==> s.skip(1)[p] == s[p + 1] && s.skip(1)[q] == s[q
                    + 1]);
        }
        assert(s.skip(1)[i - 1] == s[i]);
        assert forall|j: int|
            0 <= j < s.skip(1).len() && (#[trigger] s.skip(1)[j]).key == s.skip(1)[i - 1].key
                && s.skip(1)[j].seq <= guard implies s.skip(1)[j].seq <= s.skip(1)[i - 1].seq by {
            assert(s.skip(1)[j] == s[j + 1]);
        }
        lemma_collapse_keeps_max(s.skip(1), guard, i - 1);
        let j = choose|j: int|
            0 <= j < spec_collapse(s.skip(1), guard).len() && spec_collapse(s.skip(1), guard)[j]
                == s[i];
        assert(c[j + base] == s[i]);
        assert(c.contains(s[i]));
    }
}

/// After the collapse no two entries share a key at or below the guard.
pub proof fn lemma_collapse_unique(s: Seq<EntryModel>, guard: u64)
    requires
        sorted(s),
    ensures
        forall|i: int, j: int|
            0 <= i < j < spec_collapse(s, guard).len() ==> !((#[trigger] spec_collapse(
                s,
                guard,
            )[i]).key == (#[trigger] spec_collapse(s, guard)[j]).key && spec_collapse(s, guard)[i].seq
                <= guard && spec_collapse(s, guard)[j].seq <= guard),
    decreases s.len(),
{
    if s.len() == 0 {
    } else {
        let c = spec_collapse(s, guard);
        let c1 = spec_collapse(s.skip(1), guard);
        assert(sorted(s.skip(1))) by {
            assert(forall|p: int, q: int|
                0 <= p < q < s.skip(1).len() ==> s.skip(1)[p] == s[p + 1] && s.skip(1)[q] == s[q
                    + 1]);
        }
        lemma_collapse_unique(s.skip(1), guard);
        lemma_collapse_subset(s.skip(1), guard);
        let keep = s[0].seq > guard || s.len() == 1 || s[1].key != s[0].key || s[1].seq > guard;
        let base: int = if keep {
            1
        } else {
            0
        };
        assert forall|i: int, j: int| 0 <= i < j < c.len() implies !((#[trigger] c[i]).key == (
        #[trigger] c[j]).key && c[i].seq <= guard && c[j].seq <= guard) by {
            if keep && i == 0 {
                assert(c[0] == s[0]);
                assert(c[j] == c1[j - 1]);
                if c[j].key == s[0].key && c[j].seq <= guard && s[0].seq <= guard {
                    assert(c1.contains(c1[j - 1]));
                    assert(s.skip(1).contains(c[j]));
                    let m = choose|m: int| 0 <= m < s.skip(1).len() && s.skip(1)[m] == c[j];
                    assert(s[m + 1] == c[j]);
                    assert(s.len() > 1);
                    assert(entry_lt(s[0], s[1]));
                    if m + 1 > 1 {
                        assert(entry_lt(s[1], s[m + 1]));
                    }
                    lemma_entry_trichotomy(s[0], s[1]);
                    assert(s[1].key == s[0].key) by {
                        if crate::entry::bytes_lt(s[0].key, s[1].key) {
                            if m + 1 > 1 {
                                if crate::entry::bytes_lt(s[1].key, s[m + 1].key) {
                                    crate::mem_table::lemma_bytes_lt_trans(
                                        s[0].key,
                                        s[1].key,
                                        s[m + 1].key,
                                    );
                                }
                                crate::entry::lemma_bytes_trichotomy(s[0].key, s[m + 1].key);
                                crate::entry::lemma_bytes_trichotomy(s[0].key, s[1].key);
                            } else {
                                crate::entry::lemma_bytes_trichotomy(s[0].key, s[1].key);
                            }
                        }
                    }
                    assert(s[1].seq > guard);
                    if m + 1 > 1 {
                        assert(s[1].seq < s[m + 1].seq);
                    }
                }
            } else {
                assert(c[i] == c1[i - base]);
                assert(c[j] == c1[j - base]);
            }
        }
    }
}

/// The collapse of a sorted table is sorted.
pub proof fn lemma_collapse_sorted(s: Seq<EntryModel>, guard: u64)
    requires
        sorted(s),
    ensures
        sorted(spec_collapse(s, guard)),
    decreases s.len(),
{
    if s.len() > 0 {
        let c = spec_collapse(s, guard);
        let c1 = spec_collapse(s.skip(1), guard);
        assert(sorted(s.skip(1))) by {
            assert(forall|p: int, q: int|
                0 <= p < q < s.skip(1).len() ==> s.skip(1)[p] == s[p + 1] && s.skip(1)[q] == s[q
                    + 1]);
        }
        lemma_collapse_sorted(s.skip(1), guard);
        lemma_collapse_subset(s.skip(1), guard);
        let keep = s[0].seq > guard || s.len() == 1 || s[1].key != s[0].key || s[1].seq > guard;
        let base: int = if keep {
            1
        } else {
            0
        };
        assert forall|i: int, j: int| 0 <= i < j < c.len() implies entry_lt(
            #[trigger] c[i],
            #[trigger] c[j],
        ) by {
            if keep && i == 0 {
                assert(c[j] == c1[j - 1]);
                assert(c1.contains(c1[j - 1]));
                assert(s.skip(1).contains(c[j]));
                let m = choose|m: int| 0 <= m < s.skip(1).len() && s.skip(1)[m] == c[j];
                assert(s[m + 1] == c[j]);
                assert(entry_lt(s[0], s[m + 1]));
            } else {
                assert(c[i] == c1[i - base]);
                assert(c[j] == c1[j - base]);
            }
        }
    }
}

/// When no two entries share a key and sequence, two held entries that
/// agree on both are one entry.
pub proof fn lemma_unique_same_slot(all: Seq<EntryModel>, x: EntryModel, y: EntryModel)
    requires
        seqs_unique(all),
        all.contains(x),
        all.contains(y),
        x.key == y.key,
        x.seq == y.seq,
    ensures
        x == y,
{
    let i = choose|i: int| 0 <= i < all.len() && all[i] == x;
    let j = choose|j: int| 0 <= j < all.len() && all[j] == y;
    if i < j {
        assert(!(all[i].key == all[j].key && all[i].seq == all[j].seq));
    } else if j < i {
        assert(!(all[j].key == all[i].key && all[j].seq == all[i].seq));
    }
}

/// Membership in the concatenation is membership in one of the inputs.
pub proof fn lemma_concat_members(ss: Seq<Seq<EntryModel>>)
    ensures
        forall|x: EntryModel|
            #[trigger] concat_all(ss).contains(x) <==> exists|b: int|
                0 <= b < ss.len() && (#[trigger] ss[b]).contains(x),
    decreases ss.len(),
{
    if ss.len() == 0 {
    } else {
        lemma_concat_members(ss.skip(1));
        assert forall|x: EntryModel| #[trigger] concat_all(ss).contains(x) implies exists|b: int|
            0 <= b < ss.len() && (#[trigger] ss[b]).contains(x) by {
            let i = choose|i: int| 0 <= i < concat_all(ss).len() && concat_all(ss)[i] == x;
            if i < ss[0].len() {
                assert(ss[0].contains(x));
            } else {
                assert(concat_all(ss.skip(1))[i - ss[0].len()] == x);
                assert(concat_all(ss.skip(1)).contains(x));
                let b = choose|b: int| 0 <= b < ss.skip(1).len() && (#[trigger] ss.skip(1)[b]).contains(x);
                assert(ss[b + 1].contains(x));
            }
        }
        assert forall|x: EntryModel|
            (exists|b: int| 0 <= b < ss.len() && (#[trigger] ss[b]).contains(x)) implies
            #[trigger] concat_all(ss).contains(x) by {
            let b = choose|b: int| 0 <= b < ss.len() && (#[trigger] ss[b]).contains(x);
            let i = choose|i: int| 0 <= i < ss[b].len() && ss[b][i] == x;
            if b == 0 {
                assert(concat_all(ss)[i] == x);
            } else {
                assert(ss.skip(1)[b - 1].contains(x));
                assert(concat_all(ss.skip(1)).contains(x));
                let j = choose|j: int|
                    0 <= j < concat_all(ss.skip(1)).len() && concat_all(ss.skip(1))[j] == x;
                assert(concat_all(ss)[j + ss[0].len()] == x);
            }
        }
    }
}

/// What replaying batches holds: entries of the start table or of some
/// batch, with every batch entry represented by key and sequence.
pub proof fn lemma_replay_members(s: Seq<EntryModel>, bs: Seq<Seq<EntryModel>>)
    ensures
        forall|x: EntryModel|
            #[trigger] crate::mem_table::spec_replay(s, bs).contains(x) ==> s.contains(x)
                || concat_all(bs).contains(x),
        forall|x: EntryModel|
            s.contains(x) ==> #[trigger] crate::mem_table::spec_replay(s, bs).contains(x),
        forall|x: EntryModel|
            #[trigger] concat_all(bs).contains(x) ==> exists|y: EntryModel|
                #[trigger] crate::mem_table::spec_replay(s, bs).contains(y) && y.key == x.key
                    && y.seq == x.seq,
    decreases bs.len(),
{
    lemma_concat_members(bs);
    if bs.len() == 0 {
    } else {
        let s1 = spec_update(s, bs[0]);
        lemma_update_members(s, bs[0]);
        lemma_replay_members(s1, bs.skip(1));
        lemma_concat_members(bs.skip(1));
        assert forall|x: EntryModel|
            #[trigger] crate::mem_table::spec_replay(s, bs).contains(x) implies s.contains(x)
            || concat_all(bs).contains(x) by {
            assert(crate::mem_table::spec_replay(s1, bs.skip(1)).contains(x));
            if !s.contains(x) {
                if s1.contains(x) {
                    assert(bs[0].contains(x));
                } else {
                    assert(concat_all(bs.skip(1)).contains(x));
                    let b = choose|b: int|
                        0 <= b < bs.skip(1).len() && (#[trigger] bs.skip(1)[b]).contains(x);
                    assert(bs[b + 1].contains(x));
                }
            }
        }
        assert forall|x: EntryModel| s.contains(x) implies #[trigger] crate::mem_table::spec_replay(
            s,
            bs,
        ).contains(x) by {
            assert(s1.contains(x));
            assert(crate::mem_table::spec_replay(s1, bs.skip(1)).contains(x));
        }
        assert forall|x: EntryModel| #[trigger] concat_all(bs).contains(x) implies exists|
            y: EntryModel,
        |
            #[trigger] crate::mem_table::spec_replay(s, bs).contains(y) && y.key == x.key && y.seq
                == x.seq by {
            let b = choose|b: int| 0 <= b < bs.len() && (#[trigger] bs[b]).contains(x);
            if b == 0 {
                let i = choose|i: int| 0 <= i < bs[0].len() && bs[0][i] == x;
                let y = choose|y: EntryModel|
                    #[trigger] s1.contains(y) && y.key == bs[0][i].key && y.seq == bs[0][i].seq;
                assert(crate::mem_table::spec_replay(s1, bs.skip(1)).contains(y));
                assert(crate::mem_table::spec_replay(s, bs).contains(y) && y.key == x.key && y.seq
                    == x.seq);
            } else {
                assert(bs.skip(1)[b - 1].contains(x));
                assert(concat_all(bs.skip(1)).contains(x));
                let y = choose|y: EntryModel|
                    #[trigger] crate::mem_table::spec_replay(s1, bs.skip(1)).contains(y) && y.key
                        == x.key && y.seq == x.seq;
                assert(crate::mem_table::spec_replay(s, bs).contains(y) && y.key == x.key && y.seq
                    == x.seq);
            }
        }
    }
}

/// No two entries share a key and a sequence: what commit stamping
/// guarantees of everything the store persists.
pub open spec fn seqs_unique(es: Seq<EntryModel>) -> bool {
    forall|i: int, j: int|
        0 <= i < j < es.len() ==> !((#[trigger] es[i]).key == (#[trigger] es[j]).key && es[i].seq
            == es[j].seq)
}

/// The views of the input tables.
pub open spec fn tables_views(ss: Seq<Vec<Entry>>) -> Seq<Seq<EntryModel>> {
    ss.map_values(|v: Vec<Entry>| seq_views(v@))
}

/// The merge of several tables under a version guard.
pub struct Merger {
    inputs: Vec<Vec<Entry>>,
    seq_guard: u64,
}

impl Merger {
    /// The entries of every input, in input order.
    pub closed spec fn all_entries(&self) -> Seq<EntryModel> {
        concat_all(tables_views(self.inputs@))
    }

    pub closed spec fn guard(&self) -> u64 {
        self.seq_guard
    }

    pub fn new(iterators: Vec<Vec<Entry>>, seq_guard: u64) -> (r: Merger)
        ensures
            r.all_entries() == concat_all(tables_views(iterators@)),
            r.guard() == seq_guard,
    {
        Merger { inputs: iterators, seq_guard }
    }

    /// Merges every input into one ordered run. Entries above the guard
    /// all survive; of the entries of one key at or below the guard only
    /// the one with the greatest sequence does; nothing else appears.
    pub fn merge(&self) -> (r: Vec<Entry>)
        requires
            seqs_unique(self.all_entries()),
        ensures
            sorted(seq_views(r@)),
            forall|x: EntryModel|
                #[trigger] seq_views(r@).contains(x) ==> self.all_entries().contains(x),
            forall|i: int, j: int|
                0 <= i < j < r@.len() ==> !((#[trigger] seq_views(r@)[i]).key == (
                #[trigger] seq_views(r@)[j]).key && seq_views(r@)[i].seq <= self.guard() && seq_views(
                    r@,
                )[j].seq <= self.guard()),
            forall|x: EntryModel|
                #[trigger] self.all_entries().contains(x) && x.seq > self.guard() ==> seq_views(
                    r@,
                ).contains(x),
            forall|x: EntryModel|
                #[trigger] self.all_entries().contains(x) && x.seq <= self.guard() && (forall|
                    z: EntryModel,
                |
                    #[trigger] self.all_entries().contains(z) && z.key == x.key && z.seq
                        <= self.guard() ==> z.seq <= x.seq) ==> seq_views(r@).contains(x),
    {
        let ghost views = tables_views(self.inputs@);
        let mut table = Table::new();
        let nb = self.inputs.len();
        let mut b: usize = 0;
        proof {
            assert(views.take(0).len() == 0);
        }
        while b < nb
            invariant
                nb == self.inputs@.len(),
                views == tables_views(self.inputs@),
                b <= nb,
                sorted(table@),
                table@ == crate::mem_table::spec_replay(Seq::<EntryModel>::empty(), views.take(
                    b as int,
                )),
            decreases nb - b,
        {
            let ghost t_start = table@;
            let input = &self.inputs[b];
            let ghost es = views[b as int];
            proof {
                assert(views[b as int] == seq_views(self.inputs@[b as int]@));
            }
            let n = input.len();
            let mut i: usize = 0;
            proof {
                assert(es.take(0).len() == 0);
            }
            while i < n
                invariant
                    n == input@.len(),
                    es == seq_views(input@),
                    i <= n,
                    sorted(table@),
                    table@ == spec_update(t_start, es.take(i as int)),
                decreases n - i,
            {
                let e = input[i].dup();
                proof {
                    assert(es[i as int] == input@[i as int]@);
                    crate::mem_table::lemma_update_snoc(t_start, es.take(i as int), e@);
                    assert(es.take(i + 1) =~= es.take(i as int).push(es[i as int]));
                }
                table.insert(e);
                i = i + 1;
            }
            proof {
                assert(es.take(n as int) =~= es);
                crate::mem_table::lemma_replay_snoc(Seq::<EntryModel>::empty(), views.take(
                    b as int,
                ), es);
                assert(views.take(b + 1) =~= views.take(b as int).push(es));
            }
            b = b + 1;
        }
        proof {
            assert(views.take(nb as int) =~= views);
        }
        let ghost merged = table@;
        let sorted_entries = table.entries();
        let ghost s = merged;
        proof {
            assert(seq_views(sorted_entries@) == merged);
        }
        let mut out: Vec<Entry> = Vec::new();
        let len = sorted_entries.len();
        let mut i: usize = 0;
        proof {
            assert(s.skip(0) =~= s);
            assert(seq_views(out@).len() == 0);
            assert(seq_views(out@) + spec_collapse(s, self.seq_guard) =~= spec_collapse(
                s,
                self.seq_guard,
            ));
        }
        while i < len
            invariant
                len == sorted_entries@.len(),
                s == seq_views(sorted_entries@),
                i <= len,
                seq_views(out@) + spec_collapse(s.skip(i as int), self.seq_guard) == spec_collapse(
                    s,
                    self.seq_guard,
                ),
            decreases len - i,
        {
            let e = &sorted_entries[i];
            proof {
                assert(s[i as int] == sorted_entries@[i as int]@);
            }
            let keep = if e.seq > self.seq_guard {
                true
            } else if i + 1 == len {
                true
            } else {
                let next = &sorted_entries[i + 1];
                proof {
                    assert(s[i + 1] == sorted_entries@[i + 1]@);
                }
                let c = crate::entry::compare_bytes(next.key.as_slice(), e.key.as_slice());
                !matches!(c, core::cmp::Ordering::Equal) || next.seq > self.seq_guard
            };
            proof {
                assert(s.skip(i as int)[0] == s[i as int]);
                if i + 1 < len {
                    assert(s.skip(i as int)[1] == s[i + 1]);
                }
                assert(s.skip(i as int).skip(1) =~= s.skip(i + 1));
                if keep {
                    assert(seq_views(out@.push(sorted_entries@[i as int])) =~= seq_views(out@).push(
                        s[i as int],
                    ));
                    assert(seq_views(out@).push(s[i as int]) + spec_collapse(
                        s.skip(i + 1),
                        self.seq_guard,
                    ) =~= seq_views(out@) + (seq![s[i as int]] + spec_collapse(
                        s.skip(i + 1),
                        self.seq_guard,
                    )));
                } else {
                    assert(Seq::<EntryModel>::empty() + spec_collapse(s.skip(i + 1), self.seq_guard)
                        =~= spec_collapse(s.skip(i + 1), self.seq_guard));
                }
            }
            if keep {
                out.push(e.dup());
            }
            i = i + 1;
        }
        proof {
            assert(s.skip(len as int).len() == 0);
            assert(spec_collapse(s.skip(len as int), self.seq_guard) =~= Seq::<EntryModel>::empty());
            assert(seq_views(out@) + Seq::<EntryModel>::empty() =~= seq_views(out@));
            assert(seq_views(out@) == spec_collapse(s, self.seq_guard));
            lemma_collapse_sorted(s, self.seq_guard);
            lemma_collapse_subset(s, self.seq_guard);
            lemma_collapse_unique(s, self.seq_guard);
            lemma_collapse_keeps_high(s, self.seq_guard);
            lemma_replay_members(Seq::<EntryModel>::empty(), views);
            lemma_concat_members(views);
            let all = self.all_entries();
            assert forall|x: EntryModel|
                #[trigger] all.contains(x) && x.seq > self.seq_guard implies seq_views(
                out@,
            ).contains(x) by {
                let y = choose|y: EntryModel|
                    #[trigger] merged.contains(y) && y.key == x.key && y.seq == x.seq;
                let k = choose|k: int| 0 <= k < merged.len() && merged[k] == y;
                assert(spec_collapse(s, self.seq_guard).contains(s[k]));
                assert(all.contains(y));
                lemma_unique_same_slot(all, x, y);
            }
            assert forall|x: EntryModel|
                #[trigger] all.contains(x) && x.seq <= self.seq_guard && (forall|z: EntryModel|
                    #[trigger] all.contains(z) && z.key == x.key && z.seq <= self.seq_guard
                        ==> z.seq <= x.seq) implies seq_views(out@).contains(x) by {
                let y = choose|y: EntryModel|
                    #[trigger] merged.contains(y) && y.key == x.key && y.seq == x.seq;
                let k = choose|k: int| 0 <= k < merged.len() && merged[k] == y;
                assert forall|j: int|
                    0 <= j < merged.len() && (#[trigger] merged[j]).key == merged[k].key
                        && merged[j].seq <= self.seq_guard implies merged[j].seq
                    <= merged[k].seq by {
                    assert(merged.contains(merged[j]));
                    assert(all.contains(merged[j]));
                }
                crate::merger::lemma_collapse_keeps_max(s, self.seq_guard, k);
                assert(all.contains(y));
                lemma_unique_same_slot(all, x, y);
            }
        }
        out
    }
}

/// A merge under the top guard leaves every point lookup unchanged: the
/// newest entry of each key in the merged run is the newest entry of
/// that key in the inputs, so a lookup answered from the output sees
/// exactly what it saw over the inputs.
pub proof fn lemma_merge_preserves_lookups(
    all: Seq<EntryModel>,
    u: Seq<EntryModel>,
    out: Seq<EntryModel>,
    key: Seq<u8>,
)
    requires
        sorted(u),
        sorted(out),
        forall|x: EntryModel| #[trigger] u.contains(x) <==> all.contains(x),
        forall|x: EntryModel| #[trigger] out.contains(x) ==> all.contains(x),
        forall|x: EntryModel|
            #[trigger] all.contains(x) && (forall|z: EntryModel|
                #[trigger] all.contains(z) && z.key == x.key ==> z.seq <= x.seq)
                ==> out.contains(x),
    ensures
        crate::mem_table::visible_value(out, key) == crate::mem_table::visible_value(u, key),
{
    crate::mem_table::lemma_get_characterization(u, key, u64::MAX);
    crate::mem_table::lemma_get_characterization(out, key, u64::MAX);
    match crate::mem_table::spec_table_get(u, key, u64::MAX) {
        Some(e) => {
            assert(all.contains(e));
            assert forall|z: EntryModel|
                #[trigger] all.contains(z) && z.key == e.key implies z.seq <= e.seq by {
                assert(u.contains(z));
            }
            assert(out.contains(e));
            match crate::mem_table::spec_table_get(out, key, u64::MAX) {
                Some(y) => {
                    assert(all.contains(y));
                    assert(u.contains(y));
                    assert(y.seq <= e.seq);
                    assert(e.seq <= y.seq);
                    crate::mem_table::lemma_sorted_unique(out, e, y);
                },
                None => {
                    assert(false);
                },
            }
        },
        None => {
            match crate::mem_table::spec_table_get(out, key, u64::MAX) {
                Some(y) => {
                    assert(all.contains(y));
                    assert(u.contains(y));
                    assert(false);
                },
                None => {},
            }
        },
    }
}

} // verus!
