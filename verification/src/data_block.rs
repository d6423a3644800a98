//! The data block of a sorted string table. Entries are run-length
//! prefix-compressed: every `restart_interval`-th entry stores its whole
//! key, the ones between store only what differs from the previous key.
//! The block ends with the restart offsets, the block's least entry in
//! full, the offset of that entry, and a checksum.
use vstd::prelude::*;

use crate::coding::{
    append_var_u32, append_var_u64, decode_bytes_with_len, decode_var_u32, decode_var_u64,
    lemma_bytes_with_len_round_trip, lemma_var_u32_round_trip, lemma_var_u64_round_trip,
    spec_bytes_with_len, spec_bytes_with_len_dec, spec_var_u32, spec_var_u32_dec, spec_var_u64,
    spec_var_u64_dec,
};
use crate::entry::{Entry, EntryModel};

verus! {

/// The length of the longest common prefix of two byte strings.
pub open spec fn spec_shared_len(a: Seq<u8>, b: Seq<u8>) -> int
    decreases a.len(),
{
    if a.len() == 0 || b.len() == 0 {
        0
    } else if a[0] != b[0] {
        0
    } else {
        1 + spec_shared_len(a.skip(1), b.skip(1))
    }
}

pub proof fn lemma_shared_len_props(a: Seq<u8>, b: Seq<u8>)
    ensures
        0 <= spec_shared_len(a, b) <= a.len(),
        spec_shared_len(a, b) <= b.len(),
        a.take(spec_shared_len(a, b)) =~= b.take(spec_shared_len(a, b)),
        spec_shared_len(a, b) < a.len() && spec_shared_len(a, b) < b.len() ==> a[spec_shared_len(
            a,
            b,
        )] != b[spec_shared_len(a, b)],
    decreases a.len(),
{
    if a.len() == 0 || b.len() == 0 {
    } else if a[0] != b[0] {
    } else {
        lemma_shared_len_props(a.skip(1), b.skip(1));
        let n = spec_shared_len(a, b);
        assert forall|i: int| 0 <= i < n implies a.take(n)[i] == b.take(n)[i] by {
            if i > 0 {
                assert(a.skip(1).take(n - 1)[i - 1] == b.skip(1).take(n - 1)[i - 1]);
                assert(a.skip(1).take(n - 1)[i - 1] == a[i]);
                assert(b.skip(1).take(n - 1)[i - 1] == b[i]);
            }
        }
        if n < a.len() && n < b.len() {
            assert(a.skip(1)[n - 1] == a[n]);
            assert(b.skip(1)[n - 1] == b[n]);
        }
    }
}

/// The longest common prefix of two byte strings.
pub fn shared_len(s1: &[u8], s2: &[u8]) -> (r: usize)
    ensures
        r == spec_shared_len(s1@, s2@),
{
    proof {
        lemma_shared_len_props(s1@, s2@);
    }
    let min_len = if s1.len() < s2.len() {
        s1.len()
    } else {
        s2.len()
    };
    let mut i: usize = 0;
    while i < min_len
        invariant
            min_len <= s1@.len(),
            min_len <= s2@.len(),
            i <= min_len,
            forall|j: int| 0 <= j < i ==> s1@[j] == s2@[j],
        decreases min_len - i,
    {
        if s1[i] != s2[i] {
            proof {
                lemma_shared_len_bound(s1@, s2@, i as int);
            }
            return i;
        }
        i = i + 1;
    }
    proof {
        lemma_shared_len_bound(s1@, s2@, i as int);
        lemma_shared_len_props(s1@, s2@);
    }
    min_len
}

/// When the first `i` bytes agree, the shared length is `i` exactly if
/// the strings differ there or one ends.
pub proof fn lemma_shared_len_bound(a: Seq<u8>, b: Seq<u8>, i: int)
    requires
        0 <= i <= a.len(),
        i <= b.len(),
        forall|j: int| 0 <= j < i ==> a[j] == b[j],
    ensures
        spec_shared_len(a, b) >= i,
        i < a.len() && i < b.len() && a[i] != b[i] ==> spec_shared_len(a, b) == i,
    decreases i,
{
    if i > 0 {
        assert(a[0] == b[0]);
        assert(forall|j: int|
            0 <= j < i - 1 ==> a.skip(1)[j] == a[j + 1] && b.skip(1)[j] == b[j + 1]);
        if i < a.len() && i < b.len() {
            assert(a.skip(1)[i - 1] == a[i]);
            assert(b.skip(1)[i - 1] == b[i]);
        }
        lemma_shared_len_bound(a.skip(1), b.skip(1), i - 1);
    } else {
        lemma_shared_len_props(a, b);
    }
}

/// The wire form of one prefix-compressed entry: how much of the previous
/// key is shared, the unshared key suffix, the sequence, and the tag and
/// value as in a full entry.
pub open spec fn spec_spe_enc(
    shared: u32,
    unshared: Seq<u8>,
    seq: u64,
    value: Option<Seq<u8>>,
) -> Seq<u8> {
    spec_var_u32(shared) + spec_bytes_with_len(unshared) + spec_var_u64(seq) + (match value {
        Some(v) => seq![1u8] + spec_bytes_with_len(v),
        None => seq![2u8],
    })
}

/// Decoding of one prefix-compressed entry against the previous key.
pub open spec fn spec_spe_dec(s: Seq<u8>, prev: Seq<u8>) -> Option<(EntryModel, nat)> {
    match spec_var_u32_dec(s, 0) {
        Some((shared, n0)) => {
            if shared > prev.len() {
                None
            } else {
                match spec_bytes_with_len_dec(s.skip(n0 as int)) {
                    Some((unshared, n1)) => {
                        let key = prev.take(shared as int) + unshared;
                        match spec_var_u64_dec(s.skip(n0 + n1 as int), 0) {
                            Some((seq, n2)) => {
                                let off = n0 + n1 + n2;
                                if off >= s.len() {
                                    None
                                } else {
                                    let tag = s[off as int];
                                    if tag == 1 {
                                        match spec_bytes_with_len_dec(s.skip(off + 1 as int)) {
                                            Some((v, n3)) => Some(
                                                (
                                                    EntryModel {
                                                        key,
                                                        seq: seq as u64,
                                                        value: Some(v),
                                                    },
                                                    (off + 1 + n3) as nat,
                                                ),
                                            ),
                                            None => None,
                                        }
                                    } else if tag == 2 {
                                        Some(
                                            (
                                                EntryModel { key, seq: seq as u64, value: None },
                                                (off + 1) as nat,
                                            ),
                                        )
                                    } else {
                                        None
                                    }
                                }
                            },
                            None => None,
                        }
                    },
                    None => None,
                }
            }
        },
        None => None,
    }
}

/// A prefix-compressed entry decodes back against the same previous key,
/// whatever follows it.
#[verifier::rlimit(100)]
pub proof fn lemma_spe_round_trip(
    shared: u32,
    unshared: Seq<u8>,
    seq: u64,
    value: Option<Seq<u8>>,
    prev: Seq<u8>,
    rest: Seq<u8>,
)
    requires
        shared <= prev.len(),
        unshared.len() <= u32::MAX,
        match value {
            Some(v) => v.len() <= u32::MAX,
            None => true,
        },
    ensures
        spec_spe_dec(spec_spe_enc(shared, unshared, seq, value) + rest, prev) == Some(
            (
                EntryModel {
                    key: prev.take(shared as int) + unshared,
                    seq,
                    value,
                },
                spec_spe_enc(shared, unshared, seq, value).len(),
            ),
        ),
{
    let sh_part = spec_var_u32(shared);
    let un_part = spec_bytes_with_len(unshared);
    let seq_part = spec_var_u64(seq);
    let tail = match value {
        Some(v) => seq![1u8] + spec_bytes_with_len(v),
        None => seq![2u8],
    };
    let enc = spec_spe_enc(shared, unshared, seq, value);
    let s = enc + rest;
    assert(s =~= sh_part + (un_part + seq_part + tail + rest));
    lemma_var_u32_round_trip(shared, un_part + seq_part + tail + rest);
    let n0 = sh_part.len();
    assert(s.skip(n0 as int) =~= un_part + (seq_part + tail + rest));
    lemma_bytes_with_len_round_trip(unshared, seq_part + tail + rest);
    let n1 = un_part.len();
    assert(s.skip(n0 + n1 as int) =~= seq_part + (tail + rest));
    lemma_var_u64_round_trip(seq, tail + rest);
    let n2 = seq_part.len();
    let off = n0 + n1 + n2;
    assert(s[off as int] == tail[0]);
    match value {
        Some(v) => {
            assert(s.skip(off + 1 as int) =~= spec_bytes_with_len(v) + rest);
            lemma_bytes_with_len_round_trip(v, rest);
            assert(off + 1 + spec_bytes_with_len(v).len() == enc.len());
        },
        None => {
            assert(off + 1 == enc.len());
        },
    }
}

/// A prefix-compressed entry of the store's own making.
pub struct SharePrefixEntry {
    pub shared_len: u32,
    pub unshared_key: Vec<u8>,
    pub seq: u64,
    pub value: Option<Vec<u8>>,
}

impl SharePrefixEntry {
    /// Compresses a key against the previous one.
    pub fn new(key: &[u8], seq: u64, value: Option<Vec<u8>>, prev_key: &[u8]) -> (r:
        SharePrefixEntry)
        requires
            key@.len() <= u32::MAX,
        ensures
            r.shared_len == spec_shared_len(key@, prev_key@),
            r.unshared_key@ == key@.skip(spec_shared_len(key@, prev_key@)),
            r.seq == seq,
            r.value == value,
    {
        proof {
            lemma_shared_len_props(key@, prev_key@);
        }
        let shared = shared_len(key, prev_key);
        let mut unshared_key: Vec<u8> = Vec::new();
        unshared_key.extend_from_slice(&key[shared..key.len()]);
        proof {
            assert(unshared_key@ =~= key@.skip(spec_shared_len(key@, prev_key@)));
        }
        SharePrefixEntry { shared_len: shared as u32, unshared_key, seq, value }
    }

    /// Appends the wire form of this compressed entry to `buf`.
    pub fn encode(&self, buf: &mut Vec<u8>)
        requires
            self.unshared_key@.len() <= u32::MAX,
            match self.value {
                Some(v) => v@.len() <= u32::MAX,
                None => true,
            },
        ensures
            final(buf)@ == old(buf)@ + spec_spe_enc(
                self.shared_len,
                self.unshared_key@,
                self.seq,
                match self.value {
                    Some(v) => Some(v@),
                    None => None,
                },
            ),
    {
        append_var_u32(buf, self.shared_len);
        let len = self.unshared_key.len() as u32;
        append_var_u32(buf, len);
        buf.extend_from_slice(self.unshared_key.as_slice());
        append_var_u64(buf, self.seq);
        match &self.value {
            Some(value) => {
                buf.push(1);
                let vlen = value.len() as u32;
                append_var_u32(buf, vlen);
                buf.extend_from_slice(value.as_slice());
            },
            None => {
                buf.push(2);
            },
        }
        proof {
            assert(buf@ =~= old(buf)@ + spec_spe_enc(
                self.shared_len,
                self.unshared_key@,
                self.seq,
                match self.value {
                    Some(v) => Some(v@),
                    None => None,
                },
            ));
        }
    }

    /// Decodes one compressed entry from the head of `buf`, rebuilding the
    /// key from the previous one.
    pub fn decode(buf: &[u8], prev_key: &[u8]) -> (r: Option<(Entry, usize)>)
        ensures
            match r {
                Some((e, n)) => spec_spe_dec(buf@, prev_key@) == Some((e@, n as nat)) && 1 <= n
                    <= buf@.len(),
                None => spec_spe_dec(buf@, prev_key@) is None,
            },
    {
        let (shared, n0) = match decode_var_u32(buf) {
            Some(x) => x,
            None => { return None },
        };
        if shared as usize > prev_key.len() {
            return None;
        }
        let shared = shared as usize;
        proof {
            assert(buf@.skip(n0 as int) =~= buf@.subrange(n0 as int, buf@.len() as int));
        }
        let rest1 = &buf[n0..buf.len()];
        let (unshared, n1) = match decode_bytes_with_len(rest1) {
            Some(x) => x,
            None => { return None },
        };
        let mut key: Vec<u8> = Vec::new();
        key.extend_from_slice(&prev_key[0..shared]);
        key.extend_from_slice(unshared.as_slice());
        proof {
            assert(key@ =~= prev_key@.take(shared as int) + unshared@);
            assert(buf@.skip(n0 + n1) =~= buf@.subrange(n0 + n1, buf@.len() as int));
        }
        let rest2 = &buf[n0 + n1..buf.len()];
        let (seq, n2) = match decode_var_u64(rest2) {
            Some(x) => x,
            None => { return None },
        };
        let off = n0 + n1 + n2;
        if off == buf.len() {
            return None;
        }
        let tag = buf[off];
        if tag == 1 {
            proof {
                assert(buf@.skip(off + 1) =~= buf@.subrange(off + 1, buf@.len() as int));
            }
            let rest3 = &buf[off + 1..buf.len()];
            let (value, n3) = match decode_bytes_with_len(rest3) {
                Some(x) => x,
                None => { return None },
            };
            Some((Entry { key, seq, value: Some(value) }, off + 1 + n3))
        } else if tag == 2 {
            Some((Entry { key, seq, value: None }, off + 1))
        } else {
            None
        }
    }
}

/// The prefix-compressed stream of the entries after the least one, with
/// the byte positions of the restart points: every `interval`-th entry is
/// compressed against the empty key and begins a restart.
pub open spec fn spec_stream(
    es: Seq<EntryModel>,
    prev: Seq<u8>,
    ri: nat,
    interval: nat,
    pos: int,
) -> (Seq<u8>, Seq<int>)
    decreases es.len(),
{
    if es.len() == 0 || interval == 0 {
        (Seq::empty(), Seq::empty())
    } else {
        let base = if ri == 0 {
            Seq::<u8>::empty()
        } else {
            prev
        };
        let shared = spec_shared_len(es[0].key, base);
        let enc = spec_spe_enc(shared as u32, es[0].key.skip(shared), es[0].seq, es[0].value);
        let tail = spec_stream(
            es.skip(1),
            es[0].key,
            (ri + 1) % interval,
            interval,
            pos + enc.len(),
        );
        (
            (enc + tail.0),
            (if ri == 0 {
                seq![pos] + tail.1
            } else {
                tail.1
            }),
        )
    }
}

/// The compression state left behind: the previous key and the restart
/// counter.
pub open spec fn spec_carry(es: Seq<EntryModel>, prev: Seq<u8>, ri: nat, interval: nat) -> (
    Seq<u8>,
    nat,
)
    decreases es.len(),
{
    if es.len() == 0 || interval == 0 {
        (prev, ri)
    } else {
        spec_carry(es.skip(1), es[0].key, (ri + 1) % interval, interval)
    }
}

/// Appending one entry extends the stream by its encoding against the
/// carried state.
pub proof fn lemma_stream_snoc(
    es: Seq<EntryModel>,
    e: EntryModel,
    prev: Seq<u8>,
    ri: nat,
    interval: nat,
    pos: int,
)
    requires
        interval >= 1,
    ensures
        ({
            let st = spec_stream(es, prev, ri, interval, pos);
            let c = spec_carry(es, prev, ri, interval);
            let base = if c.1 == 0 {
                Seq::<u8>::empty()
            } else {
                c.0
            };
            let shared = spec_shared_len(e.key, base);
            let enc = spec_spe_enc(shared as u32, e.key.skip(shared), e.seq, e.value);
            let st2 = spec_stream(es.push(e), prev, ri, interval, pos);
            &&& st2.0 == st.0 + enc
            &&& st2.1 == (if c.1 == 0 {
                st.1.push(pos + st.0.len())
            } else {
                st.1
            })
            &&& spec_carry(es.push(e), prev, ri, interval) == (
                e.key,
                (c.1 + 1) % interval,
            )
        }),
    decreases es.len(),
{
    if es.len() == 0 {
        assert(es.push(e)[0] == e);
        assert(es.push(e).skip(1) =~= es);
        let base = if ri == 0 {
            Seq::<u8>::empty()
        } else {
            prev
        };
        let shared = spec_shared_len(e.key, base);
        let enc = spec_spe_enc(shared as u32, e.key.skip(shared), e.seq, e.value);
        assert(spec_stream(es, e.key, (ri + 1) % interval, interval, pos
            + enc.len()).0 =~= Seq::<u8>::empty());
        assert(spec_carry(es, prev, ri, interval) == (prev, ri));
        assert(spec_carry(es, e.key, (ri + 1) % interval, interval) == (
            e.key,
            (ri + 1) % interval,
        ));
        assert(spec_stream(es.push(e), prev, ri, interval, pos).0 =~= Seq::<u8>::empty() + enc);
        assert(Seq::<u8>::empty() + enc =~= enc);
        assert(spec_stream(es, prev, ri, interval, pos).0 + enc =~= enc);
        if ri == 0 {
            assert(spec_stream(es.push(e), prev, ri, interval, pos).1 =~= seq![pos]);
            assert(spec_stream(es, prev, ri, interval, pos).1.push(pos) =~= seq![pos]);
        } else {
            assert(spec_stream(es.push(e), prev, ri, interval, pos).1 =~= Seq::<int>::empty());
        }
    } else {
        assert(es.push(e)[0] == es[0]);
        assert(es.push(e).skip(1) =~= es.skip(1).push(e));
        let base = if ri == 0 {
            Seq::<u8>::empty()
        } else {
            prev
        };
        let shared0 = spec_shared_len(es[0].key, base);
        let enc0 = spec_spe_enc(shared0 as u32, es[0].key.skip(shared0), es[0].seq, es[0].value);
        lemma_stream_snoc(
            es.skip(1),
            e,
            es[0].key,
            (ri + 1) % interval,
            interval,
            pos + enc0.len(),
        );
        let st1 = spec_stream(
            es.skip(1),
            es[0].key,
            (ri + 1) % interval,
            interval,
            pos + enc0.len(),
        );
        let c = spec_carry(es, prev, ri, interval);
        let cbase = if c.1 == 0 {
            Seq::<u8>::empty()
        } else {
            c.0
        };
        let cshared = spec_shared_len(e.key, cbase);
        let cenc = spec_spe_enc(cshared as u32, e.key.skip(cshared), e.seq, e.value);
        assert(spec_stream(es.push(e), prev, ri, interval, pos).0 =~= spec_stream(
            es,
            prev,
            ri,
            interval,
            pos,
        ).0 + cenc);
        if c.1 == 0 {
            assert(spec_stream(es.push(e), prev, ri, interval, pos).1 =~= spec_stream(
                es,
                prev,
                ri,
                interval,
                pos,
            ).1.push(pos + enc0.len() + st1.0.len()));
            assert(pos + enc0.len() + st1.0.len() == pos + spec_stream(
                es,
                prev,
                ri,
                interval,
                pos,
            ).0.len());
        } else {
            assert(spec_stream(es.push(e), prev, ri, interval, pos).1 =~= spec_stream(
                es,
                prev,
                ri,
                interval,
                pos,
            ).1);
        }
    }
}

/// Decoding of a prefix-compressed stream, key by key.
pub open spec fn spec_stream_dec(s: Seq<u8>, prev: Seq<u8>) -> Option<Seq<EntryModel>>
    decreases s.len(),
{
    if s.len() == 0 {
        Some(Seq::empty())
    } else {
        match spec_spe_dec(s, prev) {
            Some((e, n)) => {
                if 1 <= n <= s.len() {
                    match spec_stream_dec(s.skip(n as int), e.key) {
                        Some(tail) => Some(seq![e] + tail),
                        None => None,
                    }
                } else {
                    None
                }
            },
            None => None,
        }
    }
}

/// Every key and value of the entries fits its length prefix.
pub open spec fn entries_encodable(es: Seq<EntryModel>) -> bool {
    forall|i: int| 0 <= i < es.len() ==> crate::entry::entry_encodable(#[trigger] es[i])
}

/// A compressed stream decodes back to the entries it was made from, as
/// long as the decoder starts from the same previous key — or from any
/// key at a restart, where nothing is shared.
#[verifier::rlimit(100)]
pub proof fn lemma_stream_round_trip(
    es: Seq<EntryModel>,
    prev: Seq<u8>,
    dprev: Seq<u8>,
    ri: nat,
    interval: nat,
    pos: int,
)
    requires
        interval >= 1,
        entries_encodable(es),
        ri != 0 ==> dprev == prev,
    ensures
        spec_stream_dec(spec_stream(es, prev, ri, interval, pos).0, dprev) == Some(es),
    decreases es.len(),
{
    let st = spec_stream(es, prev, ri, interval, pos);
    if es.len() == 0 {
        assert(Seq::<EntryModel>::empty() =~= es);
    } else {
        let e = es[0];
        let base = if ri == 0 {
            Seq::<u8>::empty()
        } else {
            prev
        };
        let shared = spec_shared_len(e.key, base);
        lemma_shared_len_props(e.key, base);
        let enc = spec_spe_enc(shared as u32, e.key.skip(shared), e.seq, e.value);
        let ri2 = (ri + 1) % interval;
        let tail = spec_stream(es.skip(1), e.key, ri2, interval, pos + enc.len());
        assert(st.0 =~= enc + tail.0);
        lemma_spe_round_trip(shared as u32, e.key.skip(shared), e.seq, e.value, dprev, tail.0);
        assert(dprev.take(shared as int) =~= e.key.take(shared)) by {
            if ri == 0 {
                assert(shared == 0);
                assert(dprev.take(0) =~= e.key.take(0));
            } else {
                assert(base.take(shared) =~= e.key.take(shared));
            }
        }
        assert(dprev.take(shared as int) + e.key.skip(shared) =~= e.key);
        assert(enc.len() >= 1) by {
            assert(spec_var_u32(shared as u32).len() >= 1);
        }
        assert(st.0.skip(enc.len() as int) =~= tail.0);
        lemma_stream_round_trip(es.skip(1), e.key, e.key, ri2, interval, pos + enc.len());
        assert(seq![e] + es.skip(1) =~= es);
    }
}

/// Restart counts never exceed the entries, and every entry takes at
/// least one byte of stream.
pub proof fn lemma_stream_counts(
    es: Seq<EntryModel>,
    prev: Seq<u8>,
    ri: nat,
    interval: nat,
    pos: int,
)
    requires
        interval >= 1,
    ensures
        spec_stream(es, prev, ri, interval, pos).1.len() <= es.len(),
        spec_stream(es, prev, ri, interval, pos).0.len() >= es.len(),
        forall|k: int|
            0 <= k < spec_stream(es, prev, ri, interval, pos).1.len() ==> pos <= #[trigger] spec_stream(
                es,
                prev,
                ri,
                interval,
                pos,
            ).1[k] < pos + spec_stream(es, prev, ri, interval, pos).0.len(),
    decreases es.len(),
{
    if es.len() == 0 || interval == 0 {
    } else {
        let base = if ri == 0 {
            Seq::<u8>::empty()
        } else {
            prev
        };
        let shared = spec_shared_len(es[0].key, base);
        let enc = spec_spe_enc(shared as u32, es[0].key.skip(shared), es[0].seq, es[0].value);
        assert(enc.len() >= 1) by {
            assert(spec_var_u32(shared as u32).len() >= 1);
        }
        lemma_stream_counts(es.skip(1), es[0].key, (ri + 1) % interval, interval, pos + enc.len());
    }
}

/// The restart offsets on the wire: one fixed `u32` each.
pub open spec fn spec_offsets_enc(rs: Seq<int>) -> Seq<u8>
    decreases rs.len(),
{
    if rs.len() == 0 {
        Seq::empty()
    } else {
        crate::coding::spec_fixed_u32(rs[0] as u32) + spec_offsets_enc(rs.skip(1))
    }
}

pub proof fn lemma_offsets_enc_len(rs: Seq<int>)
    ensures
        spec_offsets_enc(rs).len() == 4 * rs.len(),
    decreases rs.len(),
{
    if rs.len() > 0 {
        lemma_offsets_enc_len(rs.skip(1));
    }
}

pub proof fn lemma_offsets_snoc(rs: Seq<int>, x: int)
    ensures
        spec_offsets_enc(rs.push(x)) == spec_offsets_enc(rs) + crate::coding::spec_fixed_u32(
            x as u32,
        ),
    decreases rs.len(),
{
    if rs.len() == 0 {
        assert(rs.push(x)[0] == x);
        assert(rs.push(x).skip(1) =~= rs);
        assert(spec_offsets_enc(rs.push(x)) =~= spec_offsets_enc(rs) + crate::coding::spec_fixed_u32(
            x as u32,
        ));
    } else {
        assert(rs.push(x)[0] == rs[0]);
        assert(rs.push(x).skip(1) =~= rs.skip(1).push(x));
        lemma_offsets_snoc(rs.skip(1), x);
        assert(spec_offsets_enc(rs.push(x)) =~= spec_offsets_enc(rs) + crate::coding::spec_fixed_u32(
            x as u32,
        ));
    }
}

/// The body of a block: the compressed stream, the restart offsets, and
/// their count.
pub open spec fn spec_block_payload(es: Seq<EntryModel>, interval: nat) -> Seq<u8> {
    let st = spec_stream(es.skip(1), Seq::empty(), 0, interval, 0);
    st.0 + spec_offsets_enc(st.1) + crate::coding::spec_fixed_u32(st.1.len() as u32)
}

/// A whole data block: payload, the least entry in full, its offset, and
/// a checksum over everything before it.
#[verifier::opaque]
pub open spec fn spec_block_enc(es: Seq<EntryModel>, interval: nat) -> Seq<u8> {
    let payload = spec_block_payload(es, interval);
    let pm = payload + crate::entry::spec_entry_enc(es[0]) + crate::coding::spec_fixed_u32(
        payload.len() as u32,
    );
    pm + crate::coding::spec_fixed_u32(crate::checksum::spec_crc32(pm))
}

/// A block the format can carry: at least the least entry, a positive
/// restart interval, keys and values that fit their prefixes, and a
/// total size the `u32` offsets can name.
pub open spec fn block_encodable(es: Seq<EntryModel>, interval: nat) -> bool {
    &&& interval >= 1
    &&& 1 <= es.len()
    &&& entries_encodable(es)
    &&& spec_block_enc(es, interval).len() <= u32::MAX
}

/// Decoding of a block payload: read the restart count, cut the offsets
/// off, and decode the stream.
pub open spec fn spec_payload_dec(s: Seq<u8>) -> Option<Seq<EntryModel>> {
    if s.len() < 4 {
        None
    } else {
        let count = crate::coding::spec_fixed_u32_dec(s.subrange(s.len() - 4, s.len() as int));
        if 4 + count * 4 > s.len() {
            None
        } else {
            spec_stream_dec(s.subrange(0, s.len() - 4 - count * 4), Seq::empty())
        }
    }
}

/// Decoding of a whole block: checksum first, then the least entry, then
/// the compressed stream; the least entry comes first in the result.
#[verifier::opaque]
pub open spec fn spec_block_dec(s: Seq<u8>) -> Result<Seq<EntryModel>, crate::error::EikvError> {
    if s.len() < 12 {
        Err(crate::error::EikvError::SstCorruption)
    } else if crate::coding::spec_fixed_u32_dec(s.subrange(s.len() - 4, s.len() as int))
        != crate::checksum::spec_crc32(s.subrange(0, s.len() - 4)) {
        Err(crate::error::EikvError::ChecksumMismatch)
    } else {
        let min_off = crate::coding::spec_fixed_u32_dec(s.subrange(s.len() - 8, s.len() - 4));
        if min_off > s.len() - 8 {
            Err(crate::error::EikvError::SstCorruption)
        } else {
            match crate::entry::spec_entry_dec(s.subrange(min_off, s.len() - 8)) {
                Some((min_e, _)) => match spec_payload_dec(s.subrange(0, min_off)) {
                    Some(tail) => Ok(seq![min_e] + tail),
                    None => Err(crate::error::EikvError::SstCorruption),
                },
                None => Err(crate::error::EikvError::SstCorruption),
            }
        }
    }
}

/// A block decodes back to exactly the entries it was built from.
#[verifier::rlimit(100)]
pub proof fn lemma_block_round_trip(es: Seq<EntryModel>, interval: nat)
    requires
        block_encodable(es, interval),
    ensures
        spec_block_dec(spec_block_enc(es, interval)) == Ok::<
            Seq<EntryModel>,
            crate::error::EikvError,
        >(es),
{
    reveal(crate::data_block::spec_block_enc);
    reveal(crate::data_block::spec_block_dec);
    let st = spec_stream(es.skip(1), Seq::empty(), 0, interval, 0);
    let count = st.1.len();
    let payload = spec_block_payload(es, interval);
    let menc = crate::entry::spec_entry_enc(es[0]);
    let pm = payload + menc + crate::coding::spec_fixed_u32(payload.len() as u32);
    let s = spec_block_enc(es, interval);
    lemma_offsets_enc_len(st.1);
    lemma_stream_counts(es.skip(1), Seq::empty(), 0, interval, 0);
    assert(menc.len() >= 3) by {
        assert(crate::coding::spec_bytes_with_len(es[0].key).len() >= 1);
        assert(crate::coding::spec_var_u64(es[0].seq).len() >= 1);
    }
    assert(s.len() == payload.len() + menc.len() + 8);
    assert(payload.len() >= 4);
    assert(s.len() >= 12);
    assert(s.subrange(s.len() - 4, s.len() as int) =~= crate::coding::spec_fixed_u32(
        crate::checksum::spec_crc32(pm),
    ));
    crate::coding::lemma_fixed_u32_round_trip(crate::checksum::spec_crc32(pm));
    assert(s.subrange(0, s.len() - 4) =~= pm);
    assert(s.subrange(s.len() - 8, s.len() - 4) =~= crate::coding::spec_fixed_u32(
        payload.len() as u32,
    ));
    crate::coding::lemma_fixed_u32_round_trip(payload.len() as u32);
    let min_off = payload.len() as int;
    assert(min_off <= s.len() - 8);
    assert(s.subrange(min_off, s.len() - 8) =~= menc);
    crate::entry::lemma_entry_round_trip(es[0], Seq::empty());
    assert(menc + Seq::<u8>::empty() =~= menc);
    assert(s.subrange(0, min_off) =~= payload);
    assert(payload.subrange(payload.len() - 4, payload.len() as int)
        =~= crate::coding::spec_fixed_u32(count as u32));
    crate::coding::lemma_fixed_u32_round_trip(count as u32);
    assert(4 + count * 4 <= payload.len());
    assert(payload.subrange(0, payload.len() - 4 - count * 4) =~= st.0);
    lemma_stream_round_trip(es.skip(1), Seq::empty(), Seq::empty(), 0, interval, 0);
    assert(seq![es[0]] + es.skip(1) =~= es);
}

/// The views of a sequence of plain offsets.
pub open spec fn offsets_views(s: Seq<usize>) -> Seq<int> {
    s.map_values(|x: usize| x as int)
}

/// Builds one data block from entries appended in order.
pub struct Builder {
    block_size: usize,
    restart_interval: usize,
    entries: Vec<u8>,
    restart_points: Vec<usize>,
    restart_index: usize,
    prev_key: Vec<u8>,
    min_entry: Option<Entry>,
    history: Ghost<Seq<EntryModel>>,
}

impl Builder {
    /// The entries appended so far, the least one first.
    pub closed spec fn history(&self) -> Seq<EntryModel> {
        self.history@
    }

    pub closed spec fn interval(&self) -> nat {
        self.restart_interval as nat
    }

    pub closed spec fn target_size(&self) -> nat {
        self.block_size as nat
    }

    /// The bytes of the compressed stream held so far.
    pub closed spec fn bytes_len(&self) -> nat {
        self.entries@.len()
    }

    pub closed spec fn wf(&self) -> bool {
        &&& self.restart_interval >= 1
        &&& self.restart_index < self.restart_interval
        &&& match self.min_entry {
            None => {
                &&& self.history@.len() == 0
                &&& self.entries@.len() == 0
                &&& self.restart_points@.len() == 0
                &&& self.restart_index == 0
                &&& self.prev_key@.len() == 0
            },
            Some(m) => {
                &&& self.history@.len() >= 1
                &&& m@ == self.history@[0]
                &&& entries_encodable(self.history@)
                &&& self.entries@ == spec_stream(
                    self.history@.skip(1),
                    Seq::empty(),
                    0,
                    self.restart_interval as nat,
                    0,
                ).0
                &&& offsets_views(self.restart_points@) == spec_stream(
                    self.history@.skip(1),
                    Seq::empty(),
                    0,
                    self.restart_interval as nat,
                    0,
                ).1
                &&& self.prev_key@ == spec_carry(
                    self.history@.skip(1),
                    Seq::empty(),
                    0,
                    self.restart_interval as nat,
                ).0
                &&& self.restart_index as nat == spec_carry(
                    self.history@.skip(1),
                    Seq::empty(),
                    0,
                    self.restart_interval as nat,
                ).1
            },
        }
    }

    /// A builder holding stream bytes holds entries.
    pub proof fn lemma_nonempty_when_bytes(&self)
        requires
            self.wf(),
        ensures
            self.bytes_len() >= 1 ==> self.history().len() >= 1,
    {
    }

    pub fn new(options: crate::db::DBOptions) -> (r: Builder)
        requires
            options.restart_interval >= 1,
        ensures
            r.wf(),
            r.history().len() == 0,
            r.interval() == options.restart_interval,
            r.target_size() == options.block_size,
    {
        Builder {
            block_size: options.block_size,
            restart_interval: options.restart_interval,
            entries: Vec::new(),
            restart_points: Vec::new(),
            restart_index: 0,
            prev_key: Vec::new(),
            min_entry: None,
            history: Ghost(Seq::empty()),
        }
    }

    /// Whether the block has reached its target size and should be cut.
    pub fn full(&self) -> (r: bool)
        ensures
            r == (self.bytes_len() >= self.target_size()),
    {
        self.entries.len() >= self.block_size
    }

    /// Appends the next entry. The first one becomes the block's least
    /// entry; the rest go to the compressed stream.
    pub fn append(&mut self, entry: Entry)
        requires
            old(self).wf(),
            crate::entry::entry_encodable(entry@),
        ensures
            final(self).wf(),
            final(self).history() == old(self).history().push(entry@),
            final(self).interval() == old(self).interval(),
            final(self).target_size() == old(self).target_size(),
    {
        let ghost h_old = self.history@;
        proof {
            self.history@ = self.history@.push(entry@);
        }
        if self.min_entry.is_none() {
            self.min_entry = Some(entry);
            proof {
                let ghost ivl0 = self.restart_interval as nat;
                assert(h_old.push(entry@).skip(1) =~= h_old);
                assert(h_old.push(entry@)[0] == entry@);
                assert(entries_encodable(self.history@)) by {
                    assert(forall|i: int|
                        0 <= i < self.history@.len() ==> #[trigger] self.history@[i] == entry@);
                }
                assert(spec_stream(h_old, Seq::empty(), 0, ivl0, 0).0 =~= Seq::<u8>::empty());
                assert(spec_stream(h_old, Seq::empty(), 0, ivl0, 0).1 =~= Seq::<int>::empty());
                assert(offsets_views(self.restart_points@) =~= Seq::<int>::empty());
                assert(self.entries@ =~= Seq::<u8>::empty());
                assert(spec_carry(h_old, Seq::empty(), 0, ivl0) == (Seq::<u8>::empty(), 0nat));
                assert(self.prev_key@ =~= Seq::<u8>::empty());
            }
            return ;
        }
        let ghost tail_old = h_old.skip(1);
        let ghost ivl = self.restart_interval as nat;
        proof {
            lemma_stream_snoc(tail_old, entry@, Seq::empty(), 0, ivl, 0);
            assert(h_old.push(entry@).skip(1) =~= tail_old.push(entry@));
            assert forall|i: int|
                0 <= i < self.history@.len() implies crate::entry::entry_encodable(
                #[trigger] self.history@[i],
            ) by {
                if i < h_old.len() {
                    assert(self.history@[i] == h_old[i]);
                } else {
                    assert(self.history@[i] == entry@);
                }
            }
        }
        if self.restart_index == 0 {
            let off = self.entries.len();
            self.restart_points.push(off);
            self.prev_key.clear();
            proof {
                assert(offsets_views(self.restart_points@) =~= offsets_views(
                    old(self).restart_points@,
                ).push(off as int));
            }
        }
        self.restart_index = (self.restart_index + 1) % self.restart_interval;
        let Entry { key, seq, value } = entry;
        proof {
            lemma_shared_len_props(key@, self.prev_key@);
        }
        let spe = SharePrefixEntry::new(key.as_slice(), seq, value, self.prev_key.as_slice());
        spe.encode(&mut self.entries);
        self.prev_key = key;
    }

    /// Finishes the block: the stream, the restart offsets and count, the
    /// least entry, its offset, and the checksum.
    pub fn build(self) -> (r: Vec<u8>)
        requires
            self.wf(),
            self.history().len() >= 1,
            crate::entry::entry_encodable(self.history()[0]),
            spec_block_enc(self.history(), self.interval()).len() <= u32::MAX,
        ensures
            r@ == spec_block_enc(self.history(), self.interval()),
    {
        let ghost es = self.history@;
        let ghost ivl = self.restart_interval as nat;
        let ghost st = spec_stream(es.skip(1), Seq::empty(), 0, ivl, 0);
        proof {
            reveal(crate::data_block::spec_block_enc);
            lemma_stream_counts(es.skip(1), Seq::empty(), 0, ivl, 0);
            lemma_offsets_enc_len(st.1);
        }
        let Builder { entries, restart_points, min_entry, .. } = self;
        let mut buf = entries;
        let count = restart_points.len();
        let mut i: usize = 0;
        proof {
            assert(st.1.take(0).len() == 0);
            assert(buf@ =~= st.0 + spec_offsets_enc(st.1.take(0)));
        }
        while i < count
            invariant
                count == restart_points@.len(),
                offsets_views(restart_points@) == st.1,
                i <= count,
                buf@ == st.0 + spec_offsets_enc(st.1.take(i as int)),
                spec_block_enc(es, ivl).len() <= u32::MAX,
                forall|k: int| 0 <= k < st.1.len() ==> 0 <= #[trigger] st.1[k] < st.0.len(),
                spec_offsets_enc(st.1).len() == 4 * st.1.len(),
                st.0.len() + spec_offsets_enc(st.1).len() + 4 <= spec_block_enc(es, ivl).len(),
            decreases count - i,
        {
            let off = restart_points[i];
            proof {
                assert(offsets_views(restart_points@)[i as int] == off as int);
                lemma_offsets_snoc(st.1.take(i as int), off as int);
                assert(st.1.take(i + 1) =~= st.1.take(i as int).push(off as int));
            }
            crate::coding::append_fixed_u32(&mut buf, off as u32);
            i = i + 1;
        }
        proof {
            assert(st.1.take(count as int) =~= st.1);
        }
        crate::coding::append_fixed_u32(&mut buf, count as u32);
        proof {
            assert(buf@ =~= spec_block_payload(es, ivl));
        }
        let min_entry_offset = buf.len() as u32;
        let min_entry = match min_entry {
            Some(m) => m,
            None => {
                proof {
                    assert(false);
                }
                Entry { key: Vec::new(), seq: 0, value: None }
            },
        };
        min_entry.encode(&mut buf);
        crate::coding::append_fixed_u32(&mut buf, min_entry_offset);
        let checksum = crate::checksum::crc32_checksum(buf.as_slice());
        crate::coding::append_fixed_u32(&mut buf, checksum);
        proof {
            assert(buf@ =~= spec_block_enc(es, ivl));
        }
        buf
    }
}

/// Checks the trailing checksum of a block against its contents.
/// A mismatch is reported as such.
pub fn verify_checksum(block: &[u8]) -> (r: crate::error::EikvResult<()>)
    requires
        block@.len() >= 4,
    ensures
        match r {
            Ok(()) => crate::coding::spec_fixed_u32_dec(
                block@.subrange(block@.len() - 4, block@.len() as int),
            ) == crate::checksum::spec_crc32(block@.subrange(0, block@.len() - 4)),
            Err(e) => crate::coding::spec_fixed_u32_dec(
                block@.subrange(block@.len() - 4, block@.len() as int),
            ) != crate::checksum::spec_crc32(block@.subrange(0, block@.len() - 4)) && e
                == crate::error::EikvError::ChecksumMismatch,
        },
{
    let block_size = block.len();
    let tail = &block[block_size - 4..block_size];
    let stored = crate::coding::decode_fixed_u32(tail);
    proof {
        crate::coding::lemma_fixed_u32_round_trip(stored);
    }
    let front = &block[0..block_size - 4];
    let computed = crate::checksum::crc32_checksum(front);
    if stored != computed {
        return Err(crate::error::EikvError::ChecksumMismatch);
    }
    Ok(())
}

/// Reads the offset of the block's least entry and checks it points
/// inside the block.
pub fn decode_min_entry_offset(block: &[u8]) -> (r: crate::error::EikvResult<usize>)
    requires
        block@.len() >= 12,
    ensures
        ({
            let m = crate::coding::spec_fixed_u32_dec(
                block@.subrange(block@.len() - 8, block@.len() - 4),
            );
            match r {
                Ok(off) => off == m && m <= block@.len() - 8,
                Err(e) => m > block@.len() - 8 && e == crate::error::EikvError::SstCorruption,
            }
        }),
{
    let block_size = block.len();
    let field = &block[block_size - 8..block_size - 4];
    let min_entry_offset = crate::coding::decode_fixed_u32(field);
    proof {
        crate::coding::lemma_fixed_u32_round_trip(min_entry_offset);
    }
    if min_entry_offset as usize > block_size - 8 {
        Err(crate::error::EikvError::SstCorruption)
    } else {
        Ok(min_entry_offset as usize)
    }
}

/// Decodes the block's least entry from its slot before the two trailing
/// offsets.
pub fn decode_min_entry(block: &[u8], min_entry_offset: usize) -> (r: crate::error::EikvResult<
    Entry,
>)
    requires
        block@.len() >= 8,
        min_entry_offset <= block@.len() - 8,
    ensures
        match r {
            Ok(e) => match crate::entry::spec_entry_dec(
                block@.subrange(min_entry_offset as int, block@.len() - 8),
            ) {
                Some((me, n)) => e@ == me,
                None => false,
            },
            Err(e) => crate::entry::spec_entry_dec(
                block@.subrange(min_entry_offset as int, block@.len() - 8),
            ) is None && e == crate::error::EikvError::SstCorruption,
        },
{
    let min_entry_buf = &block[min_entry_offset..block.len() - 8];
    match Entry::decode_to_vec_u8(min_entry_buf) {
        Some((e, _)) => Ok(e),
        None => Err(crate::error::EikvError::SstCorruption),
    }
}

/// Decodes the compressed stream of a block payload, appending the
/// entries in order.
pub fn decode_payload(payload: &[u8], entries: &mut Vec<Entry>) -> (r: crate::error::EikvResult<
    (),
>)
    ensures
        match r {
            Ok(()) => match spec_payload_dec(payload@) {
                Some(tail) => crate::write_batch::seq_views(final(entries)@)
                    == crate::write_batch::seq_views(old(entries)@) + tail,
                None => false,
            },
            Err(e) => spec_payload_dec(payload@) is None && e
                == crate::error::EikvError::SstCorruption,
        },
{
    if payload.len() < 4 {
        return Err(crate::error::EikvError::SstCorruption);
    }
    let payload_size = payload.len();
    let count_field = &payload[payload_size - 4..payload_size];
    let count = crate::coding::decode_fixed_u32(count_field);
    proof {
        crate::coding::lemma_fixed_u32_round_trip(count);
    }
    if count as usize > (payload_size - 4) / 4 {
        proof {
            assert(4 + (count as int) * 4 > payload@.len());
        }
        return Err(crate::error::EikvError::SstCorruption);
    }
    let restart_start = payload_size - 4 - (count as usize) * 4;
    proof {
        assert(4 + (count as int) * 4 <= payload@.len());
    }
    let ghost stream = payload@.subrange(0, restart_start as int);
    let mut prev: Vec<u8> = Vec::new();
    let mut off: usize = 0;
    proof {
        assert(prev@ =~= Seq::<u8>::empty());
        assert(stream.subrange(0, stream.len() as int) =~= stream);
        match spec_stream_dec(stream, Seq::empty()) {
            Some(tail) => {
                assert(crate::write_batch::seq_views(entries@) + Seq::<EntryModel>::empty()
                    =~= crate::write_batch::seq_views(entries@));
            },
            None => {},
        }
    }
    while off < restart_start
        invariant
            payload@.len() >= 4,
            restart_start <= payload@.len(),
            4 + crate::coding::spec_fixed_u32_dec(
                payload@.subrange(payload@.len() - 4, payload@.len() as int),
            ) * 4 <= payload@.len(),
            restart_start == payload@.len() - 4 - crate::coding::spec_fixed_u32_dec(
                payload@.subrange(payload@.len() - 4, payload@.len() as int),
            ) * 4,
            stream == payload@.subrange(0, restart_start as int),
            off <= restart_start,
            match spec_stream_dec(stream.subrange(off as int, stream.len() as int), prev@) {
                Some(tail) => spec_stream_dec(stream, Seq::empty()) == Some(
                    crate::write_batch::seq_views(entries@.subrange(
                        old(entries)@.len() as int,
                        entries@.len() as int,
                    )) + tail,
                ),
                None => spec_stream_dec(stream, Seq::empty()) is None,
            },
            entries@.subrange(0, old(entries)@.len() as int) == old(entries)@,
            entries@.len() >= old(entries)@.len(),
        decreases restart_start - off,
    {
        let ghost rem = stream.subrange(off as int, stream.len() as int);
        let chunk = &payload[off..restart_start];
        proof {
            assert(chunk@ =~= rem);
        }
        let (entry, n) = match SharePrefixEntry::decode(chunk, prev.as_slice()) {
            Some(x) => x,
            None => { return Err(crate::error::EikvError::SstCorruption) },
        };
        proof {
            assert(rem.len() > 0);
            assert(rem.skip(n as int) =~= stream.subrange(off + n, stream.len() as int));
            match spec_stream_dec(rem.skip(n as int), entry@.key) {
                Some(tail) => {
                    assert(spec_stream_dec(rem, prev@) == Some(seq![entry@] + tail));
                    assert(crate::write_batch::seq_views(entries@.push(entry).subrange(
                        old(entries)@.len() as int,
                        entries@.len() + 1 as int,
                    )) =~= crate::write_batch::seq_views(entries@.subrange(
                        old(entries)@.len() as int,
                        entries@.len() as int,
                    )).push(entry@));
                    assert(crate::write_batch::seq_views(entries@.subrange(
                        old(entries)@.len() as int,
                        entries@.len() as int,
                    )) + (seq![entry@] + tail) =~= crate::write_batch::seq_views(
                        entries@.subrange(old(entries)@.len() as int, entries@.len() as int),
                    ).push(entry@) + tail);
                },
                None => {},
            }
            assert(entries@.push(entry).subrange(0, old(entries)@.len() as int)
                =~= entries@.subrange(0, old(entries)@.len() as int));
        }
        prev = crate::entry::copy_bytes(&entry.key);
        entries.push(entry);
        off = off + n;
    }
    proof {
        assert(stream.subrange(off as int, stream.len() as int).len() == 0);
        assert(crate::write_batch::seq_views(entries@.subrange(
            old(entries)@.len() as int,
            entries@.len() as int,
        )) + Seq::<EntryModel>::empty() =~= crate::write_batch::seq_views(entries@.subrange(
            old(entries)@.len() as int,
            entries@.len() as int,
        )));
        assert(entries@.subrange(0, old(entries)@.len() as int) + entries@.subrange(
            old(entries)@.len() as int,
            entries@.len() as int,
        ) =~= entries@);
        assert(crate::write_batch::seq_views(entries@) =~= crate::write_batch::seq_views(
            old(entries)@,
        ) + crate::write_batch::seq_views(entries@.subrange(
            old(entries)@.len() as int,
            entries@.len() as int,
        )));
    }
    Ok(())
}

/// Decodes a whole block: the least entry first, then the compressed
/// stream in order.
pub fn decode_block(block: &[u8]) -> (r: crate::error::EikvResult<Vec<Entry>>)
    ensures
        match r {
            Ok(es) => spec_block_dec(block@) == Ok::<Seq<EntryModel>, crate::error::EikvError>(
                crate::write_batch::seq_views(es@),
            ),
            Err(e) => spec_block_dec(block@) == Err::<Seq<EntryModel>, crate::error::EikvError>(
                e,
            ),
        },
{
    proof {
        reveal(crate::data_block::spec_block_dec);
    }
    if block.len() < 12 {
        return Err(crate::error::EikvError::SstCorruption);
    }
    match verify_checksum(block) {
        Ok(()) => (),
        Err(e) => { return Err(e) },
    }
    let min_entry_offset = match decode_min_entry_offset(block) {
        Ok(m) => m,
        Err(e) => { return Err(e) },
    };
    let min_entry = match decode_min_entry(block, min_entry_offset) {
        Ok(e) => e,
        Err(e) => { return Err(e) },
    };
    let ghost min_model = min_entry@;
    let payload = &block[0..min_entry_offset];
    let mut entries: Vec<Entry> = Vec::new();
    entries.push(min_entry);
    proof {
        assert(crate::write_batch::seq_views(entries@) =~= seq![min_model]);
    }
    match decode_payload(payload, &mut entries) {
        Ok(()) => (),
        Err(e) => { return Err(e) },
    }
    proof {
        match spec_payload_dec(block@.subrange(0, min_entry_offset as int)) {
            Some(tail) => {
                assert(crate::write_batch::seq_views(entries@) =~= seq![min_model] + tail);
            },
            None => {},
        }
    }
    Ok(entries)
}

/// The point lookup in one block: the entry under the key with the
/// greatest sequence, the block's least entry taking part like any other.
pub fn find(block: &[u8], key: &[u8]) -> (r: crate::error::EikvResult<Option<Entry>>)
    ensures
        match r {
            Ok(found) => match spec_block_dec(block@) {
                Ok(es) => match found {
                    Some(e) => crate::mem_table::spec_table_get(es, key@, u64::MAX) == Some(e@),
                    None => crate::mem_table::spec_table_get(es, key@, u64::MAX) is None,
                },
                Err(_) => false,
            },
            Err(e) => spec_block_dec(block@) == Err::<Seq<EntryModel>, crate::error::EikvError>(
                e,
            ),
        },
{
    let entries = match decode_block(block) {
        Ok(es) => es,
        Err(e) => { return Err(e) },
    };
    let ghost es = crate::write_batch::seq_views(entries@);
    let mut i: usize = entries.len();
    proof {
        assert(es.take(i as int) =~= es);
    }
    while i > 0
        invariant
            i <= entries@.len(),
            es == crate::write_batch::seq_views(entries@),
            spec_block_dec(block@) == Ok::<Seq<EntryModel>, crate::error::EikvError>(es),
            crate::mem_table::spec_table_get(es.take(i as int), key@, u64::MAX)
                == crate::mem_table::spec_table_get(es, key@, u64::MAX),
        decreases i,
    {
        i = i - 1;
        let entry = &entries[i];
        proof {
            assert(es[i as int] == entries@[i as int]@);
            assert(es.take(i + 1).drop_last() =~= es.take(i as int));
            assert(es.take(i + 1)[i as int] == es[i as int]);
        }
        let key_cmp = crate::entry::compare_bytes(entry.key.as_slice(), key);
        if matches!(key_cmp, core::cmp::Ordering::Equal) {
            proof {
                assert(crate::mem_table::spec_table_get(es.take(i + 1), key@, u64::MAX) == Some(
                    es[i as int],
                ));
            }
            return Ok(Some(entry.dup()));
        }
    }
    proof {
        assert(es.take(0).len() == 0);
    }
    Ok(None)
}

/// A one-entry block takes the entry's bytes plus twelve: an empty
/// stream's count word, the entry's offset, and the checksum.
pub proof fn lemma_singleton_block_len(e: EntryModel, interval: nat)
    ensures
        spec_block_enc(seq![e], interval).len() == crate::entry::spec_entry_enc(e).len() + 12,
{
    reveal(crate::data_block::spec_block_enc);
    let es = seq![e];
    assert(es.skip(1) =~= Seq::<EntryModel>::empty());
    let st = spec_stream(es.skip(1), Seq::empty(), 0, interval, 0);
    assert(st.0 =~= Seq::<u8>::empty());
    assert(st.1 =~= Seq::<int>::empty());
    assert(spec_offsets_enc(st.1) =~= Seq::<u8>::empty());
}

impl Builder {
    /// Whether the block would still fit its offset fields after taking
    /// this entry: exactly what `append` asks of its caller, testable at
    /// run time before the call.
    #[verifier::rlimit(100)]
    pub fn fits(&self, entry: &Entry) -> (r: bool)
        requires
            self.wf(),
        ensures
            r == (crate::entry::entry_encodable(entry@) && spec_block_enc(
                self.history().push(entry@),
                self.interval(),
            ).len() <= u32::MAX),
    {
        proof {
            reveal(crate::data_block::spec_block_enc);
        }
        let e_len = match entry.enc_len_checked() {
            Some(l) => l,
            None => { return false },
        };
        let ghost h = self.history@;
        let ghost ivl = self.restart_interval as nat;
        if self.min_entry.is_none() {
            proof {
                assert(h.push(entry@) =~= seq![entry@]);
                lemma_singleton_block_len(entry@, ivl);
            }
            return e_len <= u32::MAX as u64 - 12;
        }
        proof {
            lemma_stream_snoc(h.skip(1), entry@, Seq::empty(), 0, ivl, 0);
            assert(h.push(entry@).skip(1) =~= h.skip(1).push(entry@));
        }
        let base_is_empty = self.restart_index == 0;
        proof {
            if base_is_empty {
                assert(spec_shared_len(entry@.key, Seq::<u8>::empty()) == 0);
            }
        }
        let shared: usize = if base_is_empty {
            0
        } else {
            shared_len(entry.key.as_slice(), self.prev_key.as_slice())
        };
        proof {
            lemma_shared_len_props(
                entry@.key,
                if self.restart_index == 0 {
                    Seq::<u8>::empty()
                } else {
                    self.prev_key@
                },
            );
        }
        let unshared = entry.key.len() - shared;
        let value_part: u64 = match &entry.value {
            Some(v) => crate::coding::var_u32_len(v.len() as u32) as u64 + v.len() as u64,
            None => 0,
        };
        let spe_len: u64 = crate::coding::var_u32_len(shared as u32) as u64
            + crate::coding::var_u32_len(unshared as u32) as u64 + unshared as u64
            + crate::coding::var_u64_len(entry.seq) as u64 + 1 + value_part;
        proof {
            assert(crate::entry::entry_encodable(h[0]));
        }
        let min_len = match &self.min_entry {
            Some(m) => match m.enc_len_checked() {
                Some(l) => l,
                None => {
                    proof {
                        assert(false);
                    }
                    0
                },
            },
            None => {
                proof {
                    assert(false);
                }
                0
            },
        };
        let stream_after: u128 = self.entries.len() as u128 + spe_len as u128;
        let restarts_after: u128 = self.restart_points.len() as u128 + (if base_is_empty {
            1u128
        } else {
            0
        });
        let total: u128 = stream_after + 4 * restarts_after + 4 + min_len as u128 + 8;
        proof {
            lemma_offsets_enc_len(
                spec_stream(h.push(entry@).skip(1), Seq::empty(), 0, ivl, 0).1,
            );
            assert(h.push(entry@)[0] == h[0]);
            assert(total == spec_block_enc(h.push(entry@), ivl).len());
        }
        total <= u32::MAX as u128
    }
}

} // verus!
