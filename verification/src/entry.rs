//! The logical record of the store: a key, a commit sequence number, and
//! an optional value. An entry without a value is a tombstone marking a
//! deletion. Entries order by key bytes, then by sequence number.
use vstd::prelude::*;

use crate::coding::{
    append_var_u32, append_var_u64, decode_bytes_with_len, decode_var_u64, lemma_bytes_with_len_round_trip,
    lemma_var_u64_round_trip, spec_bytes_with_len, spec_bytes_with_len_dec, spec_var_u64,
    spec_var_u64_dec,
};
use crate::error::{EikvError, EikvResult};

verus! {

/// The record as mathematics: key bytes, sequence, optional value bytes.
pub ghost struct EntryModel {
    pub key: Seq<u8>,
    pub seq: u64,
    pub value: Option<Seq<u8>>,
}

#[derive(Clone)]
pub struct Entry {
    pub key: Vec<u8>,
    pub seq: u64,
    pub value: Option<Vec<u8>>,
}

impl View for Entry {
    type V = EntryModel;

    open spec fn view(&self) -> EntryModel {
        EntryModel {
            key: self.key@,
            seq: self.seq,
            value: match self.value {
                Some(v) => Some(v@),
                None => None,
            },
        }
    }
}

/// Both the key and the value (if any) fit a varint `u32` length prefix.
pub open spec fn entry_encodable(e: EntryModel) -> bool {
    &&& e.key.len() <= u32::MAX
    &&& match e.value {
        Some(v) => v.len() <= u32::MAX,
        None => true,
    }
}

/// Lexicographic order on byte strings: a proper prefix comes first.
pub open spec fn bytes_lt(a: Seq<u8>, b: Seq<u8>) -> bool
    decreases a.len(),
{
    if b.len() == 0 {
        false
    } else if a.len() == 0 {
        true
    } else if a[0] < b[0] {
        true
    } else if a[0] > b[0] {
        false
    } else {
        bytes_lt(a.skip(1), b.skip(1))
    }
}

/// Entry order: ascending key bytes, then ascending sequence.
pub open spec fn entry_lt(a: EntryModel, b: EntryModel) -> bool {
    bytes_lt(a.key, b.key) || (a.key == b.key && a.seq < b.seq)
}

pub open spec fn entry_le(a: EntryModel, b: EntryModel) -> bool {
    entry_lt(a, b) || (a.key == b.key && a.seq == b.seq)
}

/// Of two byte strings, exactly one of `<`, `==`, `>` holds.
pub proof fn lemma_bytes_trichotomy(a: Seq<u8>, b: Seq<u8>)
    ensures
        bytes_lt(a, b) || a == b || bytes_lt(b, a),
        bytes_lt(a, b) ==> a != b && !bytes_lt(b, a),
        a == b ==> !bytes_lt(a, b) && !bytes_lt(b, a),
    decreases a.len(),
{
    if b.len() == 0 {
        if a.len() == 0 {
            assert(a =~= b);
        }
    } else if a.len() == 0 {
    } else if a[0] < b[0] {
    } else if a[0] > b[0] {
    } else {
        lemma_bytes_trichotomy(a.skip(1), b.skip(1));
        if a.skip(1) == b.skip(1) {
            assert forall|j: int| 0 <= j < a.len() implies a[j] == b[j] by {
                if j >= 1 {
                    assert(a.skip(1)[j - 1] == a[j]);
                    assert(b.skip(1)[j - 1] == b[j]);
                }
            }
            assert(a =~= b);
        }
    }
}

/// Dropping an equal prefix does not change the order.
pub proof fn lemma_bytes_lt_common(a: Seq<u8>, b: Seq<u8>, i: int)
    requires
        0 <= i <= a.len(),
        i <= b.len(),
        a.subrange(0, i) == b.subrange(0, i),
    ensures
        bytes_lt(a, b) == bytes_lt(a.skip(i), b.skip(i)),
    decreases i,
{
    if i == 0 {
        assert(a.skip(0) =~= a);
        assert(b.skip(0) =~= b);
    } else {
        assert(a.subrange(0, i)[0] == a[0]);
        assert(b.subrange(0, i)[0] == b[0]);
        if a.len() > 0 && b.len() > 0 && a[0] == b[0] {
            assert(a.skip(1).subrange(0, i - 1) =~= a.subrange(0, i).skip(1));
            assert(b.skip(1).subrange(0, i - 1) =~= b.subrange(0, i).skip(1));
            assert(a.skip(1).subrange(0, i - 1) == b.skip(1).subrange(0, i - 1));
            lemma_bytes_lt_common(a.skip(1), b.skip(1), i - 1);
            assert(a.skip(1).skip(i - 1) =~= a.skip(i));
            assert(b.skip(1).skip(i - 1) =~= b.skip(i));
        }
    }
}

/// Lexicographic comparison of two byte strings.
pub fn compare_bytes(a: &[u8], b: &[u8]) -> (r: core::cmp::Ordering)
    ensures
        r is Less <==> bytes_lt(a@, b@),
        r is Equal <==> a@ == b@,
        r is Greater <==> bytes_lt(b@, a@),
{
    proof {
        lemma_bytes_trichotomy(a@, b@);
    }
    let a_len = a.len();
    let b_len = b.len();
    let common = if a_len < b_len {
        a_len
    } else {
        b_len
    };
    let mut i: usize = 0;
    while i < common
        invariant
            common <= a@.len(),
            common <= b@.len(),
            i <= common,
            a@.subrange(0, i as int) =~= b@.subrange(0, i as int),
        decreases common - i,
    {
        let x = a[i];
        let y = b[i];
        if x < y {
            proof {
                lemma_bytes_trichotomy(a@, b@);
                lemma_bytes_lt_common(a@, b@, i as int);
                assert(a@.skip(i as int)[0] == a@[i as int]);
                assert(b@.skip(i as int)[0] == b@[i as int]);
                assert(bytes_lt(a@.skip(i as int), b@.skip(i as int)));
            }
            return core::cmp::Ordering::Less;
        }
        if x > y {
            proof {
                lemma_bytes_trichotomy(a@, b@);
                lemma_bytes_lt_common(b@, a@, i as int);
                assert(a@.skip(i as int)[0] == a@[i as int]);
                assert(b@.skip(i as int)[0] == b@[i as int]);
                assert(bytes_lt(b@.skip(i as int), a@.skip(i as int)));
            }
            return core::cmp::Ordering::Greater;
        }
        proof {
            assert(a@.subrange(0, i + 1) =~= b@.subrange(0, i + 1));
        }
        i = i + 1;
    }
    proof {
        lemma_bytes_lt_common(a@, b@, i as int);
        lemma_bytes_lt_common(b@, a@, i as int);
        assert(a@.skip(i as int).len() == a@.len() - i);
        assert(b@.skip(i as int).len() == b@.len() - i);
    }
    if a_len < b_len {
        core::cmp::Ordering::Less
    } else if a_len > b_len {
        core::cmp::Ordering::Greater
    } else {
        proof {
            assert(a@ =~= b@);
        }
        core::cmp::Ordering::Equal
    }
}

/// Comparison in the entry order: key bytes first, sequence second.
pub fn compare_entries(a: &Entry, b: &Entry) -> (r: core::cmp::Ordering)
    ensures
        r is Less <==> entry_lt(a@, b@),
        r is Equal <==> (a@.key == b@.key && a@.seq == b@.seq),
        r is Greater <==> entry_lt(b@, a@),
{
    proof {
        lemma_bytes_trichotomy(a@.key, b@.key);
    }
    match compare_bytes(a.key.as_slice(), b.key.as_slice()) {
        core::cmp::Ordering::Equal => {
            if a.seq < b.seq {
                core::cmp::Ordering::Less
            } else if a.seq > b.seq {
                core::cmp::Ordering::Greater
            } else {
                core::cmp::Ordering::Equal
            }
        },
        ord => ord,
    }
}

/// The wire form of an entry: length-prefixed key, varint sequence, then
/// a tag — 1 for a value (length-prefixed), 2 for a tombstone.
pub open spec fn spec_entry_enc(e: EntryModel) -> Seq<u8> {
    spec_bytes_with_len(e.key) + spec_var_u64(e.seq) + (match e.value {
        Some(v) => seq![1u8] + spec_bytes_with_len(v),
        None => seq![2u8],
    })
}

/// Decoding of one entry from the head of a buffer: the entry and the
/// bytes consumed, or nothing on truncation or an unknown tag.
pub open spec fn spec_entry_dec(s: Seq<u8>) -> Option<(EntryModel, nat)> {
    match spec_bytes_with_len_dec(s) {
        Some((key, n1)) => match spec_var_u64_dec(s.skip(n1 as int), 0) {
            Some((seq, n2)) => {
                let off = n1 + n2;
                if off >= s.len() {
                    None
                } else {
                    let tag = s[off as int];
                    if tag == 1 {
                        match spec_bytes_with_len_dec(s.skip(off + 1 as int)) {
                            Some((v, n3)) => Some(
                                (
                                    EntryModel { key, seq: seq as u64, value: Some(v) },
                                    (off + 1 + n3) as nat,
                                ),
                            ),
                            None => None,
                        }
                    } else if tag == 2 {
                        Some((EntryModel { key, seq: seq as u64, value: None }, (off + 1) as nat))
                    } else {
                        None
                    }
                }
            },
            None => None,
        },
        None => None,
    }
}

/// An encoded entry decodes back to itself, whatever follows it.
pub proof fn lemma_entry_round_trip(e: EntryModel, rest: Seq<u8>)
    requires
        entry_encodable(e),
    ensures
        spec_entry_dec(spec_entry_enc(e) + rest) == Some((e, spec_entry_enc(e).len())),
{
    let key_part = spec_bytes_with_len(e.key);
    let seq_part = spec_var_u64(e.seq);
    let tail = match e.value {
        Some(v) => seq![1u8] + spec_bytes_with_len(v),
        None => seq![2u8],
    };
    let s = spec_entry_enc(e) + rest;
    assert(s =~= key_part + (seq_part + tail + rest));
    lemma_bytes_with_len_round_trip(e.key, seq_part + tail + rest);
    let n1 = key_part.len();
    assert(s.skip(n1 as int) =~= seq_part + (tail + rest));
    lemma_var_u64_round_trip(e.seq, tail + rest);
    let n2 = seq_part.len();
    let off = n1 + n2;
    assert(s[off as int] == tail[0]);
    match e.value {
        Some(v) => {
            assert(s.skip(off + 1 as int) =~= spec_bytes_with_len(v) + rest);
            lemma_bytes_with_len_round_trip(v, rest);
            assert(off + 1 + spec_bytes_with_len(v).len() == spec_entry_enc(e).len());
        },
        None => {
            assert(off + 1 == spec_entry_enc(e).len());
        },
    }
}

/// A fresh vector holding the same bytes.
pub fn copy_bytes(v: &Vec<u8>) -> (r: Vec<u8>)
    ensures
        r@ == v@,
{
    let mut r: Vec<u8> = Vec::new();
    r.extend_from_slice(v.as_slice());
    proof {
        assert(r@ =~= v@);
    }
    r
}

impl Entry {
    /// A copy of this entry, equal in the model.
    pub fn dup(&self) -> (r: Entry)
        ensures
            r@ == self@,
    {
        Entry {
            key: copy_bytes(&self.key),
            seq: self.seq,
            value: match &self.value {
                Some(v) => Some(copy_bytes(v)),
                None => None,
            },
        }
    }

    /// Appends the wire form of this entry to `buf`.
    pub fn encode(&self, buf: &mut Vec<u8>)
        requires
            entry_encodable(self@),
        ensures
            final(buf)@ == old(buf)@ + spec_entry_enc(self@),
    {
        let key_len = self.key.len() as u32;
        append_var_u32(buf, key_len);
        buf.extend_from_slice(self.key.as_slice());
        append_var_u64(buf, self.seq);
        match &self.value {
            Some(value) => {
                buf.push(1);
                let value_len = value.len() as u32;
                append_var_u32(buf, value_len);
                buf.extend_from_slice(value.as_slice());
            },
            None => {
                buf.push(2);
            },
        }
        assert(buf@ =~= old(buf)@ + spec_entry_enc(self@));
    }

    /// Decodes one entry from the head of `buf`, reporting how many bytes
    /// it took.
    pub fn decode_to_vec_u8(buf: &[u8]) -> (r: Option<(Entry, usize)>)
        ensures
            match r {
                Some((e, n)) => spec_entry_dec(buf@) == Some((e@, n as nat)) && 1 <= n
                    <= buf@.len(),
                None => spec_entry_dec(buf@) is None,
            },
    {
        let (key, n1) = match decode_bytes_with_len(buf) {
            Some(x) => x,
            None => { return None },
        };
        proof {
            assert(buf@.skip(n1 as int) =~= buf@.subrange(n1 as int, buf@.len() as int));
        }
        let (seq, n2) = match decode_var_u64(&buf[n1..buf.len()]) {
            Some(x) => x,
            None => { return None },
        };
        let off = n1 + n2;
        if off == buf.len() {
            return None;
        }
        let tag = buf[off];
        if tag == 1 {
            proof {
                assert(buf@.skip(off + 1) =~= buf@.subrange(off + 1, buf@.len() as int));
            }
            let (value, n3) = match decode_bytes_with_len(&buf[off + 1..buf.len()]) {
                Some(x) => x,
                None => { return None },
            };
            let entry = Entry { key, seq, value: Some(value) };
            Some((entry, off + 1 + n3))
        } else if tag == 2 {
            let entry = Entry { key, seq, value: None };
            Some((entry, off + 1))
        } else {
            None
        }
    }

    /// Decodes one entry, reporting a corrupt buffer as a WAL corruption.
    pub fn decode(buf: &[u8]) -> (r: EikvResult<(Entry, usize)>)
        ensures
            match r {
                Ok((e, n)) => spec_entry_dec(buf@) == Some((e@, n as nat)) && 1 <= n
                    <= buf@.len(),
                Err(e) => spec_entry_dec(buf@) is None && e == EikvError::WalCorruption,
            },
    {
        match Entry::decode_to_vec_u8(buf) {
            Some((entry, n)) => Ok((entry, n)),
            None => Err(EikvError::WalCorruption),
        }
    }
}

impl Entry {
    /// How many bytes this entry's wire form takes, or nothing when a key
    /// or value is too long for its length prefix.
    pub fn enc_len_checked(&self) -> (r: Option<u64>)
        ensures
            match r {
                Some(n) => entry_encodable(self@) && n == spec_entry_enc(self@).len(),
                None => !entry_encodable(self@),
            },
    {
        if self.key.len() as u64 > u32::MAX as u64 {
            return None;
        }
        let key_len = self.key.len() as u64;
        let mut n: u64 = crate::coding::var_u32_len(self.key.len() as u32) as u64 + key_len
            + crate::coding::var_u64_len(self.seq) as u64 + 1;
        match &self.value {
            Some(value) => {
                if value.len() as u64 > u32::MAX as u64 {
                    return None;
                }
                let value_len = value.len() as u64;
                n = n + crate::coding::var_u32_len(value.len() as u32) as u64 + value_len;
            },
            None => {},
        }
        Some(n)
    }
}

} // verus!
