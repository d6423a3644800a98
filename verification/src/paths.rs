//! The on-disk layout of a store, rooted at its directory: the lock and
//! pointer files, and the manifest, log and per-level table directories.
use vstd::prelude::*;

use crate::error::EikvResult;

verus! {

/// The decimal digit characters in order.
pub open spec fn spec_digit(d: int) -> char {
    if d == 0 {
        '0'
    } else if d == 1 {
        '1'
    } else if d == 2 {
        '2'
    } else if d == 3 {
        '3'
    } else if d == 4 {
        '4'
    } else if d == 5 {
        '5'
    } else if d == 6 {
        '6'
    } else if d == 7 {
        '7'
    } else if d == 8 {
        '8'
    } else {
        '9'
    }
}

/// The decimal digits of `n`, most significant first.
pub open spec fn spec_dec(n: int) -> Seq<char>
    decreases n,
{
    if n < 10 {
        seq![spec_digit(n)]
    } else {
        spec_dec(n / 10).push(spec_digit(n % 10))
    }
}

/// The decimal digits of `n`, left-padded with zeros to `width`.
pub open spec fn spec_dec_pad(n: int, width: int) -> Seq<char> {
    let d = spec_dec(n);
    if d.len() >= width {
        d
    } else {
        Seq::new((width - d.len()) as nat, |i: int| '0') + d
    }
}

/// Two path components joined with a separator.
pub open spec fn spec_join(a: Seq<char>, b: Seq<char>) -> Seq<char> {
    a + seq!['/'] + b
}

/// One decimal digit as text.
fn digit_str(d: u64) -> (r: &'static str)
    requires
        d < 10,
    ensures
        r@ == seq![spec_digit(d as int)],
{
    proof {
        reveal_strlit("0");
        reveal_strlit("1");
        reveal_strlit("2");
        reveal_strlit("3");
        reveal_strlit("4");
        reveal_strlit("5");
        reveal_strlit("6");
        reveal_strlit("7");
        reveal_strlit("8");
        reveal_strlit("9");
    }
    if d == 0 {
        "0"
    } else if d == 1 {
        "1"
    } else if d == 2 {
        "2"
    } else if d == 3 {
        "3"
    } else if d == 4 {
        "4"
    } else if d == 5 {
        "5"
    } else if d == 6 {
        "6"
    } else if d == 7 {
        "7"
    } else if d == 8 {
        "8"
    } else {
        "9"
    }
}

/// `n` in decimal.
pub fn u64_to_dec(n: u64) -> (r: String)
    ensures
        r@ == spec_dec(n as int),
    decreases n,
{
    if n < 10 {
        let mut s = String::new();
        s.append(digit_str(n));
        proof {
            assert(s@ =~= spec_dec(n as int));
        }
        s
    } else {
        let mut s = u64_to_dec(n / 10);
        s.append(digit_str(n % 10));
        proof {
            assert(s@ =~= spec_dec(n as int));
        }
        s
    }
}

/// How many decimal digits `n` has.
fn dec_len(n: u64) -> (r: usize)
    ensures
        r == spec_dec(n as int).len(),
        1 <= r <= 20,
    decreases n,
{
    if n < 10 {
        1
    } else {
        proof {
            lemma_dec_len_bound(n as int);
        }
        1 + dec_len(n / 10)
    }
}

pub proof fn lemma_dec_len_bound(n: int)
    requires
        0 <= n <= u64::MAX,
    ensures
        1 <= spec_dec(n).len() <= 20,
    decreases n,
{
    if n >= 10 {
        lemma_dec_len_bound(n / 10);
        if spec_dec(n / 10).len() >= 20 {
            lemma_dec_len_floor(n / 10, 20);
            lemma_ten_pow_values();
            assert(n >= 10 * (n / 10));
        }
    }
}

/// A positive number with at least `k` digits is at least the `k-1`-th
/// power of ten.
pub proof fn lemma_dec_len_floor(n: int, k: int)
    requires
        n >= 1,
        spec_dec(n).len() >= k,
        k >= 1,
    ensures
        n >= ten_pow((k - 1) as nat),
    decreases k,
{
    if k == 1 {
    } else {
        assert(n >= 10);
        lemma_dec_len_floor(n / 10, k - 1);
        assert(ten_pow((k - 1) as nat) == 10 * ten_pow((k - 2) as nat));
        assert(n >= 10 * (n / 10));
    }
}

pub proof fn lemma_ten_pow_values()
    ensures
        ten_pow(19) == 0x8AC7230489E80000,
{
    assert(ten_pow(0) == 1);
    assert(ten_pow(1) == 10 * ten_pow(0));
    assert(ten_pow(2) == 10 * ten_pow(1));
    assert(ten_pow(3) == 10 * ten_pow(2));
    assert(ten_pow(4) == 10 * ten_pow(3));
    assert(ten_pow(5) == 10 * ten_pow(4));
    assert(ten_pow(6) == 10 * ten_pow(5));
    assert(ten_pow(7) == 10 * ten_pow(6));
    assert(ten_pow(8) == 10 * ten_pow(7));
    assert(ten_pow(9) == 10 * ten_pow(8));
    assert(ten_pow(10) == 10 * ten_pow(9));
    assert(ten_pow(11) == 10 * ten_pow(10));
    assert(ten_pow(12) == 10 * ten_pow(11));
    assert(ten_pow(13) == 10 * ten_pow(12));
    assert(ten_pow(14) == 10 * ten_pow(13));
    assert(ten_pow(15) == 10 * ten_pow(14));
    assert(ten_pow(16) == 10 * ten_pow(15));
    assert(ten_pow(17) == 10 * ten_pow(16));
    assert(ten_pow(18) == 10 * ten_pow(17));
    assert(ten_pow(19) == 10 * ten_pow(18));
}

pub open spec fn ten_pow(k: nat) -> int
    decreases k,
{
    if k == 0 {
        1
    } else {
        10 * ten_pow((k - 1) as nat)
    }
}

/// `n` in decimal, left-padded with zeros to at least `width` characters.
pub fn u64_to_dec_pad(n: u64, width: usize) -> (r: String)
    requires
        width <= 100,
    ensures
        r@ == spec_dec_pad(n as int, width as int),
{
    let len = dec_len(n);
    let zeros_needed: usize = if width > len {
        width - len
    } else {
        0
    };
    let mut s = String::new();
    let mut k: usize = 0;
    while k < zeros_needed
        invariant
            k <= zeros_needed,
            zeros_needed == (if spec_dec(n as int).len() >= width {
                0int
            } else {
                width - spec_dec(n as int).len()
            }),
            len == spec_dec(n as int).len(),
            s@ =~= Seq::new(k as nat, |i: int| '0'),
        decreases zeros_needed - k,
    {
        s.append(digit_str(0));
        proof {
            assert(s@ =~= Seq::new((k + 1) as nat, |i: int| '0'));
        }
        k = k + 1;
    }
    let d = u64_to_dec(n);
    s.append(d.as_str());
    proof {
        assert(s@ =~= spec_dec_pad(n as int, width as int));
    }
    s
}

/// Two path components joined with the directory separator.
pub fn join_path(path1: &str, path2: &str) -> (r: EikvResult<String>)
    ensures
        match r {
            Ok(p) => p@ == spec_join(path1@, path2@),
            Err(_) => false,
        },
{
    proof {
        reveal_strlit("/");
    }
    let mut s = path1.to_owned();
    s.append("/");
    s.append(path2);
    proof {
        assert(s@ =~= spec_join(path1@, path2@));
    }
    Ok(s)
}

/// The pointer file naming the live manifest snapshot.
pub fn current_path(db_path: &str) -> (r: EikvResult<String>)
    ensures
        match r {
            Ok(p) => p@ == spec_join(db_path@, "current"@),
            Err(_) => false,
        },
{
    join_path(db_path, "current")
}

/// The staging name the pointer file is renamed from.
pub fn current_tmp_path(db_path: &str) -> (r: EikvResult<String>)
    ensures
        match r {
            Ok(p) => p@ == spec_join(db_path@, "current.tmp"@),
            Err(_) => false,
        },
{
    join_path(db_path, "current.tmp")
}

/// The advisory lock file.
pub fn lock_file_path(db_path: &str) -> (r: EikvResult<String>)
    ensures
        match r {
            Ok(p) => p@ == spec_join(db_path@, "lock"@),
            Err(_) => false,
        },
{
    join_path(db_path, "lock")
}

/// The directory of manifest snapshots.
pub fn manifest_dir_path(db_path: &str) -> (r: EikvResult<String>)
    ensures
        match r {
            Ok(p) => p@ == spec_join(db_path@, "manifest"@),
            Err(_) => false,
        },
{
    join_path(db_path, "manifest")
}

/// One manifest snapshot, named by its six-digit number.
pub fn manifest_path(db_path: &str, manifest_seq: u64) -> (r: EikvResult<String>)
    ensures
        match r {
            Ok(p) => p@ == spec_join(
                spec_join(db_path@, "manifest"@),
                spec_dec_pad(manifest_seq as int, 6) + ".manifest"@,
            ),
            Err(_) => false,
        },
{
    let dir = match manifest_dir_path(db_path) {
        Ok(d) => d,
        Err(e) => { return Err(e) },
    };
    let mut file_name = u64_to_dec_pad(manifest_seq, 6);
    file_name.append(".manifest");
    join_path(dir.as_str(), file_name.as_str())
}

/// The directory of sorted string tables.
pub fn sst_dir_path(db_path: &str) -> (r: EikvResult<String>)
    ensures
        match r {
            Ok(p) => p@ == spec_join(db_path@, "sst"@),
            Err(_) => false,
        },
{
    join_path(db_path, "sst")
}

/// The directory of one level's tables.
pub fn sst_level_dir_path(db_path: &str, level: usize) -> (r: EikvResult<String>)
    ensures
        match r {
            Ok(p) => p@ == spec_join(
                spec_join(db_path@, "sst"@),
                spec_dec(level as int),
            ),
            Err(_) => false,
        },
{
    let dir = match sst_dir_path(db_path) {
        Ok(d) => d,
        Err(e) => { return Err(e) },
    };
    let name = u64_to_dec(level as u64);
    join_path(dir.as_str(), name.as_str())
}

/// The staging directory tables are built in before renaming.
pub fn sst_tmp_dir_path(db_path: &str) -> (r: EikvResult<String>)
    ensures
        match r {
            Ok(p) => p@ == spec_join(spec_join(db_path@, "sst"@), "tmp"@),
            Err(_) => false,
        },
{
    let dir = match sst_dir_path(db_path) {
        Ok(d) => d,
        Err(e) => { return Err(e) },
    };
    join_path(dir.as_str(), "tmp")
}

/// The staging name of a table written by a minor compaction.
pub fn sst_minor_tmp_path(db_path: &str) -> (r: EikvResult<String>)
    ensures
        match r {
            Ok(p) => p@ == spec_join(
                spec_join(spec_join(db_path@, "sst"@), "tmp"@),
                "minor.sst"@,
            ),
            Err(_) => false,
        },
{
    let dir = match sst_tmp_dir_path(db_path) {
        Ok(d) => d,
        Err(e) => { return Err(e) },
    };
    join_path(dir.as_str(), "minor.sst")
}

/// The staging name of the n-th table written by a major compaction.
pub fn sst_major_tmp_path(db_path: &str, major_seq: u64) -> (r: EikvResult<String>)
    ensures
        match r {
            Ok(p) => p@ == spec_join(
                spec_join(spec_join(db_path@, "sst"@), "tmp"@),
                "major_"@ + spec_dec_pad(major_seq as int, 6) + ".sst"@,
            ),
            Err(_) => false,
        },
{
    let dir = match sst_tmp_dir_path(db_path) {
        Ok(d) => d,
        Err(e) => { return Err(e) },
    };
    let mut file_name = "major_".to_owned();
    let digits = u64_to_dec_pad(major_seq, 6);
    file_name.append(digits.as_str());
    file_name.append(".sst");
    proof {
        assert(file_name@ =~= "major_"@ + spec_dec_pad(major_seq as int, 6) + ".sst"@);
    }
    join_path(dir.as_str(), file_name.as_str())
}

/// One live table, named by its six-digit number under its level.
pub fn sst_path(db_path: &str, level: usize, file_seq: u64) -> (r: EikvResult<String>)
    ensures
        match r {
            Ok(p) => p@ == spec_join(
                spec_join(spec_join(db_path@, "sst"@), spec_dec(level as int)),
                spec_dec_pad(file_seq as int, 6) + ".sst"@,
            ),
            Err(_) => false,
        },
{
    let dir = match sst_level_dir_path(db_path, level) {
        Ok(d) => d,
        Err(e) => { return Err(e) },
    };
    let mut file_name = u64_to_dec_pad(file_seq, 6);
    file_name.append(".sst");
    join_path(dir.as_str(), file_name.as_str())
}

/// The directory of write-ahead logs.
pub fn wal_dir_path(db_path: &str) -> (r: EikvResult<String>)
    ensures
        match r {
            Ok(p) => p@ == spec_join(db_path@, "wal"@),
            Err(_) => false,
        },
{
    join_path(db_path, "wal")
}

/// One log file, named by its six-digit number.
pub fn wal_path(db_path: &str, file_seq: u64) -> (r: EikvResult<String>)
    ensures
        match r {
            Ok(p) => p@ == spec_join(
                spec_join(db_path@, "wal"@),
                spec_dec_pad(file_seq as int, 6) + ".wal"@,
            ),
            Err(_) => false,
        },
{
    let dir = match wal_dir_path(db_path) {
        Ok(d) => d,
        Err(e) => { return Err(e) },
    };
    let mut file_name = u64_to_dec_pad(file_seq, 6);
    file_name.append(".wal");
    join_path(dir.as_str(), file_name.as_str())
}

} // verus!
