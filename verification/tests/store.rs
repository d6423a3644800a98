use eikv::checksum::crc32_checksum;
use eikv::coding::{append_var_u64, decode_var_u64};
use eikv::data_block::{decode_block, find, Builder};
use eikv::db::DBOptions;
use eikv::entry::Entry;
use eikv::manifest::{parse_listing, recover, render_listing, Manifest, SstMeta, LEVEL_MIN};
use eikv::mem_table::{read_wal, MemTable, Table};
use eikv::merger::Merger;
use eikv::sst::{sst_entries, Writer};
use eikv::wal::read_wal_records;
use eikv::write_batch::WriteBatch;
use eikv::EikvError;

fn put_entry(key: &[u8], seq: u64, value: &[u8]) -> Entry {
    Entry { key: key.to_vec(), seq, value: Some(value.to_vec()) }
}

fn tombstone(key: &[u8], seq: u64) -> Entry {
    Entry { key: key.to_vec(), seq, value: None }
}

fn options(block_size: usize, restart_interval: usize) -> DBOptions {
    DBOptions { block_size, create_if_missing: true, restart_interval, wal_size_limit: 2 << 20 }
}

#[test]
fn crc32_known_answer() {
    let data = b"123456789";
    assert_eq!(0xCBF43926, crc32_checksum(data));
    assert_eq!(0, crc32_checksum(&[]) ^ crc32_checksum(&[]));
}

#[test]
fn varint_round_trip() {
    for &v in &[0u64, 1, 127, 128, 300, 0xFFFF_FFFF, u64::MAX] {
        let mut buf = Vec::new();
        append_var_u64(&mut buf, v);
        let (decoded, n) = decode_var_u64(&buf).unwrap();
        assert_eq!(v, decoded);
        assert_eq!(buf.len(), n);
    }
}

#[test]
fn wal_framing_round_trip() {
    let mut wb = WriteBatch::new();
    wb.put(b"alpha".to_vec(), b"1".to_vec());
    wb.put(b"beta".to_vec(), b"2".to_vec());
    wb.delete(b"alpha".to_vec());
    let mut wb = wb;
    wb.set_seqs(10);
    let mut buf = Vec::new();
    wb.encode(&mut buf);
    let decoded = WriteBatch::decode(&buf).unwrap();
    let entries = decoded.entries();
    assert_eq!(3, entries.len());
    assert_eq!(b"alpha".to_vec(), entries[0].key);
    assert_eq!(10, entries[0].seq);
    assert_eq!(Some(b"1".to_vec()), entries[0].value);
    assert_eq!(11, entries[1].seq);
    assert_eq!(b"alpha".to_vec(), entries[2].key);
    assert_eq!(12, entries[2].seq);
    assert_eq!(None, entries[2].value);
}

#[test]
fn wal_framing_detects_corruption() {
    let mut wb = WriteBatch::new();
    wb.put(b"key".to_vec(), b"value".to_vec());
    let mut wb = wb;
    wb.set_seqs(1);
    let mut buf = Vec::new();
    wb.encode(&mut buf);
    for i in 0..buf.len() {
        let mut bad = buf.clone();
        bad[i] ^= 0x40;
        assert!(WriteBatch::decode(&bad).is_err(), "corruption at byte {} undetected", i);
    }
}

#[test]
fn wal_truncated_record_is_corrupt() {
    let mut wb = WriteBatch::new();
    wb.put(b"key".to_vec(), b"value".to_vec());
    let mut wb = wb;
    wb.set_seqs(1);
    let mut buf = Vec::new();
    wb.encode(&mut buf);
    buf.pop();
    match read_wal_records(&buf) {
        Err(EikvError::WalCorruption) => (),
        other => panic!("expected corruption, got {:?}", other.is_ok()),
    }
}

#[test]
fn replay_rebuilds_the_table() {
    let mut buf = Vec::new();
    let mut seq = 1;
    for i in 0..500u64 {
        let mut wb = WriteBatch::new();
        let key = format!("{:08}", i);
        let value = format!("v{}", i);
        wb.put(key.into_bytes(), value.into_bytes());
        wb.set_seqs(seq);
        seq += 1;
        wb.encode(&mut buf);
    }
    let (table, max_seq) = read_wal(&buf).unwrap();
    assert_eq!(500, max_seq);
    for i in 0..500u64 {
        let key = format!("{:08}", i).into_bytes();
        let found = table.get(&key, u64::MAX).expect("key lost in replay");
        assert_eq!(Some(format!("v{}", i).into_bytes()), found.value);
    }
}

#[test]
fn put_get_delete_visibility() {
    let mut mem = MemTable::new();
    let mut wb = WriteBatch::new();
    wb.put(b"a".to_vec(), b"1".to_vec());
    wb.put(b"b".to_vec(), b"2".to_vec());
    wb.delete(b"a".to_vec());
    let mut wb = wb;
    wb.set_seqs(1);
    mem.update(&wb);
    let a = mem.get(b"a", u64::MAX).unwrap();
    assert_eq!(None, a.value);
    let b = mem.get(b"b", u64::MAX).unwrap();
    assert_eq!(Some(b"2".to_vec()), b.value);
    assert!(mem.get(b"c", u64::MAX).is_none());
}

#[test]
fn freeze_keeps_lookups() {
    let mut mem = MemTable::new();
    let mut wb = WriteBatch::new();
    wb.put(b"k".to_vec(), b"v".to_vec());
    let mut wb = wb;
    wb.set_seqs(1);
    mem.update(&wb);
    mem.freeze();
    let found = mem.get(b"k", u64::MAX).unwrap();
    assert_eq!(Some(b"v".to_vec()), found.value);
    let mut wb2 = WriteBatch::new();
    wb2.put(b"k".to_vec(), b"w".to_vec());
    let mut wb2 = wb2;
    wb2.set_seqs(2);
    mem.update(&wb2);
    let found = mem.get(b"k", u64::MAX).unwrap();
    assert_eq!(Some(b"w".to_vec()), found.value);
}

#[test]
fn data_block_round_trip() {
    let mut builder = Builder::new(options(4096, 16));
    let mut want = Vec::new();
    for i in 0..50u64 {
        let e = put_entry(format!("key{:04}", i).as_bytes(), i + 1, format!("val{}", i).as_bytes());
        want.push((e.key.clone(), e.seq, e.value.clone()));
        builder.append(e);
    }
    let block = builder.build();
    let decoded = decode_block(&block).unwrap();
    assert_eq!(want.len(), decoded.len());
    for (i, e) in decoded.iter().enumerate() {
        assert_eq!(want[i].0, e.key);
        assert_eq!(want[i].1, e.seq);
        assert_eq!(want[i].2, e.value);
    }
}

#[test]
fn data_block_find_newest_version() {
    let mut builder = Builder::new(options(4096, 4));
    builder.append(put_entry(b"a", 1, b"old"));
    builder.append(put_entry(b"a", 5, b"new"));
    builder.append(put_entry(b"b", 2, b"bee"));
    let block = builder.build();
    let hit = find(&block, b"a").unwrap().unwrap();
    assert_eq!(5, hit.seq);
    assert_eq!(Some(b"new".to_vec()), hit.value);
    assert!(find(&block, b"missing").unwrap().is_none());
}

#[test]
fn sst_round_trip_across_block_shapes() {
    for &block_size in &[1024usize, 4096, 65536] {
        for &restart_interval in &[1usize, 16, 256] {
            let mut writer = Writer::new(options(block_size, restart_interval), u64::MAX);
            let mut want = Vec::new();
            for i in 0..300u64 {
                let e = put_entry(
                    format!("key{:06}", i).as_bytes(),
                    i + 1,
                    format!("value-{}", i).as_bytes(),
                );
                want.push((e.key.clone(), e.seq, e.value.clone()));
                writer.append(e);
            }
            let file = writer.finish();
            let decoded = sst_entries(&file, block_size).unwrap();
            assert_eq!(want.len(), decoded.len(), "bs={} ri={}", block_size, restart_interval);
            for (i, e) in decoded.iter().enumerate() {
                assert_eq!(want[i].0, e.key);
                assert_eq!(want[i].1, e.seq);
                assert_eq!(want[i].2, e.value);
            }
        }
    }
}

#[test]
fn sst_detects_flipped_byte() {
    let mut writer = Writer::new(options(1024, 4), u64::MAX);
    for i in 0..100u64 {
        writer.append(put_entry(format!("k{:04}", i).as_bytes(), i + 1, b"v"));
    }
    let file = writer.finish();
    let mut bad = file.clone();
    let mid = bad.len() / 2;
    bad[mid] ^= 0xFF;
    assert!(sst_entries(&bad, 1024).is_err());
}

#[test]
fn merge_collapses_old_versions() {
    let one = vec![put_entry(b"a", 1, b"v1"), put_entry(b"a", 2, b"v2")];
    let two = vec![tombstone(b"a", 3), put_entry(b"b", 5, b"vb")];
    let merger = Merger::new(vec![one, two], 3);
    let out = merger.merge();
    assert_eq!(2, out.len());
    assert_eq!(b"a".to_vec(), out[0].key);
    assert_eq!(3, out[0].seq);
    assert_eq!(None, out[0].value);
    assert_eq!(b"b".to_vec(), out[1].key);
    assert_eq!(5, out[1].seq);
    assert_eq!(Some(b"vb".to_vec()), out[1].value);
}

#[test]
fn merge_keeps_entries_above_the_guard() {
    let one = vec![put_entry(b"k", 4, b"v4"), put_entry(b"k", 9, b"v9")];
    let two = vec![put_entry(b"k", 6, b"v6")];
    let merger = Merger::new(vec![one, two], 5);
    let out = merger.merge();
    let seqs: Vec<u64> = out.iter().map(|e| e.seq).collect();
    assert_eq!(vec![4, 6, 9], seqs);
}

#[test]
fn overwrite_delete_rewrite_with_flush_and_merge() {
    let k = b"key".to_vec();
    let mut mem = MemTable::new();
    let mut wb = WriteBatch::new();
    wb.put(k.clone(), b"v1".to_vec());
    wb.put(k.clone(), b"v2".to_vec());
    let mut wb = wb;
    wb.set_seqs(1);
    mem.update(&wb);
    mem.freeze();
    let frozen = mem.release_immut();
    let mut writer = Writer::new(options(1024, 4), u64::MAX);
    for e in frozen.entries() {
        writer.append(e.dup());
    }
    let sst1 = writer.finish();
    let mut wb2 = WriteBatch::new();
    wb2.delete(k.clone());
    wb2.put(k.clone(), b"v3".to_vec());
    let mut wb2 = wb2;
    wb2.set_seqs(3);
    mem.update(&wb2);
    let before = mem.get(&k, u64::MAX).unwrap();
    assert_eq!(Some(b"v3".to_vec()), before.value);
    mem.freeze();
    let frozen2 = mem.release_immut();
    let mut writer2 = Writer::new(options(1024, 4), u64::MAX);
    for e in frozen2.entries() {
        writer2.append(e.dup());
    }
    let sst2 = writer2.finish();
    let level1 = sst_entries(&sst1, 1024).unwrap();
    let level2 = sst_entries(&sst2, 1024).unwrap();
    let merger = Merger::new(vec![level1, level2], u64::MAX);
    let merged = merger.merge();
    let mut after = Table::new();
    for e in merged {
        after.insert(e);
    }
    let hit = after.get(&k, u64::MAX).unwrap();
    assert_eq!(4, hit.seq);
    assert_eq!(Some(b"v3".to_vec()), hit.value);
}

#[test]
fn group_commit_stamps_contiguous_sequences() {
    let mut combined = WriteBatch::new();
    let mut first = WriteBatch::new();
    for i in 0..1000u64 {
        first.put(format!("a{:04}", i).into_bytes(), b"1".to_vec());
    }
    let mut second = WriteBatch::new();
    for i in 0..1000u64 {
        second.put(format!("b{:04}", i).into_bytes(), b"2".to_vec());
    }
    combined.extend(first);
    combined.extend(second);
    let mut combined = combined;
    combined.set_seqs(100);
    let mut buf = Vec::new();
    combined.encode(&mut buf);
    let records = read_wal_records(&buf).unwrap();
    assert_eq!(1, records.len());
    let entries = records[0].entries();
    assert_eq!(2000, entries.len());
    for (i, e) in entries.iter().enumerate() {
        assert_eq!(100 + i as u64, e.seq);
    }
}

#[test]
fn manifest_tracks_files_and_triggers_compaction() {
    let mut m = Manifest::new();
    let w1 = m.alloc_wal();
    let w2 = m.alloc_wal();
    assert_eq!(1, w1);
    assert_eq!(2, w2);
    assert_eq!(vec![1, 2], m.wals().clone());
    assert_eq!(1, m.remove_wal());
    assert_eq!(vec![2], m.wals().clone());
    assert!(m.pick_compaction_level(1 << 20).is_none());
    for i in 0..7 {
        let seq = m.alloc_sst(LEVEL_MIN);
        let meta = SstMeta::new(
            put_entry(format!("k{}", i).as_bytes(), 1, b"v"),
            put_entry(format!("k{}z", i).as_bytes(), 9, b"v"),
            4096,
            1,
            4096,
            4096,
        )
        .unwrap();
        m.set_sst_meta(LEVEL_MIN, seq, meta);
    }
    assert_eq!(7, m.level_sst_count(LEVEL_MIN));
    assert_eq!(Some(LEVEL_MIN), m.pick_compaction_level(1 << 20));
    let seed = m.min_file_seq(LEVEL_MIN);
    let (this_level, next_level) = m.should_merge(LEVEL_MIN, seed);
    assert!(this_level.contains(&seed));
    assert!(next_level.is_empty());
    m.remove_sst(LEVEL_MIN, seed);
    assert_eq!(6, m.level_sst_count(LEVEL_MIN));
}

#[test]
fn should_merge_takes_overlapping_tables() {
    let mut m = Manifest::new();
    let s1 = m.alloc_sst(1);
    m.set_sst_meta(
        1,
        s1,
        SstMeta::new(put_entry(b"a", 1, b"v"), put_entry(b"m", 2, b"v"), 4096, 1, 4096, 4096)
            .unwrap(),
    );
    let s2 = m.alloc_sst(2);
    m.set_sst_meta(
        2,
        s2,
        SstMeta::new(put_entry(b"f", 1, b"v"), put_entry(b"z", 2, b"v"), 4096, 1, 4096, 4096)
            .unwrap(),
    );
    let s3 = m.alloc_sst(2);
    m.set_sst_meta(
        2,
        s3,
        SstMeta::new(put_entry(b"zz", 1, b"v"), put_entry(b"zzz", 2, b"v"), 4096, 1, 4096, 4096)
            .unwrap(),
    );
    let s4 = m.alloc_sst(1);
    m.set_sst_meta(
        1,
        s4,
        SstMeta::new(put_entry(b"q", 1, b"v"), put_entry(b"r", 2, b"v"), 4096, 1, 4096, 4096)
            .unwrap(),
    );
    let (this_level, next_level) = m.should_merge(1, s1);
    assert!(this_level.contains(&s1));
    assert!(next_level.contains(&s2));
    assert!(!next_level.contains(&s3));
    // [q, r] crosses the closure's hull [a, z], so it must join too.
    assert!(this_level.contains(&s4));
    // Nothing the closure cannot reach is taken along.
    assert_eq!(2, this_level.len());
    assert_eq!(1, next_level.len());
}

#[test]
fn errors_name_their_cause() {
    assert!(matches!(WriteBatch::decode(&[0u8; 4]), Err(EikvError::WalCorruption)));
    let mut wb = WriteBatch::new();
    wb.put(b"k".to_vec(), b"v".to_vec());
    let mut wb = wb;
    wb.set_seqs(1);
    let mut buf = Vec::new();
    wb.encode(&mut buf);
    let last = buf.len() - 1;
    buf[last] ^= 1;
    assert!(matches!(WriteBatch::decode(&buf), Err(EikvError::ChecksumMismatch)));
    assert!(matches!(sst_entries(&[0u8; 8], 1024), Err(EikvError::SstCorruption)));
    assert!(matches!(sst_entries(&[0u8; 16], 1024), Err(EikvError::ChecksumMismatch)));
}

#[test]
fn listing_round_trip() {
    let wals = vec![1u64, 4];
    let levels = vec![vec![2u64], vec![], vec![3u64, 5]];
    let text = render_listing(&wals, &levels);
    assert_eq!("000001.wal\n000004.wal\n000002.sst\n000003.sst\n000005.sst\n", text);
    let (got_wals, got_ssts) = parse_listing(&text).unwrap();
    assert_eq!(wals, got_wals);
    assert_eq!(vec![2u64, 3, 5], got_ssts);
    assert!(parse_listing("borked.wal\n").is_err());
    let (w2, s2) = parse_listing("stray line\n7.sst\n").unwrap();
    assert!(w2.is_empty());
    assert_eq!(vec![7u64], s2);
}

#[test]
fn recover_rebuilds_the_manifest() {
    let meta = SstMeta::new(put_entry(b"a", 1, b"v"), put_entry(b"z", 2, b"v"), 4096, 1, 4096, 4096)
        .unwrap();
    let m = recover(vec![2, 5], vec![(1, 3, meta)]).unwrap();
    assert_eq!(vec![2u64, 5], m.wals().clone());
    assert_eq!(6, m.next_file_seq());
    let got = m.sst_meta(1, 3).expect("table lost in recovery");
    assert_eq!(b"a".to_vec(), got.min_entry.key);
    assert_eq!(1, m.level_sst_count(1));
    let meta2 =
        SstMeta::new(put_entry(b"a", 1, b"v"), put_entry(b"z", 2, b"v"), 4096, 1, 4096, 4096)
            .unwrap();
    assert!(recover(vec![5, 2], vec![]).is_err());
    assert!(recover(vec![3], vec![(1, 3, meta2)]).is_err());
}

#[test]
fn length_checks_match_the_wire() {
    let e = put_entry(b"some-key", 42, b"some-value");
    let want = e.enc_len_checked().unwrap();
    let mut buf = Vec::new();
    e.encode(&mut buf);
    assert_eq!(want, buf.len() as u64);
    let mut wb = WriteBatch::new();
    wb.put(b"k1".to_vec(), b"v1".to_vec());
    wb.put(b"k2".to_vec(), b"v2".to_vec());
    assert!(wb.encodable());
    let mut writer = Writer::new(options(1024, 4), u64::MAX);
    let e2 = put_entry(b"a", 1, b"b");
    assert!(writer.fits(&e2));
    writer.append(e2);
}
