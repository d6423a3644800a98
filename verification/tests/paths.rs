use eikv::paths::{
    current_path, current_tmp_path, lock_file_path, manifest_dir_path, manifest_path, sst_dir_path,
    sst_level_dir_path, sst_major_tmp_path, sst_minor_tmp_path, sst_path, sst_tmp_dir_path,
    wal_dir_path, wal_path,
};

#[test]
fn test_lock_file_path() {
    let db_path = "/tmp/eikv";
    let want = "/tmp/eikv/lock";
    let res = lock_file_path(db_path).unwrap();
    assert_eq!(want, res);
}

#[test]
fn test_manifest_dir_path() {
    let db_path = "/tmp/eikv";
    let want = "/tmp/eikv/manifest";
    let res = manifest_dir_path(db_path).unwrap();
    assert_eq!(want, res);
}

#[test]
fn test_sst_dir_path() {
    let db_path = "/tmp/eikv";
    let want = "/tmp/eikv/sst";
    let res = sst_dir_path(db_path).unwrap();
    assert_eq!(want, res);
}

#[test]
fn test_sst_level_dir_path() {
    let db_path = "/tmp/eikv";
    let want = "/tmp/eikv/sst/1";
    let res = sst_level_dir_path(db_path, 1).unwrap();
    assert_eq!(want, res);
}

#[test]
fn test_wal_dir_path() {
    let db_path = "/tmp/eikv";
    let want = "/tmp/eikv/wal";
    let res = wal_dir_path(db_path).unwrap();
    assert_eq!(want, res);
}

#[test]
fn test_current_and_tmp_paths() {
    assert_eq!("/tmp/eikv/current", current_path("/tmp/eikv").unwrap());
    assert_eq!("/tmp/eikv/current.tmp", current_tmp_path("/tmp/eikv").unwrap());
}

#[test]
fn test_numbered_file_paths() {
    assert_eq!(
        "/tmp/eikv/manifest/000007.manifest",
        manifest_path("/tmp/eikv", 7).unwrap()
    );
    assert_eq!("/tmp/eikv/wal/000123.wal", wal_path("/tmp/eikv", 123).unwrap());
    assert_eq!("/tmp/eikv/sst/2/001000.sst", sst_path("/tmp/eikv", 2, 1000).unwrap());
    assert_eq!("/tmp/eikv/sst/tmp", sst_tmp_dir_path("/tmp/eikv").unwrap());
    assert_eq!("/tmp/eikv/sst/tmp/minor.sst", sst_minor_tmp_path("/tmp/eikv").unwrap());
    assert_eq!(
        "/tmp/eikv/sst/tmp/major_000002.sst",
        sst_major_tmp_path("/tmp/eikv", 2).unwrap()
    );
    assert_eq!(
        "/tmp/eikv/manifest/1234567.manifest",
        manifest_path("/tmp/eikv", 1234567).unwrap()
    );
}
