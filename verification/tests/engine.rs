use rocks_backup::backup_engine::{BackupEngine, SourceFile};
use rocks_backup::backupable_db_options::{
    BackupableDBOptions, CreateBackupOptions, RestoreOptions,
};
use rocks_backup::error::Code;

fn file(path: &str, data: &[u8], is_mutable_log: bool) -> SourceFile {
    SourceFile { path: String::from(path), data: data.to_vec(), is_mutable_log }
}

fn new_engine() -> BackupEngine {
    BackupEngine::open(BackupableDBOptions::new(String::from("/backups"))).unwrap()
}

#[test]
fn create_assigns_increasing_ids() {
    let mut e = new_engine();
    let files = vec![file("db/a.sst", b"alpha", false)];
    let id1 = e.create_new_backup(&CreateBackupOptions::new(), &files, 100).unwrap();
    let id2 = e.create_new_backup(&CreateBackupOptions::new(), &files, 200).unwrap();
    let id3 = e.create_new_backup(&CreateBackupOptions::new(), &files, 300).unwrap();
    assert_eq!(id1, 1);
    assert_eq!(id2, 2);
    assert_eq!(id3, 3);
}

#[test]
fn ids_never_reused_after_delete() {
    let mut e = new_engine();
    let files = vec![file("db/a.sst", b"alpha", false)];
    let id1 = e.create_new_backup(&CreateBackupOptions::new(), &files, 1).unwrap();
    e.delete_backup(id1).unwrap();
    let id2 = e.create_new_backup(&CreateBackupOptions::new(), &files, 2).unwrap();
    assert_eq!(id1, 1);
    assert_eq!(id2, 2);
}

#[test]
fn dedup_and_refcount_scenario() {
    // Files A (100 bytes) and B (200 bytes).
    let a = vec![1u8; 100];
    let b = vec![2u8; 200];
    let mut e = new_engine();
    let files1 = vec![file("db/a.sst", &a, false), file("db/b.sst", &b, false)];
    let id1 = e.create_new_backup(&CreateBackupOptions::new(), &files1, 10).unwrap();
    assert_eq!(id1, 1);
    assert_eq!(e.store.blobs.len(), 2);
    let infos = e.get_backup_info();
    assert_eq!(infos.len(), 1);
    assert_eq!(infos[0].number_of_files(), 2);
    assert_eq!(infos[0].size(), 300);

    // Mutate only A.
    let a2 = vec![3u8; 100];
    let files2 = vec![file("db/a.sst", &a2, false), file("db/b.sst", &b, false)];
    let id2 = e.create_new_backup(&CreateBackupOptions::new(), &files2, 20).unwrap();
    assert_eq!(id2, 2);
    // One new blob for A'; B is reused with reference count 2.
    assert_eq!(e.store.blobs.len(), 3);
    let d_b = rocks_backup::digest::compute_digest(&b);
    let d_a = rocks_backup::digest::compute_digest(&a);
    let rc_b = e.store.blobs.iter().find(|bl| bl.digest == d_b).unwrap().refcount;
    assert_eq!(rc_b, 2);

    // Delete the first backup: B drops to 1, A (old) drops to 0.
    e.delete_backup(id1).unwrap();
    let rc_b = e.store.blobs.iter().find(|bl| bl.digest == d_b).unwrap().refcount;
    let rc_a = e.store.blobs.iter().find(|bl| bl.digest == d_a).unwrap().refcount;
    assert_eq!(rc_b, 1);
    assert_eq!(rc_a, 0);

    // Garbage collection removes exactly the old blob of A.
    e.engine_garbage_collect();
    assert_eq!(e.store.blobs.len(), 2);
    assert!(e.store.blobs.iter().all(|bl| bl.digest != d_a));
    assert!(e.store.blobs.iter().any(|bl| bl.digest == d_b));
    assert!(e.verify_backup(id2, true).is_ok());
}

#[test]
fn unchanged_database_copies_no_new_bytes() {
    let mut e = new_engine();
    let files = vec![
        file("db/a.sst", b"same content", false),
        file("db/b.sst", b"other content", false),
    ];
    e.create_new_backup(&CreateBackupOptions::new(), &files, 1).unwrap();
    let blobs_before = e.store.blobs.len();
    let bytes_before: u64 = e.store.blobs.iter().map(|b| b.size).sum();
    let id2 = e.create_new_backup(&CreateBackupOptions::new(), &files, 2).unwrap();
    let bytes_after: u64 = e.store.blobs.iter().map(|b| b.size).sum();
    assert_eq!(e.store.blobs.len(), blobs_before);
    assert_eq!(bytes_after, bytes_before);
    // Every shared entry of the second manifest cites an existing blob.
    let m = e.catalog.manifests.iter().find(|m| m.backup_id == id2).unwrap();
    for en in m.entries.iter() {
        assert!(en.shared);
        assert!(e.store.blobs.iter().any(|b| b.digest == en.digest && b.size == en.size));
    }
}

#[test]
fn identical_files_in_one_backup_share_one_blob() {
    let mut e = new_engine();
    let files = vec![
        file("db/a.sst", b"twin bytes", false),
        file("db/b.sst", b"twin bytes", false),
    ];
    let id = e.create_new_backup(&CreateBackupOptions::new(), &files, 1).unwrap();
    assert_eq!(e.store.blobs.len(), 1);
    assert_eq!(e.store.blobs[0].refcount, 1);
    let restored =
        e.restore_db_from_backup(&RestoreOptions::new(false), id).unwrap();
    assert_eq!(restored.len(), 2);
    assert_eq!(restored[0].data, b"twin bytes".to_vec());
    assert_eq!(restored[1].data, b"twin bytes".to_vec());
}

#[test]
fn restore_reproduces_captured_bytes() {
    let mut e = new_engine();
    let files = vec![
        file("db/a.sst", b"table file bytes", false),
        file("wal/000001.log", b"live log bytes", true),
    ];
    let id = e
        .create_new_backup_with_metadata(&CreateBackupOptions::new(), &files, 42, "nightly")
        .unwrap();
    let restored = e.restore_db_from_backup(&RestoreOptions::new(false), id).unwrap();
    assert_eq!(restored.len(), 2);
    assert_eq!(restored[0].path, "db/a.sst");
    assert_eq!(restored[0].data, b"table file bytes".to_vec());
    assert!(restored[0].shared);
    assert_eq!(restored[1].path, "wal/000001.log");
    assert_eq!(restored[1].data, b"live log bytes".to_vec());
    assert!(!restored[1].shared);
}

#[test]
fn restore_latest_and_reverify() {
    let mut e = new_engine();
    let old_files = vec![file("db/a.sst", b"old", false)];
    let new_files = vec![
        file("db/a.sst", b"new bytes", false),
        file("wal/1.log", b"log tail", true),
    ];
    e.create_new_backup(&CreateBackupOptions::new(), &old_files, 1).unwrap();
    let id2 = e.create_new_backup(&CreateBackupOptions::new(), &new_files, 2).unwrap();
    let restored = e.restore_db_from_latest_backup(&RestoreOptions::new(false)).unwrap();
    // The latest backup is the one with the highest identifier.
    assert_eq!(restored.len(), 2);
    assert_eq!(restored[0].path, "db/a.sst");
    assert_eq!(restored[0].data, b"new bytes".to_vec());
    assert_eq!(restored[1].path, "wal/1.log");
    assert_eq!(restored[1].data, b"log tail".to_vec());
    // Verifying against the untouched engine still succeeds afterwards.
    assert!(e.verify_backup(id2, true).is_ok());
}

#[test]
fn restore_latest_on_empty_catalog_is_not_found() {
    let e = new_engine();
    let err = e.restore_db_from_latest_backup(&RestoreOptions::new(false)).unwrap_err();
    assert!(err.is_not_found());
}

#[test]
fn verify_twice_gives_same_result() {
    let mut e = new_engine();
    let files = vec![file("db/a.sst", b"bytes", false)];
    let id = e.create_new_backup(&CreateBackupOptions::new(), &files, 1).unwrap();
    let first = e.verify_backup(id, true).is_ok();
    let second = e.verify_backup(id, true).is_ok();
    assert_eq!(first, second);
    assert!(first);
    let first = e.verify_backup(99, true).is_ok();
    let second = e.verify_backup(99, true).is_ok();
    assert_eq!(first, second);
    assert!(!first);
}

#[test]
fn verify_unknown_id_is_not_found() {
    let e = new_engine();
    let err = e.verify_backup(7, false).unwrap_err();
    assert_eq!(err.code(), Code::NotFound);
}

#[test]
fn delete_unknown_id_is_not_found() {
    let mut e = new_engine();
    let err = e.delete_backup(7).unwrap_err();
    assert!(err.is_not_found());
}

#[test]
fn duplicate_paths_rejected() {
    let mut e = new_engine();
    let files = vec![
        file("db/a.sst", b"one", false),
        file("db/a.sst", b"two", false),
    ];
    let err = e.create_new_backup(&CreateBackupOptions::new(), &files, 1).unwrap_err();
    assert_eq!(err.code(), Code::InvalidArgument);
    assert!(e.get_backup_info().is_empty());
}

#[test]
fn stop_backup_aborts_next_create() {
    let mut e = new_engine();
    let files = vec![file("db/a.sst", b"bytes", false)];
    e.stop_backup();
    let err = e.create_new_backup(&CreateBackupOptions::new(), &files, 1).unwrap_err();
    assert_eq!(err.code(), Code::Aborted);
    assert!(e.get_backup_info().is_empty());
    // The request is consumed: the next creation proceeds.
    let id = e.create_new_backup(&CreateBackupOptions::new(), &files, 2).unwrap();
    assert_eq!(id, 1);
}

#[test]
fn purge_keeps_most_recent() {
    let mut e = new_engine();
    for t in 0..5 {
        let files = vec![file("db/a.sst", format!("v{}", t).as_bytes(), false)];
        e.create_new_backup(&CreateBackupOptions::new(), &files, t).unwrap();
    }
    e.purge_old_backups(2).unwrap();
    let infos = e.get_backup_info();
    assert_eq!(infos.len(), 2);
    assert_eq!(infos[0].backup_id(), 4);
    assert_eq!(infos[1].backup_id(), 5);
    // Purging below the current count is a no-op.
    e.purge_old_backups(10).unwrap();
    assert_eq!(e.get_backup_info().len(), 2);
    // Keeping zero deletes everything.
    e.purge_old_backups(0).unwrap();
    assert!(e.get_backup_info().is_empty());
}

#[test]
fn backup_info_reports_manifest_fields() {
    let mut e = new_engine();
    let files = vec![
        file("db/a.sst", b"12345", false),
        file("db/b.sst", b"678", false),
    ];
    let id = e
        .create_new_backup_with_metadata(&CreateBackupOptions::new(), &files, 777, "label")
        .unwrap();
    let infos = e.get_backup_info();
    assert_eq!(infos.len(), 1);
    assert_eq!(infos[0].backup_id(), id);
    assert_eq!(infos[0].timestamp(), 777);
    assert_eq!(infos[0].size(), 8);
    assert_eq!(infos[0].number_of_files(), 2);
    assert_eq!(infos[0].app_metadata(), "label");
}

#[test]
fn log_files_excluded_when_option_off() {
    let opts = BackupableDBOptions::new(String::from("/backups")).backup_log_files(false);
    let mut e = BackupEngine::open(opts).unwrap();
    let files = vec![
        file("db/a.sst", b"table", false),
        file("wal/1.log", b"log", true),
    ];
    let id = e.create_new_backup(&CreateBackupOptions::new(), &files, 1).unwrap();
    let restored = e.restore_db_from_backup(&RestoreOptions::new(true), id).unwrap();
    assert_eq!(restored.len(), 1);
    assert_eq!(restored[0].path, "db/a.sst");
}

#[test]
fn no_sharing_when_option_off() {
    let opts = BackupableDBOptions::new(String::from("/backups")).share_table_files(false);
    let mut e = BackupEngine::open(opts).unwrap();
    let files = vec![file("db/a.sst", b"table", false)];
    let id = e.create_new_backup(&CreateBackupOptions::new(), &files, 1).unwrap();
    assert!(e.store.blobs.is_empty());
    let restored = e.restore_db_from_backup(&RestoreOptions::new(false), id).unwrap();
    assert_eq!(restored.len(), 1);
    assert!(!restored[0].shared);
    assert_eq!(restored[0].data, b"table".to_vec());
}

#[test]
fn create_charges_backup_rate_limiter() {
    let opts = BackupableDBOptions::new(String::from("/backups")).backup_rate_limit(1000);
    let mut e = BackupEngine::open(opts).unwrap();
    assert_eq!(e.backup_limiter.available, 1000);
    let files = vec![file("db/a.sst", &vec![9u8; 300], false)];
    e.create_new_backup(&CreateBackupOptions::new(), &files, 1).unwrap();
    // 300 new bytes were copied into the store.
    assert_eq!(e.backup_limiter.available, 700);
    // An unchanged second backup copies nothing.
    e.create_new_backup(&CreateBackupOptions::new(), &files, 2).unwrap();
    assert_eq!(e.backup_limiter.available, 700);
}
