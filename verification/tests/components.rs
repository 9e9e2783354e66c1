use rocks_backup::backupable_db_options::{BackupableDBOptions, CreateBackupOptions};
use rocks_backup::digest::compute_digest;
use rocks_backup::error::{Code, Error, Severity, SubCode};
use rocks_backup::rate_limiter::RateLimiter;

#[test]
fn digest_of_empty_input_is_offset_basis() {
    assert_eq!(compute_digest(&Vec::new()), 0xcbf29ce484222325);
}

#[test]
fn digest_matches_known_values() {
    // Published FNV-1a 64-bit test vectors.
    assert_eq!(compute_digest(&b"a".to_vec()), 0xaf63dc4c8601ec8c);
    assert_eq!(compute_digest(&b"foobar".to_vec()), 0x85944171f73967e8);
}

#[test]
fn digest_distinguishes_contents() {
    let x = compute_digest(&b"alpha".to_vec());
    let y = compute_digest(&b"beta".to_vec());
    assert_ne!(x, y);
    assert_eq!(x, compute_digest(&b"alpha".to_vec()));
}

#[test]
fn limiter_grants_and_drains() {
    let mut l = RateLimiter::new(100);
    assert!(l.try_request(60));
    assert_eq!(l.available, 40);
    assert!(!l.try_request(60));
    assert_eq!(l.available, 40);
    assert!(l.try_request(40));
    assert_eq!(l.available, 0);
    l.refill();
    assert_eq!(l.available, 100);
}

#[test]
fn limiter_zero_means_unlimited() {
    let mut l = RateLimiter::new(0);
    assert!(l.try_request(u64::MAX));
    assert_eq!(l.available, 0);
}

#[test]
fn limiter_saturates_at_empty() {
    let mut l = RateLimiter::new(50);
    l.consume_saturating(80);
    assert_eq!(l.available, 0);
    l.refill();
    l.consume_saturating(20);
    assert_eq!(l.available, 30);
}

#[test]
fn options_builders_set_fields() {
    let o = BackupableDBOptions::new(String::from("/b"))
        .share_table_files(false)
        .sync(true)
        .destroy_old_data(true)
        .backup_log_files(false)
        .backup_rate_limit(123)
        .restore_rate_limit(456)
        .share_files_with_checksum(true)
        .max_background_operations(4)
        .callback_trigger_interval_size(789)
        .max_valid_backups_to_open(7)
        .backup_dir(String::from("/elsewhere"));
    assert_eq!(o.backup_dir, "/elsewhere");
    assert!(!o.share_table_files);
    assert!(o.sync);
    assert!(o.destroy_old_data);
    assert!(!o.backup_log_files);
    assert_eq!(o.backup_rate_limit, 123);
    assert_eq!(o.restore_rate_limit, 456);
    assert!(o.share_files_with_checksum);
    assert_eq!(o.max_background_operations, 4);
    assert_eq!(o.callback_trigger_interval_size, 789);
    assert_eq!(o.max_valid_backups_to_open, 7);
}

#[test]
fn options_rate_limiter_setters_take_window() {
    let l = RateLimiter::new(2048);
    let o = BackupableDBOptions::new(String::from("/b"))
        .backup_rate_limiter(Some(l))
        .restore_rate_limiter(None);
    assert_eq!(o.backup_rate_limit, 2048);
    assert_eq!(o.restore_rate_limit, 0);
}

#[test]
fn create_options_builders_set_fields() {
    let c = CreateBackupOptions::new()
        .flush_before_backup(true)
        .decrease_background_thread_cpu_priority(true);
    assert!(c.flush_before_backup);
    assert!(c.decrease_background_thread_cpu_priority);
    let d = CreateBackupOptions::default();
    assert!(!d.flush_before_backup);
}

#[test]
fn error_reports_its_fields() {
    let e = Error::with_state(Code::NotFound, String::from("db/missing.sst"));
    assert!(e.is_not_found());
    assert_eq!(e.code(), Code::NotFound);
    assert_eq!(e.subcode(), SubCode::NoSubCode);
    assert_eq!(e.severity(), Severity::NoError);
    assert_eq!(e.state(), "db/missing.sst");
    let c = Error::with_state(Code::Corruption, String::new());
    assert!(!c.is_not_found());
    assert_eq!(c.code(), Code::Corruption);
}
