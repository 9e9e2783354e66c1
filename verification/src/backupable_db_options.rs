//! Options governing a backup engine, one backup creation, and a restore.
//!
//! Each set of options is a plain value built in the fluent style: every
//! setter consumes the options, changes one field, and hands them back.

use vstd::prelude::*;

use crate::rate_limiter::RateLimiter;

verus! {

/// Engine-wide options, fixed when the engine is opened.
pub struct BackupableDBOptions {
    /// Where the backup root lives; kept for the caller's file layer.
    pub backup_dir: String,
    /// Deduplicate immutable table files across backups through the
    /// content store. When false every file is copied per backup.
    pub share_table_files: bool,
    /// Ask the file layer to fsync what it writes.
    pub sync: bool,
    /// Discard whatever an earlier engine left in the backup root.
    pub destroy_old_data: bool,
    /// Include live log segments in new backups.
    pub backup_log_files: bool,
    /// Bytes per second granted to backup copies; zero means unlimited.
    pub backup_rate_limit: u64,
    /// Bytes per second granted to restore copies; zero means unlimited.
    pub restore_rate_limit: u64,
    /// Key shared files by digest as well as size.
    pub share_files_with_checksum: bool,
    /// How many background copy workers the caller may run.
    pub max_background_operations: i32,
    /// How many copied bytes between progress callbacks.
    pub callback_trigger_interval_size: u64,
    /// How many catalog entries to read back when opening; negative means
    /// all of them.
    pub max_valid_backups_to_open: i32,
}

impl BackupableDBOptions {
    /// Default options rooted at `backup_dir`: deduplication on, log
    /// files included, no rate limit.
    pub fn new(backup_dir: String) -> (r: BackupableDBOptions)
        ensures
            r.backup_dir@ == backup_dir@,
            r.share_table_files,
            !r.sync,
            !r.destroy_old_data,
            r.backup_log_files,
            r.backup_rate_limit == 0,
            r.restore_rate_limit == 0,
            !r.share_files_with_checksum,
            r.max_background_operations == 1,
            r.callback_trigger_interval_size == 0,
            r.max_valid_backups_to_open == -1,
    {
        BackupableDBOptions {
            backup_dir,
            share_table_files: true,
            sync: false,
            destroy_old_data: false,
            backup_log_files: true,
            backup_rate_limit: 0,
            restore_rate_limit: 0,
            share_files_with_checksum: false,
            max_background_operations: 1,
            callback_trigger_interval_size: 0,
            max_valid_backups_to_open: -1,
        }
    }

    /// Move the backup root.
    pub fn backup_dir(self, val: String) -> (r: Self)
        ensures
            r == (BackupableDBOptions { backup_dir: val, ..self }),
    {
        BackupableDBOptions { backup_dir: val, ..self }
    }

    /// Turn deduplication of table files on or off.
    pub fn share_table_files(self, val: bool) -> (r: Self)
        ensures
            r == (BackupableDBOptions { share_table_files: val, ..self }),
    {
        BackupableDBOptions { share_table_files: val, ..self }
    }

    /// Ask the file layer to fsync what it writes.
    pub fn sync(self, val: bool) -> (r: Self)
        ensures
            r == (BackupableDBOptions { sync: val, ..self }),
    {
        BackupableDBOptions { sync: val, ..self }
    }

    /// Discard whatever an earlier engine left in the backup root.
    pub fn destroy_old_data(self, val: bool) -> (r: Self)
        ensures
            r == (BackupableDBOptions { destroy_old_data: val, ..self }),
    {
        BackupableDBOptions { destroy_old_data: val, ..self }
    }

    /// Include or exclude live log segments.
    pub fn backup_log_files(self, val: bool) -> (r: Self)
        ensures
            r == (BackupableDBOptions { backup_log_files: val, ..self }),
    {
        BackupableDBOptions { backup_log_files: val, ..self }
    }

    /// Cap backup copy traffic, in bytes per second; zero lifts the cap.
    pub fn backup_rate_limit(self, val: u64) -> (r: Self)
        ensures
            r == (BackupableDBOptions { backup_rate_limit: val, ..self }),
    {
        BackupableDBOptions { backup_rate_limit: val, ..self }
    }

    /// Take the cap from an existing limiter's window.
    pub fn backup_rate_limiter(self, val: Option<RateLimiter>) -> (r: Self)
        ensures
            match val {
                Option::Some(l) => r == (BackupableDBOptions {
                    backup_rate_limit: l.bytes_per_refill,
                    ..self
                }),
                Option::None => r == (BackupableDBOptions { backup_rate_limit: 0u64, ..self }),
            },
    {
        match val {
            Option::Some(l) => BackupableDBOptions {
                backup_rate_limit: l.bytes_per_refill,
                ..self
            },
            Option::None => BackupableDBOptions { backup_rate_limit: 0, ..self },
        }
    }

    /// Cap restore copy traffic, in bytes per second; zero lifts the cap.
    pub fn restore_rate_limit(self, val: u64) -> (r: Self)
        ensures
            r == (BackupableDBOptions { restore_rate_limit: val, ..self }),
    {
        BackupableDBOptions { restore_rate_limit: val, ..self }
    }

    /// Take the restore cap from an existing limiter's window.
    pub fn restore_rate_limiter(self, val: Option<RateLimiter>) -> (r: Self)
        ensures
            match val {
                Option::Some(l) => r == (BackupableDBOptions {
                    restore_rate_limit: l.bytes_per_refill,
                    ..self
                }),
                Option::None => r == (BackupableDBOptions { restore_rate_limit: 0u64, ..self }),
            },
    {
        match val {
            Option::Some(l) => BackupableDBOptions {
                restore_rate_limit: l.bytes_per_refill,
                ..self
            },
            Option::None => BackupableDBOptions { restore_rate_limit: 0, ..self },
        }
    }

    /// Key shared files by digest as well as size.
    pub fn share_files_with_checksum(self, val: bool) -> (r: Self)
        ensures
            r == (BackupableDBOptions { share_files_with_checksum: val, ..self }),
    {
        BackupableDBOptions { share_files_with_checksum: val, ..self }
    }

    /// Let the caller run up to `val` background copy workers.
    pub fn max_background_operations(self, val: i32) -> (r: Self)
        ensures
            r == (BackupableDBOptions { max_background_operations: val, ..self }),
    {
        BackupableDBOptions { max_background_operations: val, ..self }
    }

    /// Bytes of copy progress between progress callbacks.
    pub fn callback_trigger_interval_size(self, val: u64) -> (r: Self)
        ensures
            r == (BackupableDBOptions { callback_trigger_interval_size: val, ..self }),
    {
        BackupableDBOptions { callback_trigger_interval_size: val, ..self }
    }

    /// How many catalog entries to read back on open; negative means all.
    pub fn max_valid_backups_to_open(self, val: i32) -> (r: Self)
        ensures
            r == (BackupableDBOptions { max_valid_backups_to_open: val, ..self }),
    {
        BackupableDBOptions { max_valid_backups_to_open: val, ..self }
    }
}

/// Options for one backup creation.
pub struct CreateBackupOptions {
    /// Ask the storage engine to flush before listing live files, so that
    /// every listed file is immutable while it is copied.
    pub flush_before_backup: bool,
    /// Lower the copy workers' CPU priority.
    pub decrease_background_thread_cpu_priority: bool,
}

impl CreateBackupOptions {
    /// Defaults: no flush requested, normal priority.
    pub fn new() -> (r: CreateBackupOptions)
        ensures
            !r.flush_before_backup,
            !r.decrease_background_thread_cpu_priority,
    {
        CreateBackupOptions {
            flush_before_backup: false,
            decrease_background_thread_cpu_priority: false,
        }
    }

    /// Request a flush before the live files are listed.
    pub fn flush_before_backup(self, val: bool) -> (r: Self)
        ensures
            r == (CreateBackupOptions { flush_before_backup: val, ..self }),
    {
        CreateBackupOptions { flush_before_backup: val, ..self }
    }

    /// Lower the copy workers' CPU priority.
    pub fn decrease_background_thread_cpu_priority(self, val: bool) -> (r: Self)
        ensures
            r == (CreateBackupOptions { decrease_background_thread_cpu_priority: val, ..self }),
    {
        CreateBackupOptions { decrease_background_thread_cpu_priority: val, ..self }
    }
}

impl Default for CreateBackupOptions {
    /// The same defaults as `new`.
    fn default() -> (r: Self)
        ensures
            !r.flush_before_backup,
            !r.decrease_background_thread_cpu_priority,
    {
        CreateBackupOptions::new()
    }
}

/// Options for one restore.
pub struct RestoreOptions {
    /// Keep log files already present in the target write-ahead-log
    /// directory instead of deleting them first.
    pub keep_log_files: bool,
}

impl RestoreOptions {
    /// Restore options with the given log-file policy.
    pub fn new(keep_log_files: bool) -> (r: RestoreOptions)
        ensures
            r.keep_log_files == keep_log_files,
    {
        RestoreOptions { keep_log_files }
    }
}

} // verus!
