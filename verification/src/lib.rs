//! A verified backup and restore engine for an embedded key-value store.
//!
//! The engine produces point-in-time snapshots of a database's files,
//! deduplicates identical file contents across snapshots through a
//! content-addressed store, reference-counts the shared blobs, and can
//! reconstruct the full file set of any retained snapshot byte for byte.
//!
//! The library holds the engine's state and rules; reading the live files,
//! writing restored files to disk, and the clock stay with the caller, who
//! hands the engine plain values (paths, bytes, timestamps) and gets plain
//! values back.

pub mod backup_engine;
pub mod backup_info;
pub mod backupable_db_options;
pub mod content_store;
pub mod digest;
pub mod error;
pub mod metadata_store;
pub mod rate_limiter;

pub use backup_engine::{BackupEngine, PrivateFile, RestoredFile, SourceFile};
pub use backup_info::BackupInfo;
pub use backupable_db_options::{BackupableDBOptions, CreateBackupOptions, RestoreOptions};
pub use content_store::{ContentBlob, ContentStore};
pub use error::{Code, Error, Severity, SubCode};
pub use metadata_store::{BackupManifest, BackupMetadataStore, FileEntry};
pub use rate_limiter::RateLimiter;
