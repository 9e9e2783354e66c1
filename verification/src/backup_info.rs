//! The read-only summary of one committed backup.

use vstd::prelude::*;

verus! {

/// Summary fields of one manifest, as `get_backup_info` reports them.
#[derive(Debug)]
pub struct BackupInfo {
    pub backup_id: u32,
    pub timestamp: i64,
    pub size: u64,
    pub number_of_files: u32,
    pub app_metadata: String,
}

impl BackupInfo {
    /// The backup's identifier.
    pub fn backup_id(&self) -> (r: u32)
        ensures
            r == self.backup_id,
    {
        self.backup_id
    }

    /// When the backup was created, in seconds since the epoch.
    pub fn timestamp(&self) -> (r: i64)
        ensures
            r == self.timestamp,
    {
        self.timestamp
    }

    /// The total size in bytes of the captured files.
    pub fn size(&self) -> (r: u64)
        ensures
            r == self.size,
    {
        self.size
    }

    /// How many files the backup captured.
    pub fn number_of_files(&self) -> (r: u32)
        ensures
            r == self.number_of_files,
    {
        self.number_of_files
    }

    /// The application-supplied metadata string, uninterpreted.
    pub fn app_metadata(&self) -> (r: String)
        ensures
            r@ == self.app_metadata@,
    {
        self.app_metadata.clone()
    }
}

} // verus!
