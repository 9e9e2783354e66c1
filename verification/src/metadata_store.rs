//! The durable catalog of backups: one manifest per backup.
//!
//! A manifest records the backup's identifier, its creation timestamp, its
//! total size, an opaque application metadata string, and the ordered list
//! of file entries. Identifiers are assigned strictly increasing and are
//! never reused, even after a backup is deleted, so the catalog is always
//! sorted by identifier.

use vstd::prelude::*;

verus! {

/// One file captured by a backup.
///
/// A shared entry cites a content-store blob by `(digest, size)`; a private
/// entry (an actively written log segment) is stored per backup and never
/// deduplicated.
pub struct FileEntry {
    pub path: String,
    pub digest: u64,
    pub size: u64,
    pub shared: bool,
}

/// The catalog record of one backup.
pub struct BackupManifest {
    pub backup_id: u32,
    pub timestamp: i64,
    pub total_size: u64,
    pub app_metadata: String,
    pub entries: Vec<FileEntry>,
}

/// The sum of the entry sizes.
pub open spec fn entry_sizes(es: Seq<FileEntry>) -> int
    decreases es.len(),
{
    if es.len() == 0 {
        0
    } else {
        entry_sizes(es.drop_last()) + es.last().size
    }
}

/// No two entries name the same relative path.
pub open spec fn entry_paths_unique(es: Seq<FileEntry>) -> bool {
    forall|i: int, j: int|
        0 <= i < j < es.len() ==> (#[trigger] es[i].path@) != (#[trigger] es[j].path@)
}

impl BackupManifest {
    /// True when some shared entry of this manifest cites key `(d, s)`.
    pub open spec fn cites(self, d: u64, s: u64) -> bool {
        exists|i: int|
            0 <= i < self.entries@.len() && (#[trigger] self.entries@[i]).shared
                && self.entries@[i].digest == d && self.entries@[i].size == s
    }

    /// The recorded totals really describe the entry list.
    pub open spec fn wf(self) -> bool {
        &&& self.total_size == entry_sizes(self.entries@)
        &&& self.entries@.len() <= u32::MAX
        &&& entry_paths_unique(self.entries@)
    }
}

/// How many of the manifests cite key `(d, s)` from a shared entry.
pub open spec fn count_citing(ms: Seq<BackupManifest>, d: u64, s: u64) -> nat
    decreases ms.len(),
{
    if ms.len() == 0 {
        0
    } else {
        count_citing(ms.drop_last(), d, s) + if ms.last().cites(d, s) {
            1nat
        } else {
            0nat
        }
    }
}

/// No key is cited by more manifests than there are.
pub proof fn lemma_count_citing_le_len(ms: Seq<BackupManifest>, d: u64, s: u64)
    ensures
        count_citing(ms, d, s) <= ms.len(),
    decreases ms.len(),
{
    if ms.len() > 0 {
        lemma_count_citing_le_len(ms.drop_last(), d, s);
    }
}

/// Appending a manifest adds its citation, and nothing else.
pub proof fn lemma_count_citing_push(ms: Seq<BackupManifest>, m: BackupManifest, d: u64, s: u64)
    ensures
        count_citing(ms.push(m), d, s) == count_citing(ms, d, s) + if m.cites(d, s) {
            1nat
        } else {
            0nat
        },
{
    assert(ms.push(m).drop_last() =~= ms);
}

/// Removing one manifest subtracts exactly its citation.
pub proof fn lemma_count_citing_remove(ms: Seq<BackupManifest>, i: int, d: u64, s: u64)
    requires
        0 <= i < ms.len(),
    ensures
        count_citing(ms.remove(i), d, s) + (if ms[i].cites(d, s) {
            1nat
        } else {
            0nat
        }) == count_citing(ms, d, s),
    decreases ms.len(),
{
    if i == ms.len() - 1 {
        assert(ms.remove(i) =~= ms.drop_last());
    } else {
        assert(ms.remove(i).drop_last() =~= ms.drop_last().remove(i));
        assert(ms.remove(i).last() == ms.last());
        lemma_count_citing_remove(ms.drop_last(), i, d, s);
    }
}

/// A cited key is counted at least once.
pub proof fn lemma_cites_count_pos(ms: Seq<BackupManifest>, i: int, d: u64, s: u64)
    requires
        0 <= i < ms.len(),
        ms[i].cites(d, s),
    ensures
        count_citing(ms, d, s) >= 1,
    decreases ms.len(),
{
    if i < ms.len() - 1 {
        lemma_cites_count_pos(ms.drop_last(), i, d, s);
    }
}

/// Identifiers appear in strictly increasing order.
pub open spec fn ids_sorted(ms: Seq<BackupManifest>) -> bool {
    forall|i: int, j: int|
        0 <= i < j < ms.len() ==> (#[trigger] ms[i].backup_id) < (#[trigger] ms[j].backup_id)
}

/// Under sorted identifiers, the manifest at position `i` has an
/// identifier of at least `i`.
pub proof fn lemma_sorted_id_ge_index(ms: Seq<BackupManifest>, i: int)
    requires
        ids_sorted(ms),
        0 <= i < ms.len(),
    ensures
        ms[i].backup_id >= i,
    decreases i,
{
    if i > 0 {
        lemma_sorted_id_ge_index(ms, i - 1);
    }
}

/// The catalog of all committed backups.
pub struct BackupMetadataStore {
    pub manifests: Vec<BackupManifest>,
    pub next_id: u32,
}

impl BackupMetadataStore {
    /// Sorted identifiers, all below the next one to assign, each manifest
    /// internally consistent.
    pub open spec fn wf(self) -> bool {
        &&& ids_sorted(self.manifests@)
        &&& forall|i: int|
            0 <= i < self.manifests@.len() ==> (#[trigger] self.manifests@[i].backup_id)
                < self.next_id
        &&& forall|i: int| 0 <= i < self.manifests@.len() ==> (#[trigger] self.manifests@[i]).wf()
    }

    /// True when a committed backup carries identifier `id`.
    pub open spec fn has_backup(self, id: u32) -> bool {
        exists|i: int| 0 <= i < self.manifests@.len() && (#[trigger] self.manifests@[i].backup_id)
            == id
    }

    /// An empty catalog; the first backup will get identifier 1.
    pub fn new() -> (r: BackupMetadataStore)
        ensures
            r.wf(),
            r.manifests@.len() == 0,
            r.next_id == 1,
    {
        BackupMetadataStore { manifests: Vec::new(), next_id: 1 }
    }

    /// The catalog never holds more manifests than `next_id`.
    pub proof fn lemma_len_le_next_id(self)
        requires
            self.wf(),
        ensures
            self.manifests@.len() <= self.next_id,
    {
        let ms = self.manifests@;
        if ms.len() > 0 {
            lemma_sorted_id_ge_index(ms, ms.len() - 1);
        }
    }

    /// Finds the position of the manifest with identifier `id`.
    pub fn find(&self, id: u32) -> (r: Option<usize>)
        requires
            self.wf(),
        ensures
            match r {
                Option::Some(i) => i < self.manifests@.len() && self.manifests@[i as int].backup_id
                    == id,
                Option::None => !self.has_backup(id),
            },
    {
        let n = self.manifests.len();
        let mut i: usize = 0;
        while i < n
            invariant
                n == self.manifests@.len(),
                0 <= i <= n,
                forall|j: int| 0 <= j < i ==> (#[trigger] self.manifests@[j].backup_id) != id,
            decreases n - i,
        {
            if self.manifests[i].backup_id == id {
                return Some(i);
            }
            i = i + 1;
        }
        None
    }
}

} // verus!
