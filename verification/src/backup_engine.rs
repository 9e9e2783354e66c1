//! The backup engine: create, restore, verify, delete, purge and garbage
//! collection over the content store and the catalog.
//!
//! The engine works on plain values. The caller's file layer lists the live
//! database files (each as a relative path, its bytes, and whether it is an
//! actively written log segment) and hands them to `create_new_backup`;
//! `restore_db_from_backup` hands back the full file set of a backup for
//! the caller to write out. One engine value serializes all catalog and
//! store mutation: operations take `&mut self`, so no two of them
//! interleave, and identifiers are assigned strictly increasing.

use vstd::prelude::*;

use crate::backup_info::BackupInfo;
use crate::backupable_db_options::{BackupableDBOptions, CreateBackupOptions, RestoreOptions};
use crate::content_store::{
    blob_at, blobs_wf, data_of, has_blob, keys_unique, lemma_blob_at_index, lemma_blob_at_none,
    lemma_blob_at_push, lemma_blob_at_some, lemma_blob_at_update, lemma_blob_at_wf,
    lemma_blob_at_push_all, lemma_blob_at_update_all, lemma_keys_unique_update,
    lemma_stored_bytes_update, rc_of, stored_bytes, ContentBlob, ContentStore,
};
use crate::digest::{compute_digest, digest_of};
use crate::error::{Code, Error};
use crate::metadata_store::{
    count_citing, entry_paths_unique, entry_sizes, lemma_cites_count_pos,
    lemma_count_citing_le_len, lemma_count_citing_push, lemma_count_citing_remove, BackupManifest,
    BackupMetadataStore, FileEntry,
};
use crate::rate_limiter::RateLimiter;

verus! {

/// One live database file as the storage engine lists it: its relative
/// path, its bytes, and whether it is a log segment still being written.
#[derive(Debug)]
pub struct SourceFile {
    pub path: String,
    pub data: Vec<u8>,
    pub is_mutable_log: bool,
}

/// One file of a restored backup, for the caller to write to the target
/// directory; `shared` tells whether it came from the content store.
#[derive(Debug)]
pub struct RestoredFile {
    pub path: String,
    pub data: Vec<u8>,
    pub shared: bool,
}

/// A non-deduplicated file stored for exactly one backup.
#[derive(Debug)]
pub struct PrivateFile {
    pub backup_id: u32,
    pub path: String,
    pub data: Vec<u8>,
}

/// True when some shared entry of the list cites key `(d, s)`.
pub open spec fn cites_entries(es: Seq<FileEntry>, d: u64, s: u64) -> bool {
    exists|i: int|
        0 <= i < es.len() && (#[trigger] es[i]).shared && es[i].digest == d && es[i].size == s
}

/// What becomes of one listed file: `None` to leave it out of the backup,
/// otherwise whether its entry is shared.
pub open spec fn plan_of(opts: BackupableDBOptions, f: SourceFile) -> Option<bool> {
    if f.is_mutable_log {
        if opts.backup_log_files {
            Some(false)
        } else {
            None
        }
    } else {
        Some(opts.share_table_files)
    }
}

/// The manifest entry a captured file becomes.
pub open spec fn entry_of(opts: BackupableDBOptions, f: SourceFile) -> FileEntry {
    FileEntry {
        path: f.path,
        digest: digest_of(f.data@),
        size: f.data@.len() as u64,
        shared: plan_of(opts, f) == Some(true),
    }
}

/// The entries a backup of `files` commits, in listing order.
pub open spec fn entries_of(opts: BackupableDBOptions, files: Seq<SourceFile>) -> Seq<FileEntry>
    decreases files.len(),
{
    if files.len() == 0 {
        Seq::empty()
    } else {
        let rest = entries_of(opts, files.drop_last());
        if plan_of(opts, files.last()) is Some {
            rest.push(entry_of(opts, files.last()))
        } else {
            rest
        }
    }
}

/// The `(path, bytes)` pairs a backup of `files` captures, in entry order.
pub open spec fn captured_pairs(opts: BackupableDBOptions, files: Seq<SourceFile>) -> Seq<
    (Seq<char>, Seq<u8>),
>
    decreases files.len(),
{
    if files.len() == 0 {
        Seq::empty()
    } else {
        let rest = captured_pairs(opts, files.drop_last());
        if plan_of(opts, files.last()) is Some {
            rest.push((files.last().path@, files.last().data@))
        } else {
            rest
        }
    }
}

/// The bytes a backup of `files` copies into the content store: the size
/// of every shared file whose key is neither stored yet nor carried by an
/// earlier shared file of the batch.
pub open spec fn new_shared_bytes(
    blobs: Seq<ContentBlob>,
    opts: BackupableDBOptions,
    files: Seq<SourceFile>,
) -> int
    decreases files.len(),
{
    if files.len() == 0 {
        0
    } else {
        let f = files.last();
        let e = entry_of(opts, f);
        new_shared_bytes(blobs, opts, files.drop_last()) + if plan_of(opts, f) == Some(true)
            && !has_blob(blobs, e.digest, e.size) && !cites_entries(
            entries_of(opts, files.drop_last()),
            e.digest,
            e.size,
        ) {
            f.data@.len() as int
        } else {
            0
        }
    }
}

/// The bytes a backup of `files` copies into its private area.
pub open spec fn private_bytes(opts: BackupableDBOptions, files: Seq<SourceFile>) -> int
    decreases files.len(),
{
    if files.len() == 0 {
        0
    } else {
        private_bytes(opts, files.drop_last()) + if plan_of(opts, files.last()) == Some(false) {
            files.last().data@.len() as int
        } else {
            0
        }
    }
}

/// No two listed files name the same relative path.
pub open spec fn source_paths_unique(files: Seq<SourceFile>) -> bool {
    forall|i: int, j: int|
        0 <= i < j < files.len() ==> (#[trigger] files[i].path@) != (#[trigger] files[j].path@)
}

/// Deduplication is honest for this batch: every shared file agrees byte
/// for byte with the stored blob under its key, if any, and any two shared
/// files of the batch with the same key carry the same bytes.
pub open spec fn dedup_consistent(
    blobs: Seq<ContentBlob>,
    opts: BackupableDBOptions,
    files: Seq<SourceFile>,
) -> bool {
    &&& forall|k: int|
        0 <= k < files.len() && plan_of(opts, #[trigger] files[k]) == Some(true) && has_blob(
            blobs,
            digest_of(files[k].data@),
            files[k].data@.len() as u64,
        ) ==> files[k].data@ == data_of(
            blobs,
            digest_of(files[k].data@),
            files[k].data@.len() as u64,
        )
    &&& forall|k1: int, k2: int|
        0 <= k1 < files.len() && 0 <= k2 < files.len() && plan_of(opts, #[trigger] files[k1])
            == Some(true) && plan_of(opts, #[trigger] files[k2]) == Some(true) && digest_of(
            files[k1].data@,
        ) == digest_of(files[k2].data@) && files[k1].data@.len() == files[k2].data@.len()
            ==> files[k1].data@ == files[k2].data@
}

/// The private file stored under `(backup_id, path)`, if any.
pub open spec fn private_at(pfs: Seq<PrivateFile>, backup_id: u32, path: Seq<char>) -> Option<
    PrivateFile,
>
    decreases pfs.len(),
{
    if pfs.len() == 0 {
        None
    } else if pfs.last().backup_id == backup_id && pfs.last().path@ == path {
        Some(pfs.last())
    } else {
        private_at(pfs.drop_last(), backup_id, path)
    }
}

/// No two private files are stored under the same `(backup_id, path)`.
pub open spec fn private_keys_unique(pfs: Seq<PrivateFile>) -> bool {
    forall|i: int, j: int|
        0 <= i < j < pfs.len() ==> !((#[trigger] pfs[i]).backup_id == (#[trigger] pfs[j]).backup_id
            && pfs[i].path@ == pfs[j].path@)
}

/// Two entry lists record the same captures, compared by view.
pub open spec fn entries_match(a: Seq<FileEntry>, b: Seq<FileEntry>) -> bool {
    &&& a.len() == b.len()
    &&& forall|i: int|
        0 <= i < a.len() ==> (#[trigger] a[i]).path@ == (#[trigger] b[i]).path@ && a[i].digest
            == b[i].digest && a[i].size == b[i].size && a[i].shared == b[i].shared
}

/// Two blob sequences store the same keys and bytes at the same places;
/// only reference counts may differ.
pub open spec fn blobs_data_unchanged(a: Seq<ContentBlob>, b: Seq<ContentBlob>) -> bool {
    &&& a.len() == b.len()
    &&& forall|i: int|
        0 <= i < a.len() ==> (#[trigger] a[i]).digest == (#[trigger] b[i]).digest && a[i].size
            == b[i].size && a[i].data@ == b[i].data@
}

/// A private file found at an index is the one `private_at` denotes, when
/// keys are unique.
pub proof fn lemma_private_at_index(pfs: Seq<PrivateFile>, i: int)
    requires
        private_keys_unique(pfs),
        0 <= i < pfs.len(),
    ensures
        private_at(pfs, pfs[i].backup_id, pfs[i].path@) == Some(pfs[i]),
    decreases pfs.len(),
{
    if i < pfs.len() - 1 {
        lemma_private_at_index(pfs.drop_last(), i);
    }
}

/// When no private file matches, `private_at` finds none.
pub proof fn lemma_private_at_none(pfs: Seq<PrivateFile>, backup_id: u32, path: Seq<char>)
    requires
        forall|i: int|
            0 <= i < pfs.len() ==> !((#[trigger] pfs[i]).backup_id == backup_id && pfs[i].path@
                == path),
    ensures
        private_at(pfs, backup_id, path) is None,
    decreases pfs.len(),
{
    if pfs.len() > 0 {
        lemma_private_at_none(pfs.drop_last(), backup_id, path);
    }
}

/// Whatever `private_at` finds sits at some index and carries the key.
pub proof fn lemma_private_at_some(pfs: Seq<PrivateFile>, backup_id: u32, path: Seq<char>)
    requires
        private_at(pfs, backup_id, path) is Some,
    ensures
        exists|i: int|
            0 <= i < pfs.len() && pfs[i] == private_at(pfs, backup_id, path)->Some_0 && (
            #[trigger] pfs[i]).backup_id == backup_id && pfs[i].path@ == path,
    decreases pfs.len(),
{
    if pfs.last().backup_id == backup_id && pfs.last().path@ == path {
        assert(pfs[pfs.len() - 1].backup_id == backup_id && pfs[pfs.len() - 1].path@ == path);
    } else {
        lemma_private_at_some(pfs.drop_last(), backup_id, path);
        let i = choose|i: int|
            0 <= i < pfs.len() - 1 && pfs.drop_last()[i] == private_at(
                pfs.drop_last(),
                backup_id,
                path,
            )->Some_0 && (#[trigger] pfs.drop_last()[i]).backup_id == backup_id
                && pfs.drop_last()[i].path@ == path;
        assert(pfs[i].backup_id == backup_id && pfs[i].path@ == path);
    }
}

/// Appending files of other backups does not change what one backup's
/// private lookups find.
pub proof fn lemma_private_at_append_other(
    a: Seq<PrivateFile>,
    b: Seq<PrivateFile>,
    backup_id: u32,
    path: Seq<char>,
)
    requires
        forall|i: int| 0 <= i < b.len() ==> (#[trigger] b[i]).backup_id != backup_id,
    ensures
        private_at(a + b, backup_id, path) == private_at(a, backup_id, path),
    decreases b.len(),
{
    if b.len() == 0 {
        assert(a + b =~= a);
    } else {
        assert((a + b).last() == b.last());
        assert((a + b).drop_last() =~= a + b.drop_last());
        assert(b[b.len() - 1].backup_id != backup_id);
        lemma_private_at_append_other(a, b.drop_last(), backup_id, path);
    }
}

/// A backup none of the earlier files belong to resolves entirely inside
/// the appended batch.
pub proof fn lemma_private_at_append_new(
    a: Seq<PrivateFile>,
    b: Seq<PrivateFile>,
    backup_id: u32,
    path: Seq<char>,
)
    requires
        forall|i: int| 0 <= i < a.len() ==> (#[trigger] a[i]).backup_id != backup_id,
        private_at(b, backup_id, path) is Some,
    ensures
        private_at(a + b, backup_id, path) == private_at(b, backup_id, path),
    decreases b.len(),
{
    assert(b.len() > 0);
    assert((a + b).last() == b.last());
    assert((a + b).drop_last() =~= a + b.drop_last());
    if !(b.last().backup_id == backup_id && b.last().path@ == path) {
        lemma_private_at_append_new(a, b.drop_last(), backup_id, path);
    }
}

/// Byte-and-key preservation composes across successive operations.
pub proof fn lemma_data_unchanged_trans(a: Seq<ContentBlob>, b: Seq<ContentBlob>, c: Seq<ContentBlob>)
    requires
        blobs_data_unchanged(a, b),
        blobs_data_unchanged(b, c),
    ensures
        blobs_data_unchanged(a, c),
{
    assert forall|i: int|
        0 <= i < a.len() implies (#[trigger] a[i]).digest == (#[trigger] c[i]).digest && a[i].size
        == c[i].size && a[i].data@ == c[i].data@ by {
        assert(a[i].digest == b[i].digest && a[i].size == b[i].size && a[i].data@ == b[i].data@);
    }
}

/// When only reference counts differ, every key resolves to the same
/// place and bytes.
pub proof fn lemma_data_unchanged_lookup(a: Seq<ContentBlob>, b: Seq<ContentBlob>, d: u64, s: u64)
    requires
        blobs_data_unchanged(a, b),
    ensures
        has_blob(a, d, s) == has_blob(b, d, s),
        data_of(a, d, s) == data_of(b, d, s),
    decreases a.len(),
{
    if a.len() > 0 {
        assert(a[a.len() - 1].digest == b[a.len() - 1].digest);
        assert(blobs_data_unchanged(a.drop_last(), b.drop_last()));
        lemma_data_unchanged_lookup(a.drop_last(), b.drop_last(), d, s);
    }
}

/// Copies a byte vector; the copy holds the same bytes.
fn clone_bytes(v: &Vec<u8>) -> (r: Vec<u8>)
    ensures
        r@ == v@,
{
    let mut r: Vec<u8> = Vec::new();
    let mut i: usize = 0;
    while i < v.len()
        invariant
            0 <= i <= v@.len(),
            r@ == v@.take(i as int),
        decreases v@.len() - i,
    {
        r.push(v[i]);
        assert(r@ =~= v@.take(i + 1));
        i = i + 1;
    }
    assert(v@.take(v@.len() as int) =~= v@);
    r
}

/// Compares two byte vectors for equal contents.
fn bytes_eq(a: &Vec<u8>, b: &Vec<u8>) -> (r: bool)
    ensures
        r == (a@ == b@),
{
    if a.len() != b.len() {
        assert(a@ != b@);
        return false;
    }
    let mut i: usize = 0;
    while i < a.len()
        invariant
            a@.len() == b@.len(),
            0 <= i <= a@.len(),
            forall|j: int| 0 <= j < i ==> a@[j] == b@[j],
        decreases a@.len() - i,
    {
        if a[i] != b[i] {
            return false;
        }
        i = i + 1;
    }
    assert(a@ =~= b@);
    true
}

/// One blob is a copy of the other: same key, same count, same bytes.
pub open spec fn blob_like(x: ContentBlob, y: ContentBlob) -> bool {
    x.digest == y.digest && x.size == y.size && x.refcount == y.refcount && x.data@ == y.data@
}

/// This blob copies a live blob among the first `n` of `orig`.
pub open spec fn copies_some_live(x: ContentBlob, orig: Seq<ContentBlob>, n: int) -> bool {
    exists|b: int| 0 <= b < n && blob_like(x, #[trigger] orig[b]) && orig[b].refcount != 0
}

/// Every blob of `kept` copies a live blob among the first `n` of `orig`.
pub open spec fn copies_live_prefix(
    kept: Seq<ContentBlob>,
    orig: Seq<ContentBlob>,
    n: int,
) -> bool {
    forall|a: int| 0 <= a < kept.len() ==> #[trigger] copies_some_live(kept[a], orig, n)
}

/// Copying from a prefix is copying from any longer prefix.
pub proof fn lemma_copies_weaken(kept: Seq<ContentBlob>, orig: Seq<ContentBlob>, n: int, m: int)
    requires
        copies_live_prefix(kept, orig, n),
        n <= m,
    ensures
        copies_live_prefix(kept, orig, m),
{
    assert forall|a: int| 0 <= a < kept.len() implies #[trigger] copies_some_live(
        kept[a],
        orig,
        m,
    ) by {
        assert(copies_some_live(kept[a], orig, n));
        let b = choose|b: int|
            0 <= b < n && blob_like(kept[a], #[trigger] orig[b]) && orig[b].refcount != 0;
        assert(blob_like(kept[a], orig[b]));
    }
}

/// Appending a copy of a live blob keeps the correspondence.
pub proof fn lemma_copies_push(
    kept: Seq<ContentBlob>,
    orig: Seq<ContentBlob>,
    n: int,
    x: ContentBlob,
    j: int,
)
    requires
        copies_live_prefix(kept, orig, n),
        0 <= j < n,
        blob_like(x, orig[j]),
        orig[j].refcount != 0,
    ensures
        copies_live_prefix(kept.push(x), orig, n),
{
    let kp = kept.push(x);
    assert forall|a: int| 0 <= a < kp.len() implies #[trigger] copies_some_live(
        kp[a],
        orig,
        n,
    ) by {
        if a < kept.len() {
            assert(kp[a] == kept[a]);
            assert(copies_some_live(kept[a], orig, n));
        } else {
            assert(kp[a] == x);
            assert(blob_like(kp[a], orig[j]));
        }
    }
}

/// One private file is a copy of the other: same backup, same path, same
/// bytes.
pub open spec fn pf_like(x: PrivateFile, y: PrivateFile) -> bool {
    x.backup_id == y.backup_id && x.path@ == y.path@ && x.data@ == y.data@
}

/// This private file copies one of the first `n` of `orig` that does not
/// belong to backup `excl`.
pub open spec fn pf_copies_some(x: PrivateFile, orig: Seq<PrivateFile>, n: int, excl: u32) -> bool {
    exists|b: int| 0 <= b < n && pf_like(x, #[trigger] orig[b]) && orig[b].backup_id != excl
}

/// Every kept private file copies a retained one among the first `n`.
pub open spec fn pf_copies_prefix(
    kept: Seq<PrivateFile>,
    orig: Seq<PrivateFile>,
    n: int,
    excl: u32,
) -> bool {
    forall|a: int| 0 <= a < kept.len() ==> #[trigger] pf_copies_some(kept[a], orig, n, excl)
}

/// Copying from a prefix is copying from any longer prefix.
pub proof fn lemma_pf_copies_weaken(
    kept: Seq<PrivateFile>,
    orig: Seq<PrivateFile>,
    n: int,
    m: int,
    excl: u32,
)
    requires
        pf_copies_prefix(kept, orig, n, excl),
        n <= m,
    ensures
        pf_copies_prefix(kept, orig, m, excl),
{
    assert forall|a: int| 0 <= a < kept.len() implies #[trigger] pf_copies_some(
        kept[a],
        orig,
        m,
        excl,
    ) by {
        assert(pf_copies_some(kept[a], orig, n, excl));
        let b = choose|b: int|
            0 <= b < n && pf_like(kept[a], #[trigger] orig[b]) && orig[b].backup_id != excl;
        assert(pf_like(kept[a], orig[b]));
    }
}

/// Appending a copy of a retained private file keeps the correspondence.
pub proof fn lemma_pf_copies_push(
    kept: Seq<PrivateFile>,
    orig: Seq<PrivateFile>,
    n: int,
    x: PrivateFile,
    j: int,
    excl: u32,
)
    requires
        pf_copies_prefix(kept, orig, n, excl),
        0 <= j < n,
        pf_like(x, orig[j]),
        orig[j].backup_id != excl,
    ensures
        pf_copies_prefix(kept.push(x), orig, n, excl),
{
    let kp = kept.push(x);
    assert forall|a: int| 0 <= a < kp.len() implies #[trigger] pf_copies_some(
        kp[a],
        orig,
        n,
        excl,
    ) by {
        if a < kept.len() {
            assert(kp[a] == kept[a]);
            assert(pf_copies_some(kept[a], orig, n, excl));
        } else {
            assert(kp[a] == x);
            assert(pf_like(kp[a], orig[j]));
        }
    }
}

/// The bytes stored privately under `(backup_id, path)`, if any.
pub open spec fn private_data_at(pfs: Seq<PrivateFile>, backup_id: u32, path: Seq<char>) -> Option<
    Seq<u8>,
> {
    match private_at(pfs, backup_id, path) {
        Option::Some(pf) => Some(pf.data@),
        Option::None => None,
    }
}

/// Whether any of the first `upto` entries is a shared citation of key
/// `(d, s)`.
fn entries_cite_prefix(es: &Vec<FileEntry>, upto: usize, d: u64, s: u64) -> (r: bool)
    requires
        upto <= es@.len(),
    ensures
        r == cites_entries(es@.take(upto as int), d, s),
{
    let mut j: usize = 0;
    while j < upto
        invariant
            0 <= j <= upto <= es@.len(),
            forall|k: int|
                0 <= k < j ==> !((#[trigger] es@[k]).shared && es@[k].digest == d && es@[k].size
                    == s),
        decreases upto - j,
    {
        let e = &es[j];
        if e.shared && e.digest == d && e.size == s {
            assert(es@.take(upto as int)[j as int].shared);
            return true;
        }
        j = j + 1;
    }
    assert forall|k: int| 0 <= k < upto implies !((#[trigger] es@.take(upto as int)[k]).shared
        && es@.take(upto as int)[k].digest == d && es@.take(upto as int)[k].size == s) by {
        assert(es@.take(upto as int)[k] == es@[k]);
    }
    false
}

/// Appending one entry extends the citations by exactly its key, when it
/// is shared.
pub proof fn lemma_cites_push(es: Seq<FileEntry>, e: FileEntry, d: u64, s: u64)
    ensures
        cites_entries(es.push(e), d, s) == (cites_entries(es, d, s) || (e.shared && e.digest == d
            && e.size == s)),
{
    let ep = es.push(e);
    if cites_entries(es, d, s) {
        let k = choose|k: int|
            0 <= k < es.len() && (#[trigger] es[k]).shared && es[k].digest == d && es[k].size == s;
        assert(ep[k].shared && ep[k].digest == d && ep[k].size == s);
    }
    if e.shared && e.digest == d && e.size == s {
        assert(ep[es.len() as int].shared && ep[es.len() as int].digest == d
            && ep[es.len() as int].size == s);
    }
    if cites_entries(ep, d, s) {
        let k = choose|k: int|
            0 <= k < ep.len() && (#[trigger] ep[k]).shared && ep[k].digest == d && ep[k].size == s;
        if k < es.len() {
            assert(es[k].shared && es[k].digest == d && es[k].size == s);
        }
    }
}

/// How every key's citation changes when one entry is appended.
pub proof fn lemma_cites_push_all(es: Seq<FileEntry>, e: FileEntry)
    ensures
        forall|d: u64, s: u64|
            #[trigger] cites_entries(es.push(e), d, s) == (cites_entries(es, d, s) || (e.shared
                && e.digest == d && e.size == s)),
{
    assert forall|d: u64, s: u64| true implies #[trigger] cites_entries(es.push(e), d, s) == (
    cites_entries(es, d, s) || (e.shared && e.digest == d && e.size == s)) by {
        lemma_cites_push(es, e, d, s);
    }
}

/// What one more listed file adds to the planned entries, captures and
/// byte counts.
pub proof fn lemma_capture_take_succ(
    blobs: Seq<ContentBlob>,
    opts: BackupableDBOptions,
    files: Seq<SourceFile>,
    k: int,
)
    requires
        0 <= k < files.len(),
    ensures
        plan_of(opts, files[k]) is Some ==> entries_of(opts, files.take(k + 1)) == entries_of(
            opts,
            files.take(k),
        ).push(entry_of(opts, files[k])),
        plan_of(opts, files[k]) is None ==> entries_of(opts, files.take(k + 1)) == entries_of(
            opts,
            files.take(k),
        ),
        plan_of(opts, files[k]) is Some ==> captured_pairs(opts, files.take(k + 1))
            == captured_pairs(opts, files.take(k)).push((files[k].path@, files[k].data@)),
        plan_of(opts, files[k]) is None ==> captured_pairs(opts, files.take(k + 1))
            == captured_pairs(opts, files.take(k)),
        private_bytes(opts, files.take(k + 1)) == private_bytes(opts, files.take(k)) + (if plan_of(
            opts,
            files[k],
        ) == Some(false) {
            files[k].data@.len() as int
        } else {
            0int
        }),
        new_shared_bytes(blobs, opts, files.take(k + 1)) == new_shared_bytes(
            blobs,
            opts,
            files.take(k),
        ) + (if plan_of(opts, files[k]) == Some(true) && !has_blob(
            blobs,
            digest_of(files[k].data@),
            files[k].data@.len() as u64,
        ) && !cites_entries(
            entries_of(opts, files.take(k)),
            digest_of(files[k].data@),
            files[k].data@.len() as u64,
        ) {
            files[k].data@.len() as int
        } else {
            0int
        }),
{
    assert(files.take(k + 1).drop_last() =~= files.take(k));
    assert(files.take(k + 1).last() == files[k]);
}

/// The sum of entry sizes is never negative.
pub proof fn lemma_entry_sizes_nonneg(es: Seq<FileEntry>)
    ensures
        entry_sizes(es) >= 0,
    decreases es.len(),
{
    if es.len() > 0 {
        lemma_entry_sizes_nonneg(es.drop_last());
    }
}

/// A backup never plans more entries than it was given files.
pub proof fn lemma_entries_of_len(opts: BackupableDBOptions, files: Seq<SourceFile>)
    ensures
        entries_of(opts, files).len() <= files.len(),
        captured_pairs(opts, files).len() == entries_of(opts, files).len(),
    decreases files.len(),
{
    if files.len() > 0 {
        lemma_entries_of_len(opts, files.drop_last());
    }
}

/// The entries planned for a prefix of the listing never exceed the
/// whole listing's total size.
pub proof fn lemma_captured_sizes_mono(opts: BackupableDBOptions, files: Seq<SourceFile>, k: int)
    requires
        0 <= k <= files.len(),
    ensures
        entry_sizes(entries_of(opts, files.take(k))) <= entry_sizes(entries_of(opts, files)),
    decreases files.len() - k,
{
    if k == files.len() {
        assert(files.take(k) =~= files);
    } else {
        lemma_capture_take_succ(Seq::empty(), opts, files, k);
        if plan_of(opts, files[k]) is Some {
            let es = entries_of(opts, files.take(k));
            let e = entry_of(opts, files[k]);
            assert(es.push(e).drop_last() =~= es);
            assert(entry_sizes(es.push(e)) == entry_sizes(es) + e.size);
        }
        lemma_captured_sizes_mono(opts, files, k + 1);
    }
}

/// Matching entry lists carry the same sizes and citations.
pub proof fn lemma_entries_match_sizes(a: Seq<FileEntry>, b: Seq<FileEntry>)
    requires
        entries_match(a, b),
    ensures
        entry_sizes(a) == entry_sizes(b),
    decreases a.len(),
{
    if a.len() > 0 {
        assert(entries_match(a.drop_last(), b.drop_last()));
        lemma_entries_match_sizes(a.drop_last(), b.drop_last());
        assert(a[a.len() - 1].size == b[a.len() - 1].size);
    }
}

/// Matching entry lists cite the same keys.
pub proof fn lemma_entries_match_cites(a: Seq<FileEntry>, b: Seq<FileEntry>, d: u64, s: u64)
    requires
        entries_match(a, b),
    ensures
        cites_entries(a, d, s) == cites_entries(b, d, s),
{
    if cites_entries(a, d, s) {
        let k = choose|k: int|
            0 <= k < a.len() && (#[trigger] a[k]).shared && a[k].digest == d && a[k].size == s;
        assert(b[k].shared && b[k].digest == d && b[k].size == s);
    }
    if cites_entries(b, d, s) {
        let k = choose|k: int|
            0 <= k < b.len() && (#[trigger] b[k]).shared && b[k].digest == d && b[k].size == s;
        assert(a[k].shared && a[k].digest == d && a[k].size == s);
    }
}

/// This capture comes from one of the first `n` listed files.
pub open spec fn capture_from_source(
    e: FileEntry,
    pr: (Seq<char>, Seq<u8>),
    opts: BackupableDBOptions,
    files: Seq<SourceFile>,
    n: int,
) -> bool {
    exists|k: int|
        0 <= k < n && plan_of(opts, #[trigger] files[k]) is Some && e == entry_of(opts, files[k])
            && pr == (files[k].path@, files[k].data@)
}

/// Every planned entry and captured pair comes from a listed file among
/// the first `n`.
pub open spec fn captures_from_sources(
    es: Seq<FileEntry>,
    ps: Seq<(Seq<char>, Seq<u8>)>,
    opts: BackupableDBOptions,
    files: Seq<SourceFile>,
    n: int,
) -> bool {
    &&& es.len() == ps.len()
    &&& forall|j: int|
        0 <= j < es.len() ==> #[trigger] capture_from_source(es[j], ps[j], opts, files, n)
}

/// Coming from a prefix is coming from any longer prefix.
pub proof fn lemma_captures_weaken(
    es: Seq<FileEntry>,
    ps: Seq<(Seq<char>, Seq<u8>)>,
    opts: BackupableDBOptions,
    files: Seq<SourceFile>,
    n: int,
    m: int,
)
    requires
        captures_from_sources(es, ps, opts, files, n),
        n <= m,
    ensures
        captures_from_sources(es, ps, opts, files, m),
{
    assert forall|j: int| 0 <= j < es.len() implies #[trigger] capture_from_source(
        es[j],
        ps[j],
        opts,
        files,
        m,
    ) by {
        assert(capture_from_source(es[j], ps[j], opts, files, n));
        let k = choose|k: int|
            0 <= k < n && plan_of(opts, #[trigger] files[k]) is Some && es[j] == entry_of(
                opts,
                files[k],
            ) && ps[j] == (files[k].path@, files[k].data@);
        assert(plan_of(opts, files[k]) is Some);
    }
}

/// A capture of file `k` extends the correspondence by one.
pub proof fn lemma_captures_push(
    es: Seq<FileEntry>,
    ps: Seq<(Seq<char>, Seq<u8>)>,
    opts: BackupableDBOptions,
    files: Seq<SourceFile>,
    n: int,
    k: int,
)
    requires
        captures_from_sources(es, ps, opts, files, n),
        0 <= k < n,
        plan_of(opts, files[k]) is Some,
    ensures
        captures_from_sources(
            es.push(entry_of(opts, files[k])),
            ps.push((files[k].path@, files[k].data@)),
            opts,
            files,
            n,
        ),
{
    let es2 = es.push(entry_of(opts, files[k]));
    let ps2 = ps.push((files[k].path@, files[k].data@));
    assert forall|j: int| 0 <= j < es2.len() implies #[trigger] capture_from_source(
        es2[j],
        ps2[j],
        opts,
        files,
        n,
    ) by {
        if j < es.len() {
            assert(es2[j] == es[j] && ps2[j] == ps[j]);
            assert(capture_from_source(es[j], ps[j], opts, files, n));
        } else {
            assert(es2[j] == entry_of(opts, files[k]) && ps2[j] == (
                files[k].path@,
                files[k].data@,
            ));
            assert(plan_of(opts, #[trigger] files[k]) is Some);
        }
    }
}

/// Extending an entry prefix by one entry extends its citations by
/// exactly that entry's key, when the entry is shared.
pub proof fn lemma_cites_take_succ(es: Seq<FileEntry>, j: int, d: u64, s: u64)
    requires
        0 <= j < es.len(),
    ensures
        cites_entries(es.take(j + 1), d, s) == (cites_entries(es.take(j), d, s) || (es[j].shared
            && es[j].digest == d && es[j].size == s)),
{
    if cites_entries(es.take(j), d, s) {
        let k = choose|k: int|
            0 <= k < j && (#[trigger] es.take(j)[k]).shared && es.take(j)[k].digest == d && es.take(
                j,
            )[k].size == s;
        assert(es.take(j + 1)[k].shared && es.take(j + 1)[k].digest == d && es.take(j + 1)[k].size
            == s);
    }
    if es[j].shared && es[j].digest == d && es[j].size == s {
        assert(es.take(j + 1)[j].shared && es.take(j + 1)[j].digest == d && es.take(j + 1)[j].size
            == s);
    }
    if cites_entries(es.take(j + 1), d, s) {
        let k = choose|k: int|
            0 <= k < j + 1 && (#[trigger] es.take(j + 1)[k]).shared && es.take(j + 1)[k].digest == d
                && es.take(j + 1)[k].size == s;
        if k < j {
            assert(es.take(j)[k].shared && es.take(j)[k].digest == d && es.take(j)[k].size == s);
        } else {
            assert(es[j].shared && es[j].digest == d && es[j].size == s);
        }
    }
}

/// This private file captures one of the first `n` listed files.
pub open spec fn private_from_source(
    pf: PrivateFile,
    opts: BackupableDBOptions,
    files: Seq<SourceFile>,
    n: int,
) -> bool {
    exists|k: int|
        0 <= k < n && plan_of(opts, #[trigger] files[k]) == Some(false) && pf.path@
            == files[k].path@ && pf.data@ == files[k].data@
}

/// Every private file of the batch captures a listed file among the
/// first `n`.
pub open spec fn privates_from_sources(
    npv: Seq<PrivateFile>,
    opts: BackupableDBOptions,
    files: Seq<SourceFile>,
    n: int,
) -> bool {
    forall|a: int| 0 <= a < npv.len() ==> #[trigger] private_from_source(npv[a], opts, files, n)
}

/// Capturing from a prefix is capturing from any longer prefix.
pub proof fn lemma_privates_weaken(
    npv: Seq<PrivateFile>,
    opts: BackupableDBOptions,
    files: Seq<SourceFile>,
    n: int,
    m: int,
)
    requires
        privates_from_sources(npv, opts, files, n),
        n <= m,
    ensures
        privates_from_sources(npv, opts, files, m),
{
    assert forall|a: int| 0 <= a < npv.len() implies #[trigger] private_from_source(
        npv[a],
        opts,
        files,
        m,
    ) by {
        assert(private_from_source(npv[a], opts, files, n));
        let k = choose|k: int|
            0 <= k < n && plan_of(opts, #[trigger] files[k]) == Some(false) && npv[a].path@
                == files[k].path@ && npv[a].data@ == files[k].data@;
        assert(plan_of(opts, files[k]) == Some(false));
    }
}

/// Capturing file `k` extends the correspondence by one.
pub proof fn lemma_privates_push(
    npv: Seq<PrivateFile>,
    opts: BackupableDBOptions,
    files: Seq<SourceFile>,
    n: int,
    pf: PrivateFile,
    k: int,
)
    requires
        privates_from_sources(npv, opts, files, n),
        0 <= k < n,
        plan_of(opts, files[k]) == Some(false),
        pf.path@ == files[k].path@,
        pf.data@ == files[k].data@,
    ensures
        privates_from_sources(npv.push(pf), opts, files, n),
{
    let np = npv.push(pf);
    assert forall|a: int| 0 <= a < np.len() implies #[trigger] private_from_source(
        np[a],
        opts,
        files,
        n,
    ) by {
        if a < npv.len() {
            assert(np[a] == npv[a]);
            assert(private_from_source(npv[a], opts, files, n));
        } else {
            assert(np[a] == pf);
            assert(plan_of(opts, #[trigger] files[k]) == Some(false));
        }
    }
}

/// Evaluates what becomes of one listed file under the engine options.
fn plan_exec(opts: &BackupableDBOptions, f: &SourceFile) -> (r: Option<bool>)
    ensures
        r == plan_of(*opts, *f),
{
    if f.is_mutable_log {
        if opts.backup_log_files {
            Some(false)
        } else {
            None
        }
    } else {
        Some(opts.share_table_files)
    }
}

/// Checks that no two listed files name the same relative path.
fn check_paths_unique(files: &Vec<SourceFile>) -> (r: bool)
    ensures
        r == source_paths_unique(files@),
{
    let n = files.len();
    let mut i: usize = 0;
    while i < n
        invariant
            n == files@.len(),
            0 <= i <= n,
            forall|a: int, b: int|
                0 <= a < b < i ==> (#[trigger] files@[a].path@) != (#[trigger] files@[b].path@),
        decreases n - i,
    {
        let mut j: usize = 0;
        while j < i
            invariant
                n == files@.len(),
                0 <= j <= i < n,
                forall|a: int, b: int|
                    0 <= a < b < i ==> (#[trigger] files@[a].path@) != (#[trigger] files@[b].path@),
                forall|a: int| 0 <= a < j ==> (#[trigger] files@[a].path@) != files@[i as int].path@,
            decreases i - j,
        {
            if files[j].path == files[i].path {
                return false;
            }
            j = j + 1;
        }
        i = i + 1;
    }
    true
}

/// The backup engine: the content store, the catalog, the per-backup
/// private files, and the copy throttles.
pub struct BackupEngine {
    pub options: BackupableDBOptions,
    pub store: ContentStore,
    pub catalog: BackupMetadataStore,
    pub private_files: Vec<PrivateFile>,
    pub backup_limiter: RateLimiter,
    pub restore_limiter: RateLimiter,
    pub stop_requested: bool,
}

impl BackupEngine {
    /// The engine's invariant, preserved by every operation.
    ///
    /// Beyond the store's and the catalog's own shape: every key's
    /// reference count equals the number of live manifests citing it, and
    /// every private entry of a live manifest resolves to exactly one
    /// stored private file of the right size and digest.
    pub open spec fn wf(self) -> bool {
        &&& self.store.wf()
        &&& self.catalog.wf()
        &&& self.backup_limiter.wf()
        &&& self.restore_limiter.wf()
        &&& forall|d: u64, s: u64|
            #[trigger] rc_of(self.store.blobs@, d, s) == count_citing(
                self.catalog.manifests@,
                d,
                s,
            )
        &&& private_keys_unique(self.private_files@)
        &&& forall|a: int|
            0 <= a < self.private_files@.len() ==> (#[trigger] self.private_files@[a]).backup_id
                < self.catalog.next_id
        &&& forall|i: int, j: int|
            0 <= i < self.catalog.manifests@.len() && 0 <= j
                < self.catalog.manifests@[i].entries@.len() && !(
            #[trigger] self.catalog.manifests@[i].entries@[j]).shared ==> {
                let e = self.catalog.manifests@[i].entries@[j];
                let pf = private_at(
                    self.private_files@,
                    self.catalog.manifests@[i].backup_id,
                    e.path@,
                );
                &&& pf is Some
                &&& pf->Some_0.data@.len() == e.size
                &&& digest_of(pf->Some_0.data@) == e.digest
            }
    }

    /// What entry `j` of manifest `i` resolves to: the cited blob's bytes
    /// for a shared entry, the stored private file's bytes otherwise.
    pub open spec fn resolve_entry(self, backup_id: u32, e: FileEntry) -> Seq<u8> {
        if e.shared {
            data_of(self.store.blobs@, e.digest, e.size)
        } else {
            match private_at(self.private_files@, backup_id, e.path@) {
                Option::Some(pf) => pf.data@,
                Option::None => Seq::empty(),
            }
        }
    }

    /// The `(path, bytes)` pairs manifest `i` resolves to, in entry order:
    /// what a restore of that backup reproduces.
    pub open spec fn manifest_snapshot(self, i: int) -> Seq<(Seq<char>, Seq<u8>)> {
        let m = self.catalog.manifests@[i];
        Seq::new(m.entries@.len(), |j: int| (m.entries@[j].path@, self.resolve_entry(m.backup_id, m.entries@[j])))
    }

    /// Opens a fresh engine governed by `options`; the copy throttles take
    /// their windows from the configured rate limits.
    pub fn open(options: BackupableDBOptions) -> (r: Result<BackupEngine, Error>)
        ensures
            r is Ok,
            r->Ok_0.wf(),
            r->Ok_0.catalog.manifests@.len() == 0,
            r->Ok_0.catalog.next_id == 1,
            r->Ok_0.store.blobs@.len() == 0,
            r->Ok_0.private_files@.len() == 0,
            r->Ok_0.options == options,
            !r->Ok_0.stop_requested,
            r->Ok_0.backup_limiter.bytes_per_refill == options.backup_rate_limit,
            r->Ok_0.restore_limiter.bytes_per_refill == options.restore_rate_limit,
    {
        let backup_limiter = RateLimiter::new(options.backup_rate_limit);
        let restore_limiter = RateLimiter::new(options.restore_rate_limit);
        let engine = BackupEngine {
            options,
            store: ContentStore::new(),
            catalog: BackupMetadataStore::new(),
            private_files: Vec::new(),
            backup_limiter,
            restore_limiter,
            stop_requested: false,
        };
        Ok(engine)
    }

    /// Asks the in-flight backup creation to abort at its next checkpoint:
    /// the next `create_new_backup` observing the request fails with
    /// `Aborted` instead of committing.
    pub fn stop_backup(&mut self)
        ensures
            *final(self) == (BackupEngine { stop_requested: true, ..*old(self) }),
    {
        self.stop_requested = true;
    }

    /// The summary of every committed backup, in identifier order.
    pub fn get_backup_info(&self) -> (r: Vec<BackupInfo>)
        requires
            self.wf(),
        ensures
            r@.len() == self.catalog.manifests@.len(),
            forall|i: int|
                0 <= i < r@.len() ==> {
                    let m = #[trigger] self.catalog.manifests@[i];
                    &&& r@[i].backup_id == m.backup_id
                    &&& r@[i].timestamp == m.timestamp
                    &&& r@[i].size == m.total_size
                    &&& r@[i].number_of_files == m.entries@.len()
                    &&& r@[i].app_metadata@ == m.app_metadata@
                },
    {
        let n = self.catalog.manifests.len();
        let mut r: Vec<BackupInfo> = Vec::new();
        let mut i: usize = 0;
        while i < n
            invariant
                self.wf(),
                n == self.catalog.manifests@.len(),
                0 <= i <= n,
                r@.len() == i,
                forall|k: int|
                    0 <= k < i ==> {
                        let m = #[trigger] self.catalog.manifests@[k];
                        &&& r@[k].backup_id == m.backup_id
                        &&& r@[k].timestamp == m.timestamp
                        &&& r@[k].size == m.total_size
                        &&& r@[k].number_of_files == m.entries@.len()
                        &&& r@[k].app_metadata@ == m.app_metadata@
                    },
            decreases n - i,
        {
            let m = &self.catalog.manifests[i];
            assert(m.wf());
            let info = BackupInfo {
                backup_id: m.backup_id,
                timestamp: m.timestamp,
                size: m.total_size,
                number_of_files: m.entries.len() as u32,
                app_metadata: m.app_metadata.clone(),
            };
            r.push(info);
            i = i + 1;
        }
        r
    }

    /// In a well-formed engine, a shared entry of a live manifest always
    /// resolves: the cited blob exists, holds bytes of the entry's size,
    /// and those bytes hash to the entry's digest.
    pub proof fn lemma_shared_entry_resolves(self, i: int, j: int)
        requires
            self.wf(),
            0 <= i < self.catalog.manifests@.len(),
            0 <= j < self.catalog.manifests@[i].entries@.len(),
            self.catalog.manifests@[i].entries@[j].shared,
        ensures
            ({
                let e = self.catalog.manifests@[i].entries@[j];
                &&& has_blob(self.store.blobs@, e.digest, e.size)
                &&& rc_of(self.store.blobs@, e.digest, e.size) >= 1
                &&& data_of(self.store.blobs@, e.digest, e.size).len() == e.size
                &&& digest_of(data_of(self.store.blobs@, e.digest, e.size)) == e.digest
            }),
    {
        let e = self.catalog.manifests@[i].entries@[j];
        assert(self.catalog.manifests@[i].cites(e.digest, e.size));
        lemma_cites_count_pos(self.catalog.manifests@, i, e.digest, e.size);
        assert(rc_of(self.store.blobs@, e.digest, e.size) == count_citing(
            self.catalog.manifests@,
            e.digest,
            e.size,
        ));
        lemma_blob_at_wf(self.store.blobs@, e.digest, e.size);
    }

    /// Finds the index of the private file stored under
    /// `(backup_id, path)`, if there is one.
    fn find_private(&self, backup_id: u32, path: &String) -> (r: Option<usize>)
        requires
            private_keys_unique(self.private_files@),
        ensures
            match r {
                Option::Some(i) => i < self.private_files@.len() && private_at(
                    self.private_files@,
                    backup_id,
                    path@,
                ) == Some(self.private_files@[i as int]),
                Option::None => private_at(self.private_files@, backup_id, path@) is None,
            },
    {
        let n = self.private_files.len();
        let mut i: usize = 0;
        while i < n
            invariant
                private_keys_unique(self.private_files@),
                n == self.private_files@.len(),
                0 <= i <= n,
                forall|j: int|
                    0 <= j < i ==> !((#[trigger] self.private_files@[j]).backup_id == backup_id
                        && self.private_files@[j].path@ == path@),
            decreases n - i,
        {
            let pf = &self.private_files[i];
            if pf.backup_id == backup_id && pf.path == *path {
                proof {
                    lemma_private_at_index(self.private_files@, i as int);
                }
                return Some(i);
            }
            i = i + 1;
        }
        proof {
            lemma_private_at_none(self.private_files@, backup_id, path@);
        }
        None
    }

    /// Sweeps the content store: every blob whose reference count is zero
    /// is dropped, every other blob keeps its place, bytes and count. The
    /// catalog, the private files and every backup's snapshot stay as
    /// they were.
    pub fn engine_garbage_collect(&mut self)
        requires
            old(self).wf(),
        ensures
            final(self).wf(),
            final(self).catalog == old(self).catalog,
            final(self).private_files == old(self).private_files,
            final(self).options == old(self).options,
            final(self).backup_limiter == old(self).backup_limiter,
            final(self).restore_limiter == old(self).restore_limiter,
            final(self).stop_requested == old(self).stop_requested,
            forall|d: u64, s: u64|
                #[trigger] rc_of(old(self).store.blobs@, d, s) != 0 ==> has_blob(
                    final(self).store.blobs@,
                    d,
                    s,
                ) && data_of(final(self).store.blobs@, d, s) == data_of(old(self).store.blobs@, d, s)
                    && rc_of(final(self).store.blobs@, d, s) == rc_of(old(self).store.blobs@, d, s),
            forall|d: u64, s: u64|
                #[trigger] rc_of(old(self).store.blobs@, d, s) == 0 ==> !has_blob(
                    final(self).store.blobs@,
                    d,
                    s,
                ),
            forall|i: int|
                0 <= i < final(self).catalog.manifests@.len() ==> final(self).manifest_snapshot(i)
                    == old(self).manifest_snapshot(i),
    {
        let ghost orig = self.store.blobs@;
        let n = self.store.blobs.len();
        let mut kept: Vec<ContentBlob> = Vec::new();
        let mut i: usize = 0;
        while i < n
            invariant
                blobs_wf(orig),
                orig == self.store.blobs@,
                n == orig.len(),
                0 <= i <= n,
                blobs_wf(kept@),
                forall|b: int|
                    0 <= b < i && (#[trigger] orig[b]).refcount != 0 ==> has_blob(
                        kept@,
                        orig[b].digest,
                        orig[b].size,
                    ) && data_of(kept@, orig[b].digest, orig[b].size) == orig[b].data@ && rc_of(
                        kept@,
                        orig[b].digest,
                        orig[b].size,
                    ) == orig[b].refcount,
                copies_live_prefix(kept@, orig, i as int),
            decreases n - i,
        {
            let b = &self.store.blobs[i];
            if b.refcount != 0 {
                let copy = ContentBlob {
                    digest: b.digest,
                    size: b.size,
                    refcount: b.refcount,
                    data: clone_bytes(&b.data),
                };
                proof {
                    assert(orig[i as int].wf());
                    assert(copy.wf());
                    // the key is new to `kept`: anything in `kept` copies an
                    // earlier blob, and keys are unique in the original
                    assert forall|a: int| 0 <= a < kept@.len() implies !(#[trigger] kept@[a]).has_key(
                        copy.digest,
                        copy.size,
                    ) by {
                        assert(copies_some_live(kept@[a], orig, i as int));
                        let bb = choose|bb: int|
                            0 <= bb < i && blob_like(kept@[a], #[trigger] orig[bb])
                                && orig[bb].refcount != 0;
                        assert(!orig[bb].has_key(orig[i as int].digest, orig[i as int].size));
                    }
                    lemma_blob_at_push(kept@, copy, copy.digest, copy.size);
                }
                let ghost kept_before = kept@;
                kept.push(copy);
                proof {
                    assert forall|d: u64, s: u64| !(copy.has_key(d, s)) implies blob_at(
                        kept@,
                        d,
                        s,
                    ) == blob_at(kept_before, d, s) by {
                        lemma_blob_at_push(kept_before, copy, d, s);
                    }
                    assert forall|b2: int|
                        0 <= b2 < i + 1 && (#[trigger] orig[b2]).refcount != 0 implies has_blob(
                        kept@,
                        orig[b2].digest,
                        orig[b2].size,
                    ) && data_of(kept@, orig[b2].digest, orig[b2].size) == orig[b2].data@ && rc_of(
                        kept@,
                        orig[b2].digest,
                        orig[b2].size,
                    ) == orig[b2].refcount by {
                        if b2 == i {
                            lemma_blob_at_push(kept_before, copy, orig[b2].digest, orig[b2].size);
                        } else {
                            assert(!orig[b2].has_key(orig[i as int].digest, orig[i as int].size));
                        }
                    }
                    lemma_copies_weaken(kept_before, orig, i as int, i + 1);
                    assert(blob_like(copy, orig[i as int]));
                    lemma_copies_push(kept_before, orig, i + 1, copy, i as int);
                }
            } else {
                proof {
                    lemma_copies_weaken(kept@, orig, i as int, i + 1);
                }
            }
            i = i + 1;
        }
        proof {
            // a key the sweep kept was live in the original; a dead key is gone
            assert forall|d: u64, s: u64| #[trigger] rc_of(orig, d, s) == 0 implies !has_blob(
                kept@,
                d,
                s,
            ) by {
                if has_blob(kept@, d, s) {
                    lemma_blob_at_some(kept@, d, s);
                    let a = choose|a: int|
                        0 <= a < kept@.len() && kept@[a] == blob_at(kept@, d, s)->Some_0 && (
                        #[trigger] kept@[a]).has_key(d, s);
                    assert(copies_some_live(kept@[a], orig, n as int));
                    let b = choose|b: int|
                        0 <= b < n && blob_like(kept@[a], #[trigger] orig[b])
                            && orig[b].refcount != 0;
                    lemma_blob_at_index(orig, b);
                    assert(rc_of(orig, d, s) == orig[b].refcount);
                }
            }
            assert forall|d: u64, s: u64| #[trigger] rc_of(orig, d, s) != 0 implies has_blob(
                kept@,
                d,
                s,
            ) && data_of(kept@, d, s) == data_of(orig, d, s) && rc_of(kept@, d, s) == rc_of(
                orig,
                d,
                s,
            ) by {
                lemma_blob_at_some(orig, d, s);
                let b = choose|b: int|
                    0 <= b < orig.len() && orig[b] == blob_at(orig, d, s)->Some_0 && (
                    #[trigger] orig[b]).has_key(d, s);
            }
        }
        self.store.blobs = kept;
        proof {
            // reference counts still match citations, and snapshots stand
            assert forall|d: u64, s: u64| #[trigger] rc_of(self.store.blobs@, d, s) == count_citing(
                self.catalog.manifests@,
                d,
                s,
            ) by {
                assert(rc_of(orig, d, s) == count_citing(self.catalog.manifests@, d, s));
                if rc_of(orig, d, s) == 0 {
                    assert(!has_blob(self.store.blobs@, d, s));
                }
            }
            assert forall|i2: int|
                0 <= i2 < self.catalog.manifests@.len() implies self.manifest_snapshot(i2) == old(self).manifest_snapshot(i2) by {
                let m = self.catalog.manifests@[i2];
                assert forall|j: int| 0 <= j < m.entries@.len() implies self.resolve_entry(
                    m.backup_id,
                    m.entries@[j],
                ) == old(self).resolve_entry(m.backup_id, m.entries@[j]) by {
                    if m.entries@[j].shared {
                        old(self).lemma_shared_entry_resolves(i2, j);
                    }
                }
                assert(self.manifest_snapshot(i2) =~= old(self).manifest_snapshot(i2));
            }
        }
    }

    /// Confirms that every entry of the backup resolves to stored bytes of
    /// the recorded size — and, when asked, the recorded digest. In a
    /// well-formed engine this succeeds exactly when the backup exists;
    /// the only error is `NotFound`.
    pub fn verify_backup(&self, backup_id: u32, verify_with_checksum: bool) -> (r: Result<
        (),
        Error,
    >)
        requires
            self.wf(),
        ensures
            r is Ok <==> self.catalog.has_backup(backup_id),
            r is Err ==> r->Err_0.code is NotFound,
    {
        let mi = match self.catalog.find(backup_id) {
            Option::Some(mi) => mi,
            Option::None => {
                return Err(Error::with_state(Code::NotFound, String::new()));
            },
        };
        let m = &self.catalog.manifests[mi];
        let n = m.entries.len();
        let mut j: usize = 0;
        while j < n
            invariant
                self.wf(),
                mi < self.catalog.manifests@.len(),
                m == self.catalog.manifests@[mi as int],
                n == m.entries@.len(),
                0 <= j <= n,
            decreases n - j,
        {
            let e = &m.entries[j];
            if e.shared {
                proof {
                    self.lemma_shared_entry_resolves(mi as int, j as int);
                }
                match self.store.find(e.digest, e.size) {
                    Option::Some(bi) => {
                        let blob = &self.store.blobs[bi];
                        assert(blob.wf());
                        if blob.data.len() as u64 != e.size {
                            assert(false);
                            return Err(Error::with_state(Code::Corruption, e.path.clone()));
                        }
                        if verify_with_checksum {
                            let dg = compute_digest(&blob.data);
                            if dg != e.digest {
                                assert(false);
                                return Err(Error::with_state(Code::Corruption, e.path.clone()));
                            }
                        }
                    },
                    Option::None => {
                        assert(false);
                        return Err(Error::with_state(Code::Corruption, e.path.clone()));
                    },
                }
            } else {
                match self.find_private(m.backup_id, &e.path) {
                    Option::Some(pi) => {
                        let pf = &self.private_files[pi];
                        proof {
                            assert(private_at(self.private_files@, m.backup_id, e.path@)
                                == Some(self.private_files@[pi as int]));
                        }
                        if pf.data.len() as u64 != e.size {
                            assert(false);
                            return Err(Error::with_state(Code::Corruption, e.path.clone()));
                        }
                        if verify_with_checksum {
                            let dg = compute_digest(&pf.data);
                            if dg != e.digest {
                                assert(false);
                                return Err(Error::with_state(Code::Corruption, e.path.clone()));
                            }
                        }
                    },
                    Option::None => {
                        assert(false);
                        return Err(Error::with_state(Code::Corruption, e.path.clone()));
                    },
                }
            }
            j = j + 1;
        }
        assert(self.catalog.manifests@[mi as int].backup_id == backup_id);
        Ok(())
    }

    /// The restored files reproduce manifest `i` exactly: one file per
    /// entry, in order, with the entry's path and the resolved bytes,
    /// whose size and digest are the recorded ones.
    pub open spec fn restored_matches(self, v: Seq<RestoredFile>, i: int) -> bool {
        let m = self.catalog.manifests@[i];
        &&& v.len() == m.entries@.len()
        &&& forall|j: int|
            0 <= j < v.len() ==> (#[trigger] v[j]).path@ == m.entries@[j].path@ && v[j].shared
                == m.entries@[j].shared && v[j].data@ == self.resolve_entry(
                m.backup_id,
                m.entries@[j],
            ) && v[j].data@.len() == m.entries@[j].size && digest_of(v[j].data@)
                == m.entries@[j].digest
    }

    /// Reconstructs the full file set of the given backup, re-verifying
    /// each file's digest against its manifest entry on the way out. In a
    /// well-formed engine this succeeds exactly when the backup exists;
    /// the only error is `NotFound`. The caller writes the files under its
    /// target directories, honouring `options.keep_log_files` for log
    /// files already present there.
    pub fn restore_db_from_backup(&self, options: &RestoreOptions, backup_id: u32) -> (r: Result<
        Vec<RestoredFile>,
        Error,
    >)
        requires
            self.wf(),
        ensures
            r is Ok <==> self.catalog.has_backup(backup_id),
            r is Err ==> r->Err_0.code is NotFound,
            r is Ok ==> forall|i: int|
                0 <= i < self.catalog.manifests@.len() && (#[trigger] self.catalog.manifests@[i].backup_id)
                    == backup_id ==> self.restored_matches(r->Ok_0@, i),
    {
        let mi = match self.catalog.find(backup_id) {
            Option::Some(mi) => mi,
            Option::None => {
                return Err(Error::with_state(Code::NotFound, String::new()));
            },
        };
        let m = &self.catalog.manifests[mi];
        let n = m.entries.len();
        let mut out: Vec<RestoredFile> = Vec::new();
        let mut j: usize = 0;
        while j < n
            invariant
                self.wf(),
                mi < self.catalog.manifests@.len(),
                m == self.catalog.manifests@[mi as int],
                n == m.entries@.len(),
                0 <= j <= n,
                out@.len() == j,
                forall|k: int|
                    0 <= k < j ==> (#[trigger] out@[k]).path@ == m.entries@[k].path@ && out@[k].shared
                        == m.entries@[k].shared && out@[k].data@ == self.resolve_entry(
                        m.backup_id,
                        m.entries@[k],
                    ) && out@[k].data@.len() == m.entries@[k].size && digest_of(out@[k].data@)
                        == m.entries@[k].digest,
            decreases n - j,
        {
            let e = &m.entries[j];
            let data: Vec<u8>;
            if e.shared {
                proof {
                    self.lemma_shared_entry_resolves(mi as int, j as int);
                }
                match self.store.find(e.digest, e.size) {
                    Option::Some(bi) => {
                        let blob = &self.store.blobs[bi];
                        assert(blob.wf());
                        data = clone_bytes(&blob.data);
                    },
                    Option::None => {
                        assert(false);
                        return Err(Error::with_state(Code::Corruption, e.path.clone()));
                    },
                }
            } else {
                match self.find_private(m.backup_id, &e.path) {
                    Option::Some(pi) => {
                        data = clone_bytes(&self.private_files[pi].data);
                    },
                    Option::None => {
                        assert(false);
                        return Err(Error::with_state(Code::Corruption, e.path.clone()));
                    },
                }
            }
            let dg = compute_digest(&data);
            if dg != e.digest || data.len() as u64 != e.size {
                assert(false);
                return Err(Error::with_state(Code::Corruption, e.path.clone()));
            }
            let rf = RestoredFile { path: e.path.clone(), data, shared: e.shared };
            out.push(rf);
            j = j + 1;
        }
        proof {
            assert forall|i: int|
                0 <= i < self.catalog.manifests@.len() && (
                #[trigger] self.catalog.manifests@[i].backup_id) == backup_id implies self.restored_matches(
                out@,
                i,
            ) by {
                if i != mi as int {
                    assert(self.catalog.manifests@[i].backup_id
                        != self.catalog.manifests@[mi as int].backup_id);
                }
            }
        }
        Ok(out)
    }

    /// Restores the most recent backup: the one with the highest
    /// identifier. Fails with `NotFound` when no backup exists.
    pub fn restore_db_from_latest_backup(&self, options: &RestoreOptions) -> (r: Result<
        Vec<RestoredFile>,
        Error,
    >)
        requires
            self.wf(),
        ensures
            r is Ok <==> self.catalog.manifests@.len() > 0,
            r is Err ==> r->Err_0.code is NotFound,
            r is Ok ==> self.restored_matches(r->Ok_0@, self.catalog.manifests@.len() - 1),
    {
        let n = self.catalog.manifests.len();
        if n == 0 {
            return Err(Error::with_state(Code::NotFound, String::new()));
        }
        let latest = self.catalog.manifests[n - 1].backup_id;
        let r = self.restore_db_from_backup(options, latest);
        proof {
            assert(self.catalog.manifests@[n - 1].backup_id == latest);
            assert(self.catalog.has_backup(latest));
        }
        r
    }

    /// Looks for a file that would make deduplication dishonest: a shared
    /// file disagreeing with the stored blob under its key, or two shared
    /// files of the batch sharing a key with different bytes.
    fn dedup_conflict(&self, files: &Vec<SourceFile>) -> (r: Option<usize>)
        requires
            self.wf(),
        ensures
            r is None <==> dedup_consistent(self.store.blobs@, self.options, files@),
            r is Some ==> r->Some_0 < files@.len(),
    {
        let n = files.len();
        let mut k: usize = 0;
        while k < n
            invariant
                self.wf(),
                n == files@.len(),
                0 <= k <= n,
                forall|a: int|
                    0 <= a < k && plan_of(self.options, #[trigger] files@[a]) == Some(true)
                        && has_blob(
                        self.store.blobs@,
                        digest_of(files@[a].data@),
                        files@[a].data@.len() as u64,
                    ) ==> files@[a].data@ == data_of(
                        self.store.blobs@,
                        digest_of(files@[a].data@),
                        files@[a].data@.len() as u64,
                    ),
                forall|a: int, b: int|
                    0 <= a < k && 0 <= b < k && plan_of(self.options, #[trigger] files@[a]) == Some(
                        true,
                    ) && plan_of(self.options, #[trigger] files@[b]) == Some(true) && digest_of(
                        files@[a].data@,
                    ) == digest_of(files@[b].data@) && files@[a].data@.len()
                        == files@[b].data@.len() ==> files@[a].data@ == files@[b].data@,
            decreases n - k,
        {
            let plan = plan_exec(&self.options, &files[k]);
            let mut shared_now = false;
            if let Option::Some(sh) = plan {
                shared_now = sh;
            }
            if shared_now {
                let dg = compute_digest(&files[k].data);
                let sz = files[k].data.len() as u64;
                match self.store.find(dg, sz) {
                    Option::Some(bi) => {
                        if !bytes_eq(&files[k].data, &self.store.blobs[bi].data) {
                            proof {
                                assert(files@[k as int].data@ != data_of(
                                    self.store.blobs@,
                                    dg,
                                    sz,
                                ));
                                assert(!dedup_consistent(
                                    self.store.blobs@,
                                    self.options,
                                    files@,
                                )) by {
                                    if dedup_consistent(self.store.blobs@, self.options, files@) {
                                        assert(plan_of(self.options, files@[k as int]) == Some(
                                            true,
                                        ));
                                    }
                                }
                            }
                            return Some(k);
                        }
                    },
                    Option::None => {},
                }
                let mut k2: usize = 0;
                while k2 < k
                    invariant
                        self.wf(),
                        n == files@.len(),
                        0 <= k2 <= k < n,
                        plan_of(self.options, files@[k as int]) == Some(true),
                        dg == digest_of(files@[k as int].data@),
                        sz == files@[k as int].data@.len() as u64,
                        forall|b: int|
                            0 <= b < k2 && plan_of(self.options, #[trigger] files@[b]) == Some(
                                true,
                            ) && digest_of(files@[b].data@) == dg && files@[b].data@.len()
                                == files@[k as int].data@.len() ==> files@[b].data@ == files@[k as int].data@,
                    decreases k - k2,
                {
                    let plan2 = plan_exec(&self.options, &files[k2]);
                    let mut shared2 = false;
                    if let Option::Some(sh2) = plan2 {
                        shared2 = sh2;
                    }
                    if shared2 {
                        let dg2 = compute_digest(&files[k2].data);
                        if dg2 == dg && files[k2].data.len() == files[k].data.len() {
                            if !bytes_eq(&files[k2].data, &files[k].data) {
                                proof {
                                    assert(!dedup_consistent(
                                        self.store.blobs@,
                                        self.options,
                                        files@,
                                    )) by {
                                        if dedup_consistent(
                                            self.store.blobs@,
                                            self.options,
                                            files@,
                                        ) {
                                            assert(plan_of(self.options, files@[k2 as int])
                                                == Some(true) && plan_of(
                                                self.options,
                                                files@[k as int],
                                            ) == Some(true));
                                        }
                                    }
                                }
                                return Some(k);
                            }
                        }
                    }
                    k2 = k2 + 1;
                }
            }
            k = k + 1;
        }
        proof {
            let blobs = self.store.blobs@;
            let opts = self.options;
            assert forall|k1: int, k2: int|
                0 <= k1 < files@.len() && 0 <= k2 < files@.len() && plan_of(
                    opts,
                    #[trigger] files@[k1],
                ) == Some(true) && plan_of(opts, #[trigger] files@[k2]) == Some(true) && digest_of(
                    files@[k1].data@,
                ) == digest_of(files@[k2].data@) && files@[k1].data@.len()
                    == files@[k2].data@.len() implies files@[k1].data@ == files@[k2].data@ by {
                if k1 != k2 {
                    assert(files@[k1].data@ == files@[k2].data@);
                }
            }
        }
        None
    }

    /// Captures a point-in-time backup of the listed live files and
    /// commits its manifest under the next identifier.
    ///
    /// The caller flushes the storage engine first when
    /// `options.flush_before_backup` asks for it, then lists the live
    /// files with their bytes; `timestamp` is its clock reading. Each
    /// file already stored under its content key is shared with no new
    /// bytes copied; new content is copied into the store (and charged to
    /// the backup rate limiter); actively written log segments are copied
    /// privately. Nothing is committed on failure: a pending stop request
    /// aborts with `Aborted`, duplicate paths are rejected with
    /// `InvalidArgument`, and a file whose bytes disagree with the stored
    /// content under its key is rejected with `Corruption`.
    ///
    /// Creations are serialized by exclusive access to the engine: a
    /// second caller waits for the borrow rather than racing, so no
    /// `Busy` rejection is ever needed.
    #[verifier::rlimit(100)]
    pub fn create_new_backup_with_metadata(
        &mut self,
        options: &CreateBackupOptions,
        files: &Vec<SourceFile>,
        timestamp: i64,
        app_metadata: &str,
    ) -> (r: Result<u32, Error>)
        requires
            old(self).wf(),
            old(self).catalog.next_id < u32::MAX,
            files@.len() <= u32::MAX,
            entry_sizes(entries_of(old(self).options, files@)) <= u64::MAX,
        ensures
            final(self).wf(),
            !final(self).stop_requested,
            final(self).options == old(self).options,
            final(self).restore_limiter == old(self).restore_limiter,
            r is Ok <==> (!old(self).stop_requested && source_paths_unique(files@)
                && dedup_consistent(old(self).store.blobs@, old(self).options, files@)),
            r is Err ==> *final(self) == (BackupEngine {
                stop_requested: false,
                ..*old(self)
            }),
            r is Err ==> (r->Err_0.code is Aborted <==> old(self).stop_requested),
            r is Err && !old(self).stop_requested ==> (r->Err_0.code is InvalidArgument
                <==> !source_paths_unique(files@)),
            r is Err && !old(self).stop_requested && source_paths_unique(files@)
                ==> r->Err_0.code is Corruption,
            r is Ok ==> ({
                let opts = old(self).options;
                let es = entries_of(opts, files@);
                let ms0 = old(self).catalog.manifests@;
                let ms1 = final(self).catalog.manifests@;
                let charge = new_shared_bytes(old(self).store.blobs@, opts, files@)
                    + private_bytes(opts, files@);
                &&& r->Ok_0 == old(self).catalog.next_id
                &&& final(self).catalog.next_id == old(self).catalog.next_id + 1
                &&& ms1.len() == ms0.len() + 1
                &&& forall|i: int| 0 <= i < ms0.len() ==> #[trigger] ms1[i] == ms0[i]
                &&& ms1.last().backup_id == old(self).catalog.next_id
                &&& ms1.last().timestamp == timestamp
                &&& ms1.last().app_metadata@ == app_metadata@
                &&& entries_match(ms1.last().entries@, es)
                &&& ms1.last().total_size == entry_sizes(es)
                &&& final(self).manifest_snapshot(ms1.len() - 1) == captured_pairs(opts, files@)
                &&& forall|i: int|
                    0 <= i < ms0.len() ==> #[trigger] final(self).manifest_snapshot(i) == old(self).manifest_snapshot(i)
                &&& stored_bytes(final(self).store.blobs@) == stored_bytes(
                    old(self).store.blobs@,
                ) + new_shared_bytes(old(self).store.blobs@, opts, files@)
                &&& forall|d: u64, s: u64|
                    #[trigger] has_blob(old(self).store.blobs@, d, s) ==> has_blob(
                        final(self).store.blobs@,
                        d,
                        s,
                    ) && data_of(final(self).store.blobs@, d, s) == data_of(
                        old(self).store.blobs@,
                        d,
                        s,
                    )
                &&& final(self).backup_limiter.bytes_per_refill == old(self).backup_limiter.bytes_per_refill
                &&& final(self).backup_limiter.available == (if charge <= old(self).backup_limiter.available {
                    (old(self).backup_limiter.available - charge) as u64
                } else {
                    0u64
                })
            }),
    {
        if self.stop_requested {
            self.stop_requested = false;
            return Err(Error::with_state(Code::Aborted, String::new()));
        }
        if !check_paths_unique(files) {
            return Err(Error::with_state(Code::InvalidArgument, String::new()));
        }
        match self.dedup_conflict(files) {
            Option::Some(k) => {
                return Err(Error::with_state(Code::Corruption, files[k].path.clone()));
            },
            Option::None => {},
        }
        let ghost fs = files@;
        let ghost opts = old(self).options;
        let ghost b0 = old(self).store.blobs@;
        let new_id = self.catalog.next_id;
        let n = files.len();
        let mut esx: Vec<FileEntry> = Vec::new();
        let mut npv: Vec<PrivateFile> = Vec::new();
        let mut total: u64 = 0;
        let mut copied: u64 = 0;
        let ghost mut es = Seq::<FileEntry>::empty();
        let ghost mut ps = Seq::<(Seq<char>, Seq<u8>)>::empty();
        let mut k: usize = 0;
        proof {
            assert(fs.take(0) =~= Seq::<SourceFile>::empty());
        }
        while k < n
            invariant
                old(self).wf(),
                !old(self).stop_requested,
                source_paths_unique(fs),
                dedup_consistent(b0, opts, fs),
                fs == files@,
                opts == old(self).options,
                b0 == old(self).store.blobs@,
                n == fs.len(),
                0 <= k <= n,
                fs.len() <= u32::MAX,
                entry_sizes(entries_of(opts, fs)) <= u64::MAX,
                new_id == old(self).catalog.next_id,
                self.catalog == old(self).catalog,
                self.private_files@ == old(self).private_files@,
                self.options == old(self).options,
                self.backup_limiter == old(self).backup_limiter,
                self.restore_limiter == old(self).restore_limiter,
                self.stop_requested == old(self).stop_requested,
                es == entries_of(opts, fs.take(k as int)),
                ps == captured_pairs(opts, fs.take(k as int)),
                es.len() == ps.len(),
                esx@.len() == es.len(),
                entries_match(esx@, es),
                entry_paths_unique(es),
                captures_from_sources(es, ps, opts, fs, k as int),
                blobs_wf(self.store.blobs@),
                forall|d: u64, s: u64|
                    #[trigger] has_blob(b0, d, s) ==> has_blob(self.store.blobs@, d, s) && data_of(
                        self.store.blobs@,
                        d,
                        s,
                    ) == data_of(b0, d, s) && rc_of(self.store.blobs@, d, s) == rc_of(b0, d, s) + (
                    if cites_entries(es, d, s) {
                        1int
                    } else {
                        0int
                    }),
                forall|d: u64, s: u64|
                    !has_blob(b0, d, s) && #[trigger] cites_entries(es, d, s) ==> has_blob(
                        self.store.blobs@,
                        d,
                        s,
                    ) && rc_of(self.store.blobs@, d, s) == 1,
                forall|d: u64, s: u64|
                    !has_blob(b0, d, s) && !cites_entries(es, d, s) ==> !(#[trigger] has_blob(
                        self.store.blobs@,
                        d,
                        s,
                    )),
                forall|j: int|
                    0 <= j < es.len() && (#[trigger] es[j]).shared ==> data_of(
                        self.store.blobs@,
                        es[j].digest,
                        es[j].size,
                    ) == ps[j].1,
                forall|a: int| 0 <= a < npv@.len() ==> (#[trigger] npv@[a]).backup_id == new_id,
                private_keys_unique(npv@),
                privates_from_sources(npv@, opts, fs, k as int),
                forall|j: int|
                    0 <= j < es.len() && !(#[trigger] es[j]).shared ==> private_data_at(
                        npv@,
                        new_id,
                        es[j].path@,
                    ) == Some(ps[j].1),
                total == entry_sizes(es),
                copied as int == new_shared_bytes(b0, opts, fs.take(k as int)) + private_bytes(
                    opts,
                    fs.take(k as int),
                ),
                copied <= total,
                stored_bytes(self.store.blobs@) == stored_bytes(b0) + new_shared_bytes(
                    b0,
                    opts,
                    fs.take(k as int),
                ),
            decreases n - k,
        {
            proof {
                lemma_capture_take_succ(b0, opts, fs, k as int);
                lemma_captured_sizes_mono(opts, fs, k + 1);
                lemma_entry_sizes_nonneg(entries_of(opts, fs.take(k as int)));
            }
            let plan = plan_exec(&self.options, &files[k]);
            match plan {
                Option::None => {
                    proof {
                        lemma_captures_weaken(es, ps, opts, fs, k as int, k + 1);
                        lemma_privates_weaken(npv@, opts, fs, k as int, k + 1);
                    }
                },
                Option::Some(true) => {
                    let dg = compute_digest(&files[k].data);
                    let szu = files[k].data.len();
                    let sz = szu as u64;
                    let ghost e_new = entry_of(opts, fs[k as int]);
                    proof {
                        assert(e_new.digest == dg && e_new.size == sz && e_new.shared);
                        assert(e_new.path@ == fs[k as int].path@);
                        assert(entry_sizes(es.push(e_new)) == entry_sizes(es) + sz) by {
                            assert(es.push(e_new).drop_last() =~= es);
                        }
                    }
                    let cited = entries_cite_prefix(&esx, esx.len(), dg, sz);
                    proof {
                        assert(esx@.take(esx@.len() as int) =~= esx@);
                        lemma_entries_match_cites(esx@, es, dg, sz);
                        assert(cited == cites_entries(es, dg, sz));
                    }
                    match self.store.find(dg, sz) {
                        Option::Some(bi) => {
                            proof {
                                assert(has_blob(self.store.blobs@, dg, sz));
                                // the found bytes are this file's bytes
                                if has_blob(b0, dg, sz) {
                                    assert(fs[k as int].data@ == data_of(b0, dg, sz));
                                    assert(data_of(self.store.blobs@, dg, sz) == fs[k as int].data@);
                                } else {
                                    assert(cites_entries(es, dg, sz));
                                    let j = choose|j: int|
                                        0 <= j < es.len() && (#[trigger] es[j]).shared
                                            && es[j].digest == dg && es[j].size == sz;
                                    assert(data_of(self.store.blobs@, dg, sz) == ps[j].1);
                                    assert(capture_from_source(es[j], ps[j], opts, fs, k as int));
                                    let k2 = choose|k2: int|
                                        0 <= k2 < k && plan_of(opts, #[trigger] fs[k2]) is Some
                                            && es[j] == entry_of(opts, fs[k2]) && ps[j] == (
                                        fs[k2].path@,
                                        fs[k2].data@,
                                        );
                                    assert(plan_of(opts, fs[k2]) == Some(true));
                                    assert(digest_of(fs[k2].data@) == dg);
                                    // the stored blob pins both lengths
                                    lemma_blob_at_wf(self.store.blobs@, dg, sz);
                                    assert(data_of(self.store.blobs@, dg, sz).len() == sz);
                                    assert(fs[k2].data@.len() == sz);
                                    assert(fs[k as int].data@.len() == sz);
                                    assert(fs[k2].data@ == fs[k as int].data@);
                                    assert(data_of(self.store.blobs@, dg, sz) == fs[k as int].data@);
                                }
                            }
                            if !cited {
                                proof {
                                    // the count is bounded, so one more reference fits
                                    assert(has_blob(b0, dg, sz));
                                    assert(rc_of(self.store.blobs@, dg, sz) == rc_of(b0, dg, sz));
                                    assert(rc_of(b0, dg, sz) == count_citing(
                                        old(self).catalog.manifests@,
                                        dg,
                                        sz,
                                    ));
                                    lemma_count_citing_le_len(
                                        old(self).catalog.manifests@,
                                        dg,
                                        sz,
                                    );
                                    old(self).catalog.lemma_len_le_next_id();
                                    assert(rc_of(self.store.blobs@, dg, sz) < u64::MAX);
                                }
                                let ghost before = self.store.blobs@;
                                let blob = &mut self.store.blobs[bi];
                                blob.refcount = blob.refcount + 1;
                                proof {
                                    let now = self.store.blobs@;
                                    assert(now == before.update(
                                        bi as int,
                                        ContentBlob {
                                            refcount: (before[bi as int].refcount + 1) as u64,
                                            ..before[bi as int]
                                        },
                                    ));
                                    lemma_keys_unique_update(before, bi as int, now[bi as int]);
                                    assert forall|x: int| 0 <= x < now.len() implies (
                                    #[trigger] now[x]).wf() by {
                                        assert(before[x].wf());
                                    }
                                    lemma_blob_at_update_all(before, bi as int, now[bi as int]);
                                    lemma_cites_push_all(es, e_new);
                                    assert(stored_bytes(now) == stored_bytes(before)) by {
                                        lemma_stored_bytes_update(before, bi as int, now[bi as int]);
                                    }
                                }
                            } else {
                                proof {
                                    lemma_cites_push_all(es, e_new);
                                }
                            }
                        },
                        Option::None => {
                            proof {
                                assert(!has_blob(b0, dg, sz));
                                assert(!cites_entries(es, dg, sz));
                                assert(!cited);
                            }
                            let data2 = clone_bytes(&files[k].data);
                            let nb = ContentBlob { digest: dg, size: sz, refcount: 1, data: data2 };
                            let ghost before = self.store.blobs@;
                            proof {
                                assert(nb.wf());
                                assert forall|x: int| 0 <= x < before.len() implies !(
                                #[trigger] before[x]).has_key(dg, sz) by {
                                    if before[x].has_key(dg, sz) {
                                        lemma_blob_at_index(before, x);
                                    }
                                }
                            }
                            self.store.blobs.push(nb);
                            proof {
                                let now = self.store.blobs@;
                                assert(now.drop_last() =~= before);
                                lemma_blob_at_push_all(before, nb);
                                lemma_cites_push_all(es, e_new);
                                assert(stored_bytes(now) == stored_bytes(before) + sz);
                            }
                            copied = copied + sz;
                        },
                    }
                    let e_exec = FileEntry {
                        path: files[k].path.clone(),
                        digest: dg,
                        size: sz,
                        shared: true,
                    };
                    esx.push(e_exec);
                    total = total + sz;
                    proof {
                        let es2 = es.push(e_new);
                        let ps2 = ps.push((fs[k as int].path@, fs[k as int].data@));
                        // paths of earlier entries come from earlier files
                        assert forall|j: int, j2: int| 0 <= j < j2 < es2.len() implies (
                        #[trigger] es2[j].path@) != (#[trigger] es2[j2].path@) by {
                            if j2 == es2.len() - 1 {
                                assert(capture_from_source(es[j], ps[j], opts, fs, k as int));
                                let k2 = choose|k2: int|
                                    0 <= k2 < k && plan_of(opts, #[trigger] fs[k2]) is Some
                                        && es[j] == entry_of(opts, fs[k2]) && ps[j] == (
                                    fs[k2].path@,
                                    fs[k2].data@,
                                    );
                                assert(fs[k2].path@ != fs[k as int].path@);
                            }
                        }
                        lemma_captures_weaken(es, ps, opts, fs, k as int, k + 1);
                        lemma_captures_push(es, ps, opts, fs, k + 1, k as int);
                        lemma_privates_weaken(npv@, opts, fs, k as int, k + 1);
                        // the new shared entry resolves to this file's bytes
                        assert(data_of(self.store.blobs@, dg, sz) == fs[k as int].data@);
                        assert forall|j: int|
                            0 <= j < es2.len() && (#[trigger] es2[j]).shared implies data_of(
                            self.store.blobs@,
                            es2[j].digest,
                            es2[j].size,
                        ) == ps2[j].1 by {
                            if j < es.len() {
                                assert(es2[j] == es[j] && ps2[j] == ps[j]);
                            }
                        }
                        assert forall|j: int|
                            0 <= j < es2.len() && !(#[trigger] es2[j]).shared
                                implies private_data_at(npv@, new_id, es2[j].path@) == Some(
                            ps2[j].1,
                        ) by {
                            assert(es2[j] == es[j] && ps2[j] == ps[j]);
                        }
                        es = es2;
                        ps = ps2;
                    }
                },
                Option::Some(false) => {
                    let dg = compute_digest(&files[k].data);
                    let szu = files[k].data.len();
                    let sz = szu as u64;
                    let ghost e_new = entry_of(opts, fs[k as int]);
                    proof {
                        assert(e_new.digest == dg && e_new.size == sz && !e_new.shared);
                        assert(entry_sizes(es.push(e_new)) == entry_sizes(es) + sz) by {
                            assert(es.push(e_new).drop_last() =~= es);
                        }
                    }
                    let pf = PrivateFile {
                        backup_id: new_id,
                        path: files[k].path.clone(),
                        data: clone_bytes(&files[k].data),
                    };
                    let ghost npv_before = npv@;
                    proof {
                        // the path is new among the batch's private files
                        assert forall|a: int| 0 <= a < npv@.len() implies !((
                        #[trigger] npv@[a]).backup_id == pf.backup_id && npv@[a].path@
                            == pf.path@) by {
                            assert(private_from_source(npv@[a], opts, fs, k as int));
                            let k2 = choose|k2: int|
                                0 <= k2 < k && plan_of(opts, #[trigger] fs[k2]) == Some(false)
                                    && npv@[a].path@ == fs[k2].path@ && npv@[a].data@
                                    == fs[k2].data@;
                            assert(fs[k2].path@ != fs[k as int].path@);
                        }
                    }
                    npv.push(pf);
                    let e_exec = FileEntry {
                        path: files[k].path.clone(),
                        digest: dg,
                        size: sz,
                        shared: false,
                    };
                    esx.push(e_exec);
                    copied = copied + sz;
                    total = total + sz;
                    proof {
                        let es2 = es.push(e_new);
                        let ps2 = ps.push((fs[k as int].path@, fs[k as int].data@));
                        assert(npv@.drop_last() =~= npv_before);
                        assert forall|j: int, j2: int| 0 <= j < j2 < es2.len() implies (
                        #[trigger] es2[j].path@) != (#[trigger] es2[j2].path@) by {
                            if j2 == es2.len() - 1 {
                                assert(capture_from_source(es[j], ps[j], opts, fs, k as int));
                                let k2 = choose|k2: int|
                                    0 <= k2 < k && plan_of(opts, #[trigger] fs[k2]) is Some
                                        && es[j] == entry_of(opts, fs[k2]) && ps[j] == (
                                    fs[k2].path@,
                                    fs[k2].data@,
                                    );
                                assert(fs[k2].path@ != fs[k as int].path@);
                            }
                        }
                        lemma_captures_weaken(es, ps, opts, fs, k as int, k + 1);
                        lemma_captures_push(es, ps, opts, fs, k + 1, k as int);
                        lemma_privates_weaken(npv_before, opts, fs, k as int, k + 1);
                        lemma_privates_push(npv_before, opts, fs, k + 1, pf, k as int);
                        lemma_cites_push_all(es, e_new);
                        // earlier private entries still resolve in the batch
                        assert forall|j: int|
                            0 <= j < es2.len() && !(#[trigger] es2[j]).shared
                                implies private_data_at(npv@, new_id, es2[j].path@) == Some(
                            ps2[j].1,
                        ) by {
                            if j < es.len() {
                                assert(es2[j] == es[j] && ps2[j] == ps[j]);
                                assert(es[j].path@ != pf.path@) by {
                                    assert(capture_from_source(es[j], ps[j], opts, fs, k as int));
                                    let k2 = choose|k2: int|
                                        0 <= k2 < k && plan_of(opts, #[trigger] fs[k2]) is Some
                                            && es[j] == entry_of(opts, fs[k2]) && ps[j] == (
                                        fs[k2].path@,
                                        fs[k2].data@,
                                        );
                                    assert(fs[k2].path@ != fs[k as int].path@);
                                }
                                assert(private_at(npv@, new_id, es2[j].path@) == private_at(
                                    npv_before,
                                    new_id,
                                    es2[j].path@,
                                ));
                            } else {
                                assert(private_at(npv@, new_id, pf.path@) == Some(pf));
                            }
                        }
                        es = es2;
                        ps = ps2;
                    }
                },
            }
            k = k + 1;
        }
        proof {
            assert(fs.take(n as int) =~= fs);
        }
        // commit: the manifest enters the catalog, the private files and
        // the copy charge land, the identifier advances
        let m_new = BackupManifest {
            backup_id: new_id,
            timestamp,
            total_size: total,
            app_metadata: app_metadata.to_owned(),
            entries: esx,
        };
        let ghost ms0 = self.catalog.manifests@;
        let ghost pfs0 = self.private_files@;
        let ghost npvv = npv@;
        self.catalog.manifests.push(m_new);
        self.catalog.next_id = new_id + 1;
        self.private_files.append(&mut npv);
        self.backup_limiter.consume_saturating(copied);
        proof {
            let ms1 = self.catalog.manifests@;
            let mm = ms1.last();
            let pfs1 = self.private_files@;
            assert(pfs1 == pfs0 + npvv);
            assert(ms1.drop_last() =~= ms0);
            // the committed manifest is well formed
            lemma_entries_match_sizes(mm.entries@, es);
            lemma_entries_of_len(opts, fs);
            assert(mm.entries@.len() <= u32::MAX);
            assert(mm.total_size == entry_sizes(mm.entries@));
            assert(mm.wf()) by {
                assert forall|j: int, j2: int| 0 <= j < j2 < mm.entries@.len() implies (
                #[trigger] mm.entries@[j].path@) != (#[trigger] mm.entries@[j2].path@) by {
                    assert(mm.entries@[j].path@ == es[j].path@);
                    assert(mm.entries@[j2].path@ == es[j2].path@);
                }
            }
            // the catalog stays sorted below the advanced identifier
            assert forall|i: int, j: int| 0 <= i < j < ms1.len() implies (
            #[trigger] ms1[i].backup_id) < (#[trigger] ms1[j].backup_id) by {
                if j < ms1.len() - 1 {
                    assert(ms1[i] == ms0[i] && ms1[j] == ms0[j]);
                } else {
                    assert(ms1[i] == ms0[i]);
                    assert(ms0[i].backup_id < new_id);
                }
            }
            assert forall|i: int| 0 <= i < ms1.len() implies (#[trigger] ms1[i].backup_id)
                < self.catalog.next_id && (#[trigger] ms1[i]).wf() by {
                if i < ms1.len() - 1 {
                    assert(ms1[i] == ms0[i]);
                }
            }
            // reference counts match citations including the new manifest
            assert forall|d: u64, s: u64| #[trigger] rc_of(self.store.blobs@, d, s) == count_citing(
                ms1,
                d,
                s,
            ) by {
                lemma_count_citing_push(ms0, mm, d, s);
                lemma_entries_match_cites(mm.entries@, es, d, s);
                assert(rc_of(b0, d, s) == count_citing(ms0, d, s));
                if has_blob(b0, d, s) {
                } else {
                    if cites_entries(es, d, s) {
                    } else {
                        assert(!has_blob(self.store.blobs@, d, s));
                        assert(rc_of(b0, d, s) == 0);
                    }
                }
            }
            // private files: unique keys, known identifiers, entries resolve
            assert forall|x: int, y: int| 0 <= x < y < pfs1.len() implies !((
            #[trigger] pfs1[x]).backup_id == (#[trigger] pfs1[y]).backup_id && pfs1[x].path@
                == pfs1[y].path@) by {
                if y < pfs0.len() {
                    assert(pfs1[x] == pfs0[x] && pfs1[y] == pfs0[y]);
                } else if x >= pfs0.len() {
                    assert(pfs1[x] == npvv[x - pfs0.len()] && pfs1[y] == npvv[y - pfs0.len()]);
                } else {
                    assert(pfs1[x] == pfs0[x] && pfs1[y] == npvv[y - pfs0.len()]);
                    assert(pfs0[x].backup_id < new_id);
                    assert(npvv[y - pfs0.len()].backup_id == new_id);
                }
            }
            assert forall|x: int| 0 <= x < pfs1.len() implies (#[trigger] pfs1[x]).backup_id
                < self.catalog.next_id by {
                if x < pfs0.len() {
                    assert(pfs1[x] == pfs0[x]);
                    assert(pfs0[x].backup_id < new_id);
                } else {
                    assert(pfs1[x] == npvv[x - pfs0.len()]);
                }
            }
            // old backups' private lookups are untouched by the append
            assert forall|id: u32, p: Seq<char>| id != new_id implies #[trigger] private_at(
                pfs1,
                id,
                p,
            ) == private_at(pfs0, id, p) by {
                lemma_private_at_append_other(pfs0, npvv, id, p);
            }
            // the new backup's lookups live in the appended batch
            assert forall|p: Seq<char>| #[trigger] private_data_at(npvv, new_id, p) is Some
                implies private_data_at(pfs1, new_id, p) == private_data_at(npvv, new_id, p) by {
                assert forall|x: int| 0 <= x < pfs0.len() implies (#[trigger] pfs0[x]).backup_id
                    != new_id by {
                    assert(pfs0[x].backup_id < new_id);
                }
                lemma_private_at_append_new(pfs0, npvv, new_id, p);
            }
            // every private entry of every manifest resolves
            assert forall|i: int, j: int|
                0 <= i < ms1.len() && 0 <= j < ms1[i].entries@.len() && !(
            #[trigger] ms1[i].entries@[j]).shared implies {
                let e = ms1[i].entries@[j];
                let pf = private_at(pfs1, ms1[i].backup_id, e.path@);
                &&& pf is Some
                &&& pf->Some_0.data@.len() == e.size
                &&& digest_of(pf->Some_0.data@) == e.digest
            } by {
                if i < ms1.len() - 1 {
                    assert(ms1[i] == ms0[i]);
                    assert(ms1[i].backup_id != new_id) by {
                        assert(ms0[i].backup_id < new_id);
                    }
                    assert(private_at(pfs1, ms1[i].backup_id, ms1[i].entries@[j].path@)
                        == private_at(pfs0, ms1[i].backup_id, ms1[i].entries@[j].path@));
                } else {
                    let e = mm.entries@[j];
                    assert(!es[j].shared && e.path@ == es[j].path@ && e.size == es[j].size
                        && e.digest == es[j].digest);
                    assert(private_data_at(npvv, new_id, es[j].path@) == Some(ps[j].1));
                    assert(private_data_at(pfs1, new_id, es[j].path@) == Some(ps[j].1));
                    assert(capture_from_source(es[j], ps[j], opts, fs, n as int));
                    let k2 = choose|k2: int|
                        0 <= k2 < n && plan_of(opts, #[trigger] fs[k2]) is Some && es[j]
                            == entry_of(opts, fs[k2]) && ps[j] == (fs[k2].path@, fs[k2].data@);
                    assert(fs[k2].data.len() == fs[k2].data@.len());
                    assert(ps[j].1.len() == es[j].size && digest_of(ps[j].1) == es[j].digest);
                }
            }
            // the new snapshot is exactly what was captured
            assert(self.manifest_snapshot(ms1.len() - 1) =~= ps) by {
                assert forall|j: int| 0 <= j < mm.entries@.len() implies (
                    mm.entries@[j].path@,
                    self.resolve_entry(mm.backup_id, mm.entries@[j]),
                ) == ps[j] by {
                    let e = mm.entries@[j];
                    assert(e.path@ == es[j].path@ && e.digest == es[j].digest && e.size
                        == es[j].size && e.shared == es[j].shared);
                    assert(e.path@ == ps[j].0) by {
                        assert(capture_from_source(es[j], ps[j], opts, fs, n as int));
                        let k2 = choose|k2: int|
                            0 <= k2 < n && plan_of(opts, #[trigger] fs[k2]) is Some && es[j]
                                == entry_of(opts, fs[k2]) && ps[j] == (fs[k2].path@, fs[k2].data@);
                    }
                    if e.shared {
                        assert(data_of(self.store.blobs@, e.digest, e.size) == ps[j].1);
                    } else {
                        assert(private_data_at(pfs1, new_id, e.path@) == Some(ps[j].1));
                    }
                }
            }
            // earlier snapshots stand
            assert forall|i: int| 0 <= i < ms0.len() implies #[trigger] self.manifest_snapshot(i)
                == old(self).manifest_snapshot(i) by {
                assert(ms1[i] == ms0[i]);
                let mo = ms0[i];
                assert forall|j: int| 0 <= j < mo.entries@.len() implies self.resolve_entry(
                    mo.backup_id,
                    mo.entries@[j],
                ) == old(self).resolve_entry(mo.backup_id, mo.entries@[j]) by {
                    let e = mo.entries@[j];
                    if e.shared {
                        old(self).lemma_shared_entry_resolves(i, j);
                        assert(has_blob(b0, e.digest, e.size));
                    } else {
                        assert(mo.backup_id != new_id) by {
                            assert(ms0[i].backup_id < new_id);
                        }
                        assert(private_at(pfs1, mo.backup_id, e.path@) == private_at(
                            pfs0,
                            mo.backup_id,
                            e.path@,
                        ));
                    }
                }
                assert(self.manifest_snapshot(i) =~= old(self).manifest_snapshot(i));
            }
        }
        Ok(new_id)
    }

    /// Captures a backup with an empty application metadata string; in
    /// every other way exactly `create_new_backup_with_metadata`.
    pub fn create_new_backup(
        &mut self,
        options: &CreateBackupOptions,
        files: &Vec<SourceFile>,
        timestamp: i64,
    ) -> (r: Result<u32, Error>)
        requires
            old(self).wf(),
            old(self).catalog.next_id < u32::MAX,
            files@.len() <= u32::MAX,
            entry_sizes(entries_of(old(self).options, files@)) <= u64::MAX,
        ensures
            final(self).wf(),
            !final(self).stop_requested,
            final(self).options == old(self).options,
            r is Ok <==> (!old(self).stop_requested && source_paths_unique(files@)
                && dedup_consistent(old(self).store.blobs@, old(self).options, files@)),
            r is Err ==> *final(self) == (BackupEngine {
                stop_requested: false,
                ..*old(self)
            }),
            r is Ok ==> ({
                let ms1 = final(self).catalog.manifests@;
                &&& r->Ok_0 == old(self).catalog.next_id
                &&& final(self).catalog.next_id == old(self).catalog.next_id + 1
                &&& ms1.len() == old(self).catalog.manifests@.len() + 1
                &&& forall|i: int|
                    0 <= i < old(self).catalog.manifests@.len() ==> #[trigger] ms1[i] == old(
                        self,
                    ).catalog.manifests@[i]
                &&& ms1.last().backup_id == old(self).catalog.next_id
                &&& ms1.last().timestamp == timestamp
                &&& ms1.last().app_metadata@ == Seq::<char>::empty()
                &&& entries_match(ms1.last().entries@, entries_of(old(self).options, files@))
                &&& final(self).manifest_snapshot(ms1.len() - 1) == captured_pairs(
                    old(self).options,
                    files@,
                )
                &&& forall|i: int|
                    0 <= i < old(self).catalog.manifests@.len() ==> #[trigger] final(self).manifest_snapshot(i) == old(self).manifest_snapshot(i)
                &&& stored_bytes(final(self).store.blobs@) == stored_bytes(
                    old(self).store.blobs@,
                ) + new_shared_bytes(old(self).store.blobs@, old(self).options, files@)
            }),
    {
        let r = self.create_new_backup_with_metadata(options, files, timestamp, "");
        proof {
            reveal_strlit("");
            assert(""@ =~= Seq::<char>::empty());
        }
        r
    }

    /// Removes the manifest at position `mi`: every key it cites loses
    /// one reference, its private files are dropped, and the manifest
    /// leaves the catalog. No blob is deleted here — space comes back
    /// through `engine_garbage_collect` — and every other backup's
    /// snapshot stands.
    fn remove_manifest_at(&mut self, mi: usize)
        requires
            old(self).wf(),
            mi < old(self).catalog.manifests@.len(),
        ensures
            final(self).wf(),
            final(self).catalog.manifests@ == old(self).catalog.manifests@.remove(mi as int),
            final(self).catalog.next_id == old(self).catalog.next_id,
            final(self).options == old(self).options,
            final(self).backup_limiter == old(self).backup_limiter,
            final(self).restore_limiter == old(self).restore_limiter,
            final(self).stop_requested == old(self).stop_requested,
            blobs_data_unchanged(old(self).store.blobs@, final(self).store.blobs@),
            forall|d: u64, s: u64|
                #[trigger] rc_of(final(self).store.blobs@, d, s) + (if old(self).catalog.manifests@[mi as int].cites(d, s) {
                    1int
                } else {
                    0int
                }) == rc_of(old(self).store.blobs@, d, s),
            forall|id: u32, p: Seq<char>|
                id != old(self).catalog.manifests@[mi as int].backup_id ==> #[trigger] private_data_at(
                    final(self).private_files@,
                    id,
                    p,
                ) == private_data_at(old(self).private_files@, id, p),
            forall|p: Seq<char>|
                #[trigger] private_data_at(
                    final(self).private_files@,
                    old(self).catalog.manifests@[mi as int].backup_id,
                    p,
                ) is None,
            forall|j: int|
                0 <= j < final(self).catalog.manifests@.len() ==> #[trigger] final(self).manifest_snapshot(j) == old(self).manifest_snapshot(
                    if j < mi as int {
                        j
                    } else {
                        j + 1
                    },
                ),
    {
        let ghost ms0 = old(self).catalog.manifests@;
        let ghost b0 = old(self).store.blobs@;
        let ghost pfs0 = old(self).private_files@;
        let m = self.catalog.manifests.remove(mi);
        let removed_id: u32 = m.backup_id;
        proof {
            ms0.remove_ensures(mi as int);
            assert(m == ms0[mi as int]);
            // no other manifest carries the removed identifier
            assert forall|i: int|
                0 <= i < self.catalog.manifests@.len() implies (
            #[trigger] self.catalog.manifests@[i]).backup_id != removed_id by {
                if i < mi as int {
                    assert(self.catalog.manifests@[i] == ms0[i]);
                    assert(ms0[i].backup_id < ms0[mi as int].backup_id);
                } else {
                    assert(self.catalog.manifests@[i] == ms0[i + 1]);
                    assert(ms0[mi as int].backup_id < ms0[i + 1].backup_id);
                }
            }
        }
        // phase one: one reference back per cited key
        let n = m.entries.len();
        let mut j: usize = 0;
        while j < n
            invariant
                old(self).wf(),
                mi < ms0.len(),
                m == ms0[mi as int],
                b0 == old(self).store.blobs@,
                ms0 == old(self).catalog.manifests@,
                pfs0 == old(self).private_files@,
                n == m.entries@.len(),
                0 <= j <= n,
                self.catalog.manifests@ == ms0.remove(mi as int),
                self.catalog.next_id == old(self).catalog.next_id,
                self.options == old(self).options,
                self.backup_limiter == old(self).backup_limiter,
                self.restore_limiter == old(self).restore_limiter,
                self.stop_requested == old(self).stop_requested,
                self.private_files@ == pfs0,
                blobs_wf(self.store.blobs@),
                blobs_data_unchanged(b0, self.store.blobs@),
                forall|d: u64, s: u64|
                    #[trigger] rc_of(self.store.blobs@, d, s) + (if cites_entries(
                        m.entries@.take(j as int),
                        d,
                        s,
                    ) {
                        1int
                    } else {
                        0int
                    }) == rc_of(b0, d, s),
            decreases n - j,
        {
            let e = &m.entries[j];
            let ghost d = e.digest;
            let ghost s = e.size;
            if e.shared {
                let already = entries_cite_prefix(&m.entries, j, e.digest, e.size);
                if !already {
                    proof {
                        assert(m.entries@[j as int].shared && m.entries@[j as int].digest == d
                            && m.entries@[j as int].size == s);
                        assert(ms0[mi as int].cites(d, s));
                        lemma_cites_count_pos(ms0, mi as int, d, s);
                        assert(rc_of(old(self).store.blobs@, d, s) == count_citing(
                            old(self).catalog.manifests@,
                            d,
                            s,
                        ));
                        assert(rc_of(b0, d, s) == count_citing(ms0, d, s));
                        assert(rc_of(self.store.blobs@, d, s) == rc_of(b0, d, s));
                    }
                    match self.store.find(e.digest, e.size) {
                        Option::Some(bi) => {
                            let ghost before = self.store.blobs@;
                            proof {
                                assert(rc_of(before, d, s) == before[bi as int].refcount);
                            }
                            let blob = &mut self.store.blobs[bi];
                            blob.refcount = blob.refcount - 1;
                            proof {
                                let now = self.store.blobs@;
                                assert(now == before.update(
                                    bi as int,
                                    ContentBlob {
                                        refcount: (before[bi as int].refcount - 1) as u64,
                                        ..before[bi as int]
                                    },
                                ));
                                lemma_keys_unique_update(before, bi as int, now[bi as int]);
                                assert forall|x: int| 0 <= x < now.len() implies (
                                #[trigger] now[x]).wf() by {
                                    assert(before[x].wf());
                                }
                                assert forall|d2: u64, s2: u64|
                                    #[trigger] rc_of(now, d2, s2) + (if cites_entries(
                                        m.entries@.take(j + 1),
                                        d2,
                                        s2,
                                    ) {
                                        1int
                                    } else {
                                        0int
                                    }) == rc_of(b0, d2, s2) by {
                                    lemma_cites_take_succ(m.entries@, j as int, d2, s2);
                                    lemma_blob_at_update(before, bi as int, now[bi as int], d2, s2);
                                    assert(rc_of(before, d2, s2) + (if cites_entries(
                                        m.entries@.take(j as int),
                                        d2,
                                        s2,
                                    ) {
                                        1int
                                    } else {
                                        0int
                                    }) == rc_of(b0, d2, s2));
                                }
                            }
                        },
                        Option::None => {
                            proof {
                                assert(false);
                            }
                        },
                    }
                } else {
                    proof {
                        assert forall|d2: u64, s2: u64|
                            #[trigger] rc_of(self.store.blobs@, d2, s2) + (if cites_entries(
                                m.entries@.take(j + 1),
                                d2,
                                s2,
                            ) {
                                1int
                            } else {
                                0int
                            }) == rc_of(b0, d2, s2) by {
                            lemma_cites_take_succ(m.entries@, j as int, d2, s2);
                            if m.entries@[j as int].shared && m.entries@[j as int].digest == d2
                                && m.entries@[j as int].size == s2 {
                                assert(cites_entries(m.entries@.take(j as int), d2, s2));
                            }
                        }
                    }
                }
            } else {
                proof {
                    assert forall|d2: u64, s2: u64|
                        #[trigger] rc_of(self.store.blobs@, d2, s2) + (if cites_entries(
                            m.entries@.take(j + 1),
                            d2,
                            s2,
                        ) {
                            1int
                        } else {
                            0int
                        }) == rc_of(b0, d2, s2) by {
                        lemma_cites_take_succ(m.entries@, j as int, d2, s2);
                    }
                }
            }
            j = j + 1;
        }
        proof {
            assert(m.entries@.take(n as int) =~= m.entries@);
        }
        // phase two: drop the backup's private files
        let n2 = self.private_files.len();
        let mut keptp: Vec<PrivateFile> = Vec::new();
        let mut a: usize = 0;
        while a < n2
            invariant
                old(self).wf(),
                ms0 == old(self).catalog.manifests@,
                b0 == old(self).store.blobs@,
                pfs0 == old(self).private_files@,
                mi < ms0.len(),
                m == ms0[mi as int],
                removed_id == m.backup_id,
                n2 == pfs0.len(),
                self.private_files@ == pfs0,
                private_keys_unique(pfs0),
                self.catalog.manifests@ == ms0.remove(mi as int),
                self.catalog.next_id == old(self).catalog.next_id,
                self.options == old(self).options,
                self.backup_limiter == old(self).backup_limiter,
                self.restore_limiter == old(self).restore_limiter,
                self.stop_requested == old(self).stop_requested,
                blobs_wf(self.store.blobs@),
                blobs_data_unchanged(b0, self.store.blobs@),
                forall|d: u64, s: u64|
                    #[trigger] rc_of(self.store.blobs@, d, s) + (if cites_entries(
                        m.entries@,
                        d,
                        s,
                    ) {
                        1int
                    } else {
                        0int
                    }) == rc_of(b0, d, s),
                0 <= a <= n2,
                private_keys_unique(keptp@),
                pf_copies_prefix(keptp@, pfs0, a as int, removed_id),
                forall|b2: int|
                    0 <= b2 < a && (#[trigger] pfs0[b2]).backup_id != removed_id
                        ==> private_data_at(keptp@, pfs0[b2].backup_id, pfs0[b2].path@) == Some(
                        pfs0[b2].data@,
                    ),
            decreases n2 - a,
        {
            let pf = &self.private_files[a];
            if pf.backup_id != removed_id {
                let cp = PrivateFile {
                    backup_id: pf.backup_id,
                    path: pf.path.clone(),
                    data: clone_bytes(&pf.data),
                };
                proof {
                    assert(pf_like(cp, pfs0[a as int]));
                    assert forall|x: int| 0 <= x < keptp@.len() implies !((
                    #[trigger] keptp@[x]).backup_id == cp.backup_id && keptp@[x].path@
                        == cp.path@) by {
                        assert(pf_copies_some(keptp@[x], pfs0, a as int, removed_id));
                        let b2 = choose|b2: int|
                            0 <= b2 < a && pf_like(keptp@[x], #[trigger] pfs0[b2])
                                && pfs0[b2].backup_id != removed_id;
                        assert(!(pfs0[b2].backup_id == pfs0[a as int].backup_id && pfs0[b2].path@
                            == pfs0[a as int].path@));
                    }
                }
                let ghost keptp_before = keptp@;
                keptp.push(cp);
                proof {
                    assert(keptp@.drop_last() =~= keptp_before);
                    lemma_pf_copies_weaken(keptp_before, pfs0, a as int, a + 1, removed_id);
                    lemma_pf_copies_push(keptp_before, pfs0, a + 1, cp, a as int, removed_id);
                    assert forall|b2: int|
                        0 <= b2 < a + 1 && (#[trigger] pfs0[b2]).backup_id != removed_id
                            implies private_data_at(keptp@, pfs0[b2].backup_id, pfs0[b2].path@)
                        == Some(pfs0[b2].data@) by {
                        if b2 == a as int {
                            assert(private_at(keptp@, cp.backup_id, cp.path@) == Some(cp));
                        } else {
                            assert(!(pfs0[b2].backup_id == pfs0[a as int].backup_id
                                && pfs0[b2].path@ == pfs0[a as int].path@));
                            assert(private_at(keptp@, pfs0[b2].backup_id, pfs0[b2].path@)
                                == private_at(keptp_before, pfs0[b2].backup_id, pfs0[b2].path@));
                        }
                    }
                }
            } else {
                proof {
                    lemma_pf_copies_weaken(keptp@, pfs0, a as int, a + 1, removed_id);
                }
            }
            a = a + 1;
        }
        self.private_files = keptp;
        proof {
            let pfs1 = self.private_files@;
            // other backups' private lookups stand; the removed one's are gone
            assert forall|id: u32, p: Seq<char>| id != removed_id implies #[trigger] private_data_at(
                pfs1,
                id,
                p,
            ) == private_data_at(pfs0, id, p) by {
                if private_at(pfs0, id, p) is Some {
                    lemma_private_at_some(pfs0, id, p);
                    let b2 = choose|b2: int|
                        0 <= b2 < pfs0.len() && pfs0[b2] == private_at(pfs0, id, p)->Some_0 && (
                        #[trigger] pfs0[b2]).backup_id == id && pfs0[b2].path@ == p;
                    assert(private_data_at(pfs1, id, p) == Some(pfs0[b2].data@));
                } else {
                    if private_at(pfs1, id, p) is Some {
                        lemma_private_at_some(pfs1, id, p);
                        let x = choose|x: int|
                            0 <= x < pfs1.len() && pfs1[x] == private_at(pfs1, id, p)->Some_0 && (
                            #[trigger] pfs1[x]).backup_id == id && pfs1[x].path@ == p;
                        assert(pf_copies_some(pfs1[x], pfs0, pfs0.len() as int, removed_id));
                        let b2 = choose|b2: int|
                            0 <= b2 < pfs0.len() && pf_like(pfs1[x], #[trigger] pfs0[b2])
                                && pfs0[b2].backup_id != removed_id;
                        lemma_private_at_index(pfs0, b2);
                    }
                }
            }
            assert forall|p: Seq<char>| #[trigger] private_data_at(pfs1, removed_id, p) is None by {
                if private_at(pfs1, removed_id, p) is Some {
                    lemma_private_at_some(pfs1, removed_id, p);
                    let x = choose|x: int|
                        0 <= x < pfs1.len() && pfs1[x] == private_at(pfs1, removed_id, p)->Some_0
                            && (#[trigger] pfs1[x]).backup_id == removed_id && pfs1[x].path@ == p;
                    assert(pf_copies_some(pfs1[x], pfs0, pfs0.len() as int, removed_id));
                    let b2 = choose|b2: int|
                        0 <= b2 < pfs0.len() && pf_like(pfs1[x], #[trigger] pfs0[b2])
                            && pfs0[b2].backup_id != removed_id;
                    assert(false);
                }
            }
            // kept private files still belong to known identifiers
            assert forall|x: int| 0 <= x < pfs1.len() implies (#[trigger] pfs1[x]).backup_id
                < self.catalog.next_id by {
                assert(pf_copies_some(pfs1[x], pfs0, pfs0.len() as int, removed_id));
                let b2 = choose|b2: int|
                    0 <= b2 < pfs0.len() && pf_like(pfs1[x], #[trigger] pfs0[b2])
                        && pfs0[b2].backup_id != removed_id;
                assert(old(self).private_files@[b2].backup_id < old(self).catalog.next_id);
            }
            // the catalog stays sorted with bounded identifiers
            let ms1 = self.catalog.manifests@;
            assert forall|i: int, j2: int| 0 <= i < j2 < ms1.len() implies (
            #[trigger] ms1[i].backup_id) < (#[trigger] ms1[j2].backup_id) by {
                if j2 < mi as int {
                    assert(ms1[i] == ms0[i] && ms1[j2] == ms0[j2]);
                } else if i < mi as int {
                    assert(ms1[i] == ms0[i] && ms1[j2] == ms0[j2 + 1]);
                } else {
                    assert(ms1[i] == ms0[i + 1] && ms1[j2] == ms0[j2 + 1]);
                }
            }
            assert forall|i: int| 0 <= i < ms1.len() implies (#[trigger] ms1[i].backup_id)
                < self.catalog.next_id && (#[trigger] ms1[i]).wf() by {
                if i < mi as int {
                    assert(ms1[i] == ms0[i]);
                } else {
                    assert(ms1[i] == ms0[i + 1]);
                }
            }
            // reference counts again match citations
            assert forall|d: u64, s: u64| #[trigger] rc_of(self.store.blobs@, d, s) == count_citing(
                ms1,
                d,
                s,
            ) by {
                lemma_count_citing_remove(ms0, mi as int, d, s);
                assert(rc_of(b0, d, s) == count_citing(ms0, d, s));
                assert(rc_of(self.store.blobs@, d, s) + (if cites_entries(m.entries@, d, s) {
                    1int
                } else {
                    0int
                }) == rc_of(b0, d, s));
                assert(ms0[mi as int].cites(d, s) == cites_entries(m.entries@, d, s));
            }
            // surviving private entries still resolve
            assert forall|i: int, j2: int|
                0 <= i < ms1.len() && 0 <= j2 < ms1[i].entries@.len() && !(
            #[trigger] ms1[i].entries@[j2]).shared implies {
                let e = ms1[i].entries@[j2];
                let pf = private_at(pfs1, ms1[i].backup_id, e.path@);
                &&& pf is Some
                &&& pf->Some_0.data@.len() == e.size
                &&& digest_of(pf->Some_0.data@) == e.digest
            } by {
                let oi = if i < mi as int {
                    i
                } else {
                    i + 1
                };
                assert(ms1[i] == ms0[oi]);
                assert(!ms0[oi].entries@[j2].shared);
                assert(ms1[i].backup_id != removed_id);
                assert(private_data_at(pfs1, ms1[i].backup_id, ms1[i].entries@[j2].path@)
                    == private_data_at(pfs0, ms1[i].backup_id, ms1[i].entries@[j2].path@));
            }
            // surviving snapshots stand
            assert forall|j2: int| 0 <= j2 < ms1.len() implies #[trigger] self.manifest_snapshot(j2)
                == old(self).manifest_snapshot(
                if j2 < mi as int {
                    j2
                } else {
                    j2 + 1
                },
            ) by {
                let oi = if j2 < mi as int {
                    j2
                } else {
                    j2 + 1
                };
                assert(ms1[j2] == ms0[oi]);
                let mm = ms1[j2];
                assert forall|k: int| 0 <= k < mm.entries@.len() implies self.resolve_entry(
                    mm.backup_id,
                    mm.entries@[k],
                ) == old(self).resolve_entry(mm.backup_id, mm.entries@[k]) by {
                    let e = mm.entries@[k];
                    if e.shared {
                        lemma_data_unchanged_lookup(b0, self.store.blobs@, e.digest, e.size);
                    } else {
                        assert(mm.backup_id != removed_id);
                        assert(private_data_at(pfs1, mm.backup_id, e.path@) == private_data_at(
                            pfs0,
                            mm.backup_id,
                            e.path@,
                        ));
                    }
                }
                assert(self.manifest_snapshot(j2) =~= old(self).manifest_snapshot(oi));
            }
        }
    }

    /// Deletes the backup with the given identifier: its citations are
    /// released and its private files dropped, while shared blobs stay in
    /// the store for garbage collection to reclaim. Fails with `NotFound`
    /// when no such backup exists, leaving the engine untouched.
    pub fn delete_backup(&mut self, backup_id: u32) -> (r: Result<(), Error>)
        requires
            old(self).wf(),
        ensures
            final(self).wf(),
            r is Ok <==> old(self).catalog.has_backup(backup_id),
            r is Err ==> *final(self) == *old(self) && r->Err_0.code is NotFound,
            r is Ok ==> final(self).catalog.next_id == old(self).catalog.next_id && final(self).options == old(self).options && final(self).stop_requested == old(self).stop_requested && blobs_data_unchanged(
                old(self).store.blobs@,
                final(self).store.blobs@,
            ),
            r is Ok ==> forall|p: Seq<char>|
                #[trigger] private_data_at(final(self).private_files@, backup_id, p) is None,
            r is Ok ==> forall|id2: u32, p: Seq<char>|
                id2 != backup_id ==> #[trigger] private_data_at(final(self).private_files@, id2, p)
                    == private_data_at(old(self).private_files@, id2, p),
            r is Ok ==> forall|mi: int|
                0 <= mi < old(self).catalog.manifests@.len() && (
                #[trigger] old(self).catalog.manifests@[mi].backup_id) == backup_id ==> {
                    &&& final(self).catalog.manifests@ == old(self).catalog.manifests@.remove(mi)
                    &&& forall|d: u64, s: u64|
                        #[trigger] rc_of(final(self).store.blobs@, d, s) + (if old(self).catalog.manifests@[mi].cites(d, s) {
                            1int
                        } else {
                            0int
                        }) == rc_of(old(self).store.blobs@, d, s)
                    &&& forall|j: int|
                        0 <= j < final(self).catalog.manifests@.len() ==> #[trigger] final(self).manifest_snapshot(j) == old(self).manifest_snapshot(
                            if j < mi {
                                j
                            } else {
                                j + 1
                            },
                        )
                },
    {
        let mi = match self.catalog.find(backup_id) {
            Option::Some(mi) => mi,
            Option::None => {
                return Err(Error::with_state(Code::NotFound, String::new()));
            },
        };
        proof {
            assert(self.catalog.has_backup(backup_id));
        }
        self.remove_manifest_at(mi);
        proof {
            assert forall|mi2: int|
                0 <= mi2 < old(self).catalog.manifests@.len() && (
            #[trigger] old(self).catalog.manifests@[mi2].backup_id) == backup_id implies mi2
                == mi as int by {
                if mi2 != mi as int {
                    assert(old(self).catalog.manifests@[mi2].backup_id != old(self).catalog.manifests@[mi as int].backup_id);
                }
            }
        }
        Ok(())
    }

    /// Keeps the `num_backups_to_keep` most recent backups and deletes
    /// the rest, oldest first. Deleted backups release their citations
    /// and private files; blob space comes back through garbage
    /// collection. The kept backups' snapshots stand.
    pub fn purge_old_backups(&mut self, num_backups_to_keep: u32) -> (r: Result<(), Error>)
        requires
            old(self).wf(),
        ensures
            final(self).wf(),
            r is Ok,
            final(self).catalog.next_id == old(self).catalog.next_id,
            final(self).options == old(self).options,
            final(self).stop_requested == old(self).stop_requested,
            blobs_data_unchanged(old(self).store.blobs@, final(self).store.blobs@),
            old(self).catalog.manifests@.len() <= num_backups_to_keep ==> final(self).catalog.manifests@ == old(self).catalog.manifests@,
            old(self).catalog.manifests@.len() > num_backups_to_keep ==> final(self).catalog.manifests@ == old(self).catalog.manifests@.skip(
                old(self).catalog.manifests@.len() - num_backups_to_keep,
            ),
            forall|j: int|
                0 <= j < final(self).catalog.manifests@.len() ==> #[trigger] final(self).manifest_snapshot(j) == old(self).manifest_snapshot(
                    j + old(self).catalog.manifests@.len() - final(self).catalog.manifests@.len(),
                ),
    {
        let ghost ms0 = old(self).catalog.manifests@;
        proof {
            assert(ms0.skip(0) =~= ms0);
        }
        while self.catalog.manifests.len() > num_backups_to_keep as usize
            invariant
                self.wf(),
                self.catalog.manifests@.len() <= ms0.len(),
                ms0.len() > num_backups_to_keep ==> self.catalog.manifests@.len()
                    >= num_backups_to_keep,
                ms0.len() <= num_backups_to_keep ==> self.catalog.manifests@.len() == ms0.len(),
                self.catalog.manifests@ == ms0.skip(ms0.len() - self.catalog.manifests@.len()),
                self.catalog.next_id == old(self).catalog.next_id,
                self.options == old(self).options,
                self.backup_limiter == old(self).backup_limiter,
                self.restore_limiter == old(self).restore_limiter,
                self.stop_requested == old(self).stop_requested,
                blobs_data_unchanged(old(self).store.blobs@, self.store.blobs@),
                forall|j: int|
                    0 <= j < self.catalog.manifests@.len() ==> #[trigger] self.manifest_snapshot(j)
                        == old(self).manifest_snapshot(
                        j + ms0.len() - self.catalog.manifests@.len(),
                    ),
            decreases self.catalog.manifests@.len(),
        {
            let ghost pre = *self;
            let ghost dropped = ms0.len() - pre.catalog.manifests@.len();
            self.remove_manifest_at(0);
            proof {
                lemma_data_unchanged_trans(
                    old(self).store.blobs@,
                    pre.store.blobs@,
                    self.store.blobs@,
                );
                assert(self.catalog.manifests@ =~= ms0.skip(
                    ms0.len() - self.catalog.manifests@.len(),
                ));
                assert forall|j: int| 0 <= j < self.catalog.manifests@.len() implies
                    #[trigger] self.manifest_snapshot(j) == old(self).manifest_snapshot(
                    j + ms0.len() - self.catalog.manifests@.len(),
                ) by {
                    assert(self.manifest_snapshot(j) == pre.manifest_snapshot(j + 1));
                    assert(pre.manifest_snapshot(j + 1) == old(self).manifest_snapshot(
                        j + 1 + dropped,
                    ));
                }
            }
        }
        proof {
            if ms0.len() <= num_backups_to_keep {
                assert(self.catalog.manifests@ =~= ms0);
            }
        }
        Ok(())
    }
}

/// Every backup is fully recoverable byte for byte: when manifest `i`'s
/// snapshot still holds the pairs `create_new_backup` captured — its
/// contract says so at creation, and the delete, purge and
/// garbage-collect contracts preserve surviving snapshots — a restore
/// result for that backup, as `restore_db_from_backup` ensures it,
/// reproduces exactly the captured paths and bytes, in order.
pub proof fn lemma_backup_recoverable(
    e: BackupEngine,
    opts: BackupableDBOptions,
    files: Seq<SourceFile>,
    i: int,
    v: Seq<RestoredFile>,
)
    requires
        e.wf(),
        0 <= i < e.catalog.manifests@.len(),
        e.manifest_snapshot(i) == captured_pairs(opts, files),
        e.restored_matches(v, i),
    ensures
        v.len() == captured_pairs(opts, files).len(),
        forall|j: int|
            0 <= j < v.len() ==> ((#[trigger] v[j]).path@, v[j].data@) == captured_pairs(
                opts,
                files,
            )[j],
{
}

/// Verification is idempotent: with no intervening mutation of the
/// catalog, verifying the same backup twice yields the same outcome,
/// since the outcome is a function of the catalog alone.
pub proof fn lemma_verify_idempotent(e1: BackupEngine, e2: BackupEngine, backup_id: u32)
    requires
        e1.catalog.manifests@ == e2.catalog.manifests@,
    ensures
        e1.catalog.has_backup(backup_id) == e2.catalog.has_backup(backup_id),
{
}

/// Deduplication: a backup whose shared files are all already stored
/// under their keys copies no new bytes into the content store; with
/// `create_new_backup`'s contract, the store's total size is unchanged
/// and every shared entry cites an existing blob.
pub proof fn lemma_unchanged_files_copy_nothing(
    blobs: Seq<ContentBlob>,
    opts: BackupableDBOptions,
    files: Seq<SourceFile>,
)
    requires
        forall|k: int|
            0 <= k < files.len() && plan_of(opts, #[trigger] files[k]) == Some(true) ==> has_blob(
                blobs,
                digest_of(files[k].data@),
                files[k].data@.len() as u64,
            ),
    ensures
        new_shared_bytes(blobs, opts, files) == 0,
    decreases files.len(),
{
    if files.len() > 0 {
        assert forall|k: int|
            0 <= k < files.len() - 1 && plan_of(opts, #[trigger] files.drop_last()[k]) == Some(
                true,
            ) implies has_blob(
            blobs,
            digest_of(files.drop_last()[k].data@),
            files.drop_last()[k].data@.len() as u64,
        ) by {
            assert(files.drop_last()[k] == files[k]);
        }
        lemma_unchanged_files_copy_nothing(blobs, opts, files.drop_last());
        assert(plan_of(opts, files[files.len() - 1]) == Some(true) ==> has_blob(
            blobs,
            digest_of(files[files.len() - 1].data@),
            files[files.len() - 1].data@.len() as u64,
        ));
    }
}

/// The reference-count invariant: in a well-formed engine — which every
/// operation's contract maintains across any sequence of create, delete,
/// purge and garbage-collect calls — each key's recorded reference count
/// equals the number of live manifests citing it.
pub proof fn lemma_refcount_matches_citations(e: BackupEngine, d: u64, s: u64)
    requires
        e.wf(),
    ensures
        rc_of(e.store.blobs@, d, s) == count_citing(e.catalog.manifests@, d, s),
{
    assert(rc_of(e.store.blobs@, d, s) == count_citing(e.catalog.manifests@, d, s));
}

/// No two committed backups ever share an identifier: serialized through
/// one engine value, creations assign strictly increasing identifiers,
/// never reused even after deletion.
pub proof fn lemma_backup_ids_unique(e: BackupEngine, i: int, j: int)
    requires
        e.wf(),
        0 <= i < j < e.catalog.manifests@.len(),
    ensures
        e.catalog.manifests@[i].backup_id != e.catalog.manifests@[j].backup_id,
{
}

} // verus!
