//! The content-addressed blob store shared by all backups.
//!
//! Every deduplicated file lives here exactly once, keyed by
//! `(digest, size)` of its bytes, together with a reference count: how many
//! live manifests cite that key. Blobs are immutable once stored; only the
//! reference count moves. Garbage collection sweeps out the blobs whose
//! count has reached zero.

use vstd::prelude::*;

use crate::digest::digest_of;

verus! {

/// One stored file: its content key, its reference count, and its bytes.
pub struct ContentBlob {
    pub digest: u64,
    pub size: u64,
    pub refcount: u64,
    pub data: Vec<u8>,
}

impl ContentBlob {
    /// The key fields really describe the stored bytes.
    pub open spec fn wf(self) -> bool {
        &&& self.data@.len() == self.size
        &&& digest_of(self.data@) == self.digest
    }

    /// True when this blob is stored under the key `(d, s)`.
    pub open spec fn has_key(self, d: u64, s: u64) -> bool {
        self.digest == d && self.size == s
    }
}

/// The blob under key `(d, s)`, if any.
pub open spec fn blob_at(blobs: Seq<ContentBlob>, d: u64, s: u64) -> Option<ContentBlob>
    decreases blobs.len(),
{
    if blobs.len() == 0 {
        None
    } else if blobs.last().has_key(d, s) {
        Some(blobs.last())
    } else {
        blob_at(blobs.drop_last(), d, s)
    }
}

/// True when some blob is stored under key `(d, s)`.
pub open spec fn has_blob(blobs: Seq<ContentBlob>, d: u64, s: u64) -> bool {
    blob_at(blobs, d, s) is Some
}

/// The reference count recorded under key `(d, s)`; zero when absent.
pub open spec fn rc_of(blobs: Seq<ContentBlob>, d: u64, s: u64) -> u64 {
    match blob_at(blobs, d, s) {
        Option::Some(b) => b.refcount,
        Option::None => 0u64,
    }
}

/// The bytes stored under key `(d, s)`.
pub open spec fn data_of(blobs: Seq<ContentBlob>, d: u64, s: u64) -> Seq<u8> {
    match blob_at(blobs, d, s) {
        Option::Some(b) => b.data@,
        Option::None => Seq::empty(),
    }
}

/// No two blobs share a key.
pub open spec fn keys_unique(blobs: Seq<ContentBlob>) -> bool {
    forall|i: int, j: int|
        0 <= i < j < blobs.len() ==> !(#[trigger] blobs[i].has_key(
            blobs[j].digest,
            blobs[j].size,
        ))
}

/// Well-formed blob sequence: unique keys, each blob internally consistent.
pub open spec fn blobs_wf(blobs: Seq<ContentBlob>) -> bool {
    &&& keys_unique(blobs)
    &&& forall|i: int| 0 <= i < blobs.len() ==> (#[trigger] blobs[i]).wf()
}

/// The total size in bytes of everything the store holds.
pub open spec fn stored_bytes(blobs: Seq<ContentBlob>) -> int
    decreases blobs.len(),
{
    if blobs.len() == 0 {
        0
    } else {
        stored_bytes(blobs.drop_last()) + blobs.last().size
    }
}

/// A blob found at an index is the one `blob_at` denotes, when keys are
/// unique.
pub proof fn lemma_blob_at_index(blobs: Seq<ContentBlob>, i: int)
    requires
        keys_unique(blobs),
        0 <= i < blobs.len(),
    ensures
        blob_at(blobs, blobs[i].digest, blobs[i].size) == Some(blobs[i]),
    decreases blobs.len(),
{
    if i < blobs.len() - 1 {
        assert(!blobs[i].has_key(blobs.last().digest, blobs.last().size));
        lemma_blob_at_index(blobs.drop_last(), i);
    }
}

/// When no blob has the key, `blob_at` finds none.
pub proof fn lemma_blob_at_none(blobs: Seq<ContentBlob>, d: u64, s: u64)
    requires
        forall|i: int| 0 <= i < blobs.len() ==> !(#[trigger] blobs[i]).has_key(d, s),
    ensures
        blob_at(blobs, d, s) is None,
    decreases blobs.len(),
{
    if blobs.len() > 0 {
        lemma_blob_at_none(blobs.drop_last(), d, s);
    }
}

/// Whatever `blob_at` finds sits at some index and carries the key.
pub proof fn lemma_blob_at_some(blobs: Seq<ContentBlob>, d: u64, s: u64)
    requires
        blob_at(blobs, d, s) is Some,
    ensures
        exists|i: int|
            0 <= i < blobs.len() && blobs[i] == blob_at(blobs, d, s)->Some_0 && (
            #[trigger] blobs[i]).has_key(d, s),
    decreases blobs.len(),
{
    if blobs.last().has_key(d, s) {
        assert(blobs[blobs.len() - 1].has_key(d, s));
    } else {
        lemma_blob_at_some(blobs.drop_last(), d, s);
        let i = choose|i: int|
            0 <= i < blobs.len() - 1 && blobs.drop_last()[i] == blob_at(
                blobs.drop_last(),
                d,
                s,
            )->Some_0 && (#[trigger] blobs.drop_last()[i]).has_key(d, s);
        assert(blobs[i].has_key(d, s));
    }
}

/// In a well-formed store every blob found is itself well formed.
pub proof fn lemma_blob_at_wf(blobs: Seq<ContentBlob>, d: u64, s: u64)
    requires
        blobs_wf(blobs),
        blob_at(blobs, d, s) is Some,
    ensures
        blob_at(blobs, d, s)->Some_0.wf(),
        blob_at(blobs, d, s)->Some_0.has_key(d, s),
{
    lemma_blob_at_some(blobs, d, s);
}

/// Pushing a blob with a fresh key leaves every other key's view unchanged.
pub proof fn lemma_blob_at_push(blobs: Seq<ContentBlob>, b: ContentBlob, d: u64, s: u64)
    ensures
        b.has_key(d, s) ==> blob_at(blobs.push(b), d, s) == Some(b),
        !b.has_key(d, s) ==> blob_at(blobs.push(b), d, s) == blob_at(blobs, d, s),
{
    assert(blobs.push(b).drop_last() =~= blobs);
}

/// Updating the blob at index `i` changes only its own key's view.
pub proof fn lemma_blob_at_update(
    blobs: Seq<ContentBlob>,
    i: int,
    b: ContentBlob,
    d: u64,
    s: u64,
)
    requires
        keys_unique(blobs),
        0 <= i < blobs.len(),
        b.has_key(blobs[i].digest, blobs[i].size),
    ensures
        blobs[i].has_key(d, s) ==> blob_at(blobs.update(i, b), d, s) == Some(b),
        !blobs[i].has_key(d, s) ==> blob_at(blobs.update(i, b), d, s) == blob_at(blobs, d, s),
    decreases blobs.len(),
{
    let upd = blobs.update(i, b);
    if i == blobs.len() - 1 {
        assert(upd.last() == b);
        assert(upd.drop_last() =~= blobs.drop_last());
        if !blobs[i].has_key(d, s) && blobs.last().has_key(d, s) {
            assert(false);
        }
    } else {
        assert(upd.last() == blobs.last());
        assert(upd.drop_last() =~= blobs.drop_last().update(i, b));
        assert(!blobs[i].has_key(blobs.last().digest, blobs.last().size));
        lemma_blob_at_update(blobs.drop_last(), i, b, d, s);
    }
}

/// How every key's view changes when one blob is replaced in place.
pub proof fn lemma_blob_at_update_all(blobs: Seq<ContentBlob>, i: int, b: ContentBlob)
    requires
        keys_unique(blobs),
        0 <= i < blobs.len(),
        b.has_key(blobs[i].digest, blobs[i].size),
    ensures
        forall|d: u64, s: u64|
            #[trigger] blob_at(blobs.update(i, b), d, s) == (if blobs[i].has_key(d, s) {
                Some(b)
            } else {
                blob_at(blobs, d, s)
            }),
        forall|d: u64, s: u64|
            #[trigger] has_blob(blobs.update(i, b), d, s) == (blobs[i].has_key(d, s) || has_blob(
                blobs,
                d,
                s,
            )),
        forall|d: u64, s: u64|
            #[trigger] data_of(blobs.update(i, b), d, s) == (if blobs[i].has_key(d, s) {
                b.data@
            } else {
                data_of(blobs, d, s)
            }),
        forall|d: u64, s: u64|
            #[trigger] rc_of(blobs.update(i, b), d, s) == (if blobs[i].has_key(d, s) {
                b.refcount
            } else {
                rc_of(blobs, d, s)
            }),
{
    assert forall|d: u64, s: u64| true implies #[trigger] blob_at(blobs.update(i, b), d, s) == (
    if blobs[i].has_key(d, s) {
        Some(b)
    } else {
        blob_at(blobs, d, s)
    }) by {
        lemma_blob_at_update(blobs, i, b, d, s);
    }
    assert forall|d: u64, s: u64| true implies #[trigger] has_blob(blobs.update(i, b), d, s) == (
    blobs[i].has_key(d, s) || has_blob(blobs, d, s)) by {
        lemma_blob_at_update(blobs, i, b, d, s);
        if blobs[i].has_key(d, s) {
            lemma_blob_at_index(blobs, i);
        }
    }
}

/// How every key's view changes when a fresh-keyed blob is appended.
pub proof fn lemma_blob_at_push_all(blobs: Seq<ContentBlob>, b: ContentBlob)
    ensures
        forall|d: u64, s: u64|
            #[trigger] blob_at(blobs.push(b), d, s) == (if b.has_key(d, s) {
                Some(b)
            } else {
                blob_at(blobs, d, s)
            }),
        forall|d: u64, s: u64|
            #[trigger] has_blob(blobs.push(b), d, s) == (b.has_key(d, s) || has_blob(blobs, d, s)),
        forall|d: u64, s: u64|
            #[trigger] data_of(blobs.push(b), d, s) == (if b.has_key(d, s) {
                b.data@
            } else {
                data_of(blobs, d, s)
            }),
        forall|d: u64, s: u64|
            #[trigger] rc_of(blobs.push(b), d, s) == (if b.has_key(d, s) {
                b.refcount
            } else {
                rc_of(blobs, d, s)
            }),
{
    assert forall|d: u64, s: u64| true implies #[trigger] blob_at(blobs.push(b), d, s) == (
    if b.has_key(d, s) {
        Some(b)
    } else {
        blob_at(blobs, d, s)
    }) by {
        lemma_blob_at_push(blobs, b, d, s);
    }
}

/// Replacing a blob by one of the same size leaves the total unchanged.
pub proof fn lemma_stored_bytes_update(blobs: Seq<ContentBlob>, i: int, b: ContentBlob)
    requires
        0 <= i < blobs.len(),
        b.size == blobs[i].size,
    ensures
        stored_bytes(blobs.update(i, b)) == stored_bytes(blobs),
    decreases blobs.len(),
{
    let upd = blobs.update(i, b);
    if i == blobs.len() - 1 {
        assert(upd.drop_last() =~= blobs.drop_last());
    } else {
        assert(upd.drop_last() =~= blobs.drop_last().update(i, b));
        assert(upd.last() == blobs.last());
        lemma_stored_bytes_update(blobs.drop_last(), i, b);
    }
}

/// Updating one blob's reference count in place keeps keys unique.
pub proof fn lemma_keys_unique_update(blobs: Seq<ContentBlob>, i: int, b: ContentBlob)
    requires
        keys_unique(blobs),
        0 <= i < blobs.len(),
        b.has_key(blobs[i].digest, blobs[i].size),
    ensures
        keys_unique(blobs.update(i, b)),
{
    let upd = blobs.update(i, b);
    assert forall|p: int, q: int|
        0 <= p < q < upd.len() implies !(#[trigger] upd[p].has_key(
        upd[q].digest,
        upd[q].size,
    )) by {
        assert(!blobs[p].has_key(blobs[q].digest, blobs[q].size));
    }
}

/// The deduplicated blob repository.
pub struct ContentStore {
    pub blobs: Vec<ContentBlob>,
}

impl ContentStore {
    /// Unique keys, internally consistent blobs.
    pub open spec fn wf(self) -> bool {
        blobs_wf(self.blobs@)
    }

    /// An empty store.
    pub fn new() -> (r: ContentStore)
        ensures
            r.wf(),
            r.blobs@.len() == 0,
    {
        ContentStore { blobs: Vec::new() }
    }

    /// Finds the index of the blob under key `(d, s)`, if the store holds
    /// one.
    pub fn find(&self, d: u64, s: u64) -> (r: Option<usize>)
        requires
            self.wf(),
        ensures
            match r {
                Option::Some(i) => i < self.blobs@.len() && blob_at(self.blobs@, d, s) == Some(
                    self.blobs@[i as int],
                ) && self.blobs@[i as int].has_key(d, s),
                Option::None => blob_at(self.blobs@, d, s) is None,
            },
    {
        let n = self.blobs.len();
        let mut i: usize = 0;
        while i < n
            invariant
                self.wf(),
                n == self.blobs@.len(),
                0 <= i <= n,
                forall|j: int| 0 <= j < i ==> !(#[trigger] self.blobs@[j]).has_key(d, s),
            decreases n - i,
        {
            if self.blobs[i].digest == d && self.blobs[i].size == s {
                proof {
                    lemma_blob_at_index(self.blobs@, i as int);
                }
                return Some(i);
            }
            i = i + 1;
        }
        proof {
            lemma_blob_at_none(self.blobs@, d, s);
        }
        None
    }
}

} // verus!
