//! The small records that the store keeps next to the manifests.

use vstd::prelude::*;
use crate::text::texts;

verus! {

/// What a journal waits for.
#[derive(Clone, Copy, PartialEq, Eq, Structural, Debug)]
pub enum JournalMode {
    /// A new version replaces the old one.
    Publish,
    /// The object goes away.
    Delete,
}

/// A list of blobs that become garbage with one commit.
#[derive(Debug)]
pub struct Journal {
    pub mode: JournalMode,
    /// The key whose live manifest decides whether the commit took place.
    pub supersedes_key: String,
    /// For `Publish`, the nonce of the version that is committed.
    pub commit_nonce: String,
    /// For `Publish`, the entity tag of that version.
    pub expected_new_etag: String,
    /// The blobs of the version that goes away.
    pub blobs: Vec<String>,
}

#[verifier::ext_equal]
pub struct JournalView {
    pub mode: JournalMode,
    pub supersedes_key: Seq<char>,
    pub commit_nonce: Seq<char>,
    pub expected_new_etag: Seq<char>,
    pub blobs: Seq<Seq<char>>,
}

impl View for Journal {
    type V = JournalView;

    open spec fn view(&self) -> JournalView {
        JournalView {
            mode: self.mode,
            supersedes_key: self.supersedes_key@,
            commit_nonce: self.commit_nonce@,
            expected_new_etag: self.expected_new_etag@,
            blobs: texts(self.blobs@),
        }
    }
}

/// What is recorded of one uploaded part. Each part has a file of its own.
#[derive(Debug)]
pub struct PartRefFile {
    pub part_number: u32,
    pub blob_id: String,
    pub size: u64,
    /// The MD5 of the part in hexadecimal, without quotes.
    pub md5_hex: String,
}

#[verifier::ext_equal]
pub struct PartRefFileView {
    pub part_number: u32,
    pub blob_id: Seq<char>,
    pub size: u64,
    pub md5_hex: Seq<char>,
}

impl View for PartRefFile {
    type V = PartRefFileView;

    open spec fn view(&self) -> PartRefFileView {
        PartRefFileView {
            part_number: self.part_number,
            blob_id: self.blob_id@,
            size: self.size,
            md5_hex: self.md5_hex@,
        }
    }
}

impl Clone for PartRefFile {
    fn clone(&self) -> (r: PartRefFile)
        ensures
            r@ == self@,
    {
        PartRefFile {
            part_number: self.part_number,
            blob_id: self.blob_id.clone(),
            size: self.size,
            md5_hex: self.md5_hex.clone(),
        }
    }
}

/// The views of a list of part records.
pub open spec fn part_records(v: Seq<PartRefFile>) -> Seq<PartRefFileView> {
    Seq::new(v.len(), |i: int| v[i]@)
}

/// What applying a journal did.
#[derive(Clone, Copy, PartialEq, Eq, Structural, Debug)]
pub struct ReclaimStats {
    pub blobs_deleted: usize,
    pub journals_removed: usize,
}

/// What a recovery sweep did, over all buckets.
#[derive(Clone, Copy, PartialEq, Eq, Structural, Debug)]
pub struct RecoveryStats {
    pub buckets: usize,
    /// Staged manifests that were never committed.
    pub arriving_manifests_removed: usize,
    pub journals_processed: usize,
    pub journal_blobs_reclaimed: usize,
}

} // verus!
