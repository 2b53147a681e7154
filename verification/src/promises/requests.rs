//! Requests: what they carry from the caller to the end.

use vstd::prelude::*;
use crate::cas::complete::{draw_claims, Claim, Completing};
use crate::cas::store::{CasStore, CommitIds};
use crate::cas::uploads::{open_upload, Aborting, PartsListing};
use crate::filesystem::store::Filesystem;
use crate::filesystem::uploads::{PlainCompleting, PlainUploadsListing};
use crate::outside::is_canonical_uuid;
use crate::plan::call::QuestionView;
use crate::plan::place::Place;
use crate::plan::runner::{Plan, StepView};
use crate::types::CompletePart;

verus! {

/// A completion claims the parts of the request, in their order, each with a proper id for its
/// blob.
pub proof fn claims_are_those_of_the_request(parts: &Vec<CompletePart>, claims: Vec<Claim>, i: int)
    requires
        call_ensures(draw_claims, (parts,), claims),
    ensures
        claims@.len() == parts@.len(),
        0 <= i < parts@.len() ==> claims@[i].part_number == parts@[i].part_number
            && claims@[i].etag@ == parts@[i].etag@ && is_canonical_uuid(claims@[i].blob_id@),
{
}

/// The requests for an upload begin alike, by looking for it, and carry its key and its id. A
/// completion carries its claims, its ids and its time as well.
pub proof fn upload_requests_begin_alike(
    store: &CasStore,
    bucket: &str,
    key: &str,
    id: &str,
    claims: Vec<Claim>,
    ids: CommitIds,
    now: i64,
    complete: (Completing, Plan),
    abort: (Aborting, Plan),
    listing: (PartsListing, Plan),
    opened: Plan,
)
    requires
        call_ensures(
            CasStore::complete_multipart_upload,
            (store, bucket, key, id, claims, ids, now),
            complete,
        ),
        call_ensures(CasStore::abort_multipart_upload, (store, bucket, key, id), abort),
        call_ensures(CasStore::list_parts, (store, bucket, key, id), listing),
        call_ensures(open_upload, (bucket, id), opened),
    ensures
        complete.1@ == opened@ && abort.1@ == opened@ && listing.1@ == opened@,
        complete.0.key@ == key@ && complete.0.upload_id@ == id@,
        complete.0.claims == claims && complete.0.ids == ids && complete.0.now == now,
        abort.0.key@ == key@ && abort.0.upload_id@ == id@,
        listing.0.key@ == key@ && listing.0.upload_id@ == id@,
{
}

/// In the plain layout a completion reads the record of its upload, and a listing of uploads reads
/// the upload area, whatever the bucket.
pub proof fn plain_upload_requests_read_their_records(
    fs: &Filesystem,
    bucket: &str,
    id: &str,
    parts: Vec<CompletePart>,
    now: i64,
    complete: (PlainCompleting, Plan),
    listing: (PlainUploadsListing, Plan),
)
    requires
        call_ensures(Filesystem::complete_multipart_upload, (fs, id, parts, now), complete),
        call_ensures(Filesystem::list_multipart_uploads, (fs, bucket), listing),
    ensures
        complete.1@ == seq![StepView::Ask { question: QuestionView::ReadPlainUpload { id: id@ } }],
        complete.0.upload_id@ == id@ && complete.0.parts == parts && complete.0.now == now,
        listing.1@ == seq![StepView::Ask { question: QuestionView::ListPlainUploads }],
        listing.0.bucket@ == bucket@,
{
}

/// Both layouts list the buckets by listing the data root.
pub proof fn buckets_are_the_entries_of_the_root(
    store: &CasStore,
    fs: &Filesystem,
    a: Plan,
    b: Plan,
)
    requires
        call_ensures(CasStore::list_buckets, (store,), a),
        call_ensures(Filesystem::list_buckets, (fs,), b),
    ensures
        a@ == seq![StepView::Ask { question: QuestionView::List { at: Place::DataRoot } }],
        b@ == a@,
{
}

} // verus!
