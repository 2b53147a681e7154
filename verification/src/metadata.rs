//! The header bundle of an object.

use vstd::prelude::*;
use crate::plan::call::{Call, CallView, Report};
use crate::plan::place::{Place, PlaceView};
use crate::plan::runner::{must, Plan, Step, StepView};
use crate::types::{copy_pairs, pairs};

verus! {

/// One stored part of an object that was uploaded in parts.
#[derive(Debug)]
pub struct PartRef {
    pub part_number: i32,
    /// Where the bytes of the part are.
    pub path: String,
    pub size: u64,
    /// The MD5 of the bytes in hexadecimal, without quotes.
    pub md5_hex: String,
}

#[verifier::ext_equal]
pub struct PartRefView {
    pub part_number: i32,
    pub path: Seq<char>,
    pub size: u64,
    pub md5_hex: Seq<char>,
}

impl View for PartRef {
    type V = PartRefView;

    open spec fn view(&self) -> PartRefView {
        PartRefView {
            part_number: self.part_number,
            path: self.path@,
            size: self.size,
            md5_hex: self.md5_hex@,
        }
    }
}

impl Clone for PartRef {
    fn clone(&self) -> (r: PartRef)
        ensures
            r@ == self@,
    {
        PartRef {
            part_number: self.part_number,
            path: self.path.clone(),
            size: self.size,
            md5_hex: self.md5_hex.clone(),
        }
    }
}

/// The views of a list of parts.
pub open spec fn part_refs(v: Seq<PartRef>) -> Seq<PartRefView> {
    Seq::new(v.len(), |i: int| v[i]@)
}

/// The headers of an object. `multipart` is given for objects that are stored as parts.
#[derive(Debug)]
pub struct ObjectMetadata {
    pub content_type: String,
    pub content_length: i64,
    /// The entity tag with its quotes.
    pub etag: String,
    /// Unix seconds.
    pub last_modified: i64,
    pub user_metadata: Vec<(String, String)>,
    pub content_disposition: String,
    pub content_encoding: String,
    pub cache_control: String,
    /// The parts in the order in which they are read; they are never joined on disk.
    pub multipart: Option<Vec<PartRef>>,
}

#[verifier::ext_equal]
pub struct ObjectMetadataView {
    pub content_type: Seq<char>,
    pub content_length: i64,
    pub etag: Seq<char>,
    pub last_modified: i64,
    pub user_metadata: Seq<(Seq<char>, Seq<char>)>,
    pub content_disposition: Seq<char>,
    pub content_encoding: Seq<char>,
    pub cache_control: Seq<char>,
    pub multipart: Option<Seq<PartRefView>>,
}

impl View for ObjectMetadata {
    type V = ObjectMetadataView;

    open spec fn view(&self) -> ObjectMetadataView {
        ObjectMetadataView {
            content_type: self.content_type@,
            content_length: self.content_length,
            etag: self.etag@,
            last_modified: self.last_modified,
            user_metadata: pairs(self.user_metadata@),
            content_disposition: self.content_disposition@,
            content_encoding: self.content_encoding@,
            cache_control: self.cache_control@,
            multipart: match self.multipart {
                Some(parts) => Some(part_refs(parts@)),
                None => None,
            },
        }
    }
}

impl ObjectMetadata {
    /// Whether the object is stored as parts.
    pub fn is_multipart(&self) -> (r: bool)
        ensures
            r == self@.multipart is Some,
    {
        self.multipart.is_some()
    }
}

/// A copy of a list of parts.
pub fn copy_parts(v: &Vec<PartRef>) -> (r: Vec<PartRef>)
    ensures
        part_refs(r@) == part_refs(v@),
{
    let mut out: Vec<PartRef> = Vec::new();
    let mut i: usize = 0;
    while i < v.len()
        invariant
            i <= v@.len(),
            out@.len() == i,
            forall|j: int| 0 <= j < i ==> (#[trigger] out@[j])@ == v@[j]@,
        decreases v@.len() - i,
    {
        out.push(v[i].clone());
        i = i + 1;
    }
    assert(part_refs(out@) =~= part_refs(v@));
    out
}

impl Clone for ObjectMetadata {
    fn clone(&self) -> (r: ObjectMetadata)
        ensures
            r@ == self@,
    {
        ObjectMetadata {
            content_type: self.content_type.clone(),
            content_length: self.content_length,
            etag: self.etag.clone(),
            last_modified: self.last_modified,
            user_metadata: copy_pairs(&self.user_metadata),
            content_disposition: self.content_disposition.clone(),
            content_encoding: self.content_encoding.clone(),
            cache_control: self.cache_control.clone(),
            multipart: match &self.multipart {
                Some(parts) => Some(copy_parts(parts)),
                None => None,
            },
        }
    }
}

/// A sidecar is written to a place of its own.
pub open spec fn write_temp_step(
    tmp: PlaceView,
    metadata: ObjectMetadataView,
    sync: bool,
) -> StepView {
    StepView::Do {
        call: CallView::WriteMetadata { at: tmp, metadata, sync },
        rule: must(Report::Io),
    }
}

/// A sidecar that was written to a place of its own is moved to where it belongs in one step, or
/// removed if that fails. The move is made durable if that is asked for.
pub open spec fn commit_temp_steps(
    tmp: PlaceView,
    at: PlaceView,
    parent: PlaceView,
    durable: bool,
) -> Seq<StepView> {
    seq![
        StepView::Defer { call: CallView::RemoveFile { at: tmp } },
        StepView::Do { call: CallView::Rename { src: tmp, dst: at }, rule: must(Report::Io) },
        StepView::Disarm,
    ] + if durable {
        seq![StepView::Do { call: CallView::SyncDir { at: parent }, rule: must(Report::Io) }]
    } else {
        Seq::empty()
    }
}

/// Writes a sidecar to a place of its own.
pub fn write_metadata_temp(plan: &mut Plan, tmp: Place<String>, metadata: ObjectMetadata)
    ensures
        final(plan)@ == old(plan)@.push(write_temp_step(tmp@, metadata@, false)),
{
    plan.must(Call::WriteMetadata { at: tmp, metadata, sync: false }, Report::Io);
}

/// Writes a sidecar to a place of its own, and makes its bytes durable.
pub fn write_metadata_temp_durable(plan: &mut Plan, tmp: Place<String>, metadata: ObjectMetadata)
    ensures
        final(plan)@ == old(plan)@.push(write_temp_step(tmp@, metadata@, true)),
{
    plan.must(Call::WriteMetadata { at: tmp, metadata, sync: true }, Report::Io);
}

/// Moves a sidecar that was written to a place of its own to where it belongs.
pub fn commit_metadata_temp(
    plan: &mut Plan,
    tmp: Place<String>,
    at: Place<String>,
    parent: Place<String>,
    durable: bool,
)
    ensures
        final(plan)@ == old(plan)@ + commit_temp_steps(tmp@, at@, parent@, durable),
{
    plan.defer(Call::RemoveFile { at: tmp.clone() });
    plan.must(Call::Rename { src: tmp, dst: at }, Report::Io);
    plan.push(Step::Disarm);
    if durable {
        plan.must(Call::SyncDir { at: parent }, Report::Io);
    }
    assert(plan@ =~= old(plan)@ + commit_temp_steps(tmp@, at@, parent@, durable));
}

/// Writes a sidecar, which replaces the one before it in one step.
pub fn write_metadata(
    plan: &mut Plan,
    tmp: Place<String>,
    at: Place<String>,
    parent: Place<String>,
    metadata: ObjectMetadata,
)
    ensures
        final(plan)@ == old(plan)@.push(write_temp_step(tmp@, metadata@, false))
            + commit_temp_steps(tmp@, at@, parent@, false),
{
    write_metadata_temp(plan, tmp.clone(), metadata);
    commit_metadata_temp(plan, tmp, at, parent, false);
}

/// Writes a sidecar, which replaces the one before it in one step, and makes it durable.
pub fn write_metadata_durable(
    plan: &mut Plan,
    tmp: Place<String>,
    at: Place<String>,
    parent: Place<String>,
    metadata: ObjectMetadata,
)
    ensures
        final(plan)@ == old(plan)@.push(write_temp_step(tmp@, metadata@, true))
            + commit_temp_steps(tmp@, at@, parent@, true),
{
    write_metadata_temp_durable(plan, tmp.clone(), metadata);
    commit_metadata_temp(plan, tmp, at, parent, true);
}

} // verus!
