//! The content-addressed store, driven against a disk in memory.

#![allow(dead_code)]

use s3gateway::aligned::{AlignedBuf, DEFAULT_BUF_SIZE};
use s3gateway::blob::{
    blob_path, is_valid_blob_id, md5_digest, new_blob_id, BlobInfo, BodyStep, BodyWriter,
};
use s3gateway::cas::browse::prefix_walk_root;
use s3gateway::cas::buckets::has_in_flight_upload;
use s3gateway::cas::complete::draw_claims;
use s3gateway::cas::parts::{read_part_refs, upload_dir};
use s3gateway::cas::records::{Journal, JournalMode, PartRefFile, ReclaimStats, RecoveryStats};
use s3gateway::cas::recovery::{BucketSweep, SweepStep};
use s3gateway::cas::store::{push_journal, push_reclaim, CasStore, CommitIds};
use s3gateway::cas::task::{Reply, Stage, Task};
use s3gateway::manifest::{decode_relpath_to_key, manifest_path, Manifest, ManifestPartRef};
use s3gateway::metadata::{write_metadata, write_metadata_durable, ObjectMetadata, PartRef};
use s3gateway::plan::call::{
    Answer, BodyDigest, Call, Entry, EntryKind, FileDescription, Outcome, PlainPart,
    PlainPartEntry, Question, RefEntry, Report, StoredRef, UploadDir, UploadProbe,
};
use s3gateway::plan::place::{locate, Place};
use s3gateway::plan::runner::{rule_may, Next, Plan, Tallies};
use s3gateway::reader::{ByteRange, MultipartReader, PlainFileReader, ReadStep};
use s3gateway::types::{
    BodySource, BucketInfo, CompletePart, IoError, IoErrorKind, ListObjectsInput,
    ListObjectsOutput, MultipartUpload, PartInfo, StorageError,
};
use s3gateway::walk::{TreeWalk, WalkStep};
use std::cell::RefCell;
use std::collections::BTreeMap;
use std::rc::Rc;

/// What a file holds. Records are kept as the values that they stand for.
enum Data {
    Bytes(Vec<u8>),
    Manifest(Manifest),
    Journal(Journal),
    Upload(MultipartUpload),
    PartRef(PartRefFile),
    Metadata(ObjectMetadata),
}

#[derive(Clone)]
enum Node {
    Dir,
    File(Rc<Data>),
    Link(String),
}

/// Calls of this kind fail where their path holds this text.
struct Fault {
    op: &'static str,
    path: &'static str,
}

/// A disk in memory.
struct Disk {
    nodes: BTreeMap<String, Node>,
    times: BTreeMap<String, i64>,
    now: i64,
    faults: Vec<Fault>,
    syncs: Vec<String>,
    locks: Vec<String>,
}

fn io(kind: IoErrorKind) -> IoError {
    IoError { kind, code: 0 }
}

fn failed<T>(kind: IoErrorKind) -> Result<T, IoError> {
    Err(io(kind))
}

fn parent(path: &str) -> String {
    match path.rfind('/') {
        Some(0) | None => "/".to_string(),
        Some(i) => path[..i].to_string(),
    }
}

fn leaf(path: &str) -> String {
    path[path.rfind('/').map(|i| i + 1).unwrap_or(0)..].to_string()
}

fn copy_manifest(m: &Manifest) -> Manifest {
    Manifest {
        key: m.key.clone(),
        content_type: m.content_type.clone(),
        content_length: m.content_length,
        etag: m.etag.clone(),
        last_modified: m.last_modified,
        created: m.created,
        user_metadata: m.user_metadata.clone(),
        content_disposition: m.content_disposition.clone(),
        content_encoding: m.content_encoding.clone(),
        cache_control: m.cache_control.clone(),
        parts: m
            .parts
            .iter()
            .map(|p| ManifestPartRef {
                part_number: p.part_number,
                blob_id: p.blob_id.clone(),
                size: p.size,
                md5_hex: p.md5_hex.clone(),
            })
            .collect(),
        commit_nonce: m.commit_nonce.clone(),
    }
}

fn copy_journal(j: &Journal) -> Journal {
    Journal {
        mode: j.mode,
        supersedes_key: j.supersedes_key.clone(),
        commit_nonce: j.commit_nonce.clone(),
        expected_new_etag: j.expected_new_etag.clone(),
        blobs: j.blobs.clone(),
    }
}

/// The bytes of a part record.
fn encode_ref(p: &PartRefFile) -> Vec<u8> {
    format!("{} {} {} {}", p.part_number, p.blob_id, p.size, p.md5_hex).into_bytes()
}

fn decode_ref(bytes: &[u8]) -> Option<PartRefFile> {
    let text = String::from_utf8(bytes.to_vec()).ok()?;
    let fields: Vec<&str> = text.split(' ').collect();
    if fields.len() != 4 {
        return None;
    }
    Some(PartRefFile {
        part_number: fields[0].parse().ok()?,
        blob_id: fields[1].to_string(),
        size: fields[2].parse().ok()?,
        md5_hex: fields[3].to_string(),
    })
}

fn part_of(data: &Data) -> Option<PartRefFile> {
    match data {
        Data::PartRef(p) => Some(p.clone()),
        Data::Bytes(b) => decode_ref(b),
        _ => None,
    }
}

fn ref_bytes(data: &Data) -> Vec<u8> {
    match data {
        Data::PartRef(p) => encode_ref(p),
        Data::Bytes(b) => b.clone(),
        _ => Vec::new(),
    }
}

fn size_of(data: &Data) -> u64 {
    match data {
        Data::Bytes(b) => b.len() as u64,
        _ => 1,
    }
}

impl Disk {
    fn new() -> Disk {
        let mut disk = Disk {
            nodes: BTreeMap::new(),
            times: BTreeMap::new(),
            now: 1_700_000_000,
            faults: Vec::new(),
            syncs: Vec::new(),
            locks: Vec::new(),
        };
        disk.put("/", Node::Dir);
        disk.put("/data", Node::Dir);
        disk
    }

    fn put(&mut self, path: &str, node: Node) {
        self.times.insert(path.to_string(), self.now);
        self.nodes.insert(path.to_string(), node);
    }

    fn has(&self, path: &str) -> bool {
        self.nodes.contains_key(path)
    }

    fn is_dir(&self, path: &str) -> bool {
        matches!(self.nodes.get(path), Some(Node::Dir))
    }

    fn kind(&self, path: &str) -> Result<EntryKind, IoError> {
        match self.nodes.get(path) {
            Some(Node::Dir) => Ok(EntryKind::Directory),
            Some(Node::File(_)) => Ok(EntryKind::File),
            Some(Node::Link(_)) => Ok(EntryKind::Other),
            None => failed(IoErrorKind::NotFound),
        }
    }

    /// The files that a walk below `base` finds.
    fn walk(&self, base: &str, mut walk: TreeWalk) -> Result<Vec<String>, IoError> {
        loop {
            match walk.advance() {
                WalkStep::List { rel } => {
                    let dir = if rel.is_empty() {
                        base.to_string()
                    } else {
                        format!("{base}/{rel}")
                    };
                    walk.listed(&rel, self.listing(&dir));
                }
                WalkStep::Done => return Ok(walk.files),
                WalkStep::Failed { error } => return Err(error),
            }
        }
    }

    fn entries(&self, dir: &str) -> Vec<String> {
        let front = format!("{dir}/");
        self.nodes
            .keys()
            .filter(|p| p.starts_with(&front) && !p[front.len()..].contains('/'))
            .map(|p| p[front.len()..].to_string())
            .collect()
    }

    fn files_below(&self, dir: &str) -> Vec<String> {
        let front = format!("{dir}/");
        self.nodes
            .iter()
            .filter(|(p, n)| p.starts_with(&front) && matches!(n, Node::File(_)))
            .map(|(p, _)| p[front.len()..].to_string())
            .collect()
    }

    /// The directory that `path` lies in has to be there.
    fn in_dir(&self, path: &str) -> Result<(), IoError> {
        let mut dir = parent(path);
        match self.nodes.get(&dir) {
            Some(Node::Dir) => Ok(()),
            Some(_) => failed(IoErrorKind::NotADirectory),
            None => {
                while dir != "/" {
                    dir = parent(&dir);
                    if let Some(Node::File(_)) = self.nodes.get(&dir) {
                        return failed(IoErrorKind::NotADirectory);
                    }
                }
                failed(IoErrorKind::NotFound)
            }
        }
    }

    /// The directories of the uploads in an upload area.
    fn scan_uploads(&self, area: &str) -> Result<Vec<Result<UploadDir, IoError>>, IoError> {
        self.listing(area).map(|entries| {
            entries
                .into_iter()
                .map(|e| {
                    let name = e.unwrap().name;
                    let record = format!("{area}/{name}/upload.json");
                    let upload = self.upload(&record);
                    Ok(UploadDir {
                        is_dir: self.is_dir(&format!("{area}/{name}")),
                        completed: self.has(&format!("{area}/{name}/completed")),
                        readable: self.has(&record),
                        age: if self.has(&record) {
                            let secs = self.now - self.times[&record];
                            if secs < 0 {
                                None
                            } else {
                                Some(secs as u128 * 1_000_000_000)
                            }
                        } else {
                            None
                        },
                        upload: upload.ok(),
                        name,
                    })
                })
                .collect()
        })
    }

    /// Where a path leads once the links on it are followed.
    fn followed(&self, path: &str) -> String {
        let mut at = String::new();
        for name in path.split('/').filter(|n| !n.is_empty()) {
            let next = format!("{at}/{name}");
            at = match self.nodes.get(&next) {
                Some(Node::Link(to)) if to.starts_with('/') => to.clone(),
                Some(Node::Link(to)) => format!("{at}/{to}"),
                _ => next,
            };
        }
        at
    }

    /// Reads a file. Links are followed.
    fn read(&self, path: &str) -> Result<Rc<Data>, IoError> {
        let path = &self.followed(path);
        match self.nodes.get(path) {
            Some(Node::File(data)) => Ok(data.clone()),
            Some(_) => failed(IoErrorKind::Other),
            None => {
                self.in_dir(path)?;
                failed(IoErrorKind::NotFound)
            }
        }
    }

    fn bytes(&self, path: &str) -> Vec<u8> {
        match &*self.read(path).unwrap() {
            Data::Bytes(b) => b.clone(),
            _ => panic!("{path} holds a record"),
        }
    }

    fn write(&mut self, path: &str, data: Data) -> Result<(), IoError> {
        self.in_dir(path)?;
        match self.nodes.get(path) {
            Some(Node::Dir) | Some(Node::Link(_)) => failed(IoErrorKind::Other),
            _ => {
                self.put(path, Node::File(Rc::new(data)));
                Ok(())
            }
        }
    }

    fn create_all(&mut self, path: &str) -> Result<(), IoError> {
        match self.nodes.get(path) {
            Some(Node::Dir) => return Ok(()),
            Some(_) => return failed(IoErrorKind::AlreadyExists),
            None => {}
        }
        self.create_all(&parent(path))?;
        self.put(path, Node::Dir);
        Ok(())
    }

    fn remove_all(&mut self, path: &str) {
        let front = format!("{path}/");
        self.nodes.retain(|p, _| p != path && !p.starts_with(&front));
    }

    fn rename(&mut self, src: &str, dst: &str) -> Result<(), IoError> {
        if !self.has(src) {
            return failed(IoErrorKind::NotFound);
        }
        self.in_dir(dst)?;
        let front = format!("{src}/");
        let moved: Vec<String> = self
            .nodes
            .keys()
            .filter(|p| *p == src || p.starts_with(&front))
            .cloned()
            .collect();
        for p in moved {
            let node = self.nodes.remove(&p).unwrap();
            let to = format!("{dst}{}", &p[src.len()..]);
            self.put(&to, node);
        }
        Ok(())
    }

    fn sync(&mut self, path: &str) -> Result<(), IoError> {
        self.syncs.push(path.to_string());
        if self.is_dir(path) {
            Ok(())
        } else {
            failed(IoErrorKind::NotFound)
        }
    }

    fn fault(&self, op: &str, path: &str) -> Result<(), IoError> {
        if self.faults.iter().any(|f| f.op == op && path.contains(f.path)) {
            failed(IoErrorKind::Other)
        } else {
            Ok(())
        }
    }

    fn has_link(&self, path: &str) -> bool {
        let mut p = path.to_string();
        while p != "/" {
            if let Some(Node::Link(_)) = self.nodes.get(&p) {
                return true;
            }
            p = parent(&p);
        }
        false
    }

    /// Makes a call.
    fn call(&mut self, task: &dyn Driven, call: Call) -> Result<(), IoError> {
        match call {
            Call::LockBucket { shard, exclusive } => {
                self.locks.push(format!("bucket {shard} {exclusive}"));
                Ok(())
            }
            Call::LockKey { shard, exclusive } => {
                self.locks.push(format!("key {shard} {exclusive}"));
                Ok(())
            }
            Call::UnlockKey => {
                self.locks.push("unlock".to_string());
                Ok(())
            }
            Call::CheckContained { at } => {
                if self.has_link(&parent(&task.path(&at))) {
                    return failed(IoErrorKind::Other);
                }
                Ok(())
            }
            Call::CheckBeneath { at } => {
                if self.has_link(&task.path(&at)) {
                    return failed(IoErrorKind::Other);
                }
                Ok(())
            }
            Call::CheckDir { at } | Call::CheckLinkedDir { at } => {
                match self.nodes.get(&task.path(&at)) {
                    Some(Node::Dir) => Ok(()),
                    Some(_) => failed(IoErrorKind::NotADirectory),
                    None => failed(IoErrorKind::NotFound),
                }
            }
            Call::CheckExists { at } => {
                if self.has(&task.path(&at)) {
                    Ok(())
                } else {
                    failed(IoErrorKind::NotFound)
                }
            }
            Call::CheckFile { at, size } => match &*self.read(&task.path(&at))? {
                Data::Bytes(b) if b.len() as u64 == size => Ok(()),
                _ => failed(IoErrorKind::Other),
            },
            Call::CreateDir { at } => {
                let path = task.path(&at);
                self.fault("create", &path)?;
                if self.has(&path) {
                    return failed(IoErrorKind::AlreadyExists);
                }
                self.in_dir(&path)?;
                self.put(&path, Node::Dir);
                Ok(())
            }
            Call::CreateDirAll { at } => {
                let path = task.path(&at);
                self.fault("create", &path)?;
                self.create_all(&path)
            }
            Call::SyncDir { at } => {
                let path = task.path(&at);
                self.fault("sync", &path)?;
                self.sync(&path)
            }
            Call::RemoveFile { at } => {
                let path = task.path(&at);
                self.fault("remove", &path)?;
                match self.nodes.get(&path) {
                    Some(Node::Dir) => failed(IoErrorKind::Other),
                    Some(_) => {
                        self.nodes.remove(&path);
                        Ok(())
                    }
                    None => failed(IoErrorKind::NotFound),
                }
            }
            Call::RemoveExisting { at } => {
                let path = task.path(&at);
                if self.fault("examine", &path).is_err() || !self.has(&self.followed(&path)) {
                    return failed(IoErrorKind::NotFound);
                }
                self.fault("remove", &path)?;
                if self.is_dir(&path) {
                    return failed(IoErrorKind::Other);
                }
                self.nodes.remove(&path);
                Ok(())
            }
            Call::RemoveDir { at } => {
                let path = task.path(&at);
                if !self.is_dir(&path) {
                    return failed(IoErrorKind::NotFound);
                }
                if !self.entries(&path).is_empty() {
                    return failed(IoErrorKind::Other);
                }
                self.nodes.remove(&path);
                Ok(())
            }
            Call::RemoveDirAll { at } => {
                let path = task.path(&at);
                self.fault("remove", &path)?;
                if !self.is_dir(&path) {
                    return failed(IoErrorKind::NotFound);
                }
                self.remove_all(&path);
                Ok(())
            }
            Call::Rename { src, dst } => {
                let (src, dst) = (task.path(&src), task.path(&dst));
                self.fault("rename", &src)?;
                self.rename(&src, &dst)
            }
            Call::Move { src, dst } => {
                let (src, dst) = (task.path(&src), task.path(&dst));
                self.fault("move", &src)?;
                self.create_all(&parent(&dst))?;
                self.rename(&src, &dst)
            }
            Call::WriteManifest { at, manifest, .. } => {
                self.write(&task.path(&at), Data::Manifest(manifest))
            }
            Call::WriteJournal { at, journal, .. } => {
                self.write(&task.path(&at), Data::Journal(journal))
            }
            Call::WriteUpload { at, upload, .. } => {
                self.write(&task.path(&at), Data::Upload(upload))
            }
            Call::WritePartRef { at, part, .. } => {
                self.write(&task.path(&at), Data::PartRef(part))
            }
            Call::WriteBytes { at, data, .. } => {
                let path = task.path(&at);
                self.fault("write", &path)?;
                self.write(&path, Data::Bytes(data))
            }
            Call::WriteMetadata { at, metadata, .. } => {
                self.write(&task.path(&at), Data::Metadata(metadata))
            }
        }
    }

    fn upload(&self, path: &str) -> Result<MultipartUpload, IoError> {
        match &*self.read(path)? {
            Data::Upload(u) => Ok(u.clone()),
            _ => failed(IoErrorKind::InvalidData),
        }
    }

    fn manifest(&self, path: &str) -> Result<Manifest, IoError> {
        match &*self.read(path)? {
            Data::Manifest(m) => Ok(copy_manifest(m)),
            _ => failed(IoErrorKind::InvalidData),
        }
    }

    fn metadata(&self, path: &str) -> Result<ObjectMetadata, IoError> {
        match &*self.read(path)? {
            Data::Metadata(m) => Ok(m.clone()),
            _ => failed(IoErrorKind::InvalidData),
        }
    }

    fn listing(&self, dir: &str) -> Result<Vec<Result<Entry, IoError>>, IoError> {
        self.fault("list", dir)?;
        match self.nodes.get(dir) {
            Some(Node::Dir) => {}
            Some(_) => return failed(IoErrorKind::NotADirectory),
            None => return failed(IoErrorKind::NotFound),
        }
        Ok(self
            .entries(dir)
            .into_iter()
            .map(|name| {
                let path = format!("{dir}/{name}");
                Ok(Entry {
                    kind: self.kind(&path).ok(),
                    mtime: self.times[&path],
                    name,
                })
            })
            .collect())
    }

    /// Answers a question.
    fn answer(&mut self, task: &dyn Driven, question: Question, body: &[u8]) -> Answer {
        match question {
            Question::TryCreateDir { at } => {
                Answer::Unit(self.call(task, Call::CreateDir { at }))
            }
            Question::TrySyncDir { at } => Answer::Unit(self.call(task, Call::SyncDir { at })),
            Question::StreamBlob { id } => {
                let path = task.path(&Place::Blob { id: id.clone() });
                let written = self.create_all(&parent(&path)).and_then(|_| {
                    let (data, writer) = stream(body);
                    self.write(&path, Data::Bytes(data))?;
                    Ok(writer.finish(id))
                });
                Answer::Blob(written)
            }
            Question::StreamFile { at } => {
                let path = task.path(&at);
                let (data, writer) = stream(body);
                let size = writer.written();
                let digest = writer.digest();
                Answer::Body(
                    self.write(&path, Data::Bytes(data))
                        .map(|_| BodyDigest { digest, size }),
                )
            }
            Question::ReadManifest { at } => Answer::Manifest(self.manifest(&task.path(&at))),
            Question::ReadJournal { at } => Answer::Journal(
                self.read(&task.path(&at)).and_then(|data| match &*data {
                    Data::Journal(j) => Ok(copy_journal(j)),
                    _ => failed(IoErrorKind::InvalidData),
                }),
            ),
            Question::ReadMetadata { at } => Answer::Metadata(self.metadata(&task.path(&at))),
            Question::ProbeUpload { id } => {
                let dir = task.path(&Place::Upload { id });
                Answer::Upload(UploadProbe {
                    dir: upload_dir(self.kind(&dir), &Some(dir.clone()), &Some("/data".to_string())),
                    completed: self.has(&format!("{dir}/completed")),
                    upload: self.upload(&format!("{dir}/upload.json")),
                })
            }
            Question::ReadPlainUpload { id } => Answer::PlainUpload(self.upload(&task.path(
                &Place::PlainUploadFile { id, name: "meta.json".to_string() },
            ))),
            Question::ReadPartRef { at } => Answer::PartRef(
                self.read(&task.path(&at)).ok().and_then(|data| {
                    part_of(&data)
                        .map(|p| StoredRef { bytes: ref_bytes(&data), blob_id: p.blob_id })
                }),
            ),
            Question::ReadPartRefs { id } => {
                let dir = task.path(&Place::UploadFile { id, name: "parts".to_string() });
                Answer::PartRefs(self.listing(&dir).map(|entries| {
                    entries
                        .into_iter()
                        .map(|e| {
                            let name = e.unwrap().name;
                            let data = self.read(&format!("{dir}/{name}")).ok();
                            RefEntry { part: data.and_then(|d| part_of(&d)), name }
                        })
                        .collect()
                }))
            }
            Question::RefTimes { id, numbers } => Answer::Times(
                numbers
                    .iter()
                    .map(|n| {
                        let name = format!("{n:05}.ref");
                        let path = task.path(&Place::PartFile { id: id.clone(), name });
                        self.times.get(&path).copied().unwrap_or(0)
                    })
                    .collect(),
            ),
            Question::OpenFile { at } => {
                Answer::Opened(self.read(&task.path(&at)).map(|data| size_of(&data)))
            }
            Question::Walk { at, instead } => {
                let (mut dir, base) = (task.path(&at), task.path(&instead));
                if !self.is_dir(&dir) {
                    dir = base.clone();
                }
                let rel = dir[base.len()..].trim_start_matches('/');
                Answer::Files(self.walk(&base, TreeWalk::new(rel)))
            }
            Question::WalkObjects { at } => {
                Answer::Files(self.walk(&task.path(&at), TreeWalk::over_objects()))
            }
            Question::List { at } => Answer::Entries(self.listing(&task.path(&at))),
            Question::ScanUploads { .. } => {
                Answer::UploadDirs(self.scan_uploads(&task.path(&Place::Arriving)))
            }
            Question::ProbePlainPart { at } => {
                let data = self.read(&task.path(&at));
                Answer::PlainPart(match data {
                    Ok(data) => PlainPart {
                        size: Some(size_of(&data)),
                        digest: Ok(md5_digest(&ref_bytes(&data))),
                    },
                    Err(e) => PlainPart { size: None, digest: Err(e) },
                })
            }
            Question::ListPlainParts { id } => {
                let dir = task.path(&Place::PlainUploadFile { id, name: "parts".to_string() });
                Answer::PlainParts(self.listing(&dir).map(|entries| {
                    entries
                        .into_iter()
                        .map(|e| {
                            let e = e.unwrap();
                            let path = format!("{dir}/{}", e.name);
                            let data = self.read(&path)?;
                            Ok(PlainPartEntry {
                                is_dir: e.kind == Some(EntryKind::Directory),
                                size: size_of(&data),
                                mtime: e.mtime,
                                digest: Ok(md5_digest(&ref_bytes(&data))),
                                name: e.name,
                            })
                        })
                        .collect()
                }))
            }
            Question::ListPlainUploads => {
                let area = task.path(&Place::Uploads);
                Answer::PlainUploads(self.listing(&area).map(|entries| {
                    entries
                        .into_iter()
                        .map(|e| Ok(self.upload(&format!("{area}/{}/meta.json", e?.name)).ok()))
                        .collect()
                }))
            }
            Question::Describe { key } => {
                let path = task.path(&Place::Object { key });
                Answer::Described(self.read(&path).map(|data| FileDescription {
                    size: size_of(&data),
                    mtime: self.times[&path],
                    metadata: self.metadata(&format!("{path}.s3meta")).ok(),
                }))
            }
        }
    }

    /// Reads a body to its end, `want` bytes at a time.
    fn read_body(&self, body: BodySource, range: Option<ByteRange>, want: usize) -> Vec<u8> {
        match body {
            BodySource::Single { path, size } => read_single(&self.bytes(&path), size, range, want),
            BodySource::Parts { parts } => {
                let paths: Vec<String> = parts.iter().map(|p| p.path.clone()).collect();
                let mut reader = MultipartReader::new(parts, range);
                let mut file: Vec<u8> = Vec::new();
                let mut out = Vec::new();
                loop {
                    let got = match reader.begin(want) {
                        ReadStep::Bytes(b) => b,
                        ReadStep::Open { part } => {
                            file = self.bytes(&paths[part]);
                            reader.opened();
                            continue;
                        }
                        ReadStep::Window { offset, len } => {
                            match reader.window(window(&file, offset, len), want) {
                                Some(b) => b,
                                None => continue,
                            }
                        }
                    };
                    if got.is_empty() {
                        return out;
                    }
                    out.extend_from_slice(&got);
                }
            }
        }
    }
}

/// Reads a body of one file to its end, `want` bytes at a time.
fn read_single(file: &[u8], size: u64, range: Option<ByteRange>, want: usize) -> Vec<u8> {
    let mut out = Vec::new();
    let mut reader = PlainFileReader::open(size, range);
    loop {
        let got = match reader.begin(want) {
            ReadStep::Bytes(b) => b,
            ReadStep::Open { .. } => unreachable!(),
            ReadStep::Window { offset, len } => reader.window(window(file, offset, len), want),
        };
        if got.is_empty() {
            return out;
        }
        out.extend_from_slice(&got);
    }
}

/// What a read of a file at an offset gives back.
fn window(file: &[u8], offset: u64, len: usize) -> &[u8] {
    let start = (offset as usize).min(file.len());
    &file[start..(start + len).min(file.len())]
}

/// Stores a body in a file, block by block.
fn stream(body: &[u8]) -> (Vec<u8>, BodyWriter) {
    let mut file: Vec<u8> = Vec::new();
    let mut pos = 0usize;
    let mut block = AlignedBuf::new(DEFAULT_BUF_SIZE);
    let cap = block.capacity();
    let (mut writer, mut step) = BodyWriter::new(cap);
    loop {
        step = match step {
            BodyStep::Read { from } => {
                let n = (cap - from).min(body.len() - pos).min(400_000);
                block.as_mut_slice()[from..from + n].copy_from_slice(&body[pos..pos + n]);
                pos += n;
                writer.on_read(&block.as_slice()[..cap], Ok(n))
            }
            BodyStep::Write { from, len, offset } => {
                let n = (len - from).min(300_000);
                file.resize(offset as usize, 0);
                file.extend_from_slice(&block.as_slice()[from..from + n]);
                writer.on_write(Ok(n))
            }
            BodyStep::Sync => return (file, writer),
            BodyStep::Failed(e) => panic!("{e:?}"),
        };
    }
}

/// A task that can be driven.
trait Driven {
    fn resume(&mut self, reply: Reply) -> Next;
    fn path(&self, place: &Place<String>) -> String;
}

/// Drives a task to its end.
fn drive<T: Driven>(
    disk: &mut Disk,
    task: &mut T,
    body: &[u8],
) -> (Result<Outcome, StorageError>, Tallies) {
    let mut next = task.resume(Reply::Start);
    loop {
        next = match next {
            Next::Do(call) => {
                let result = disk.call(task, call);
                task.resume(Reply::Settled(result))
            }
            Next::Ask(question) => {
                let answer = disk.answer(task, question, body);
                task.resume(Reply::Answered(answer))
            }
            Next::Done(result, tallies) => return (result, tallies),
        };
    }
}

fn md5_hex(data: &[u8]) -> String {
    hex::encode(md5_digest(data))
}

impl Driven for Task {
    fn resume(&mut self, reply: Reply) -> Next {
        Task::resume(self, reply)
    }

    fn path(&self, place: &Place<String>) -> String {
        locate(&self.env().root, &self.env().bucket, place)
    }
}

type Pairs = Vec<(String, String)>;

/// An object that was read.
#[derive(Debug)]
struct Got {
    metadata: ObjectMetadata,
    resolved_range: Option<ByteRange>,
    total_size: u64,
    body: Vec<u8>,
}

/// The store together with its disk.
struct Store {
    cas: CasStore,
    disk: RefCell<Disk>,
}

impl Store {
    fn new(fsync: bool) -> Store {
        Store { cas: CasStore::with_fsync("/data", fsync), disk: RefCell::new(Disk::new()) }
    }

    fn run(
        &self,
        bucket: &str,
        stage: Stage,
        plan: Plan,
        body: &[u8],
    ) -> (Result<Outcome, StorageError>, Tallies) {
        let mut task = Task::new(self.cas.env(bucket), stage, plan);
        drive(&mut self.disk.borrow_mut(), &mut task, body)
    }

    fn done(&self, bucket: &str, stage: Stage, plan: Plan) -> Result<(), StorageError> {
        self.run(bucket, stage, plan, b"").0.map(|_| ())
    }

    fn now(&self) -> i64 {
        self.disk.borrow().now
    }

    fn fail(&self, faults: &[(&'static str, &'static str)]) {
        self.disk.borrow_mut().faults =
            faults.iter().map(|f| Fault { op: f.0, path: f.1 }).collect();
    }

    fn has(&self, path: &str) -> bool {
        self.disk.borrow().has(path)
    }

    fn is_dir(&self, path: &str) -> bool {
        self.disk.borrow().is_dir(path)
    }

    fn list_dir(&self, path: &str) -> Vec<String> {
        self.disk.borrow().entries(path)
    }

    fn count_blobs(&self, bucket_root: &str) -> usize {
        self.disk.borrow().files_below(&format!("{bucket_root}/blobs")).len()
    }

    fn syncs(&self, text: &str) -> usize {
        self.disk.borrow().syncs.iter().filter(|p| p.contains(text)).count()
    }

    fn create_bucket(&self, name: &str) -> Result<(), StorageError> {
        self.done(name, Stage::CreatingBucket, self.cas.create_bucket(name))
    }

    fn head_bucket(&self, name: &str) -> Result<(), StorageError> {
        self.done(name, Stage::Closed, self.cas.head_bucket(name))
    }

    fn delete_bucket(&self, name: &str) -> Result<(), StorageError> {
        self.done(name, Stage::EmptyWalk, self.cas.delete_bucket(name))
    }

    fn list_buckets(&self) -> Result<Vec<BucketInfo>, StorageError> {
        match self.run("", Stage::BucketsList, self.cas.list_buckets(), b"").0? {
            Outcome::Buckets { buckets } => Ok(buckets),
            other => panic!("{other:?}"),
        }
    }

    fn put_object(
        &self,
        bucket: &str,
        key: &str,
        body: &[u8],
        content_type: &str,
        user_metadata: Pairs,
    ) -> Result<String, StorageError> {
        let (stage, plan) = self.cas.put_object(
            bucket,
            key,
            content_type,
            user_metadata,
            new_blob_id(),
            CommitIds::draw(),
            self.now(),
        );
        match self.run(bucket, Stage::PutBody(stage), plan, body).0? {
            Outcome::Etag { etag } => Ok(etag),
            other => panic!("{other:?}"),
        }
    }

    fn get_object(
        &self,
        bucket: &str,
        key: &str,
        range: Option<&str>,
    ) -> Result<Got, StorageError> {
        let (stage, plan) = self.cas.get_object(bucket, key, range);
        match self.run(bucket, Stage::Reading(stage), plan, b"").0? {
            Outcome::Object { object } => Ok(Got {
                metadata: object.metadata,
                resolved_range: object.resolved_range,
                total_size: object.total_size,
                body: self.disk.borrow().read_body(object.body, object.resolved_range, 65_536),
            }),
            other => panic!("{other:?}"),
        }
    }

    fn head_object(&self, bucket: &str, key: &str) -> Result<ObjectMetadata, StorageError> {
        match self.run(bucket, Stage::Heading, self.cas.head_object(bucket, key), b"").0? {
            Outcome::Headers { metadata } => Ok(metadata),
            other => panic!("{other:?}"),
        }
    }

    fn delete_object(&self, bucket: &str, key: &str) -> Result<(), StorageError> {
        let (stage, plan) = self.cas.delete_object(bucket, key, CommitIds::draw());
        self.done(bucket, Stage::Deleting(stage), plan)
    }

    fn create_multipart_upload(
        &self,
        bucket: &str,
        key: &str,
        content_type: &str,
        user_metadata: Pairs,
    ) -> Result<String, StorageError> {
        let plan = self.cas.create_multipart_upload(
            bucket,
            key,
            content_type,
            user_metadata,
            new_blob_id(),
            self.now(),
        );
        match self.run(bucket, Stage::Closed, plan, b"").0? {
            Outcome::UploadId { id } => Ok(id),
            other => panic!("{other:?}"),
        }
    }

    fn upload_part(
        &self,
        bucket: &str,
        key: &str,
        upload_id: &str,
        part_number: i32,
        body: &[u8],
    ) -> Result<String, StorageError> {
        let (stage, plan) = self.cas.upload_part(
            bucket,
            key,
            upload_id,
            part_number,
            new_blob_id(),
            new_blob_id(),
            format!("restore-{}", new_blob_id()),
        );
        match self.run(bucket, Stage::PartProbe(stage), plan, body).0? {
            Outcome::Etag { etag } => Ok(etag),
            other => panic!("{other:?}"),
        }
    }

    fn complete_multipart_upload(
        &self,
        bucket: &str,
        key: &str,
        upload_id: &str,
        parts: &[CompletePart],
    ) -> Result<String, StorageError> {
        let (stage, plan) = self.cas.complete_multipart_upload(
            bucket,
            key,
            upload_id,
            draw_claims(&claims(parts)),
            CommitIds::draw(),
            self.now(),
        );
        match self.run(bucket, Stage::CompleteProbe(stage), plan, b"").0? {
            Outcome::Etag { etag } => Ok(etag),
            other => panic!("{other:?}"),
        }
    }

    fn abort_multipart_upload(
        &self,
        bucket: &str,
        key: &str,
        upload_id: &str,
    ) -> Result<(), StorageError> {
        let (stage, plan) = self.cas.abort_multipart_upload(bucket, key, upload_id);
        self.done(bucket, Stage::AbortProbe(stage), plan)
    }

    fn list_parts(
        &self,
        bucket: &str,
        key: &str,
        upload_id: &str,
    ) -> Result<Vec<PartInfo>, StorageError> {
        let (stage, plan) = self.cas.list_parts(bucket, key, upload_id);
        match self.run(bucket, Stage::PartsProbe(stage), plan, b"").0? {
            Outcome::Parts { parts } => Ok(parts),
            other => panic!("{other:?}"),
        }
    }

    fn list_multipart_uploads(
        &self,
        bucket: &str,
        max_uploads: usize,
    ) -> Result<(Vec<MultipartUpload>, bool), StorageError> {
        let (stage, plan) = self.cas.list_multipart_uploads(bucket, max_uploads);
        match self.run(bucket, Stage::UploadsScan(stage), plan, b"").0? {
            Outcome::Uploads { uploads, truncated } => Ok((uploads, truncated)),
            other => panic!("{other:?}"),
        }
    }

    fn list_objects(&self, input: &ListObjectsInput) -> Result<ListObjectsOutput, StorageError> {
        let (stage, plan) = self.cas.list_objects(input);
        match self.run(&input.bucket, Stage::Walking(stage), plan, b"").0? {
            Outcome::Listing { page } => Ok(page),
            other => panic!("{other:?}"),
        }
    }

    fn apply_journal(&self, bucket: &str, name: &str) -> Result<ReclaimStats, StorageError> {
        let (stage, plan) = self.cas.apply_journal(name);
        let stage = match stage {
            Some(s) => Stage::Applying(s),
            None => Stage::Closed,
        };
        let (result, tallies) = self.run(bucket, stage, plan, b"");
        result.map(|_| ReclaimStats::from_tallies(tallies))
    }

    fn cleanup_arriving(&self, bucket: &str) -> Result<usize, StorageError> {
        let (stage, plan) = self.cas.cleanup_arriving();
        let (result, tallies) = self.run(bucket, Stage::SweepArriving(stage), plan, b"");
        result.map(|_| tallies.staged)
    }

    /// Sweeps the buckets one after the other.
    fn sweep(
        &self,
        mut sweep: BucketSweep,
        bucket_sweep: impl Fn() -> (Stage, Plan),
    ) -> Result<BucketSweep, StorageError> {
        loop {
            match sweep.next_step() {
                SweepStep::Bucket { name } => {
                    let (stage, plan) = bucket_sweep();
                    let (result, tallies) = self.run(&name, stage, plan, b"");
                    sweep = sweep.swept(result.map(|_| tallies));
                }
                SweepStep::Done => return Ok(sweep),
                SweepStep::Failed { error } => return Err(error),
            }
        }
    }

    fn recover(&self) -> Result<RecoveryStats, StorageError> {
        let listing = self.disk.borrow().listing("/data");
        let sweep = self.sweep(self.cas.recover(listing), || {
            let (stage, plan) = self.cas.recover_bucket();
            (Stage::SweepArriving(stage), plan)
        })?;
        Ok(RecoveryStats::of(&sweep))
    }

    fn gc_orphan_blobs(&self, bucket: &str) -> Result<usize, StorageError> {
        let plan = self.cas.gc_orphan_blobs(bucket);
        let (result, tallies) = self.run(bucket, Stage::GcWalk, plan, b"");
        result.map(|_| tallies.blobs)
    }

    fn gc_abandoned_uploads(&self, max_age_secs: u64) -> Result<usize, StorageError> {
        let listing = self.disk.borrow().listing("/data");
        let max_age = max_age_secs as u128 * 1_000_000_000;
        let sweep = self.sweep(self.cas.gc_abandoned_uploads(listing), || {
            let (stage, plan) = self.cas.gc_abandoned_uploads_bucket(max_age);
            (Stage::ReapScan(stage), plan)
        })?;
        Ok(sweep.totals.uploads)
    }

    /// Writes a blob that nothing names.
    fn write_blob(&self, bucket_root: &str, body: &[u8]) -> BlobInfo {
        let id = new_blob_id();
        let path = blob_path(bucket_root, &id);
        let mut disk = self.disk.borrow_mut();
        disk.create_all(&parent(&path)).unwrap();
        let (data, writer) = stream(body);
        disk.write(&path, Data::Bytes(data)).unwrap();
        writer.finish(id)
    }

    /// The nodes at and below a directory.
    fn saved(&self, dir: &str) -> Vec<(String, Node)> {
        let front = format!("{dir}/");
        self.disk
            .borrow()
            .nodes
            .iter()
            .filter(|(p, _)| p.as_str() == dir || p.starts_with(&front))
            .map(|(p, n)| (p.clone(), n.clone()))
            .collect()
    }

    /// Puts nodes back.
    fn plant(&self, saved: &[(String, Node)]) {
        for (path, node) in saved {
            self.disk.borrow_mut().put(path, node.clone());
        }
    }

    fn write_journal(&self, bucket: &str, name: &str, journal: Journal) {
        let mut plan = Plan::new();
        push_journal(&mut plan, name, &format!("{name}.tmp.1"), journal, false);
        plan.finish(Outcome::Nothing);
        self.done(bucket, Stage::Closed, plan).unwrap();
    }

    fn live(&self, bucket_root: &str, key: &str) -> Manifest {
        let path = manifest_path(&format!("{bucket_root}/current"), key);
        self.disk.borrow().manifest(&path).unwrap()
    }

    fn blob_exists(&self, bucket_root: &str, id: &str) -> bool {
        self.has(&blob_path(bucket_root, id))
    }

    /// The live version is whole: every blob is there with its size and digest, the sizes add up,
    /// and the entity tag follows from the digests.
    fn assert_object_consistent(&self, bucket: &str, key: &str) {
        let bk = format!("/data/{bucket}");
        let m = self.live(&bk, key);
        let mut total = 0u64;
        let mut concat: Vec<u8> = Vec::new();
        for part in &m.parts {
            let bytes = self.disk.borrow().bytes(&blob_path(&bk, &part.blob_id));
            assert_eq!(bytes.len() as u64, part.size);
            assert_eq!(md5_hex(&bytes), part.md5_hex);
            total += part.size;
            concat.extend_from_slice(&hex::decode(&part.md5_hex).unwrap());
        }
        assert_eq!(total, m.content_length);
        let expected = if m.parts.len() == 1 {
            format!("\"{}\"", m.parts[0].md5_hex)
        } else {
            format!("\"{}-{}\"", md5_hex(&concat), m.parts.len())
        };
        assert_eq!(expected, m.etag);
        assert_eq!(self.get_object(bucket, key, None).unwrap().body.len() as u64, total);
    }
}

/// The commit fails, and the staged manifest cannot be removed either.
const COMMIT_FAILS: &[(&str, &str)] = &[("rename", ".manifest"), ("remove", ".manifest")];

fn store() -> Store {
    let fs = Store::new(false);
    fs.create_bucket("bkt").unwrap();
    fs
}

fn durable_store() -> Store {
    let fs = Store::new(true);
    fs.create_bucket("bkt").unwrap();
    fs
}

fn none() -> Pairs {
    Vec::new()
}

fn claims(parts: &[CompletePart]) -> Vec<CompletePart> {
    parts
        .iter()
        .map(|p| CompletePart { part_number: p.part_number, etag: p.etag.clone() })
        .collect()
}

fn all_claims(etags: &[String]) -> Vec<CompletePart> {
    etags
        .iter()
        .enumerate()
        .map(|(i, e)| CompletePart { part_number: i as i32 + 1, etag: e.clone() })
        .collect()
}

fn joined(parts: &[Vec<u8>]) -> Vec<u8> {
    let mut out = Vec::new();
    for p in parts {
        out.extend_from_slice(p);
    }
    out
}

fn upload_3_parts(fs: &Store, bucket: &str, key: &str) -> (String, [Vec<u8>; 3], [String; 3]) {
    let upload_id = fs
        .create_multipart_upload(bucket, key, "application/octet-stream", none())
        .unwrap();
    let p1: Vec<u8> = (0..6_000_000u32).map(|i| (i % 256) as u8).collect();
    let p2: Vec<u8> = (0..7_000_000u32).map(|i| ((i / 3) % 256) as u8).collect();
    let p3: Vec<u8> = b"final small part".to_vec();
    let e1 = fs.upload_part(bucket, key, &upload_id, 1, &p1[..]).unwrap();
    let e2 = fs.upload_part(bucket, key, &upload_id, 2, &p2[..]).unwrap();
    let e3 = fs.upload_part(bucket, key, &upload_id, 3, &p3[..]).unwrap();
    (upload_id, [p1, p2, p3], [e1, e2, e3])
}

fn li(bucket: &str) -> ListObjectsInput {
    ListObjectsInput {
        bucket: bucket.to_string(),
        prefix: String::new(),
        delimiter: String::new(),
        max_keys: None,
        start_after: String::new(),
        continuation_token: String::new(),
    }
}

fn put(fs: &Store, key: &str) {
    fs.put_object("bkt", key, format!("body-of-{key}").as_bytes(), "", none()).unwrap();
}

fn keys_of(out: &ListObjectsOutput) -> Vec<String> {
    out.objects.iter().map(|o| o.key.clone()).collect()
}

const BK: &str = "/data/bkt";

#[test]
fn create_bucket_makes_infra_dirs() {
    let fs = store();
    assert!(fs.is_dir("/data/bkt/current"));
    assert!(fs.is_dir("/data/bkt/arriving"));
    assert!(fs.is_dir("/data/bkt/blobs"));
    assert!(fs.is_dir("/data/bkt/deleted"));
}

#[test]
fn delete_bucket_empty_succeeds() {
    let fs = store();
    fs.delete_bucket("bkt").unwrap();
    assert!(!fs.has(BK), "bucket dir should be removed");
    assert!(matches!(fs.head_bucket("bkt").unwrap_err(), StorageError::BucketNotFound));
}

#[test]
fn delete_bucket_with_top_level_object_is_not_empty() {
    let fs = store();
    fs.put_object("bkt", "top.txt", &b"data"[..], "", none()).unwrap();
    assert!(matches!(fs.delete_bucket("bkt").unwrap_err(), StorageError::BucketNotEmpty));
    assert!(fs.has(BK));
    assert_eq!(fs.get_object("bkt", "top.txt", None).unwrap().body, b"data");
}

#[test]
fn delete_bucket_with_nested_object_is_not_empty() {
    let fs = store();
    fs.put_object("bkt", "a/b/c", &b"nested"[..], "", none()).unwrap();
    assert!(matches!(fs.delete_bucket("bkt").unwrap_err(), StorageError::BucketNotEmpty));
    assert!(fs.has(BK));
    assert_eq!(fs.get_object("bkt", "a/b/c", None).unwrap().body, b"nested");
}

#[test]
fn delete_bucket_absent_is_not_found() {
    let fs = store();
    assert!(matches!(
        fs.delete_bucket("no-such-bucket").unwrap_err(),
        StorageError::BucketNotFound
    ));
}

#[test]
fn delete_bucket_symlinked_dir_is_not_found_and_target_untouched() {
    let fs = Store::new(false);
    {
        let mut disk = fs.disk.borrow_mut();
        disk.create_all("/outside").unwrap();
        disk.write("/outside/secret", Data::Bytes(b"keep me".to_vec())).unwrap();
        disk.put("/data/evil-bucket", Node::Link("/outside".to_string()));
    }
    match fs.delete_bucket("evil-bucket") {
        Err(StorageError::BucketNotFound) => {}
        other => panic!("expected BucketNotFound for symlinked bucket dir, got {other:?}"),
    }
    assert!(matches!(
        fs.disk.borrow().nodes.get("/data/evil-bucket"),
        Some(Node::Link(_))
    ));
    assert_eq!(fs.disk.borrow().bytes("/outside/secret"), b"keep me");
}

#[test]
fn delete_bucket_blocks_on_in_flight_multipart_then_allows_after_abort() {
    let fs = store();
    let upload_id = fs.create_multipart_upload("bkt", "big.bin", "", none()).unwrap();
    fs.upload_part("bkt", "big.bin", &upload_id, 1, &vec![7u8; 1024][..]).unwrap();
    assert!(matches!(fs.delete_bucket("bkt").unwrap_err(), StorageError::BucketNotEmpty));
    assert!(fs.has(BK));
    fs.abort_multipart_upload("bkt", "big.bin", &upload_id).unwrap();
    fs.delete_bucket("bkt").unwrap();
    assert!(!fs.has(BK));
}

#[test]
fn delete_bucket_ignores_staged_manifest_temps() {
    let fs = store();
    fs.fail(COMMIT_FAILS);
    let _ = fs.put_object("bkt", "k", &b"orphan attempt"[..], "", none());
    fs.fail(&[]);
    assert!(!fs.list_dir("/data/bkt/arriving").is_empty());
    fs.delete_bucket("bkt").unwrap();
    assert!(!fs.has(BK));
}

#[test]
fn put_get_head_round_trip_single_part() {
    let fs = store();
    let body = b"hello content-addressed world".to_vec();
    let um = vec![("x-amz-meta-foo".to_string(), "bar".to_string())];
    let etag = fs.put_object("bkt", "a/b/c.txt", &body[..], "text/plain", um).unwrap();
    let expected = format!("\"{}\"", md5_hex(&body));
    assert_eq!(etag, expected);

    let meta = fs.head_object("bkt", "a/b/c.txt").unwrap();
    assert_eq!(meta.content_length, body.len() as i64);
    assert_eq!(meta.etag, expected);
    assert_eq!(meta.content_type, "text/plain");
    assert_eq!(meta.user_metadata, vec![("x-amz-meta-foo".to_string(), "bar".to_string())]);

    let res = fs.get_object("bkt", "a/b/c.txt", None).unwrap();
    assert_eq!(res.total_size, body.len() as u64);
    assert_eq!(res.body, body);

    assert_eq!(fs.count_blobs(BK), 1);
}

#[test]
fn get_missing_object_is_not_found() {
    let fs = store();
    match fs.get_object("bkt", "nope", None) {
        Err(StorageError::ObjectNotFound) => {}
        Err(other) => panic!("expected ObjectNotFound, got {other:?}"),
        Ok(_) => panic!("expected ObjectNotFound"),
    }
    let err = fs.head_object("bkt", "nope").unwrap_err();
    assert!(matches!(err, StorageError::ObjectNotFound));
}

#[test]
fn overwrite_writes_new_blob_reclaims_old_deletes_journal() {
    let fs = store();
    fs.put_object("bkt", "k", &b"first version"[..], "", none()).unwrap();
    assert_eq!(fs.count_blobs(BK), 1);
    fs.put_object("bkt", "k", &b"second version, longer"[..], "", none()).unwrap();
    assert_eq!(fs.count_blobs(BK), 1);
    assert!(fs.list_dir("/data/bkt/deleted").is_empty());
    let res = fs.get_object("bkt", "k", None).unwrap();
    assert_eq!(res.body, b"second version, longer");
}

#[test]
fn delete_reclaims_blobs_and_manifest() {
    let fs = store();
    fs.put_object("bkt", "x/y", &b"to be deleted"[..], "", none()).unwrap();
    assert_eq!(fs.count_blobs(BK), 1);
    fs.delete_object("bkt", "x/y").unwrap();
    assert_eq!(fs.count_blobs(BK), 0);
    assert!(fs.list_dir("/data/bkt/deleted").is_empty());
    assert!(matches!(
        fs.head_object("bkt", "x/y").unwrap_err(),
        StorageError::ObjectNotFound
    ));
    fs.delete_object("bkt", "x/y").unwrap();
    assert!(!fs.has("/data/bkt/current/x"));
}

#[test]
fn range_get_single_blob() {
    let fs = store();
    let data: Vec<u8> = (0..10_000u32).map(|i| (i % 256) as u8).collect();
    fs.put_object("bkt", "r", &data[..], "", none()).unwrap();
    let res = fs.get_object("bkt", "r", Some("bytes=100-199")).unwrap();
    assert_eq!(res.resolved_range, Some(ByteRange { start: 100, end: 199 }));
    assert_eq!(res.body, data[100..=199].to_vec());

    match fs.get_object("bkt", "r", Some("bytes=99999-")) {
        Err(StorageError::RangeNotSatisfiable { size }) => assert_eq!(size, 10_000),
        Err(other) => panic!("expected RangeNotSatisfiable, got {other:?}"),
        Ok(_) => panic!("expected RangeNotSatisfiable"),
    }
}

#[test]
fn missing_blob_makes_get_fail_fast() {
    let fs = store();
    fs.put_object("bkt", "k", &b"some bytes here"[..], "", none()).unwrap();
    let m = fs.live(BK, "k");
    fs.disk.borrow_mut().nodes.remove(&blob_path(BK, &m.parts[0].blob_id)).unwrap();
    match fs.get_object("bkt", "k", None) {
        Err(StorageError::ObjectNotFound) => {}
        Err(other) => panic!("expected ObjectNotFound, got {other:?}"),
        Ok(_) => panic!("expected GET to fail fast on a missing blob"),
    }
}

#[test]
fn read_path_rejects_symlinked_manifest_and_lexical_escape() {
    let fs = store();
    // A manifest outside the tree that would be served if the link to it were followed.
    let foreign = fs.write_blob(BK, b"FOREIGN BYTES");
    let external = Manifest {
        key: "evil".to_string(),
        content_type: "text/plain".to_string(),
        content_length: foreign.size,
        etag: format!("\"{}\"", foreign.md5_hex),
        last_modified: fs.now(),
        created: fs.now(),
        user_metadata: none(),
        content_disposition: String::new(),
        content_encoding: String::new(),
        cache_control: String::new(),
        parts: vec![ManifestPartRef {
            part_number: 1,
            blob_id: foreign.blob_id.clone(),
            size: foreign.size,
            md5_hex: foreign.md5_hex.clone(),
        }],
        commit_nonce: Manifest::new_nonce(),
    };
    let target = "/outside/external.manifest";
    let link = manifest_path("/data/bkt/current", "evil");
    {
        let mut disk = fs.disk.borrow_mut();
        disk.create_all("/outside").unwrap();
        disk.write(target, Data::Manifest(external)).unwrap();
        disk.put(&link, Node::Link(target.to_string()));
        // The disk follows the link: only the store stands in the way.
        assert_eq!(disk.manifest(&link).unwrap().parts[0].blob_id, foreign.blob_id);
    }
    match fs.get_object("bkt", "evil", None) {
        Err(_) => {}
        Ok(got) => assert_ne!(got.body, b"FOREIGN BYTES", "read followed a symlinked manifest"),
    }
    assert!(matches!(fs.head_object("bkt", "evil"), Err(StorageError::ObjectNotFound)));
    assert!(fs.has(target));
    assert!(matches!(
        fs.get_object("bkt", "../escape", None),
        Err(StorageError::PathTraversal)
    ));
    assert!(matches!(
        fs.head_object("bkt", "a/../../etc/passwd").unwrap_err(),
        StorageError::PathTraversal
    ));
}

#[test]
fn read_path_rejects_planted_intermediate_symlink_under_current() {
    let fs = store();
    fs.put_object("bkt", "realdir/secret", &b"SECRET BYTES"[..], "", none()).unwrap();
    fs.disk
        .borrow_mut()
        .put("/data/bkt/current/linkdir", Node::Link("realdir".to_string()));
    assert!(matches!(
        fs.get_object("bkt", "linkdir/secret", None),
        Err(StorageError::ObjectNotFound)
    ));
    assert!(matches!(
        fs.head_object("bkt", "linkdir/secret"),
        Err(StorageError::ObjectNotFound)
    ));
    assert_eq!(fs.get_object("bkt", "realdir/secret", None).unwrap().body, b"SECRET BYTES");
}

#[test]
fn dot_segment_key_collision_rejected_no_data_loss() {
    let fs = store();
    fs.put_object("bkt", "a/b", &b"FIRST body for a/b"[..], "", none()).unwrap();
    let dot = fs.put_object("bkt", "a/./b", &b"SECOND body via a/./b"[..], "", none());
    assert!(
        matches!(dot, Err(StorageError::PathTraversal)),
        "PUT a/./b must be rejected (400/PathTraversal), got {dot:?}"
    );
    assert_eq!(
        fs.get_object("bkt", "a/b", None).unwrap().body,
        b"FIRST body for a/b",
        "the `.`-segment key must not have overwritten a/b"
    );
    assert!(matches!(
        fs.get_object("bkt", "a/./b", None),
        Err(StorageError::PathTraversal)
    ));
    for bad in ["a/.", "./a", "a/../b", ".", "..", "a/", "/a", "a//b"] {
        assert!(
            matches!(
                fs.put_object("bkt", bad, &b"x"[..], "", none()),
                Err(StorageError::PathTraversal)
            ),
            "PUT {bad:?} must be rejected"
        );
        assert!(
            matches!(fs.head_object("bkt", bad), Err(StorageError::PathTraversal)),
            "HEAD {bad:?} must be rejected"
        );
    }
    fs.put_object("bkt", "a..b", &b"double-dot substring"[..], "", none()).unwrap();
    assert_eq!(fs.get_object("bkt", "a..b", None).unwrap().body, b"double-dot substring");
}

#[test]
fn key_a_and_a_slash_b_coexist() {
    let fs = store();
    fs.put_object("bkt", "a", &b"i am a"[..], "", none()).unwrap();
    fs.put_object("bkt", "a/b", &b"i am a slash b"[..], "", none()).unwrap();
    assert_eq!(fs.get_object("bkt", "a", None).unwrap().body, b"i am a");
    assert_eq!(fs.get_object("bkt", "a/b", None).unwrap().body, b"i am a slash b");
}

#[test]
fn cas_key_ending_in_meta_round_trips() {
    let fs = store();
    fs.put_object("bkt", "report.meta", &b"meta-keyed object"[..], "", none()).unwrap();
    let res = fs.get_object("bkt", "report.meta", None).unwrap();
    assert_eq!(res.body, b"meta-keyed object");
}

#[test]
fn key_and_a_meta_slash_b_coexist() {
    let fs = store();
    fs.put_object("bkt", "a", &b"i am a"[..], "", none()).unwrap();
    fs.put_object("bkt", "a.meta/b", &b"child under a.meta dir"[..], "", none()).unwrap();
    assert_eq!(fs.get_object("bkt", "a", None).unwrap().body, b"i am a");
    assert_eq!(
        fs.get_object("bkt", "a.meta/b", None).unwrap().body,
        b"child under a.meta dir"
    );
}

#[test]
fn a_meta_slash_b_then_key_coexist_either_order() {
    let fs = store();
    fs.put_object("bkt", "a.meta/b", &b"child first"[..], "", none()).unwrap();
    fs.put_object("bkt", "a", &b"now a too"[..], "", none()).unwrap();
    assert_eq!(fs.get_object("bkt", "a", None).unwrap().body, b"now a too");
    assert_eq!(fs.get_object("bkt", "a.meta/b", None).unwrap().body, b"child first");
}

#[test]
fn complete_multipart_over_a_meta_prefix_succeeds() {
    let fs = store();
    fs.put_object("bkt", "a.meta/b", &b"child first"[..], "", none()).unwrap();
    let (upload_id, parts, etags) = upload_3_parts(&fs, "bkt", "a");
    fs.complete_multipart_upload("bkt", "a", &upload_id, &all_claims(&etags)).unwrap();
    assert!(!fs.has(&format!("/data/bkt/arriving/{upload_id}")));
    let want = joined(&parts);
    assert_eq!(
        md5_hex(&fs.get_object("bkt", "a", None).unwrap().body),
        md5_hex(&want)
    );
    assert_eq!(fs.get_object("bkt", "a.meta/b", None).unwrap().body, b"child first");
}

#[test]
fn delete_key_while_a_meta_dir_exists_is_idempotent() {
    let fs = store();
    fs.put_object("bkt", "a.meta/b", &b"keep me"[..], "", none()).unwrap();
    fs.delete_object("bkt", "a").unwrap();
    assert_eq!(fs.get_object("bkt", "a.meta/b", None).unwrap().body, b"keep me");
}

#[test]
fn reserved_manifest_suffix_key_is_rejected() {
    let fs = store();
    for bad in [
        "report.s3gw-live.meta",
        "dir/report.s3gw-live.meta",
        "a.s3gw-live.meta/b",
        "x/a.s3gw-live.meta/y",
    ] {
        let err = fs.put_object("bkt", bad, &b"x"[..], "", none()).unwrap_err();
        assert!(
            matches!(err, StorageError::PathTraversal),
            "reserved-suffix key {bad:?} must be rejected, got {err:?}"
        );
    }
    fs.put_object("bkt", "report.meta", &b"ordinary meta key"[..], "", none()).unwrap();
    assert_eq!(
        fs.get_object("bkt", "report.meta", None).unwrap().body,
        b"ordinary meta key"
    );
}

#[test]
fn normal_nested_keys_coexist_not_rejected() {
    let fs = store();
    for k in ["a", "a/b", "a/b/c"] {
        fs.put_object("bkt", k, format!("body-{k}").as_bytes(), "", none()).unwrap();
    }
    for k in ["a", "a/b", "a/b/c"] {
        assert_eq!(
            fs.get_object("bkt", k, None).unwrap().body,
            format!("body-{k}").as_bytes()
        );
    }
    let fs2 = store();
    for k in ["x/y/z", "x/y", "x"] {
        fs2.put_object("bkt", k, format!("v-{k}").as_bytes(), "", none()).unwrap();
    }
    for k in ["x", "x/y", "x/y/z"] {
        assert_eq!(
            fs2.get_object("bkt", k, None).unwrap().body,
            format!("v-{k}").as_bytes()
        );
    }
}

#[test]
fn invalid_keys_rejected() {
    let fs = store();
    for bad in ["../escape", "a/../../b", "with\0null", "/abs/key"] {
        let err = fs.put_object("bkt", bad, &b"x"[..], "", none()).unwrap_err();
        assert!(matches!(err, StorageError::PathTraversal), "key {bad:?} -> {err:?}");
    }
}

#[test]
fn crash_before_rename_keeps_old_version_and_orphan_arriving() {
    let fs = store();
    fs.put_object("bkt", "k", &b"original"[..], "", none()).unwrap();
    let orig_blob = fs.live(BK, "k").parts[0].blob_id.clone();

    fs.fail(COMMIT_FAILS);
    let res = fs.put_object("bkt", "k", &b"new attempt"[..], "", none());
    fs.fail(&[]);
    assert!(res.is_err());

    let m = fs.live(BK, "k");
    assert_eq!(m.parts[0].blob_id, orig_blob);
    assert!(fs.blob_exists(BK, &orig_blob));
    let res = fs.get_object("bkt", "k", None).unwrap();
    assert_eq!(res.body, b"original");

    let arriving = fs.list_dir("/data/bkt/arriving");
    assert_eq!(arriving.len(), 1, "expected one orphan arriving manifest: {arriving:?}");

    let removed = fs.cleanup_arriving("bkt").unwrap();
    assert_eq!(removed, 1);
    assert!(fs.list_dir("/data/bkt/arriving").is_empty());
    assert!(fs.blob_exists(BK, &orig_blob));
    assert_eq!(fs.count_blobs(BK), 1);
}

#[test]
fn crash_after_rename_before_reclaim_new_live_journal_present_then_recovered() {
    let fs = store();
    fs.put_object("bkt", "k", &b"v1-bytes"[..], "", none()).unwrap();
    let v1_blob = fs.live(BK, "k").parts[0].blob_id.clone();

    fs.fail(&[("remove", "/blobs/")]);
    fs.put_object("bkt", "k", &b"v2-different"[..], "", none()).unwrap();
    fs.fail(&[]);

    let res = fs.get_object("bkt", "k", None).unwrap();
    assert_eq!(res.body, b"v2-different");
    assert!(fs.blob_exists(BK, &v1_blob));
    let journals = fs.list_dir("/data/bkt/deleted");
    assert_eq!(journals.len(), 1, "expected one journal: {journals:?}");
    assert_eq!(fs.count_blobs(BK), 2, "v1 + v2 blobs both present pre-recovery");

    let stats = fs.apply_journal("bkt", &journals[0]).unwrap();
    assert_eq!(stats.blobs_deleted, 1);
    assert_eq!(stats.journals_removed, 1);
    assert!(!fs.blob_exists(BK, &v1_blob));
    assert!(fs.list_dir("/data/bkt/deleted").is_empty());
    assert_eq!(fs.count_blobs(BK), 1);

    let stats2 = fs.apply_journal("bkt", &journals[0]).unwrap();
    assert_eq!(stats2, ReclaimStats { blobs_deleted: 0, journals_removed: 0 });
}

#[test]
fn journal_nonce_mismatch_leaves_old_blobs() {
    let fs = store();
    fs.put_object("bkt", "k", &b"live version"[..], "", none()).unwrap();
    let live_blob = fs.live(BK, "k").parts[0].blob_id.clone();
    let name = format!("{}.journal", new_blob_id());
    fs.write_journal(
        "bkt",
        &name,
        Journal {
            mode: JournalMode::Publish,
            supersedes_key: "k".into(),
            commit_nonce: "does-not-match".into(),
            expected_new_etag: "\"whatever\"".into(),
            blobs: vec![live_blob.clone()],
        },
    );
    let stats = fs.apply_journal("bkt", &name).unwrap();
    assert_eq!(stats.blobs_deleted, 0, "must not delete a still-live blob");
    assert_eq!(stats.journals_removed, 1);
    assert!(fs.blob_exists(BK, &live_blob));
    assert_eq!(fs.get_object("bkt", "k", None).unwrap().body, b"live version");
}

#[test]
fn crash_after_journal_before_journal_cleanup_recovers() {
    let fs = store();
    fs.put_object("bkt", "k", &b"vA"[..], "", none()).unwrap();
    fs.fail(&[("remove", "/deleted/")]);
    fs.put_object("bkt", "k", &b"vB-new"[..], "", none()).unwrap();
    fs.fail(&[]);
    let journals = fs.list_dir("/data/bkt/deleted");
    assert_eq!(journals.len(), 1);
    let stats = fs.apply_journal("bkt", &journals[0]).unwrap();
    assert_eq!(stats.journals_removed, 1);
    assert!(fs.list_dir("/data/bkt/deleted").is_empty());
    assert_eq!(fs.get_object("bkt", "k", None).unwrap().body, b"vB-new");
}

#[test]
fn delete_journal_left_then_recovered() {
    let fs = store();
    let info = fs.write_blob(BK, &b"orphaned by lost reclaim"[..]);
    let name = format!("{}.journal", new_blob_id());
    fs.write_journal(
        "bkt",
        &name,
        Journal {
            mode: JournalMode::Delete,
            supersedes_key: "gone".into(),
            commit_nonce: String::new(),
            expected_new_etag: String::new(),
            blobs: vec![info.blob_id.clone()],
        },
    );
    let stats = fs.apply_journal("bkt", &name).unwrap();
    assert_eq!(stats.blobs_deleted, 1);
    assert!(!fs.blob_exists(BK, &info.blob_id));
}

#[test]
fn apply_journal_keeps_journal_when_reclaim_unlink_fails_then_recover_retries() {
    let fs = store();
    let info = fs.write_blob(BK, &b"blob whose unlink will fail"[..]);
    let name = format!("{}.journal", new_blob_id());
    let path = format!("/data/bkt/deleted/{name}");
    fs.write_journal(
        "bkt",
        &name,
        Journal {
            mode: JournalMode::Delete,
            supersedes_key: "gone".into(),
            commit_nonce: String::new(),
            expected_new_etag: String::new(),
            blobs: vec![info.blob_id.clone()],
        },
    );
    fs.fail(&[("remove", "/blobs/")]);
    let stats = fs.apply_journal("bkt", &name).unwrap();
    fs.fail(&[]);
    assert_eq!(stats.blobs_deleted, 0, "the unlink failed -> nothing counted deleted");
    assert_eq!(stats.journals_removed, 0, "the journal must NOT be removed on reclaim failure");
    assert!(fs.has(&path));
    assert!(fs.blob_exists(BK, &info.blob_id));
    let rec = fs.recover().unwrap();
    assert!(rec.journals_processed >= 1);
    assert!(!fs.blob_exists(BK, &info.blob_id));
    assert!(!fs.has(&path));
}

#[test]
fn a_journaled_blob_that_is_not_found_is_passed_over() {
    let fs = store();
    let there = fs.write_blob(BK, b"there");
    let unseen = fs.write_blob(BK, b"cannot be examined");
    let dangling = new_blob_id();
    let gone = new_blob_id();
    let link = blob_path(BK, &dangling);
    {
        let mut disk = fs.disk.borrow_mut();
        disk.create_all(&link[..link.rfind('/').unwrap()]).unwrap();
        disk.put(&link, Node::Link("/nowhere".to_string()));
    }
    let name = format!("{}.journal", new_blob_id());
    fs.write_journal(
        "bkt",
        &name,
        Journal {
            mode: JournalMode::Delete,
            supersedes_key: "gone".into(),
            commit_nonce: String::new(),
            expected_new_etag: String::new(),
            blobs: vec![
                there.blob_id.clone(),
                unseen.blob_id.clone(),
                dangling,
                gone,
                "not-a-blob".into(),
            ],
        },
    );
    let unseen_path: &'static str = Box::leak(blob_path(BK, &unseen.blob_id).into_boxed_str());
    fs.fail(&[("examine", unseen_path)]);
    let stats = fs.apply_journal("bkt", &name).unwrap();
    fs.fail(&[]);
    // One blob was there to be removed; the others do not hold the journal back.
    assert_eq!((stats.blobs_deleted, stats.journals_removed), (1, 1));
    assert!(!fs.blob_exists(BK, &there.blob_id));
    assert!(fs.blob_exists(BK, &unseen.blob_id));
    assert!(fs.has(&link));
    assert!(!fs.has(&format!("/data/bkt/deleted/{name}")));
}

#[test]
fn planted_journal_with_escaping_blob_id_does_not_unlink_outside() {
    let fs = store();
    {
        let mut disk = fs.disk.borrow_mut();
        disk.create_all("/outside").unwrap();
        disk.write("/outside/DO-NOT-DELETE", Data::Bytes(b"precious host file".to_vec()))
            .unwrap();
    }
    let good = fs.write_blob(BK, &b"genuinely orphaned"[..]);
    let name = format!("{}.journal", new_blob_id());
    fs.write_journal(
        "bkt",
        &name,
        Journal {
            mode: JournalMode::Delete,
            supersedes_key: "gone".into(),
            commit_nonce: String::new(),
            expected_new_etag: String::new(),
            blobs: vec![
                "../../../../../outside/DO-NOT-DELETE".to_string(),
                "/outside/DO-NOT-DELETE".to_string(),
                good.blob_id.clone(),
            ],
        },
    );
    let _ = fs.recover().unwrap();
    assert_eq!(fs.disk.borrow().bytes("/outside/DO-NOT-DELETE"), b"precious host file");
    assert!(!fs.blob_exists(BK, &good.blob_id));
    assert!(!fs.has(&format!("/data/bkt/deleted/{name}")));
}

#[test]
fn recover_removes_orphan_arriving_manifest_keeps_live_object() {
    let fs = store();
    fs.put_object("bkt", "live", &b"the live object"[..], "", none()).unwrap();
    let live_blob = fs.live(BK, "live").parts[0].blob_id.clone();

    fs.fail(COMMIT_FAILS);
    let _ = fs.put_object("bkt", "doomed", &b"never commits"[..], "", none());
    fs.fail(&[]);
    let arriving = fs.list_dir("/data/bkt/arriving");
    assert_eq!(arriving.len(), 1, "one orphan arriving manifest: {arriving:?}");

    let leaked = fs.write_blob(BK, &b"leaked by a lost arriving manifest"[..]);
    assert!(fs.blob_exists(BK, &leaked.blob_id));

    let stats = fs.recover().unwrap();
    assert_eq!(stats.arriving_manifests_removed, 1);
    assert!(fs.list_dir("/data/bkt/arriving").is_empty());
    assert!(fs.blob_exists(BK, &live_blob));
    assert_eq!(fs.get_object("bkt", "live", None).unwrap().body, b"the live object");
    assert!(fs.blob_exists(BK, &leaked.blob_id));

    let stats2 = fs.recover().unwrap();
    assert_eq!(stats2.arriving_manifests_removed, 0);
    assert_eq!(stats2.journals_processed, 0);
    assert!(fs.blob_exists(BK, &live_blob));
}

#[test]
fn recover_finishes_committed_swap_journal_reclaims_old_blobs() {
    let fs = store();
    fs.put_object("bkt", "k", &b"v1-bytes-old"[..], "", none()).unwrap();
    let v1_blob = fs.live(BK, "k").parts[0].blob_id.clone();
    fs.fail(&[("remove", "/blobs/")]);
    fs.put_object("bkt", "k", &b"v2-bytes-new-and-longer"[..], "", none()).unwrap();
    fs.fail(&[]);
    let v2_blob = fs.live(BK, "k").parts[0].blob_id.clone();
    assert_eq!(fs.list_dir("/data/bkt/deleted").len(), 1, "journal present pre-recovery");
    assert_eq!(fs.count_blobs(BK), 2, "v1 + v2 both present pre-recovery");

    let stats = fs.recover().unwrap();
    assert_eq!(stats.journals_processed, 1);
    assert_eq!(stats.journal_blobs_reclaimed, 1, "v1 (old) blob reclaimed");
    assert!(fs.list_dir("/data/bkt/deleted").is_empty());
    assert!(!fs.blob_exists(BK, &v1_blob));
    assert!(fs.blob_exists(BK, &v2_blob));
    assert_eq!(fs.get_object("bkt", "k", None).unwrap().body, b"v2-bytes-new-and-longer");

    let stats2 = fs.recover().unwrap();
    assert_eq!(stats2.journals_processed, 0);
    assert_eq!(stats2.journal_blobs_reclaimed, 0);
    assert!(fs.blob_exists(BK, &v2_blob));
}

#[test]
fn recover_nonce_mismatch_journal_keeps_live_blobs() {
    let fs = store();
    fs.put_object("bkt", "k", &b"still the live version"[..], "", none()).unwrap();
    let live_blob = fs.live(BK, "k").parts[0].blob_id.clone();
    fs.write_journal(
        "bkt",
        &format!("{}.journal", new_blob_id()),
        Journal {
            mode: JournalMode::Publish,
            supersedes_key: "k".into(),
            commit_nonce: "nonce-that-never-committed".into(),
            expected_new_etag: "\"x\"".into(),
            blobs: vec![live_blob.clone()],
        },
    );
    let stats = fs.recover().unwrap();
    assert_eq!(stats.journals_processed, 1);
    assert_eq!(stats.journal_blobs_reclaimed, 0, "must NOT delete a still-live blob");
    assert!(fs.list_dir("/data/bkt/deleted").is_empty(), "journal removed");
    assert!(fs.blob_exists(BK, &live_blob));
    assert_eq!(fs.get_object("bkt", "k", None).unwrap().body, b"still the live version");

    let stats2 = fs.recover().unwrap();
    assert_eq!(
        stats2,
        RecoveryStats {
            buckets: 1,
            arriving_manifests_removed: 0,
            journals_processed: 0,
            journal_blobs_reclaimed: 0,
        }
    );
}

#[test]
fn recover_keeps_in_progress_multipart_upload_dir() {
    let fs = store();
    let key = "mp/in-flight";
    let (upload_id, parts, etags) = upload_3_parts(&fs, "bkt", key);
    let upload_dir = format!("/data/bkt/arriving/{upload_id}");
    assert!(fs.has(&upload_dir));
    assert_eq!(fs.count_blobs(BK), 3);

    let stats = fs.recover().unwrap();
    assert_eq!(stats.arriving_manifests_removed, 0);
    assert!(fs.has(&upload_dir), "in-progress multipart upload dir must survive recover()");
    assert_eq!(fs.count_blobs(BK), 3, "part blobs survive recover()");
    assert_eq!(fs.list_parts("bkt", key, &upload_id).unwrap().len(), 3);

    fs.complete_multipart_upload("bkt", key, &upload_id, &all_claims(&etags)).unwrap();
    let got = fs.get_object("bkt", key, None).unwrap().body;
    assert_eq!(md5_hex(&got), md5_hex(&joined(&parts)));
}

#[test]
fn gc_abandoned_uploads_reaps_old_keeps_young() {
    let fs = store();
    let old_id = fs.create_multipart_upload("bkt", "old/obj", "", none()).unwrap();
    fs.upload_part("bkt", "old/obj", &old_id, 1, &vec![1u8; 2048][..]).unwrap();
    fs.disk.borrow_mut().now += 2 * 3600;
    let young_id = fs.create_multipart_upload("bkt", "young/obj", "", none()).unwrap();
    fs.upload_part("bkt", "young/obj", &young_id, 1, &vec![2u8; 1024][..]).unwrap();
    assert_eq!(fs.count_blobs(BK), 2, "two part blobs before sweep");

    let reaped = fs.gc_abandoned_uploads(3600).unwrap();
    assert_eq!(reaped, 1, "exactly the old upload should be reaped");
    assert!(!fs.has(&format!("/data/bkt/arriving/{old_id}")));
    assert!(fs.has(&format!("/data/bkt/arriving/{young_id}")));
    assert_eq!(fs.list_parts("bkt", "young/obj", &young_id).unwrap().len(), 1);
    assert_eq!(fs.count_blobs(BK), 1, "only the young upload's part blob remains");
    assert_eq!(fs.gc_abandoned_uploads(3600).unwrap(), 0);
}

#[test]
fn gc_abandoned_uploads_off_by_default_via_recover() {
    let fs = store();
    let id = fs.create_multipart_upload("bkt", "k", "", none()).unwrap();
    fs.upload_part("bkt", "k", &id, 1, &vec![9u8; 512][..]).unwrap();
    fs.disk.borrow_mut().now += 10 * 86_400;
    let dir = format!("/data/bkt/arriving/{id}");

    fs.recover().unwrap();
    assert!(fs.has(&dir), "recover() must keep in-flight uploads");

    assert_eq!(fs.gc_abandoned_uploads(86_400).unwrap(), 1);
    assert!(!fs.has(&dir));
}

#[test]
fn gc_orphan_blobs_deletes_unreferenced_keeps_referenced() {
    let fs = store();
    fs.put_object("bkt", "live", &b"referenced by a live manifest"[..], "", none()).unwrap();
    let live_blob = fs.live(BK, "live").parts[0].blob_id.clone();
    let (upload_id, _parts, _etags) = upload_3_parts(&fs, "bkt", "mp/keep");
    let kept: Vec<String> = (1..=3)
        .map(|n| {
            let path = format!("/data/bkt/arriving/{upload_id}/parts/{n:05}.ref");
            part_of(&fs.disk.borrow().read(&path).unwrap()).unwrap().blob_id
        })
        .collect();
    let orphan = fs.write_blob(BK, &b"orphan from a lost journal"[..]);
    assert_eq!(fs.count_blobs(BK), 5);

    let reclaimed = fs.gc_orphan_blobs("bkt").unwrap();
    assert_eq!(reclaimed, 1, "exactly the one orphan blob is reclaimed");
    assert!(!fs.blob_exists(BK, &orphan.blob_id), "orphan deleted");
    assert!(fs.blob_exists(BK, &live_blob), "live manifest blob kept");
    for id in &kept {
        assert!(fs.blob_exists(BK, id), "in-flight upload part {id} must be kept");
    }
    assert_eq!(
        fs.get_object("bkt", "live", None).unwrap().body,
        b"referenced by a live manifest"
    );
    assert_eq!(fs.list_parts("bkt", "mp/keep", &upload_id).unwrap().len(), 3);
    assert_eq!(fs.gc_orphan_blobs("bkt").unwrap(), 0);
}

#[test]
fn gc_keeps_the_blob_of_a_key_that_looks_like_a_temporary_file() {
    let fs = store();
    put(&fs, "a.tmp.b");
    assert_eq!(fs.gc_orphan_blobs("bkt").unwrap(), 0);
    assert_eq!(fs.get_object("bkt", "a.tmp.b", None).unwrap().body, b"body-of-a.tmp.b");
    assert_eq!(keys_of(&fs.list_objects(&li("bkt")).unwrap()), vec!["a.tmp.b"]);
    assert!(matches!(fs.delete_bucket("bkt"), Err(StorageError::BucketNotEmpty)));
}

#[test]
fn recover_sweeps_all_buckets() {
    let fs = Store::new(false);
    for b in ["bucket-one", "bucket-two"] {
        fs.create_bucket(b).unwrap();
        fs.fail(COMMIT_FAILS);
        let _ = fs.put_object(b, "doomed", &b"x"[..], "", none());
        fs.fail(&[]);
    }
    let stats = fs.recover().unwrap();
    assert_eq!(stats.buckets, 2);
    assert_eq!(stats.arriving_manifests_removed, 2);
    for b in ["bucket-one", "bucket-two"] {
        assert!(fs.list_dir(&format!("/data/{b}/arriving")).is_empty());
    }
}

#[test]
fn empty_segment_keys_rejected_no_collision() {
    let fs = store();
    fs.put_object("bkt", "a", &b"i am the real a"[..], "", none()).unwrap();
    let err = fs
        .put_object("bkt", "a/", &b"impostor with trailing slash"[..], "", none())
        .unwrap_err();
    assert!(matches!(err, StorageError::PathTraversal), "a/ -> {err:?}");
    let res = fs.get_object("bkt", "a", None).unwrap();
    assert_eq!(res.body, b"i am the real a");
    for bad in ["a//b", "/a", "a/", "/", "a/b/", "//"] {
        let err = fs.put_object("bkt", bad, &b"x"[..], "", none()).unwrap_err();
        assert!(matches!(err, StorageError::PathTraversal), "key {bad:?} -> {err:?}");
    }
    fs.put_object("bkt", "a/b", &b"genuine a slash b"[..], "", none()).unwrap();
    let err = fs
        .put_object("bkt", "a//b", &b"collision attempt"[..], "", none())
        .unwrap_err();
    assert!(matches!(err, StorageError::PathTraversal));
    assert_eq!(fs.get_object("bkt", "a/b", None).unwrap().body, b"genuine a slash b");
}

#[test]
fn malformed_blob_id_in_manifest_errors_no_path_escape() {
    let fs = store();
    fs.put_object("bkt", "k", &b"legit bytes"[..], "", none()).unwrap();
    let mut m = fs.live(BK, "k");
    m.parts[0].blob_id = "../../../../etc/passwd".to_string();
    let path = manifest_path("/data/bkt/current", "k");
    fs.disk.borrow_mut().write(&path, Data::Manifest(m)).unwrap();
    match fs.get_object("bkt", "k", None) {
        Err(StorageError::Io(e)) => assert_eq!(e.kind, IoErrorKind::InvalidData),
        Err(other) => panic!("expected Io(InvalidData) for malformed blob_id, got {other:?}"),
        Ok(_) => panic!("expected GET to error on a malformed blob_id, not succeed"),
    }
}

#[test]
fn fsync_false_mode_still_round_trips() {
    let fs = Store::new(false);
    fs.create_bucket("bkt").unwrap();
    fs.put_object("bkt", "k", &b"no-fsync path"[..], "", none()).unwrap();
    assert_eq!(fs.get_object("bkt", "k", None).unwrap().body, b"no-fsync path");
    fs.delete_object("bkt", "k").unwrap();
    assert!(matches!(
        fs.head_object("bkt", "k").unwrap_err(),
        StorageError::ObjectNotFound
    ));
}

#[test]
fn multipart_create_upload_complete_round_trip() {
    let fs = store();
    let key = "big/object.bin";
    let (upload_id, parts, etags) = upload_3_parts(&fs, "bkt", key);
    for (p, e) in parts.iter().zip(etags.iter()) {
        assert_eq!(*e, format!("\"{}\"", md5_hex(p)));
    }

    let listed = fs.list_parts("bkt", key, &upload_id).unwrap();
    assert_eq!(listed.len(), 3);
    assert_eq!(listed[0].part_number, 1);
    assert_eq!(listed[0].size, parts[0].len() as i64);
    assert_eq!(listed[2].part_number, 3);
    assert_eq!(listed[0].etag, etags[0]);
    assert_eq!(listed[0].last_modified_unix, fs.now());

    assert_eq!(fs.count_blobs(BK), 3);
    let composite = fs
        .complete_multipart_upload("bkt", key, &upload_id, &all_claims(&etags))
        .unwrap();
    let expected = {
        let mut concat = Vec::new();
        for p in &parts {
            concat.extend_from_slice(&md5_digest(p));
        }
        format!("\"{}-3\"", md5_hex(&concat))
    };
    assert_eq!(composite, expected);
    assert!(composite.ends_with("-3\""));

    let total: usize = parts.iter().map(|p| p.len()).sum();
    let meta = fs.head_object("bkt", key).unwrap();
    assert_eq!(meta.etag, composite);
    assert_eq!(meta.content_length, total as i64);

    let want = joined(&parts);
    let res = fs.get_object("bkt", key, None).unwrap();
    assert_eq!(res.total_size, total as u64);
    assert_eq!(res.body.len(), want.len());
    assert_eq!(md5_hex(&res.body), md5_hex(&want));

    assert!(!fs.has(&format!("/data/bkt/arriving/{upload_id}")));
    assert_eq!(fs.count_blobs(BK), 3);
    assert!(fs.list_dir("/data/bkt/deleted").is_empty());
}

#[test]
fn complete_moves_part_blobs_so_surviving_refs_cannot_delete_live_object() {
    let fs = store();
    let key = "live/object.bin";
    let (upload_id, parts, etags) = upload_3_parts(&fs, "bkt", key);
    let upload_dir = format!("/data/bkt/arriving/{upload_id}");
    let saved = fs.saved(&upload_dir);

    let complete = all_claims(&etags);
    let composite = fs.complete_multipart_upload("bkt", key, &upload_id, &complete).unwrap();
    let want = joined(&parts);
    assert_eq!(fs.count_blobs(BK), 3, "committed object owns exactly its 3 blobs");
    fs.assert_object_consistent("bkt", key);
    let got = fs.get_object("bkt", key, None).unwrap().body;
    assert_eq!(md5_hex(&got), md5_hex(&want), "live object bytes after Complete");

    // The upload survives its completion and is given up.
    fs.plant(&saved);
    fs.abort_multipart_upload("bkt", key, &upload_id).unwrap();
    assert_eq!(
        fs.count_blobs(BK),
        3,
        "Abort via the surviving refs must NOT touch the live object's blobs"
    );
    fs.assert_object_consistent("bkt", key);
    let got = fs.get_object("bkt", key, None).unwrap().body;
    assert_eq!(md5_hex(&got), md5_hex(&want), "live object survives Abort");

    // It survives again and is removed as an old one.
    fs.plant(&saved);
    let old = fs.now() - 48 * 3600;
    fs.disk.borrow_mut().times.insert(format!("{upload_dir}/upload.json"), old);
    assert_eq!(fs.gc_abandoned_uploads(3600).unwrap(), 1);
    assert!(!fs.has(&upload_dir));
    assert_eq!(
        fs.count_blobs(BK),
        3,
        "gc_abandoned_uploads via the surviving refs must NOT touch the live blobs"
    );
    let got = fs.get_object("bkt", key, None).unwrap().body;
    assert_eq!(md5_hex(&got), md5_hex(&want), "live object survives GC");

    // It survives once more and is completed again.
    fs.plant(&saved);
    let _ = fs.complete_multipart_upload("bkt", key, &upload_id, &complete);
    fs.assert_object_consistent("bkt", key);
    let got = fs.get_object("bkt", key, None).unwrap().body;
    assert_eq!(
        md5_hex(&got),
        md5_hex(&want),
        "live object survives a Complete RETRY against the surviving upload dir"
    );
    assert_eq!(fs.head_object("bkt", key).unwrap().etag, composite);

    // With the directory and the mark out of reach, the records outlive the completion by
    // themselves.
    let key = "moved/object";
    let upload_id = fs.create_multipart_upload("bkt", key, "", none()).unwrap();
    let etag = fs.upload_part("bkt", key, &upload_id, 1, b"part one").unwrap();
    fs.fail(&[("remove", "/arriving/"), ("write", "completed")]);
    fs.complete_multipart_upload("bkt", key, &upload_id, &all_claims(&[etag])).unwrap();
    fs.fail(&[]);
    assert!(fs.has(&format!("/data/bkt/arriving/{upload_id}/parts/00001.ref")));
    fs.abort_multipart_upload("bkt", key, &upload_id).unwrap();
    assert_eq!(fs.get_object("bkt", key, None).unwrap().body, b"part one");
}

#[test]
fn an_upload_of_exactly_the_age_is_kept() {
    let fs = store();
    let id = fs.create_multipart_upload("bkt", "k", "", none()).unwrap();
    let dir = format!("/data/bkt/arriving/{id}");
    fs.disk.borrow_mut().now += 3600;
    assert_eq!(fs.gc_abandoned_uploads(3600).unwrap(), 0);
    assert!(fs.has(&dir));
    fs.disk.borrow_mut().now += 1;
    assert_eq!(fs.gc_abandoned_uploads(3600).unwrap(), 1);
    assert!(!fs.has(&dir));
}

#[test]
fn an_upload_without_a_readable_record_is_kept() {
    let fs = store();
    let id = fs.create_multipart_upload("bkt", "k", "", none()).unwrap();
    let dir = format!("/data/bkt/arriving/{id}");
    fs.disk.borrow_mut().nodes.remove(&format!("{dir}/upload.json"));
    fs.disk.borrow_mut().now += 10 * 3600;
    assert_eq!(fs.gc_abandoned_uploads(3600).unwrap(), 0);
    assert!(fs.has(&dir));
}

#[test]
fn a_sweep_for_orphans_ends_where_the_uploads_cannot_be_told() {
    let fs = store();
    let (upload_id, _parts, _etags) = upload_3_parts(&fs, "bkt", "mp/keep");
    fs.write_blob(BK, b"orphan");
    assert_eq!(fs.count_blobs(BK), 4);
    for path in ["/arriving", "/parts"] {
        fs.fail(&[("list", path)]);
        assert!(matches!(fs.gc_orphan_blobs("bkt"), Err(StorageError::Io(_))), "{path}");
        assert_eq!(fs.count_blobs(BK), 4, "{path}");
    }
    fs.fail(&[]);
    assert_eq!(fs.gc_orphan_blobs("bkt").unwrap(), 1);
    assert_eq!(fs.count_blobs(BK), 3);
    assert_eq!(fs.list_parts("bkt", "mp/keep", &upload_id).unwrap().len(), 3);
    // Nothing is left for a second sweep.
    assert_eq!(fs.gc_orphan_blobs("bkt").unwrap(), 0);
    assert_eq!(fs.count_blobs(BK), 3);
}

#[test]
fn all_pages_make_one_listing() {
    let fs = store();
    for key in ["a", "b/1", "b/2", "c", "d/x", "e", "f/1", "f/2", "g"] {
        put(&fs, key);
    }
    let mut input = li("bkt");
    input.delimiter = "/".to_string();
    let whole = fs.list_objects(&input).unwrap();
    assert!(!whole.is_truncated);
    assert_eq!(keys_of(&whole), ["a", "c", "e", "g"]);
    assert_eq!(whole.common_prefixes, ["b/", "d/", "f/"]);
    for max in 1..8 {
        input.max_keys = Some(max);
        input.continuation_token = String::new();
        let (mut keys, mut prefixes) = (Vec::new(), Vec::new());
        loop {
            let page = fs.list_objects(&input).unwrap();
            assert!(page.objects.len() + page.common_prefixes.len() <= max as usize);
            keys.extend(keys_of(&page));
            prefixes.extend(page.common_prefixes.iter().cloned());
            if !page.is_truncated {
                break;
            }
            assert!(!page.next_continuation_token.is_empty());
            input.continuation_token = page.next_continuation_token;
        }
        assert_eq!(keys, keys_of(&whole), "{max}");
        assert_eq!(prefixes, whole.common_prefixes, "{max}");
    }
}

#[test]
fn a_part_that_is_stored_again_takes_the_place_of_the_first() {
    let fs = store();
    let key = "parts/again";
    fs.put_object("bkt", key, &b"the object before"[..], "", none()).unwrap();
    let id = fs.create_multipart_upload("bkt", key, "", none()).unwrap();
    for n in [3, 1, 2] {
        fs.upload_part("bkt", key, &id, n, format!("part {n}").as_bytes()).unwrap();
    }
    let before = fs.list_parts("bkt", key, &id).unwrap();
    assert_eq!(fs.count_blobs(BK), 4);
    let etag = fs.upload_part("bkt", key, &id, 2, b"part two, again").unwrap();
    assert_eq!(etag, format!("\"{}\"", md5_hex(b"part two, again")));
    let after = fs.list_parts("bkt", key, &id).unwrap();
    assert_eq!(fs.count_blobs(BK), 4);
    assert_eq!(after.iter().map(|p| p.part_number).collect::<Vec<i32>>(), [1, 2, 3]);
    assert_eq!((after[1].size, &after[1].etag), (15, &etag));
    for i in [0, 2] {
        assert_eq!((after[i].size, &after[i].etag), (before[i].size, &before[i].etag));
    }
    assert_eq!(fs.get_object("bkt", key, None).unwrap().body, b"the object before");
}

#[test]
fn a_second_recovery_counts_nothing() {
    let fs = store();
    fs.put_object("bkt", "k", &b"first"[..], "", none()).unwrap();
    fs.fail(&[("remove", "/blobs/")]);
    fs.put_object("bkt", "k", &b"second"[..], "", none()).unwrap();
    fs.fail(COMMIT_FAILS);
    assert!(fs.put_object("bkt", "other", &b"never live"[..], "", none()).is_err());
    fs.fail(&[]);
    let first = fs.recover().unwrap();
    assert_eq!(first.arriving_manifests_removed, 1);
    assert_eq!((first.journals_processed, first.journal_blobs_reclaimed), (1, 1));
    let again = fs.recover().unwrap();
    assert_eq!(again.arriving_manifests_removed, 0);
    assert_eq!((again.journals_processed, again.journal_blobs_reclaimed), (0, 0));
    assert_eq!(fs.get_object("bkt", "k", None).unwrap().body, b"second");
    assert!(matches!(fs.head_object("bkt", "other"), Err(StorageError::ObjectNotFound)));
}

#[test]
fn a_deletion_leaves_nothing_and_can_be_repeated() {
    let fs = store();
    fs.put_object("bkt", "gone", &b"going"[..], "", none()).unwrap();
    fs.put_object("bkt", "stays", &b"staying"[..], "", none()).unwrap();
    fs.delete_object("bkt", "gone").unwrap();
    assert!(matches!(fs.head_object("bkt", "gone"), Err(StorageError::ObjectNotFound)));
    assert!(matches!(fs.get_object("bkt", "gone", None), Err(StorageError::ObjectNotFound)));
    assert_eq!(fs.count_blobs(BK), 1);
    assert!(fs.list_dir("/data/bkt/deleted").is_empty());
    let nodes = fs.disk.borrow().nodes.len();
    fs.delete_object("bkt", "gone").unwrap();
    assert_eq!(fs.disk.borrow().nodes.len(), nodes);
    assert_eq!(fs.get_object("bkt", "stays", None).unwrap().body, b"staying");
}

#[test]
fn c1_put_fsyncs_blob_fanout_dir_before_commit_and_round_trips() {
    let fs = durable_store();
    let before = fs.syncs("/blobs/");
    let body = vec![7u8; 100_000];
    fs.put_object("bkt", "c1/put/object.bin", &body[..], "application/octet-stream", none())
        .unwrap();
    assert!(
        fs.syncs("/blobs/") >= before + 1,
        "PUT under --fsync must fsync the blob fanout dir (C1)"
    );
    let got = fs.get_object("bkt", "c1/put/object.bin", None).unwrap().body;
    assert_eq!(got, body, "C1 PUT must round-trip");

    let fs2 = store();
    fs2.put_object("bkt", "k", &body[..], "", none()).unwrap();
    assert_eq!(fs2.syncs("/blobs"), 0);
    assert_eq!(fs2.get_object("bkt", "k", None).unwrap().body, body);
}

#[test]
fn c1_complete_fsyncs_moved_blob_fanout_dir_before_commit_and_round_trips() {
    let fs = durable_store();
    let key = "c1/mp/object.bin";
    let (upload_id, parts, etags) = upload_3_parts(&fs, "bkt", key);
    let before = fs.syncs("/blobs/");
    fs.complete_multipart_upload("bkt", key, &upload_id, &all_claims(&etags)).unwrap();
    assert!(fs.syncs("/blobs/") >= before + 3);
    let got = fs.get_object("bkt", key, None).unwrap().body;
    assert_eq!(got, joined(&parts), "C1 Complete must round-trip the assembled object");
    fs.assert_object_consistent("bkt", key);
}

#[test]
fn c4_failed_part_reupload_leaves_previous_part_intact() {
    let fs = durable_store();
    let key = "c4/reupload";
    let upload_id = fs
        .create_multipart_upload("bkt", key, "application/octet-stream", none())
        .unwrap();
    let old_bytes = vec![1u8; 8192];
    let old_etag = fs.upload_part("bkt", key, &upload_id, 1, &old_bytes[..]).unwrap();
    assert_eq!(fs.count_blobs(BK), 1);
    let ref_path = format!("/data/bkt/arriving/{upload_id}/parts/00001.ref");
    let ref_before = ref_bytes(&fs.disk.borrow().read(&ref_path).unwrap());

    fs.fail(&[("sync", "/parts")]);
    let res = fs.upload_part("bkt", key, &upload_id, 1, &vec![2u8; 4096][..]);
    fs.fail(&[]);
    assert!(matches!(res, Err(StorageError::Io(_))), "got {res:?}");

    let ref_after = ref_bytes(&fs.disk.borrow().read(&ref_path).unwrap());
    assert_eq!(ref_after, ref_before, "C4: the previous part ref must be restored unchanged");
    assert_eq!(fs.count_blobs(BK), 1);

    let listed = fs.list_parts("bkt", key, &upload_id).unwrap();
    assert_eq!(listed.len(), 1);
    assert_eq!(listed[0].etag, old_etag);
    fs.complete_multipart_upload("bkt", key, &upload_id, &all_claims(&[old_etag])).unwrap();
    let got = fs.get_object("bkt", key, None).unwrap().body;
    assert_eq!(got, old_bytes, "C4: Complete must yield the OLD part bytes");
}

#[test]
fn c1_residual_put_reclaims_blob_on_blob_dir_fsync_error() {
    let fs = durable_store();
    fs.fail(&[("sync", "/blobs/")]);
    let res = fs.put_object("bkt", "k", &b"orphan-on-fsync-error"[..], "", none());
    fs.fail(&[]);
    assert!(matches!(res, Err(StorageError::Io(_))), "got {res:?}");
    assert_eq!(fs.count_blobs(BK), 0);
    assert!(matches!(fs.get_object("bkt", "k", None), Err(StorageError::ObjectNotFound)));
    fs.put_object("bkt", "k", &b"hello"[..], "", none()).unwrap();
    assert_eq!(fs.count_blobs(BK), 1);
}

#[test]
fn d2_failed_part_reupload_rollback_is_atomic_and_consistent() {
    let fs = durable_store();
    let key = "d2/reupload";
    let upload_id = fs
        .create_multipart_upload("bkt", key, "application/octet-stream", none())
        .unwrap();
    let old_bytes = vec![7u8; 8192];
    let old_etag = fs.upload_part("bkt", key, &upload_id, 1, &old_bytes[..]).unwrap();
    let parts_dir = format!("/data/bkt/arriving/{upload_id}/parts");
    let ref_path = format!("{parts_dir}/00001.ref");
    let ref_before = ref_bytes(&fs.disk.borrow().read(&ref_path).unwrap());
    let old_blob = decode_ref(&ref_before).unwrap().blob_id;
    assert_eq!(fs.count_blobs(BK), 1);

    fs.fail(&[("sync", "/parts")]);
    let res = fs.upload_part("bkt", key, &upload_id, 1, &vec![8u8; 4096][..]);
    fs.fail(&[]);
    assert!(matches!(res, Err(StorageError::Io(_))), "got {res:?}");

    let leftovers = fs.list_dir(&parts_dir);
    assert!(leftovers.iter().all(|n| !n.contains(".tmp.")), "saw {leftovers:?}");
    let ref_after = ref_bytes(&fs.disk.borrow().read(&ref_path).unwrap());
    assert_eq!(ref_after, ref_before, "the previous ref must be restored byte-for-byte");
    let restored = decode_ref(&ref_after).expect("restored ref must parse");
    assert_eq!(restored.blob_id, old_blob, "restored ref must point at the OLD blob");
    assert!(fs.blob_exists(BK, &restored.blob_id));
    assert_eq!(fs.count_blobs(BK), 1);

    fs.complete_multipart_upload("bkt", key, &upload_id, &all_claims(&[old_etag])).unwrap();
    assert_eq!(fs.get_object("bkt", key, None).unwrap().body, old_bytes);
}

#[test]
fn d2_rollback_restore_failure_leaves_part_referencing_new_blob_not_dangling() {
    let fs = durable_store();
    let key = "d2b/reupload";
    let upload_id = fs
        .create_multipart_upload("bkt", key, "application/octet-stream", none())
        .unwrap();
    fs.upload_part("bkt", key, &upload_id, 1, &vec![5u8; 8192][..]).unwrap();
    assert_eq!(fs.count_blobs(BK), 1);

    let new_bytes = vec![6u8; 4096];
    let new_etag = format!("\"{}\"", md5_hex(&new_bytes));
    fs.fail(&[("sync", "/parts"), ("write", "restore-")]);
    let res = fs.upload_part("bkt", key, &upload_id, 1, &new_bytes[..]);
    fs.fail(&[]);
    assert!(matches!(res, Err(StorageError::Io(_))), "got {res:?}");

    let ref_path = format!("/data/bkt/arriving/{upload_id}/parts/00001.ref");
    let cur = part_of(&fs.disk.borrow().read(&ref_path).unwrap()).unwrap();
    assert_eq!(cur.md5_hex, md5_hex(&new_bytes), "ref records the NEW part");
    assert!(fs.blob_exists(BK, &cur.blob_id));

    fs.complete_multipart_upload("bkt", key, &upload_id, &all_claims(&[new_etag])).unwrap();
    assert_eq!(fs.get_object("bkt", key, None).unwrap().body, new_bytes);
}

#[test]
fn c5_completed_upload_rejects_further_ops_even_if_dir_survives() {
    let fs = store();
    let key = "c5/object";
    let (upload_id, _parts, etags) = upload_3_parts(&fs, "bkt", key);
    let complete = all_claims(&etags);
    fs.fail(&[("remove", "/arriving/")]);
    fs.complete_multipart_upload("bkt", key, &upload_id, &complete).unwrap();
    fs.fail(&[]);
    assert!(fs.has(&format!("/data/bkt/arriving/{upload_id}/completed")));
    assert!(matches!(
        fs.upload_part("bkt", key, &upload_id, 1, &b"x"[..]),
        Err(StorageError::NoSuchUpload)
    ));
    assert!(matches!(
        fs.complete_multipart_upload("bkt", key, &upload_id, &complete),
        Err(StorageError::NoSuchUpload)
    ));
    assert!(matches!(
        fs.list_parts("bkt", key, &upload_id),
        Err(StorageError::NoSuchUpload)
    ));
    let (uploads, _) = fs.list_multipart_uploads("bkt", 1000).unwrap();
    assert!(!uploads.iter().any(|u| u.upload_id == upload_id));
}

#[test]
fn pass_k_delete_bucket_ignores_completed_upload_dir() {
    let fs = store();
    let arriving = "/data/bkt/arriving";
    let in_flight = || has_in_flight_upload(&fs.disk.borrow().scan_uploads(arriving));
    assert!(!in_flight().unwrap());

    // An upload without a mark is in flight.
    let live_id = "00000000-0000-0000-0000-0000000000aa";
    let live_dir = format!("{arriving}/{live_id}");
    {
        let mut disk = fs.disk.borrow_mut();
        disk.create_all(&format!("{live_dir}/parts")).unwrap();
        let upload = MultipartUpload {
            upload_id: live_id.into(),
            bucket: "bkt".into(),
            key: "k/live".into(),
            initiated_unix: disk.now,
            content_type: "application/octet-stream".into(),
            user_metadata: none(),
        };
        disk.write(&format!("{live_dir}/upload.json"), Data::Upload(upload)).unwrap();
    }
    assert!(
        in_flight().unwrap(),
        "a marker-less upload dir (upload.json only) is in-flight"
    );
    assert!(
        matches!(fs.delete_bucket("bkt"), Err(StorageError::BucketNotEmpty)),
        "DeleteBucket must refuse while a live upload exists"
    );

    // With the mark it is not in flight any more.
    fs.disk
        .borrow_mut()
        .write(&format!("{live_dir}/completed"), Data::Bytes(b"1".to_vec()))
        .unwrap();
    assert!(
        !in_flight().unwrap(),
        "a completed-marker upload dir is NOT in-flight (must not wedge DeleteBucket)"
    );
    fs.delete_bucket("bkt")
        .expect("DeleteBucket must clear once only completed-marker upload dirs remain");
    assert!(
        matches!(fs.head_bucket("bkt"), Err(StorageError::BucketNotFound)),
        "bucket is gone after a successful DeleteBucket"
    );
    assert!(!fs.has(BK));
}

#[test]
fn c6_write_journal_propagates_deleted_dir_fsync_error() {
    let fs = durable_store();
    fs.fail(&[("sync", "/deleted")]);
    fs.put_object("bkt", "k", &b"v1"[..], "", none())
        .expect("first PUT writes no journal, so the hook does not fire");
    let res = fs.put_object("bkt", "k", &b"v2"[..], "", none());
    let res_del = fs.delete_object("bkt", "k");
    fs.fail(&[]);
    assert!(matches!(res, Err(StorageError::Io(_))), "got {res:?}");
    assert!(matches!(res_del, Err(StorageError::Io(_))), "got {res_del:?}");
}

#[test]
fn e1_publish_propagates_commit_dir_fsync_and_withholds_reclaim() {
    let fs = durable_store();
    fs.put_object("bkt", "k", &b"v1-old-bytes"[..], "", none()).unwrap();
    let v1_blob = fs.live(BK, "k").parts[0].blob_id.clone();
    assert_eq!(fs.count_blobs(BK), 1, "only v1 before the overwrite");

    fs.fail(&[("sync", "/current")]);
    let res = fs.put_object("bkt", "k", &b"v2-new-and-longer-bytes"[..], "", none());
    fs.fail(&[]);
    assert!(matches!(res, Err(StorageError::CommitNotDurable(_))), "got {res:?}");
    let v2_blob = fs.live(BK, "k").parts[0].blob_id.clone();
    assert!(fs.blob_exists(BK, &v2_blob));
    assert_eq!(fs.count_blobs(BK), 2, "E-1: both OLD and NEW blobs present (neither reclaimed)");
    assert!(fs.blob_exists(BK, &v1_blob));
    assert_eq!(fs.list_dir("/data/bkt/deleted").len(), 1);

    fs.recover().unwrap();
    fs.assert_object_consistent("bkt", "k");
    assert!(fs.list_dir("/data/bkt/deleted").is_empty());
    assert_eq!(
        fs.get_object("bkt", "k", None).unwrap().body,
        b"v2-new-and-longer-bytes"
    );
    assert_eq!(fs.count_blobs(BK), 1);
}

#[test]
fn f2_publish_nested_key_chain_fsync_fail_is_commit_not_durable_and_withholds_reclaim() {
    let fs = durable_store();
    let key = "a/b/c.bin";
    fs.put_object("bkt", key, &b"v1-old"[..], "", none()).unwrap();
    let v1_blob = fs.live(BK, key).parts[0].blob_id.clone();
    assert_eq!(fs.count_blobs(BK), 1, "only v1 before the overwrite");

    fs.fail(&[("sync", "/current")]);
    let res = fs.put_object("bkt", key, &b"v2-new-longer-bytes"[..], "", none());
    fs.fail(&[]);
    assert!(matches!(res, Err(StorageError::CommitNotDurable(_))), "got {res:?}");
    let v2_blob = fs.live(BK, key).parts[0].blob_id.clone();
    assert!(fs.blob_exists(BK, &v2_blob), "F-2: NEW blob must survive");
    assert_eq!(fs.count_blobs(BK), 2);
    assert!(fs.blob_exists(BK, &v1_blob));
    assert_eq!(fs.list_dir("/data/bkt/deleted").len(), 1);

    fs.recover().unwrap();
    fs.assert_object_consistent("bkt", key);
    assert_eq!(fs.get_object("bkt", key, None).unwrap().body, b"v2-new-longer-bytes");
    assert_eq!(fs.count_blobs(BK), 1);
}

#[test]
fn f1_site4_fresh_bucket_put_fsyncs_full_ancestor_chain_and_round_trips() {
    let fs = Store::new(true);
    fs.create_bucket("fresh").unwrap();
    assert!(fs.is_dir("/data/fresh/blobs") && fs.is_dir("/data/fresh/current"));
    assert!(fs.disk.borrow().syncs.contains(&"/data".to_string()));
    assert!(fs.disk.borrow().syncs.contains(&"/data/fresh".to_string()));
    let before = fs.syncs("/blobs");
    let body = vec![3u8; 200_000];
    fs.put_object("fresh", "first-object.bin", &body[..], "application/octet-stream", none())
        .unwrap();
    assert!(
        fs.syncs("/blobs") >= before + 1,
        "F-1: the first-in-fresh-bucket PUT must fsync the blob fanout ancestor chain"
    );
    // The whole chain: both fan-out directories and the directory of the blobs.
    assert_eq!(fs.syncs("/blobs"), before + 3);
    let got = fs.get_object("fresh", "first-object.bin", None).unwrap().body;
    assert_eq!(got, body, "F-1/site-4 first-bucket PUT must round-trip");
    fs.assert_object_consistent("fresh", "first-object.bin");
}

#[test]
fn e2_delete_propagates_commit_dir_fsync_and_withholds_reclaim() {
    let fs = durable_store();
    fs.put_object("bkt", "k", &b"to-be-deleted"[..], "", none()).unwrap();
    let blob_id = fs.live(BK, "k").parts[0].blob_id.clone();
    assert_eq!(fs.count_blobs(BK), 1);

    fs.fail(&[("sync", "/current")]);
    let res = fs.delete_object("bkt", "k");
    fs.fail(&[]);
    assert!(matches!(res, Err(StorageError::Io(_))), "got {res:?}");
    assert!(fs.blob_exists(BK, &blob_id));
    assert_eq!(fs.list_dir("/data/bkt/deleted").len(), 1);

    fs.recover().unwrap();
    assert!(matches!(fs.get_object("bkt", "k", None), Err(StorageError::ObjectNotFound)));
    assert!(!fs.blob_exists(BK, &blob_id));
    assert_eq!(fs.count_blobs(BK), 0, "E-2: no blob leaked after recover()");
    assert!(fs.list_dir("/data/bkt/deleted").is_empty());
}

#[test]
fn pass_i1_delete_absent_key_fsyncs_manifest_parent_under_fsync() {
    let fs = durable_store();
    fs.put_object("bkt", "k", &b"v"[..], "", none()).unwrap();
    fs.delete_object("bkt", "k").unwrap();
    let before = fs.syncs("/current");
    let res = fs.delete_object("bkt", "k");
    let after = fs.syncs("/current");
    assert!(res.is_ok(), "got {res:?}");
    assert!(after > before, "before={before} after={after}");
}

#[test]
fn pass_i1_delete_absent_key_propagates_manifest_parent_fsync_error() {
    let fs = durable_store();
    fs.put_object("bkt", "k", &b"v"[..], "", none()).unwrap();
    fs.delete_object("bkt", "k").unwrap();
    fs.fail(&[("sync", "/current")]);
    let res = fs.delete_object("bkt", "k");
    fs.fail(&[]);
    assert!(matches!(res, Err(StorageError::Io(_))), "got {res:?}");
}

#[test]
fn pass_i1_delete_never_existed_key_is_ok_without_fsync_error() {
    let fs = durable_store();
    let res = fs.delete_object("bkt", "never/created/here/k");
    assert!(res.is_ok(), "got {res:?}");
}

#[test]
fn pass_i2_create_bucket_existing_fsyncs_data_root_under_fsync() {
    let fs = durable_store();
    let root_syncs = |fs: &Store| {
        fs.disk.borrow().syncs.iter().filter(|p| p.as_str() == "/data").count()
    };
    let before = root_syncs(&fs);
    let res = fs.create_bucket("bkt");
    let after = root_syncs(&fs);
    assert!(matches!(res, Err(StorageError::BucketExists)), "got {res:?}");
    assert!(after > before, "before={before} after={after}");
    assert!(fs.is_dir("/data/bkt/current"));
}

#[test]
fn pass_i_delete_bucket_fsyncs_data_root_before_ok() {
    let fs = durable_store();
    let root_syncs = |fs: &Store| {
        fs.disk.borrow().syncs.iter().filter(|p| p.as_str() == "/data").count()
    };
    let before = root_syncs(&fs);
    let res = fs.delete_bucket("bkt");
    let after = root_syncs(&fs);
    assert!(res.is_ok(), "got {res:?}");
    assert!(after > before, "before={before} after={after}");
    assert!(!fs.has(BK));
}

#[test]
fn pass_j_complete_fsyncs_completed_marker_dir_under_fsync() {
    let fs = durable_store();
    let key = "j/mp/object.bin";
    let (upload_id, parts, etags) = upload_3_parts(&fs, "bkt", key);
    let before = fs.syncs(&format!("/arriving/{upload_id}"));
    fs.complete_multipart_upload("bkt", key, &upload_id, &all_claims(&etags)).unwrap();
    let after = fs.syncs(&format!("/arriving/{upload_id}"));
    assert!(after > before, "before={before} after={after}");
    let got = fs.get_object("bkt", key, None).unwrap().body;
    assert_eq!(got, joined(&parts));
    fs.assert_object_consistent("bkt", key);
}

#[test]
fn d1_recover_skips_corrupt_journal_and_applies_valid_one() {
    let fs = store();
    let corrupt = format!("/data/bkt/deleted/{}.journal", new_blob_id());
    fs.disk
        .borrow_mut()
        .write(&corrupt, Data::Bytes(b"{ this is not valid journal json !!".to_vec()))
        .unwrap();
    let orphan = fs.write_blob(BK, &b"reclaim me via a valid journal"[..]);
    let name = format!("{}.journal", new_blob_id());
    fs.write_journal(
        "bkt",
        &name,
        Journal {
            mode: JournalMode::Delete,
            supersedes_key: "gone".into(),
            commit_nonce: String::new(),
            expected_new_etag: String::new(),
            blobs: vec![orphan.blob_id.clone()],
        },
    );
    let stats = fs.recover().expect("recover() must tolerate a corrupt journal, not fail");
    assert!(!fs.blob_exists(BK, &orphan.blob_id));
    assert!(!fs.has(&format!("/data/bkt/deleted/{name}")));
    assert!(stats.journal_blobs_reclaimed >= 1, "valid journal reclaimed its blob");
    assert!(fs.has(&corrupt), "the corrupt journal is left on disk (skipped, not consumed)");
}

#[test]
fn d1_write_journal_is_atomic_no_torn_journal_on_disk() {
    let fs = store();
    let name = format!("{}.journal", new_blob_id());
    fs.write_journal(
        "bkt",
        &name,
        Journal {
            mode: JournalMode::Delete,
            supersedes_key: "k".into(),
            commit_nonce: String::new(),
            expected_new_etag: String::new(),
            blobs: vec![],
        },
    );
    let entries = fs.list_dir("/data/bkt/deleted");
    assert!(entries.iter().all(|n| !n.contains(".tmp.")), "saw {entries:?}");
    let data = fs.disk.borrow().read(&format!("/data/bkt/deleted/{name}")).unwrap();
    match &*data {
        Data::Journal(round) => assert_eq!(round.supersedes_key, "k"),
        _ => panic!("published journal must parse"),
    }
}

#[test]
fn multipart_under_fsync_dir_fsync_path_round_trips() {
    let fs = durable_store();
    let key = "deep/nested/key/object.bin";
    let (upload_id, parts, etags) = upload_3_parts(&fs, "bkt", key);
    assert!(fs.has(&format!("/data/bkt/arriving/{upload_id}/upload.json")));
    assert_eq!(fs.list_parts("bkt", key, &upload_id).unwrap().len(), 3);
    fs.complete_multipart_upload("bkt", key, &upload_id, &all_claims(&etags)).unwrap();
    let got = fs.get_object("bkt", key, None).unwrap().body;
    assert_eq!(got, joined(&parts), "fsync-path multipart object must round-trip exactly");
    fs.assert_object_consistent("bkt", key);
}

#[test]
fn upload_part_propagates_parts_dir_fsync_error_and_rolls_back() {
    let fs = durable_store();
    let key = "fsync/part";
    let upload_id = fs
        .create_multipart_upload("bkt", key, "application/octet-stream", none())
        .unwrap();
    fs.fail(&[("sync", "/parts")]);
    let res = fs.upload_part("bkt", key, &upload_id, 1, &vec![9u8; 4096][..]);
    fs.fail(&[]);
    assert!(matches!(res, Err(StorageError::Io(_))), "got {res:?}");
    assert!(!fs.has(&format!("/data/bkt/arriving/{upload_id}/parts/00001.ref")));
    assert_eq!(fs.count_blobs(BK), 0);
    assert!(fs.list_parts("bkt", key, &upload_id).unwrap().is_empty());

    let etag = fs.upload_part("bkt", key, &upload_id, 1, &vec![9u8; 4096][..]).unwrap();
    assert_eq!(etag, format!("\"{}\"", md5_hex(&vec![9u8; 4096])));
    assert_eq!(fs.count_blobs(BK), 1);
    assert_eq!(fs.list_parts("bkt", key, &upload_id).unwrap().len(), 1);
}

#[test]
fn complete_rejects_missing_or_short_part_blob_invalid_part() {
    for case in ["missing", "short"] {
        let fs = store();
        let key = "mp/object";
        let (upload_id, _parts, etags) = upload_3_parts(&fs, "bkt", key);
        let ref_path = format!("/data/bkt/arriving/{upload_id}/parts/00002.ref");
        let blob2 = {
            let disk = fs.disk.borrow();
            blob_path(BK, &part_of(&disk.read(&ref_path).unwrap()).unwrap().blob_id)
        };
        match case {
            "missing" => {
                fs.disk.borrow_mut().nodes.remove(&blob2).unwrap();
            }
            _ => fs.disk.borrow_mut().write(&blob2, Data::Bytes(b"short".to_vec())).unwrap(),
        }
        let r = fs.complete_multipart_upload("bkt", key, &upload_id, &all_claims(&etags));
        assert!(matches!(r, Err(StorageError::InvalidPart)), "[{case}] got {r:?}");
        assert!(matches!(fs.head_object("bkt", key), Err(StorageError::ObjectNotFound)));
        assert!(fs.has(&format!("/data/bkt/arriving/{upload_id}")));
    }
}

#[test]
fn multipart_range_get_spanning_part_boundary() {
    let fs = store();
    let key = "ranged";
    let (upload_id, parts, etags) = upload_3_parts(&fs, "bkt", key);
    fs.complete_multipart_upload("bkt", key, &upload_id, &all_claims(&etags)).unwrap();
    let full = joined(&parts);
    let start: u64 = 6_000_000 - 100;
    let end: u64 = 6_000_000 + 200;
    let res = fs.get_object("bkt", key, Some(&format!("bytes={start}-{end}"))).unwrap();
    assert_eq!(res.resolved_range, Some(ByteRange { start, end }));
    assert_eq!(res.body, full[start as usize..=end as usize]);
}

#[test]
fn multipart_abort_cleans_up_blobs_and_dir() {
    let fs = store();
    let key = "to-abort";
    let (upload_id, _parts, _etags) = upload_3_parts(&fs, "bkt", key);
    assert_eq!(fs.count_blobs(BK), 3);
    let dir = format!("/data/bkt/arriving/{upload_id}");
    assert!(fs.has(&dir));
    fs.abort_multipart_upload("bkt", key, &upload_id).unwrap();
    assert_eq!(fs.count_blobs(BK), 0);
    assert!(!fs.has(&dir));
    assert!(matches!(
        fs.head_object("bkt", key).unwrap_err(),
        StorageError::ObjectNotFound
    ));
}

#[test]
fn multipart_overwrite_via_complete_reclaims_old_key_blobs() {
    let fs = store();
    let key = "overwritten";
    fs.put_object("bkt", key, &b"the original single-part value"[..], "", none()).unwrap();
    let v1_blob = fs.live(BK, key).parts[0].blob_id.clone();
    assert_eq!(fs.count_blobs(BK), 1);
    let (upload_id, parts, etags) = upload_3_parts(&fs, "bkt", key);
    assert_eq!(fs.count_blobs(BK), 4);
    fs.complete_multipart_upload("bkt", key, &upload_id, &all_claims(&etags)).unwrap();
    assert!(!fs.blob_exists(BK, &v1_blob), "old key blob must be reclaimed");
    assert_eq!(fs.count_blobs(BK), 3);
    assert!(fs.list_dir("/data/bkt/deleted").is_empty(), "journal cleaned");
    let got = fs.get_object("bkt", key, None).unwrap().body;
    assert_eq!(md5_hex(&got), md5_hex(&joined(&parts)));
}

#[test]
fn multipart_part_overwrite_uses_latest_blob() {
    let fs = store();
    let key = "reupload";
    let upload_id = fs.create_multipart_upload("bkt", key, "", none()).unwrap();
    fs.upload_part("bkt", key, &upload_id, 1, &b"first attempt of part one"[..]).unwrap();
    assert_eq!(fs.count_blobs(BK), 1);
    let e1b = fs
        .upload_part("bkt", key, &upload_id, 1, &b"SECOND attempt, the real one"[..])
        .unwrap();
    assert_eq!(fs.count_blobs(BK), 1);
    let e2 = fs.upload_part("bkt", key, &upload_id, 2, &b"part two"[..]).unwrap();
    fs.complete_multipart_upload("bkt", key, &upload_id, &all_claims(&[e1b, e2])).unwrap();
    let got = fs.get_object("bkt", key, None).unwrap().body;
    assert_eq!(got, b"SECOND attempt, the real onepart two");
}

#[test]
fn part_ref_filename_content_mismatch_is_dropped() {
    let fs = store();
    let key = "tampered";
    let upload_id = fs.create_multipart_upload("bkt", key, "", none()).unwrap();
    let e1 = fs.upload_part("bkt", key, &upload_id, 1, &b"the bytes"[..]).unwrap();
    let ref_path = format!("/data/bkt/arriving/{upload_id}/parts/00001.ref");
    let mut pref = part_of(&fs.disk.borrow().read(&ref_path).unwrap()).unwrap();
    pref.part_number = 2;
    fs.disk.borrow_mut().write(&ref_path, Data::PartRef(pref)).unwrap();
    assert!(fs.list_parts("bkt", key, &upload_id).unwrap().is_empty());
    let err = fs
        .complete_multipart_upload("bkt", key, &upload_id, &all_claims(&[e1]))
        .unwrap_err();
    assert!(matches!(err, StorageError::InvalidPart), "got {err:?}");
}

#[test]
fn multipart_complete_rejects_bad_inputs() {
    let fs = store();
    let key = "validate";
    let (upload_id, _parts, etags) = upload_3_parts(&fs, "bkt", key);
    assert!(matches!(
        fs.complete_multipart_upload("bkt", key, &upload_id, &[]).unwrap_err(),
        StorageError::InvalidPart
    ));
    for bad in [0i32, -1, 10_001] {
        let err = fs
            .complete_multipart_upload(
                "bkt",
                key,
                &upload_id,
                &[CompletePart { part_number: bad, etag: etags[0].clone() }],
            )
            .unwrap_err();
        assert!(matches!(err, StorageError::InvalidPart), "part {bad} -> {err:?}");
    }
    assert!(matches!(
        fs.complete_multipart_upload(
            "bkt",
            key,
            &upload_id,
            &[CompletePart { part_number: 1, etag: String::new() }],
        )
        .unwrap_err(),
        StorageError::InvalidPart
    ));
    assert!(matches!(
        fs.complete_multipart_upload(
            "bkt",
            key,
            &upload_id,
            &[CompletePart {
                part_number: 1,
                etag: "\"deadbeefdeadbeefdeadbeefdeadbeef\"".into()
            }],
        )
        .unwrap_err(),
        StorageError::InvalidPart
    ));
    assert!(matches!(
        fs.complete_multipart_upload(
            "bkt",
            key,
            &upload_id,
            &[
                CompletePart { part_number: 2, etag: etags[1].clone() },
                CompletePart { part_number: 1, etag: etags[0].clone() },
            ],
        )
        .unwrap_err(),
        StorageError::InvalidPartOrder
    ));
    assert!(matches!(
        fs.complete_multipart_upload(
            "bkt",
            key,
            &upload_id,
            &[CompletePart { part_number: 7, etag: etags[0].clone() }],
        )
        .unwrap_err(),
        StorageError::InvalidPart
    ));
    assert!(fs
        .complete_multipart_upload("bkt", key, &upload_id, &all_claims(&etags))
        .is_ok());
}

#[test]
fn multipart_mismatched_bucket_or_key_is_no_such_upload() {
    let fs = store();
    fs.create_bucket("other").unwrap();
    let upload_id = fs.create_multipart_upload("bkt", "real-key", "", none()).unwrap();
    let e1 = fs.upload_part("bkt", "real-key", &upload_id, 1, &b"data"[..]).unwrap();
    assert!(matches!(
        fs.upload_part("bkt", "wrong-key", &upload_id, 2, &b"x"[..]).unwrap_err(),
        StorageError::NoSuchUpload
    ));
    assert!(matches!(
        fs.complete_multipart_upload("other", "real-key", &upload_id, &all_claims(&[e1]))
            .unwrap_err(),
        StorageError::NoSuchUpload
    ));
    assert!(matches!(
        fs.abort_multipart_upload("bkt", "wrong-key", &upload_id).unwrap_err(),
        StorageError::NoSuchUpload
    ));
    assert!(matches!(
        fs.list_parts("bkt", "wrong-key", &upload_id).unwrap_err(),
        StorageError::NoSuchUpload
    ));
    assert!(matches!(
        fs.upload_part("bkt", "real-key", "../escape", 1, &b"x"[..]).unwrap_err(),
        StorageError::NoSuchUpload
    ));
}

#[test]
fn g_upload_part_missing_bucket_is_no_such_bucket() {
    let fs = store();
    let upload_id = fs.create_multipart_upload("bkt", "k", "", none()).unwrap();
    assert!(matches!(
        fs.upload_part("nope", "k", &upload_id, 1, &b"x"[..]).unwrap_err(),
        StorageError::BucketNotFound
    ));
    let bogus = new_blob_id();
    assert!(matches!(
        fs.upload_part("bkt", "k", &bogus, 1, &b"x"[..]).unwrap_err(),
        StorageError::NoSuchUpload
    ));
}

#[test]
fn g_complete_missing_bucket_is_no_such_bucket() {
    let fs = store();
    let upload_id = fs.create_multipart_upload("bkt", "k", "", none()).unwrap();
    let etag = fs.upload_part("bkt", "k", &upload_id, 1, &b"x"[..]).unwrap();
    let complete = all_claims(&[etag]);
    assert!(matches!(
        fs.complete_multipart_upload("nope", "k", &upload_id, &complete).unwrap_err(),
        StorageError::BucketNotFound
    ));
    let bogus = new_blob_id();
    assert!(matches!(
        fs.complete_multipart_upload("bkt", "k", &bogus, &complete).unwrap_err(),
        StorageError::NoSuchUpload
    ));
}

#[test]
fn h_complete_empty_and_bad_parts_still_invalid_part() {
    let fs = store();
    let key = "h/empty";
    let upload_id = fs.create_multipart_upload("bkt", key, "", none()).unwrap();
    let claim = vec![CompletePart { part_number: 1, etag: "\"deadbeef\"".to_string() }];
    assert!(matches!(
        fs.complete_multipart_upload("bkt", key, &upload_id, &claim).unwrap_err(),
        StorageError::InvalidPart
    ));
    let _ = fs.upload_part("bkt", key, &upload_id, 1, &b"abc"[..]).unwrap();
    let bad = vec![CompletePart { part_number: 1, etag: "\"00000000\"".to_string() }];
    assert!(matches!(
        fs.complete_multipart_upload("bkt", key, &upload_id, &bad).unwrap_err(),
        StorageError::InvalidPart
    ));
    assert!(matches!(
        fs.complete_multipart_upload("bkt", key, &upload_id, &[]).unwrap_err(),
        StorageError::InvalidPart
    ));
}

#[test]
fn g_abort_missing_bucket_is_no_such_bucket() {
    let fs = store();
    let upload_id = fs.create_multipart_upload("bkt", "k", "", none()).unwrap();
    assert!(matches!(
        fs.abort_multipart_upload("nope", "k", &upload_id).unwrap_err(),
        StorageError::BucketNotFound
    ));
    let bogus = new_blob_id();
    assert!(matches!(
        fs.abort_multipart_upload("bkt", "k", &bogus).unwrap_err(),
        StorageError::NoSuchUpload
    ));
}

#[test]
fn g_list_parts_missing_bucket_is_no_such_bucket() {
    let fs = store();
    let upload_id = fs.create_multipart_upload("bkt", "k", "", none()).unwrap();
    assert!(matches!(
        fs.list_parts("nope", "k", &upload_id).unwrap_err(),
        StorageError::BucketNotFound
    ));
    let bogus = new_blob_id();
    assert!(matches!(
        fs.list_parts("bkt", "k", &bogus).unwrap_err(),
        StorageError::NoSuchUpload
    ));
}

#[test]
fn multipart_upload_part_rejects_out_of_range_number() {
    let fs = store();
    let upload_id = fs.create_multipart_upload("bkt", "k", "", none()).unwrap();
    for bad in [0i32, -1, 10_001] {
        assert!(matches!(
            fs.upload_part("bkt", "k", &upload_id, bad, &b"x"[..]).unwrap_err(),
            StorageError::InvalidPart
        ));
    }
}

#[test]
fn multipart_failed_complete_is_retryable() {
    let fs = store();
    let key = "retryable";
    let (upload_id, parts, etags) = upload_3_parts(&fs, "bkt", key);
    let complete = all_claims(&etags);
    fs.fail(COMMIT_FAILS);
    let res = fs.complete_multipart_upload("bkt", key, &upload_id, &complete);
    fs.fail(&[]);
    assert!(res.is_err(), "injected pre-commit fault must fail Complete");

    let dir = format!("/data/bkt/arriving/{upload_id}");
    assert!(fs.has(&dir));
    assert_eq!(fs.count_blobs(BK), 3, "part blobs must survive a failed Complete");
    assert_eq!(fs.list_parts("bkt", key, &upload_id).unwrap().len(), 3);
    assert!(matches!(
        fs.head_object("bkt", key).unwrap_err(),
        StorageError::ObjectNotFound
    ));

    let composite = fs.complete_multipart_upload("bkt", key, &upload_id, &complete).unwrap();
    assert!(composite.ends_with("-3\""));
    let got = fs.get_object("bkt", key, None).unwrap().body;
    assert_eq!(md5_hex(&got), md5_hex(&joined(&parts)));
    assert!(!fs.has(&dir));
}

#[test]
fn list_multipart_uploads_bounded_and_truncated() {
    let fs = store();
    for i in 0..5 {
        let key = format!("k{}", i % 2);
        fs.create_multipart_upload("bkt", &key, "", none()).unwrap();
    }
    let (all, trunc) = fs.list_multipart_uploads("bkt", 100).unwrap();
    assert_eq!(all.len(), 5);
    assert!(!trunc);
    assert!(all.windows(2).all(|w| w[0].key <= w[1].key));
    let (page, trunc) = fs.list_multipart_uploads("bkt", 2).unwrap();
    assert_eq!(page.len(), 2);
    assert!(trunc);
    assert!(matches!(
        fs.list_multipart_uploads("nope", 10).unwrap_err(),
        StorageError::BucketNotFound
    ));
}

#[test]
fn list_ten_objects_sorted() {
    let fs = store();
    let mut want: Vec<String> = (0..10).map(|i| format!("obj-{i:02}")).collect();
    for k in want.iter().rev() {
        put(&fs, k);
    }
    want.sort();
    let out = fs.list_objects(&li("bkt")).unwrap();
    assert_eq!(keys_of(&out), want);
    assert!(!out.is_truncated);
    assert!(out.common_prefixes.is_empty());
    for o in &out.objects {
        let body = format!("body-of-{}", o.key);
        assert_eq!(o.etag, format!("\"{}\"", md5_hex(body.as_bytes())));
        assert_eq!(o.size, body.len() as i64);
    }
}

#[test]
fn cas_list_empty_bucket() {
    let fs = store();
    let out = fs.list_objects(&li("bkt")).unwrap();
    assert!(out.objects.is_empty());
    assert!(out.common_prefixes.is_empty());
    assert!(!out.is_truncated);
    assert!(out.next_continuation_token.is_empty());
}

#[test]
fn list_missing_bucket_is_no_such_bucket() {
    let fs = store();
    assert!(matches!(
        fs.list_objects(&li("nope")).unwrap_err(),
        StorageError::BucketNotFound
    ));
}

#[test]
fn list_prefix_filter() {
    let fs = store();
    for k in ["alpha/1", "alpha/2", "beta/1", "gamma", "alphabet"] {
        put(&fs, k);
    }
    let mut input = li("bkt");
    input.prefix = "alpha".into();
    let out = fs.list_objects(&input).unwrap();
    assert_eq!(keys_of(&out), vec!["alpha/1", "alpha/2", "alphabet"]);
    let mut input2 = li("bkt");
    input2.prefix = "alpha/".into();
    let out2 = fs.list_objects(&input2).unwrap();
    assert_eq!(keys_of(&out2), vec!["alpha/1", "alpha/2"]);
}

#[test]
fn list_prefix_with_dotdot_does_not_escape_walk_root() {
    let fs = store();
    {
        let mut disk = fs.disk.borrow_mut();
        disk.create_all("/data/bkt/escape-sentinel").unwrap();
        disk.write(
            "/data/bkt/escape-sentinel/leaked.s3gw-live.meta",
            Data::Bytes(b"{\"should\":\"never be listed\"}".to_vec()),
        )
        .unwrap();
    }
    put(&fs, "real/key");
    let root = |prefix: &str| locate("/data", "bkt", &prefix_walk_root(prefix));
    let escaping = "../escape-sentinel/leaked";
    assert_eq!(root(escaping), "/data/bkt/current");
    let mut input = li("bkt");
    input.prefix = escaping.to_string();
    let out = fs.list_objects(&input).unwrap();
    assert!(out.objects.is_empty() && out.common_prefixes.is_empty(), "got {out:?}");
    assert_eq!(root("real/"), "/data/bkt/current/real");
    let mut input2 = li("bkt");
    input2.prefix = "real/".into();
    let out2 = fs.list_objects(&input2).unwrap();
    assert_eq!(keys_of(&out2), vec!["real/key"]);
    assert_eq!(root("/etc/passwd"), "/data/bkt/current");
    assert_eq!(root("./x/y"), "/data/bkt/current");
}

#[test]
fn list_delimiter_grouping_with_f1_coexistence() {
    let fs = store();
    for k in ["a", "a/b", "a/c", "d", "e/f"] {
        put(&fs, k);
    }
    let mut input = li("bkt");
    input.delimiter = "/".into();
    let out = fs.list_objects(&input).unwrap();
    assert_eq!(keys_of(&out), vec!["a", "d"]);
    assert_eq!(out.common_prefixes, vec!["a/".to_string(), "e/".to_string()]);
    assert!(!out.is_truncated);
}

#[test]
fn list_delimiter_with_prefix() {
    let fs = store();
    for k in ["docs/2023/a", "docs/2023/b", "docs/2024/c", "docs/readme"] {
        put(&fs, k);
    }
    let mut input = li("bkt");
    input.prefix = "docs/".into();
    input.delimiter = "/".into();
    let out = fs.list_objects(&input).unwrap();
    assert_eq!(keys_of(&out), vec!["docs/readme"]);
    assert_eq!(
        out.common_prefixes,
        vec!["docs/2023/".to_string(), "docs/2024/".to_string()]
    );
}

#[test]
fn cas_list_start_after() {
    let fs = store();
    for k in ["a", "b", "c", "d"] {
        put(&fs, k);
    }
    let mut input = li("bkt");
    input.start_after = "b".into();
    let out = fs.list_objects(&input).unwrap();
    assert_eq!(keys_of(&out), vec!["c", "d"]);
}

#[test]
fn list_max_keys_zero_empty_page_truncated() {
    let fs = store();
    put(&fs, "only");
    let mut input = li("bkt");
    input.max_keys = Some(0);
    let out = fs.list_objects(&input).unwrap();
    assert!(out.objects.is_empty());
    assert!(out.is_truncated, "Some(0) with more objects => IsTruncated");

    let fs2 = store();
    let mut input2 = li("bkt");
    input2.max_keys = Some(0);
    let out2 = fs2.list_objects(&input2).unwrap();
    assert!(!out2.is_truncated);
}

#[test]
fn list_pagination_no_dupes_no_skips() {
    let fs = store();
    let mut want: Vec<String> = (0..10).map(|i| format!("k{i:02}")).collect();
    for k in &want {
        put(&fs, k);
    }
    want.sort();
    let mut seen: Vec<String> = Vec::new();
    let mut token = String::new();
    loop {
        let mut input = li("bkt");
        input.max_keys = Some(3);
        input.continuation_token = token.clone();
        let out = fs.list_objects(&input).unwrap();
        assert!(out.objects.len() <= 3);
        for o in &out.objects {
            seen.push(o.key.clone());
        }
        if !out.is_truncated {
            break;
        }
        token = out.next_continuation_token.clone();
        assert!(!token.is_empty(), "truncated page must yield a token");
    }
    assert_eq!(seen, want);
}

#[test]
fn list_c6_pagination_objects_and_prefixes_sharing_a_page() {
    let fs = store();
    for k in ["a", "b", "p/1", "p/2", "z"] {
        put(&fs, k);
    }
    let mut input = li("bkt");
    input.delimiter = "/".into();
    input.max_keys = Some(3);
    let page1 = fs.list_objects(&input).unwrap();
    assert_eq!(keys_of(&page1), vec!["a", "b"]);
    assert_eq!(page1.common_prefixes, vec!["p/".to_string()]);
    assert!(page1.is_truncated);
    assert_eq!(page1.next_continuation_token, "p/");

    let mut input2 = li("bkt");
    input2.delimiter = "/".into();
    input2.max_keys = Some(3);
    input2.continuation_token = page1.next_continuation_token.clone();
    let page2 = fs.list_objects(&input2).unwrap();
    assert_eq!(keys_of(&page2), vec!["z"]);
    assert!(page2.common_prefixes.is_empty(), "p/ must not be re-emitted");
    assert!(!page2.is_truncated);

    let mut all_keys: Vec<String> = keys_of(&page1);
    all_keys.extend(keys_of(&page2));
    assert_eq!(all_keys, vec!["a", "b", "z"]);
    let mut all_prefixes: Vec<String> = page1.common_prefixes.clone();
    all_prefixes.extend(page2.common_prefixes.clone());
    assert_eq!(all_prefixes, vec!["p/".to_string()]);
}

#[test]
fn list_deep_and_unicode_keys() {
    let fs = store();
    for k in [
        "deeply/nested/path/to/the/object.bin",
        "café/résumé.txt",
        "emoji/😀/file",
        "plain",
    ] {
        put(&fs, k);
    }
    let out = fs.list_objects(&li("bkt")).unwrap();
    let mut want = vec![
        "café/résumé.txt".to_string(),
        "deeply/nested/path/to/the/object.bin".to_string(),
        "emoji/😀/file".to_string(),
        "plain".to_string(),
    ];
    want.sort();
    assert_eq!(keys_of(&out), want);
    let got = fs
        .get_object("bkt", "deeply/nested/path/to/the/object.bin", None)
        .unwrap()
        .body;
    assert_eq!(got, b"body-of-deeply/nested/path/to/the/object.bin");
}

#[test]
fn list_key_ending_in_meta_round_trips_through_listing() {
    let fs = store();
    for k in ["report.meta", "a.meta.meta", "a.meta/b", "normal.txt"] {
        put(&fs, k);
    }
    let out = fs.list_objects(&li("bkt")).unwrap();
    let mut want = vec![
        "a.meta.meta".to_string(),
        "a.meta/b".to_string(),
        "normal.txt".to_string(),
        "report.meta".to_string(),
    ];
    want.sort();
    assert_eq!(keys_of(&out), want);
}

#[test]
fn list_multipart_object_has_composite_etag_and_real_size() {
    let fs = store();
    let key = "mp/big";
    let (upload_id, parts, etags) = upload_3_parts(&fs, "bkt", key);
    let composite = fs
        .complete_multipart_upload("bkt", key, &upload_id, &all_claims(&etags))
        .unwrap();
    let total: u64 = parts.iter().map(|p| p.len() as u64).sum();
    put(&fs, "plain");
    let out = fs.list_objects(&li("bkt")).unwrap();
    let mp = out.objects.iter().find(|o| o.key == key).unwrap();
    assert_eq!(mp.etag, composite);
    assert!(mp.etag.ends_with("-3\""));
    assert_eq!(mp.size, total as i64);
    let pl = out.objects.iter().find(|o| o.key == "plain").unwrap();
    assert_eq!(pl.size, "body-of-plain".len() as i64);
}

#[test]
fn list_skips_corrupt_manifest_for_emitted_key() {
    let fs = store();
    put(&fs, "good");
    put(&fs, "bad");
    let path = manifest_path("/data/bkt/current", "bad");
    fs.disk
        .borrow_mut()
        .write(&path, Data::Bytes(b"{ this is not valid json".to_vec()))
        .unwrap();
    let out = fs.list_objects(&li("bkt")).unwrap();
    assert_eq!(keys_of(&out), vec!["good"]);
}

#[test]
fn list_buckets_sorted() {
    let fs = Store::new(false);
    for b in ["zeta", "alpha", "mid-bucket"] {
        fs.create_bucket(b).unwrap();
    }
    let names: Vec<String> = fs.list_buckets().unwrap().iter().map(|b| b.name.clone()).collect();
    assert_eq!(names, vec!["alpha", "mid-bucket", "zeta"]);
}

#[test]
fn list_buckets_empty_root() {
    let fs = Store::new(false);
    assert!(fs.list_buckets().unwrap().is_empty());
}

#[test]
fn list_buckets_skips_symlinked_entry() {
    let fs = Store::new(false);
    fs.create_bucket("real-bucket").unwrap();
    {
        let mut disk = fs.disk.borrow_mut();
        disk.create_all("/data/external-target-dir").unwrap();
        disk.put(
            "/data/aaa-symlinked-bucket",
            Node::Link("/data/external-target-dir".to_string()),
        );
    }
    let names: Vec<String> = fs.list_buckets().unwrap().iter().map(|b| b.name.clone()).collect();
    assert!(!names.contains(&"aaa-symlinked-bucket".to_string()));
    assert!(names.contains(&"real-bucket".to_string()));
    assert!(names.contains(&"external-target-dir".to_string()));
}

#[test]
fn listing_decode_is_exact_inverse_of_manifest_path() {
    let cur = "/data/bk/current";
    for key in [
        "a",
        "a/b",
        "report.meta",
        "a.meta.meta",
        "a.meta/b",
        "deeply/nested/path/to/object.bin",
        "café/résumé.txt",
        "emoji/😀/file",
        "trailing.dot.",
        "x.s3gw-live.metameta",
    ] {
        let p = manifest_path(cur, key);
        let rel = p.strip_prefix("/data/bk/current/").unwrap();
        let decoded = decode_relpath_to_key(rel)
            .unwrap_or_else(|| panic!("decode failed for key {key:?}"));
        assert_eq!(decoded, key, "round-trip mismatch for key {key:?}");
    }
}

#[test]
fn write_read_round_trip_small() {
    let fs = store();
    let data = b"the quick brown fox jumps over the lazy dog";
    let info = fs.write_blob(BK, &data[..]);
    assert_eq!(info.size, data.len() as u64);
    assert_eq!(info.md5_hex, md5_hex(data));
    assert_eq!(info.md5_hex, "77add1d5f41223d5582fca736a5cb335");
    assert!(is_valid_blob_id(&info.blob_id));
    let p = blob_path(BK, &info.blob_id);
    assert!(fs.has(&p));
    let buf = fs.disk.borrow().bytes(&p);
    assert_eq!(buf.len(), data.len());
    assert_eq!(&buf, data);
}

#[test]
fn write_read_round_trip_streaming_50mb() {
    let fs = store();
    let size = 50 * 1024 * 1024usize;
    let mut data = vec![0u8; size];
    for (i, b) in data.iter_mut().enumerate() {
        *b = (i.wrapping_mul(2654435761) >> 13) as u8;
    }
    let info = fs.write_blob(BK, &data[..]);
    assert_eq!(info.size, size as u64);
    assert_eq!(info.md5_hex, md5_hex(&data));
    let body = BodySource::Single { path: blob_path(BK, &info.blob_id), size: info.size };
    let out = fs.disk.borrow().read_body(body, None, 1 << 20);
    assert_eq!(out.len(), size);
    assert_eq!(out, data);
}

#[test]
fn reclaim_is_idempotent() {
    let fs = store();
    let info = fs.write_blob(BK, &b"hi"[..]);
    assert!(fs.blob_exists(BK, &info.blob_id));
    for _ in 0..2 {
        let mut plan = Plan::new();
        push_reclaim(&mut plan, &vec![info.blob_id.clone()], rule_may());
        plan.finish(Outcome::Nothing);
        fs.done("bkt", Stage::Closed, plan).unwrap();
        assert!(!fs.blob_exists(BK, &info.blob_id));
    }
}

#[test]
fn open_missing_blob_errors() {
    let fs = store();
    let data = fs.disk.borrow().read(&blob_path(BK, &new_blob_id()));
    match data {
        Err(e) => assert_eq!(e.kind, IoErrorKind::NotFound),
        Ok(_) => panic!("expected open of a missing blob to fail"),
    }
}

#[test]
fn zero_byte_blob() {
    let fs = store();
    let info = fs.write_blob(BK, &b""[..]);
    assert_eq!(info.size, 0);
    assert_eq!(info.md5_hex, md5_hex(b""));
    assert!(fs.blob_exists(BK, &info.blob_id));
}

fn sample_metadata() -> ObjectMetadata {
    ObjectMetadata {
        content_type: "text/plain".into(),
        content_length: 11,
        etag: "\"5eb63bbbe01eeed093cb22bb8f5acdc3\"".into(),
        last_modified: 1_700_000_000,
        user_metadata: vec![("x-amz-meta-foo".to_string(), "bar".to_string())],
        content_disposition: String::new(),
        content_encoding: String::new(),
        cache_control: String::new(),
        multipart: None,
    }
}

/// Writes a sidecar next to where it belongs and puts it in place.
fn write_sidecar(fs: &Store, m: &ObjectMetadata) -> String {
    let side = |suffix: &str| Place::ObjectSide {
        key: "o".to_string(),
        suffix: suffix.to_string(),
    };
    let mut plan = Plan::new();
    write_metadata(
        &mut plan,
        side(".s3meta.tmp"),
        side(".s3meta"),
        Place::Bucket,
        m.clone(),
    );
    plan.finish(Outcome::Nothing);
    fs.done("bkt", Stage::Closed, plan).unwrap();
    assert!(!fs.has("/data/bkt/o.s3meta.tmp"));
    "/data/bkt/o.s3meta".to_string()
}

#[test]
fn round_trip() {
    let fs = store();
    let m = sample_metadata();
    let p = write_sidecar(&fs, &m);
    let read = fs.disk.borrow().metadata(&p).unwrap();
    assert_eq!(format!("{read:?}"), format!("{m:?}"));
}

#[test]
fn a_durable_sidecar_is_synced_with_its_directory() {
    let fs = store();
    let side = |suffix: &str| Place::ObjectSide {
        key: "o".to_string(),
        suffix: suffix.to_string(),
    };
    let mut plan = Plan::new();
    write_metadata_durable(
        &mut plan,
        side(".s3meta.tmp"),
        side(".s3meta"),
        Place::Bucket,
        sample_metadata(),
    );
    plan.finish(Outcome::Nothing);
    fs.done("bkt", Stage::Closed, plan).unwrap();
    assert!(fs.has("/data/bkt/o.s3meta"));
    assert!(!fs.has("/data/bkt/o.s3meta.tmp"));
    assert_eq!(fs.disk.borrow().syncs, vec!["/data/bkt".to_string()]);
}

#[test]
fn multipart_manifest_round_trip() {
    let fs = store();
    let mut m = sample_metadata();
    m.multipart = Some(vec![
        PartRef {
            part_number: 1,
            path: "/data/.multipart/u/parts/00001".into(),
            size: 5,
            md5_hex: "aaaa".into(),
        },
        PartRef {
            part_number: 2,
            path: "/data/.multipart/u/parts/00002".into(),
            size: 6,
            md5_hex: "bbbb".into(),
        },
    ]);
    let p = write_sidecar(&fs, &m);
    let read = fs.disk.borrow().metadata(&p).unwrap();
    assert!(read.is_multipart());
    assert_eq!(read.multipart.as_ref().unwrap().len(), 2);
    assert_eq!(format!("{read:?}"), format!("{m:?}"));
}

#[test]
fn missing_file_errors() {
    let fs = store();
    assert!(fs.disk.borrow().metadata("/data/bkt/nope.s3meta").is_err());
}

#[test]
fn rename_is_atomic_move() {
    let fs = store();
    let name = |n: &str| Place::Staged { name: n.to_string() };
    let mut plan = Plan::new();
    plan.must(
        Call::WriteBytes { at: name("a"), data: b"x".to_vec(), sync: false },
        Report::Io,
    );
    plan.must(Call::Rename { src: name("a"), dst: name("b") }, Report::Io);
    plan.finish(Outcome::Nothing);
    fs.done("bkt", Stage::Closed, plan).unwrap();
    assert!(!fs.has("/data/bkt/arriving/a"));
    assert!(fs.has("/data/bkt/arriving/b"));
}

#[test]
fn a_put_locks_the_bucket_before_the_key() {
    let fs = store();
    fs.disk.borrow_mut().locks.clear();
    put(&fs, "k");
    let locks = fs.disk.borrow().locks.clone();
    assert_eq!(locks.len(), 2);
    assert!(locks[0].starts_with("bucket ") && locks[0].ends_with("false"));
    assert!(locks[1].starts_with("key ") && locks[1].ends_with("true"));
}

#[test]
fn an_early_end_of_the_body_is_an_incomplete_body() {
    let fs = store();
    let (stage, plan) = fs.cas.put_object(
        "bkt",
        "k",
        "",
        none(),
        new_blob_id(),
        CommitIds::draw(),
        0,
    );
    let mut task = Task::new(fs.cas.env("bkt"), Stage::PutBody(stage), plan);
    let mut next = task.resume(Reply::Start);
    let error = loop {
        next = match next {
            Next::Do(call) => {
                let result = fs.disk.borrow_mut().call(&task, call);
                task.resume(Reply::Settled(result))
            }
            Next::Ask(_) => task.resume(Reply::Answered(Answer::Blob(Err(io(
                IoErrorKind::InvalidData,
            ))))),
            Next::Done(result, _) => break result.unwrap_err(),
        };
    };
    assert_eq!(error, StorageError::IncompleteBody);
}

#[test]
fn an_answer_that_does_not_fit_ends_the_task() {
    let fs = store();
    let mut task = Task::new(
        fs.cas.env("bkt"),
        Stage::Heading,
        fs.cas.head_object("bkt", "k"),
    );
    let mut next = task.resume(Reply::Start);
    if let Next::Do(_) = next {
        next = task.resume(Reply::Settled(Ok(())));
    }
    assert!(matches!(next, Next::Ask(Question::ReadManifest { .. })));
    let end = task.resume(Reply::Answered(Answer::Times(vec![])));
    match end {
        Next::Done(Err(StorageError::Io(e)), _) => assert_eq!(e.kind, IoErrorKind::InvalidData),
        other => panic!("{other:?}"),
    }
}

#[test]
fn a_deferred_call_is_made_when_a_later_step_fails() {
    let fs = store();
    let at = || Place::Staged { name: "x".to_string() };
    let mut plan = Plan::new();
    plan.must(
        Call::WriteBytes { at: at(), data: b"x".to_vec(), sync: false },
        Report::Io,
    );
    plan.defer(Call::RemoveFile { at: at() });
    plan.must(
        Call::CheckDir { at: Place::KeyDir { key: "no/such".to_string(), depth: 1 } },
        Report::Given(StorageError::ObjectNotFound),
    );
    plan.finish(Outcome::Nothing);
    assert_eq!(fs.done("bkt", Stage::Closed, plan), Err(StorageError::ObjectNotFound));
    assert!(!fs.has("/data/bkt/arriving/x"));
}

#[test]
fn the_last_record_of_a_part_counts() {
    let entry = |n: u32, blob: &str| RefEntry {
        name: format!("{n:05}.ref"),
        part: Some(PartRefFile {
            part_number: n,
            blob_id: blob.to_string(),
            size: 1,
            md5_hex: "00".to_string(),
        }),
    };
    let table = read_part_refs(Ok(vec![entry(2, "b"), entry(1, "a"), entry(2, "c")])).unwrap();
    let got: Vec<(u32, &str)> = table.iter().map(|p| (p.part_number, p.blob_id.as_str())).collect();
    assert_eq!(got, vec![(1, "a"), (2, "c")]);
}

#[test]
fn head_and_get_agree() {
    let fs = store();
    fs.put_object("bkt", "one", &b"one part"[..], "text/plain", none()).unwrap();
    let (upload_id, parts, etags) = upload_3_parts(&fs, "bkt", "three");
    fs.complete_multipart_upload("bkt", "three", &upload_id, &all_claims(&etags)).unwrap();
    let nodes = fs.disk.borrow().nodes.len();
    for (key, length) in [("one", 8), ("three", joined(&parts).len() as u64)] {
        let head = fs.head_object("bkt", key).unwrap();
        for range in [None, Some("bytes=1-3")] {
            let got = fs.get_object("bkt", key, range).unwrap();
            assert_eq!(format!("{:?}", got.metadata), format!("{head:?}"));
            assert_eq!(got.total_size, length);
            assert_eq!(head.content_length, length as i64);
        }
    }
    assert!(matches!(fs.head_object("bkt", "none"), Err(StorageError::ObjectNotFound)));
    assert!(matches!(fs.get_object("bkt", "none", None), Err(StorageError::ObjectNotFound)));
    assert_eq!(fs.disk.borrow().nodes.len(), nodes);
}

#[test]
fn recovery_settles_every_bucket_and_keeps_the_parts() {
    let fs = store();
    fs.create_bucket("other").unwrap();
    let mut uploads = Vec::new();
    for bucket in ["bkt", "other"] {
        fs.put_object(bucket, "k", &b"first"[..], "", none()).unwrap();
        let (upload_id, _, _) = upload_3_parts(&fs, bucket, "mp/open");
        uploads.push((bucket, upload_id));
        fs.fail(&[("remove", "/blobs/")]);
        fs.put_object(bucket, "k", &b"second"[..], "", none()).unwrap();
        fs.fail(COMMIT_FAILS);
        assert!(fs.put_object(bucket, "never", &b"x"[..], "", none()).is_err());
        fs.fail(&[]);
    }
    let listed = |bucket: &str, id: &str| {
        let parts = fs.list_parts(bucket, "mp/open", id).unwrap();
        parts.iter().map(|p| (p.part_number, p.size, p.etag.clone())).collect::<Vec<_>>()
    };
    let before: Vec<_> = uploads.iter().map(|(b, id)| listed(b, id)).collect();
    let first = fs.recover().unwrap();
    assert_eq!((first.buckets, first.arriving_manifests_removed), (2, 2));
    assert_eq!((first.journals_processed, first.journal_blobs_reclaimed), (2, 2));
    for bucket in ["bkt", "other"] {
        assert!(fs.list_dir(&format!("/data/{bucket}/deleted")).is_empty());
        assert_eq!(fs.get_object(bucket, "k", None).unwrap().body, b"second");
    }
    let after: Vec<_> = uploads.iter().map(|(b, id)| listed(b, id)).collect();
    assert_eq!(after, before);
    let again = fs.recover().unwrap();
    assert_eq!((again.buckets, again.arriving_manifests_removed), (2, 0));
    assert_eq!((again.journals_processed, again.journal_blobs_reclaimed), (0, 0));
}

/// One of several requests that are under way at the same time.
struct Flight {
    task: Task,
    next: Next,
    body: Vec<u8>,
    /// The locks it holds, and whether it holds them alone.
    held: Vec<(String, bool)>,
    /// The contents of the file that it opened.
    opened: Vec<u8>,
}

/// Requests that are under way at the same time, one step of one of them after the other.
struct Race<'a> {
    fs: &'a Store,
    flights: Vec<Flight>,
}

/// Stands where the next step was taken from.
fn taken() -> Next {
    Next::Ask(Question::ListPlainUploads)
}

/// The lock that a call takes.
fn lock_of(call: &Call) -> Option<(String, bool)> {
    match call {
        Call::LockBucket { shard, exclusive } => Some((format!("bucket {shard}"), *exclusive)),
        Call::LockKey { shard, exclusive } => Some((format!("key {shard}"), *exclusive)),
        _ => None,
    }
}

impl<'a> Race<'a> {
    fn new(fs: &'a Store) -> Race<'a> {
        Race { fs, flights: Vec::new() }
    }

    fn start(&mut self, bucket: &str, stage: Stage, plan: Plan, body: &[u8]) -> usize {
        let mut task = Task::new(self.fs.cas.env(bucket), stage, plan);
        let next = task.resume(Reply::Start);
        self.flights.push(Flight {
            task,
            next,
            body: body.to_vec(),
            held: Vec::new(),
            opened: Vec::new(),
        });
        self.flights.len() - 1
    }

    fn put_object(&mut self, key: &str, body: &[u8], content_type: &str) -> usize {
        let (stage, plan) = self.fs.cas.put_object(
            "bkt",
            key,
            content_type,
            none(),
            new_blob_id(),
            CommitIds::draw(),
            self.fs.now(),
        );
        self.start("bkt", Stage::PutBody(stage), plan, body)
    }

    fn upload_part(&mut self, key: &str, upload_id: &str, number: i32, body: &[u8]) -> usize {
        let (stage, plan) = self.fs.cas.upload_part(
            "bkt",
            key,
            upload_id,
            number,
            new_blob_id(),
            new_blob_id(),
            new_blob_id(),
        );
        self.start("bkt", Stage::PartProbe(stage), plan, body)
    }

    fn complete(&mut self, key: &str, upload_id: &str, parts: &[CompletePart]) -> usize {
        let (stage, plan) = self.fs.cas.complete_multipart_upload(
            "bkt",
            key,
            upload_id,
            draw_claims(&claims(parts)),
            CommitIds::draw(),
            self.fs.now(),
        );
        self.start("bkt", Stage::CompleteProbe(stage), plan, b"")
    }

    fn delete_bucket(&mut self) -> usize {
        self.start("bkt", Stage::EmptyWalk, self.fs.cas.delete_bucket("bkt"), b"")
    }

    /// Whether another request holds the lock that this one asks for.
    fn blocked(&self, i: usize) -> bool {
        let wanted = match &self.flights[i].next {
            Next::Do(call) => lock_of(call),
            _ => None,
        };
        match wanted {
            Some((name, alone)) => self.flights.iter().enumerate().any(|(j, f)| {
                j != i && f.held.iter().any(|h| h.0 == name && (alone || h.1))
            }),
            None => false,
        }
    }

    fn ended(&self, i: usize) -> bool {
        matches!(self.flights[i].next, Next::Done(_, _))
    }

    /// One step of a request that neither has ended nor waits for a lock.
    fn step(&mut self, i: usize) {
        let fs = self.fs;
        let flight = &mut self.flights[i];
        let mut disk = fs.disk.borrow_mut();
        let now = std::mem::replace(&mut flight.next, taken());
        flight.next = match now {
            Next::Do(call) => {
                match lock_of(&call) {
                    Some(lock) => flight.held.push(lock),
                    None => {
                        if matches!(call, Call::UnlockKey) {
                            flight.held.retain(|h| !h.0.starts_with("key"));
                        }
                    }
                }
                let result = disk.call(&flight.task, call);
                flight.task.resume(Reply::Settled(result))
            }
            Next::Ask(question) => {
                if let Question::OpenFile { at } = &question {
                    flight.opened = disk.bytes(&flight.task.path(at));
                }
                let answer = disk.answer(&flight.task, question, &flight.body);
                flight.task.resume(Reply::Answered(answer))
            }
            Next::Done(result, tallies) => Next::Done(result, tallies),
        };
        if matches!(flight.next, Next::Done(_, _)) {
            flight.held.clear();
        }
    }

    /// Lets a request run up to the step at which `here` holds.
    fn park(&mut self, i: usize, here: fn(&Next) -> bool) {
        while !here(&self.flights[i].next) {
            assert!(!self.blocked(i) && !self.ended(i), "the request never gets there");
            self.step(i);
        }
    }

    /// Lets a request run until it ends or waits for a lock, and tells whether it waits.
    fn waits(&mut self, i: usize) -> bool {
        while !self.ended(i) {
            if self.blocked(i) {
                return true;
            }
            self.step(i);
        }
        false
    }

    /// Lets a request run to its end.
    fn finish(&mut self, i: usize) -> Result<Outcome, StorageError> {
        assert!(!self.waits(i), "the request waits for a lock");
        match std::mem::replace(&mut self.flights[i].next, taken()) {
            Next::Done(result, _) => result,
            _ => unreachable!(),
        }
    }
}

/// A new version is staged and journaled, and is about to become the live one.
fn about_to_commit(next: &Next) -> bool {
    matches!(next, Next::Do(Call::Rename { src: Place::Staged { .. }, .. }))
}

/// The bucket is about to be locked.
fn about_to_lock_bucket(next: &Next) -> bool {
    matches!(next, Next::Do(Call::LockBucket { .. }))
}

/// The bucket is locked and about to be looked for.
fn bucket_locked(next: &Next) -> bool {
    matches!(next, Next::Do(Call::CheckDir { .. }))
}

fn two_parts(fs: &Store, key: &str) -> (String, Vec<u8>, Vec<CompletePart>) {
    let upload_id = fs.create_multipart_upload("bkt", key, "text/mpu", none()).unwrap();
    let part1 = vec![0xA1u8; 9000];
    let part2 = vec![0xC3u8; 5003];
    let etag1 = fs.upload_part("bkt", key, &upload_id, 1, &part1).unwrap();
    let etag2 = fs.upload_part("bkt", key, &upload_id, 2, &part2).unwrap();
    assert_eq!(fs.count_blobs("/data/bkt"), 2);
    (upload_id, joined(&[part1, part2]), all_claims(&[etag1, etag2]))
}

#[test]
fn delete_bucket_lock_serializes_against_put_deterministic() {
    let fs = store();
    let mut race = Race::new(&fs);
    let a = race.delete_bucket();
    race.park(a, bucket_locked);
    let b = race.put_object("racy", b"new body", "");
    assert!(race.waits(b), "the upload did not wait for the bucket");
    let ra = race.finish(a);
    let rb = race.finish(b);
    assert!(ra.is_ok(), "delete_bucket failed: {ra:?}");
    assert!(!fs.has("/data/bkt"));
    assert!(matches!(rb, Err(StorageError::BucketNotFound)), "{rb:?}");
}

#[test]
fn publish_lock_prevents_lost_blob_on_concurrent_overwrite_deterministic() {
    let fs = store();
    let key = "hot.key";
    fs.put_object("bkt", key, b"v0-seed", "text/v0", none()).unwrap();
    assert_eq!(fs.count_blobs("/data/bkt"), 1);
    let data_a = vec![0xAAu8; 8192];
    let data_b = vec![0xBBu8; 4096 + 7];
    let mut race = Race::new(&fs);
    let a = race.put_object(key, &data_a, "text/a");
    race.park(a, about_to_commit);
    let b = race.put_object(key, &data_b, "text/b");
    assert!(race.waits(b), "the second upload did not wait for the key");
    let ra = race.finish(a);
    let rb = race.finish(b);
    assert!(ra.is_ok(), "writer A failed: {ra:?}");
    assert!(rb.is_ok(), "writer B failed: {rb:?}");
    fs.assert_object_consistent("bkt", key);
    let head = fs.head_object("bkt", key).unwrap();
    let body = fs.get_object("bkt", key, None).unwrap().body;
    let etag_a = format!("\"{}\"", md5_hex(&data_a));
    let etag_b = format!("\"{}\"", md5_hex(&data_b));
    let is_a = body == data_a && head.etag == etag_a && head.content_type == "text/a";
    let is_b = body == data_b && head.etag == etag_b && head.content_type == "text/b";
    assert!(is_a || is_b, "survivor is not a clean A or B: etag={}", head.etag);
    assert_eq!(fs.count_blobs("/data/bkt"), 1);
    assert!(fs.list_dir("/data/bkt/deleted").is_empty());
}

#[test]
fn publish_lock_serializes_put_vs_delete_deterministic() {
    let fs = store();
    let key = "hot.key";
    fs.put_object("bkt", key, b"v0-original", "text/v0", none()).unwrap();
    let mut race = Race::new(&fs);
    let a = race.put_object(key, &[0xCCu8; 5000], "text/a");
    race.park(a, about_to_commit);
    let (stage, plan) = fs.cas.delete_object("bkt", key, CommitIds::draw());
    let b = race.start("bkt", Stage::Deleting(stage), plan, b"");
    assert!(race.waits(b), "the deletion did not wait for the key");
    let ra = race.finish(a);
    let rb = race.finish(b);
    assert!(ra.is_ok(), "PUT failed: {ra:?}");
    assert!(rb.is_ok(), "DELETE failed: {rb:?}");
    match fs.head_object("bkt", key) {
        Err(StorageError::ObjectNotFound) => {}
        Ok(_) => panic!("the deletion was lost"),
        Err(other) => panic!("unexpected head_object error: {other:?}"),
    }
    assert_eq!(fs.count_blobs("/data/bkt"), 0, "serialized DELETE must leave no blobs");
    assert!(fs.list_dir("/data/bkt/deleted").is_empty(), "no dangling journal");
}

#[test]
fn upload_part_lock_serializes_against_complete_deterministic() {
    let fs = store();
    let key = "hot.mpu";
    let (upload_id, want, parts) = two_parts(&fs, key);
    let mut race = Race::new(&fs);
    let a = race.complete(key, &upload_id, &parts);
    race.park(a, about_to_commit);
    let b = race.upload_part(key, &upload_id, 1, &[0xB2u8; 4000 + 5]);
    assert!(race.waits(b), "the part did not wait for the key");
    let ra = race.finish(a);
    let rb = race.finish(b);
    assert!(ra.is_ok(), "Complete failed: {ra:?}");
    assert!(rb.is_err(), "the part was stored after the upload was completed: {rb:?}");
    fs.assert_object_consistent("bkt", key);
    let head = fs.head_object("bkt", key).unwrap();
    assert_eq!(head.content_type, "text/mpu");
    assert_eq!(fs.get_object("bkt", key, None).unwrap().body, want);
    let mut concat = md5_digest(&want[..9000]);
    concat.extend_from_slice(&md5_digest(&want[9000..]));
    assert_eq!(head.etag, format!("\"{}-2\"", md5_hex(&concat)), "composite multipart ETag");
    assert_eq!(fs.count_blobs("/data/bkt"), 2);
    assert!(fs.list_dir("/data/bkt/deleted").is_empty(), "no dangling journal");
}

#[test]
fn abort_lock_serializes_against_complete_deterministic() {
    let fs = store();
    let key = "hot.mpu";
    let (upload_id, want, parts) = two_parts(&fs, key);
    let mut race = Race::new(&fs);
    let a = race.complete(key, &upload_id, &parts);
    race.park(a, about_to_commit);
    let (stage, plan) = fs.cas.abort_multipart_upload("bkt", key, &upload_id);
    let b = race.start("bkt", Stage::AbortProbe(stage), plan, b"");
    assert!(race.waits(b), "giving up the upload did not wait for the key");
    let ra = race.finish(a);
    let rb = race.finish(b);
    assert!(ra.is_ok(), "Complete failed: {ra:?}");
    assert!(rb.is_ok(), "Abort should no-op after the upload completed: {rb:?}");
    fs.assert_object_consistent("bkt", key);
    assert_eq!(fs.get_object("bkt", key, None).unwrap().body, want);
    assert_eq!(fs.count_blobs("/data/bkt"), 2);
    assert!(fs.list_dir("/data/bkt/deleted").is_empty(), "no dangling journal");
}

#[test]
fn c2_single_part_get_pins_blob_under_read_lock_vs_overwrite() {
    let fs = store();
    let key = "c2/hot";
    let old_bytes = vec![0xABu8; 64 * 1024];
    fs.put_object("bkt", key, &old_bytes, "application/octet-stream", none()).unwrap();
    assert_eq!(fs.count_blobs("/data/bkt"), 1);
    let mut race = Race::new(&fs);
    let (stage, plan) = fs.cas.get_object("bkt", key, None);
    let r = race.start("bkt", Stage::Reading(stage), plan, b"");
    race.park(r, |next| matches!(next, Next::Ask(Question::OpenFile { .. })));
    let new_bytes = vec![0xCDu8; 32 * 1024];
    let w = race.put_object(key, &new_bytes, "application/octet-stream");
    assert!(race.waits(w), "the overwrite did not wait for the key");
    let got = race.finish(r).expect("a missing object");
    race.finish(w).unwrap();
    match got {
        Outcome::Object { object } => match object.body {
            BodySource::Single { size, .. } => assert_eq!(
                read_single(&race.flights[r].opened, size, object.resolved_range, 65_536),
                old_bytes
            ),
            other => panic!("{other:?}"),
        },
        other => panic!("{other:?}"),
    }
    let now = fs.get_object("bkt", key, None).unwrap().body;
    assert_eq!(now, new_bytes, "the overwrite is now live");
    assert_eq!(fs.count_blobs("/data/bkt"), 1, "only the new version's blob remains");
}

#[test]
fn d3_upload_part_rechecks_upload_under_lock_concurrent_abort() {
    let fs = store();
    let key = "d3/object";
    let upload_id = fs
        .create_multipart_upload("bkt", key, "application/octet-stream", none())
        .unwrap();
    let mut race = Race::new(&fs);
    let u = race.upload_part(key, &upload_id, 1, &[3u8; 4096]);
    race.park(u, |next| matches!(next, Next::Ask(Question::StreamBlob { .. })));
    fs.disk.borrow_mut().remove_all(&format!("/data/bkt/arriving/{upload_id}"));
    let res = race.finish(u);
    assert!(matches!(res, Err(StorageError::NoSuchUpload)), "{res:?}");
    assert_eq!(fs.count_blobs("/data/bkt"), 0);
}

#[test]
fn d4_complete_writes_marker_before_rmdir() {
    let fs = store();
    let key = "d4/object";
    let (upload_id, parts, etags) = upload_3_parts(&fs, "bkt", key);
    fs.fail(&[("remove", "/arriving/")]);
    let etag = fs.complete_multipart_upload("bkt", key, &upload_id, &all_claims(&etags));
    fs.fail(&[]);
    etag.expect("Complete must succeed even if the directory cannot be removed");
    let upload_dir = format!("/data/bkt/arriving/{upload_id}");
    assert!(fs.has(&upload_dir));
    assert!(fs.has(&format!("{upload_dir}/completed")));
    assert!(matches!(
        fs.upload_part("bkt", key, &upload_id, 1, b"x"),
        Err(StorageError::NoSuchUpload)
    ));
    assert!(matches!(
        fs.list_parts("bkt", key, &upload_id),
        Err(StorageError::NoSuchUpload)
    ));
    assert_eq!(fs.get_object("bkt", key, None).unwrap().body, joined(&parts));
    fs.assert_object_consistent("bkt", key);
}

#[test]
fn f3_upload_part_racing_delete_bucket_returns_no_such_bucket_no_phantom() {
    let fs = store();
    let key = "mp/object";
    let upload_id = fs
        .create_multipart_upload("bkt", key, "application/octet-stream", none())
        .unwrap();
    let mut race = Race::new(&fs);
    let u = race.upload_part(key, &upload_id, 1, &[5u8; 4096]);
    race.park(u, about_to_lock_bucket);
    fs.abort_multipart_upload("bkt", key, &upload_id).unwrap();
    fs.delete_bucket("bkt").unwrap();
    assert!(!fs.has("/data/bkt"));
    let res = race.finish(u);
    assert!(matches!(res, Err(StorageError::BucketNotFound)), "{res:?}");
    assert!(!fs.has("/data/bkt"), "the bucket must not come back");
    assert!(fs.list_buckets().unwrap().is_empty());
}

#[test]
fn e3_create_bucket_takes_bucket_write_lock_serializing_against_delete() {
    let fs = store();
    let mut race = Race::new(&fs);
    let a = race.delete_bucket();
    race.park(a, bucket_locked);
    let b = race.start("bkt", Stage::CreatingBucket, fs.cas.create_bucket("bkt"), b"");
    assert!(race.waits(b), "the creation did not wait for the bucket");
    let ra = race.finish(a);
    let rb = race.finish(b);
    assert!(ra.is_ok(), "delete_bucket failed: {ra:?}");
    assert!(rb.is_ok(), "create_bucket (second) must recreate the removed bucket: {rb:?}");
    assert!(fs.is_dir("/data/bkt"));
    assert!(fs.is_dir("/data/bkt/current"));
    fs.put_object("bkt", "after", b"ok", "", none()).unwrap();
    assert_eq!(fs.get_object("bkt", "after", None).unwrap().body, b"ok");
}

#[test]
fn h_complete_racing_abort_returns_no_such_upload_not_invalid_part() {
    let fs = store();
    let key = "h/object";
    let upload_id = fs
        .create_multipart_upload("bkt", key, "application/octet-stream", none())
        .unwrap();
    let etag = fs.upload_part("bkt", key, &upload_id, 1, &[7u8; 4096]).unwrap();
    let mut race = Race::new(&fs);
    let c = race.complete(key, &upload_id, &all_claims(&[etag]));
    race.park(c, about_to_lock_bucket);
    fs.abort_multipart_upload("bkt", key, &upload_id).unwrap();
    assert!(!fs.has(&format!("/data/bkt/arriving/{upload_id}")));
    let res = race.finish(c);
    assert!(matches!(res, Err(StorageError::NoSuchUpload)), "{res:?}");
    assert_eq!(fs.count_blobs("/data/bkt"), 0);
    assert!(matches!(
        fs.get_object("bkt", key, None),
        Err(StorageError::ObjectNotFound)
    ));
}

#[test]
fn parallel_upload_part_is_consistent() {
    let fs = store();
    let key = "concurrent";
    let upload_id = fs.create_multipart_upload("bkt", key, "", none()).unwrap();
    let n = 16usize;
    let bodies: Vec<Vec<u8>> = (1..=n).map(|part| vec![part as u8; 1000 + part]).collect();
    let mut race = Race::new(&fs);
    for (i, body) in bodies.iter().enumerate() {
        race.upload_part(key, &upload_id, i as i32 + 1, body);
    }
    while (0..n).any(|i| !race.ended(i)) {
        for i in 0..n {
            if !race.ended(i) && !race.blocked(i) {
                race.step(i);
            }
        }
    }
    let etags: Vec<String> = (0..n)
        .map(|i| match race.finish(i).unwrap() {
            Outcome::Etag { etag } => etag,
            other => panic!("{other:?}"),
        })
        .collect();
    assert_eq!(fs.count_blobs("/data/bkt"), n);
    assert_eq!(fs.list_parts("bkt", key, &upload_id).unwrap().len(), n);
    fs.complete_multipart_upload("bkt", key, &upload_id, &all_claims(&etags)).unwrap();
    assert_eq!(fs.get_object("bkt", key, None).unwrap().body, joined(&bodies));
}
