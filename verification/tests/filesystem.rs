//! The store in the plain layout, driven against a disk in memory.

#![allow(dead_code)]

use s3gateway::aligned::{AlignedBuf, DEFAULT_BUF_SIZE};
use s3gateway::blob::{md5_digest, new_blob_id, BodyStep, BodyWriter};
use s3gateway::cas::parts::upload_dir;
use s3gateway::cas::records::{Journal, PartRefFile};
use s3gateway::cas::task::Reply;
use s3gateway::filesystem::store::{
    to_plain_error, validate_bucket_name, Filesystem, GetObjectResult, ListObjectsInput,
};
use s3gateway::filesystem::task::{PlainStage, PlainTask};
use s3gateway::manifest::{Manifest, ManifestPartRef};
use s3gateway::metadata::ObjectMetadata;
use s3gateway::plan::call::{
    Answer, BodyDigest, Call, Entry, EntryKind, FileDescription, Outcome, PlainPart,
    PlainPartEntry, Question, RefEntry, StoredRef, UploadDir, UploadProbe,
};
use s3gateway::plan::place::{locate, Place};
use s3gateway::plan::runner::{Next, Plan, Tallies};
use s3gateway::reader::{ByteRange, MultipartReader, PlainFileReader, ReadStep};
use s3gateway::types::{
    BodySource, BucketInfo, CompletePart, IoError, IoErrorKind, ListObjectsOutput,
    MultipartUpload, PartInfo, StorageError,
};
use s3gateway::walk::{TreeWalk, WalkStep};
use std::cell::RefCell;
use std::collections::BTreeMap;
use std::rc::Rc;

type PlainError = s3gateway::filesystem::store::StorageError;

/// What a file holds. Records are kept as the values that they stand for.
enum Data {
    Bytes(Vec<u8>),
    Manifest(Manifest),
    Journal(Journal),
    Upload(MultipartUpload),
    PartRef(PartRefFile),
    Metadata(ObjectMetadata),
}

#[derive(Clone)]
enum Node {
    Dir,
    File(Rc<Data>),
    Link(String),
}

/// Calls of this kind fail where their path holds this text.
struct Fault {
    op: &'static str,
    path: &'static str,
}

/// A disk in memory.
struct Disk {
    nodes: BTreeMap<String, Node>,
    times: BTreeMap<String, i64>,
    now: i64,
    faults: Vec<Fault>,
    syncs: Vec<String>,
    locks: Vec<String>,
}

fn io(kind: IoErrorKind) -> IoError {
    IoError { kind, code: 0 }
}

fn failed<T>(kind: IoErrorKind) -> Result<T, IoError> {
    Err(io(kind))
}

fn parent(path: &str) -> String {
    match path.rfind('/') {
        Some(0) | None => "/".to_string(),
        Some(i) => path[..i].to_string(),
    }
}

fn leaf(path: &str) -> String {
    path[path.rfind('/').map(|i| i + 1).unwrap_or(0)..].to_string()
}

fn copy_manifest(m: &Manifest) -> Manifest {
    Manifest {
        key: m.key.clone(),
        content_type: m.content_type.clone(),
        content_length: m.content_length,
        etag: m.etag.clone(),
        last_modified: m.last_modified,
        created: m.created,
        user_metadata: m.user_metadata.clone(),
        content_disposition: m.content_disposition.clone(),
        content_encoding: m.content_encoding.clone(),
        cache_control: m.cache_control.clone(),
        parts: m
            .parts
            .iter()
            .map(|p| ManifestPartRef {
                part_number: p.part_number,
                blob_id: p.blob_id.clone(),
                size: p.size,
                md5_hex: p.md5_hex.clone(),
            })
            .collect(),
        commit_nonce: m.commit_nonce.clone(),
    }
}

fn copy_journal(j: &Journal) -> Journal {
    Journal {
        mode: j.mode,
        supersedes_key: j.supersedes_key.clone(),
        commit_nonce: j.commit_nonce.clone(),
        expected_new_etag: j.expected_new_etag.clone(),
        blobs: j.blobs.clone(),
    }
}

/// The bytes of a part record.
fn encode_ref(p: &PartRefFile) -> Vec<u8> {
    format!("{} {} {} {}", p.part_number, p.blob_id, p.size, p.md5_hex).into_bytes()
}

fn decode_ref(bytes: &[u8]) -> Option<PartRefFile> {
    let text = String::from_utf8(bytes.to_vec()).ok()?;
    let fields: Vec<&str> = text.split(' ').collect();
    if fields.len() != 4 {
        return None;
    }
    Some(PartRefFile {
        part_number: fields[0].parse().ok()?,
        blob_id: fields[1].to_string(),
        size: fields[2].parse().ok()?,
        md5_hex: fields[3].to_string(),
    })
}

fn part_of(data: &Data) -> Option<PartRefFile> {
    match data {
        Data::PartRef(p) => Some(p.clone()),
        Data::Bytes(b) => decode_ref(b),
        _ => None,
    }
}

fn ref_bytes(data: &Data) -> Vec<u8> {
    match data {
        Data::PartRef(p) => encode_ref(p),
        Data::Bytes(b) => b.clone(),
        _ => Vec::new(),
    }
}

fn size_of(data: &Data) -> u64 {
    match data {
        Data::Bytes(b) => b.len() as u64,
        _ => 1,
    }
}

impl Disk {
    fn new() -> Disk {
        let mut disk = Disk {
            nodes: BTreeMap::new(),
            times: BTreeMap::new(),
            now: 1_700_000_000,
            faults: Vec::new(),
            syncs: Vec::new(),
            locks: Vec::new(),
        };
        disk.put("/", Node::Dir);
        disk.put("/data", Node::Dir);
        disk
    }

    fn put(&mut self, path: &str, node: Node) {
        self.times.insert(path.to_string(), self.now);
        self.nodes.insert(path.to_string(), node);
    }

    fn has(&self, path: &str) -> bool {
        self.nodes.contains_key(path)
    }

    fn is_dir(&self, path: &str) -> bool {
        matches!(self.nodes.get(path), Some(Node::Dir))
    }

    fn kind(&self, path: &str) -> Result<EntryKind, IoError> {
        match self.nodes.get(path) {
            Some(Node::Dir) => Ok(EntryKind::Directory),
            Some(Node::File(_)) => Ok(EntryKind::File),
            Some(Node::Link(_)) => Ok(EntryKind::Other),
            None => failed(IoErrorKind::NotFound),
        }
    }

    /// The files that a walk below `base` finds.
    fn walk(&self, base: &str, mut walk: TreeWalk) -> Result<Vec<String>, IoError> {
        loop {
            match walk.advance() {
                WalkStep::List { rel } => {
                    let dir = if rel.is_empty() {
                        base.to_string()
                    } else {
                        format!("{base}/{rel}")
                    };
                    walk.listed(&rel, self.listing(&dir));
                }
                WalkStep::Done => return Ok(walk.files),
                WalkStep::Failed { error } => return Err(error),
            }
        }
    }

    fn entries(&self, dir: &str) -> Vec<String> {
        let front = format!("{dir}/");
        self.nodes
            .keys()
            .filter(|p| p.starts_with(&front) && !p[front.len()..].contains('/'))
            .map(|p| p[front.len()..].to_string())
            .collect()
    }

    fn files_below(&self, dir: &str) -> Vec<String> {
        let front = format!("{dir}/");
        self.nodes
            .iter()
            .filter(|(p, n)| p.starts_with(&front) && matches!(n, Node::File(_)))
            .map(|(p, _)| p[front.len()..].to_string())
            .collect()
    }

    /// The directory that `path` lies in has to be there.
    fn in_dir(&self, path: &str) -> Result<(), IoError> {
        let mut dir = parent(path);
        match self.nodes.get(&dir) {
            Some(Node::Dir) => Ok(()),
            Some(_) => failed(IoErrorKind::NotADirectory),
            None => {
                while dir != "/" {
                    dir = parent(&dir);
                    if let Some(Node::File(_)) = self.nodes.get(&dir) {
                        return failed(IoErrorKind::NotADirectory);
                    }
                }
                failed(IoErrorKind::NotFound)
            }
        }
    }

    /// The directories of the uploads in an upload area.
    fn scan_uploads(&self, area: &str) -> Result<Vec<Result<UploadDir, IoError>>, IoError> {
        self.listing(area).map(|entries| {
            entries
                .into_iter()
                .map(|e| {
                    let name = e.unwrap().name;
                    let record = format!("{area}/{name}/upload.json");
                    let upload = self.upload(&record);
                    Ok(UploadDir {
                        is_dir: self.is_dir(&format!("{area}/{name}")),
                        completed: self.has(&format!("{area}/{name}/completed")),
                        readable: self.has(&record),
                        age: if self.has(&record) {
                            let secs = self.now - self.times[&record];
                            if secs < 0 {
                                None
                            } else {
                                Some(secs as u128 * 1_000_000_000)
                            }
                        } else {
                            None
                        },
                        upload: upload.ok(),
                        name,
                    })
                })
                .collect()
        })
    }

    /// Where a path leads once the links on it are followed.
    fn followed(&self, path: &str) -> String {
        let mut at = String::new();
        for name in path.split('/').filter(|n| !n.is_empty()) {
            let next = format!("{at}/{name}");
            at = match self.nodes.get(&next) {
                Some(Node::Link(to)) if to.starts_with('/') => to.clone(),
                Some(Node::Link(to)) => format!("{at}/{to}"),
                _ => next,
            };
        }
        at
    }

    /// Reads a file. Links are followed.
    fn read(&self, path: &str) -> Result<Rc<Data>, IoError> {
        let path = &self.followed(path);
        match self.nodes.get(path) {
            Some(Node::File(data)) => Ok(data.clone()),
            Some(_) => failed(IoErrorKind::Other),
            None => {
                self.in_dir(path)?;
                failed(IoErrorKind::NotFound)
            }
        }
    }

    fn bytes(&self, path: &str) -> Vec<u8> {
        match &*self.read(path).unwrap() {
            Data::Bytes(b) => b.clone(),
            _ => panic!("{path} holds a record"),
        }
    }

    fn write(&mut self, path: &str, data: Data) -> Result<(), IoError> {
        self.in_dir(path)?;
        match self.nodes.get(path) {
            Some(Node::Dir) | Some(Node::Link(_)) => failed(IoErrorKind::Other),
            _ => {
                self.put(path, Node::File(Rc::new(data)));
                Ok(())
            }
        }
    }

    fn create_all(&mut self, path: &str) -> Result<(), IoError> {
        match self.nodes.get(path) {
            Some(Node::Dir) => return Ok(()),
            Some(_) => return failed(IoErrorKind::AlreadyExists),
            None => {}
        }
        self.create_all(&parent(path))?;
        self.put(path, Node::Dir);
        Ok(())
    }

    fn remove_all(&mut self, path: &str) {
        let front = format!("{path}/");
        self.nodes.retain(|p, _| p != path && !p.starts_with(&front));
    }

    fn rename(&mut self, src: &str, dst: &str) -> Result<(), IoError> {
        if !self.has(src) {
            return failed(IoErrorKind::NotFound);
        }
        self.in_dir(dst)?;
        let front = format!("{src}/");
        let moved: Vec<String> = self
            .nodes
            .keys()
            .filter(|p| *p == src || p.starts_with(&front))
            .cloned()
            .collect();
        for p in moved {
            let node = self.nodes.remove(&p).unwrap();
            let to = format!("{dst}{}", &p[src.len()..]);
            self.put(&to, node);
        }
        Ok(())
    }

    fn sync(&mut self, path: &str) -> Result<(), IoError> {
        self.syncs.push(path.to_string());
        if self.is_dir(path) {
            Ok(())
        } else {
            failed(IoErrorKind::NotFound)
        }
    }

    fn fault(&self, op: &str, path: &str) -> Result<(), IoError> {
        if self.faults.iter().any(|f| f.op == op && path.contains(f.path)) {
            failed(IoErrorKind::Other)
        } else {
            Ok(())
        }
    }

    fn has_link(&self, path: &str) -> bool {
        let mut p = path.to_string();
        while p != "/" {
            if let Some(Node::Link(_)) = self.nodes.get(&p) {
                return true;
            }
            p = parent(&p);
        }
        false
    }

    /// Makes a call.
    fn call(&mut self, task: &dyn Driven, call: Call) -> Result<(), IoError> {
        match call {
            Call::LockBucket { shard, exclusive } => {
                self.locks.push(format!("bucket {shard} {exclusive}"));
                Ok(())
            }
            Call::LockKey { shard, exclusive } => {
                self.locks.push(format!("key {shard} {exclusive}"));
                Ok(())
            }
            Call::UnlockKey => {
                self.locks.push("unlock".to_string());
                Ok(())
            }
            Call::CheckContained { at } => {
                if self.has_link(&parent(&task.path(&at))) {
                    return failed(IoErrorKind::Other);
                }
                Ok(())
            }
            Call::CheckBeneath { at } => {
                if self.has_link(&task.path(&at)) {
                    return failed(IoErrorKind::Other);
                }
                Ok(())
            }
            Call::CheckDir { at } | Call::CheckLinkedDir { at } => {
                match self.nodes.get(&task.path(&at)) {
                    Some(Node::Dir) => Ok(()),
                    Some(_) => failed(IoErrorKind::NotADirectory),
                    None => failed(IoErrorKind::NotFound),
                }
            }
            Call::CheckExists { at } => {
                if self.has(&task.path(&at)) {
                    Ok(())
                } else {
                    failed(IoErrorKind::NotFound)
                }
            }
            Call::CheckFile { at, size } => match &*self.read(&task.path(&at))? {
                Data::Bytes(b) if b.len() as u64 == size => Ok(()),
                _ => failed(IoErrorKind::Other),
            },
            Call::CreateDir { at } => {
                let path = task.path(&at);
                self.fault("create", &path)?;
                if self.has(&path) {
                    return failed(IoErrorKind::AlreadyExists);
                }
                self.in_dir(&path)?;
                self.put(&path, Node::Dir);
                Ok(())
            }
            Call::CreateDirAll { at } => {
                let path = task.path(&at);
                self.fault("create", &path)?;
                self.create_all(&path)
            }
            Call::SyncDir { at } => {
                let path = task.path(&at);
                self.fault("sync", &path)?;
                self.sync(&path)
            }
            Call::RemoveFile { at } => {
                let path = task.path(&at);
                self.fault("remove", &path)?;
                match self.nodes.get(&path) {
                    Some(Node::Dir) => failed(IoErrorKind::Other),
                    Some(_) => {
                        self.nodes.remove(&path);
                        Ok(())
                    }
                    None => failed(IoErrorKind::NotFound),
                }
            }
            Call::RemoveExisting { at } => {
                let path = task.path(&at);
                if self.fault("examine", &path).is_err() || !self.has(&self.followed(&path)) {
                    return failed(IoErrorKind::NotFound);
                }
                self.fault("remove", &path)?;
                if self.is_dir(&path) {
                    return failed(IoErrorKind::Other);
                }
                self.nodes.remove(&path);
                Ok(())
            }
            Call::RemoveDir { at } => {
                let path = task.path(&at);
                if !self.is_dir(&path) {
                    return failed(IoErrorKind::NotFound);
                }
                if !self.entries(&path).is_empty() {
                    return failed(IoErrorKind::Other);
                }
                self.nodes.remove(&path);
                Ok(())
            }
            Call::RemoveDirAll { at } => {
                let path = task.path(&at);
                self.fault("remove", &path)?;
                if !self.is_dir(&path) {
                    return failed(IoErrorKind::NotFound);
                }
                self.remove_all(&path);
                Ok(())
            }
            Call::Rename { src, dst } => {
                let (src, dst) = (task.path(&src), task.path(&dst));
                self.fault("rename", &src)?;
                self.rename(&src, &dst)
            }
            Call::Move { src, dst } => {
                let (src, dst) = (task.path(&src), task.path(&dst));
                self.fault("move", &src)?;
                self.create_all(&parent(&dst))?;
                self.rename(&src, &dst)
            }
            Call::WriteManifest { at, manifest, .. } => {
                self.write(&task.path(&at), Data::Manifest(manifest))
            }
            Call::WriteJournal { at, journal, .. } => {
                self.write(&task.path(&at), Data::Journal(journal))
            }
            Call::WriteUpload { at, upload, .. } => {
                self.write(&task.path(&at), Data::Upload(upload))
            }
            Call::WritePartRef { at, part, .. } => {
                self.write(&task.path(&at), Data::PartRef(part))
            }
            Call::WriteBytes { at, data, .. } => {
                let path = task.path(&at);
                self.fault("write", &path)?;
                self.write(&path, Data::Bytes(data))
            }
            Call::WriteMetadata { at, metadata, .. } => {
                self.write(&task.path(&at), Data::Metadata(metadata))
            }
        }
    }

    fn upload(&self, path: &str) -> Result<MultipartUpload, IoError> {
        match &*self.read(path)? {
            Data::Upload(u) => Ok(u.clone()),
            _ => failed(IoErrorKind::InvalidData),
        }
    }

    fn manifest(&self, path: &str) -> Result<Manifest, IoError> {
        match &*self.read(path)? {
            Data::Manifest(m) => Ok(copy_manifest(m)),
            _ => failed(IoErrorKind::InvalidData),
        }
    }

    fn metadata(&self, path: &str) -> Result<ObjectMetadata, IoError> {
        match &*self.read(path)? {
            Data::Metadata(m) => Ok(m.clone()),
            _ => failed(IoErrorKind::InvalidData),
        }
    }

    fn listing(&self, dir: &str) -> Result<Vec<Result<Entry, IoError>>, IoError> {
        self.fault("list", dir)?;
        match self.nodes.get(dir) {
            Some(Node::Dir) => {}
            Some(_) => return failed(IoErrorKind::NotADirectory),
            None => return failed(IoErrorKind::NotFound),
        }
        Ok(self
            .entries(dir)
            .into_iter()
            .map(|name| {
                let path = format!("{dir}/{name}");
                Ok(Entry {
                    kind: self.kind(&path).ok(),
                    mtime: self.times[&path],
                    name,
                })
            })
            .collect())
    }

    /// Answers a question.
    fn answer(&mut self, task: &dyn Driven, question: Question, body: &[u8]) -> Answer {
        match question {
            Question::TryCreateDir { at } => {
                Answer::Unit(self.call(task, Call::CreateDir { at }))
            }
            Question::TrySyncDir { at } => Answer::Unit(self.call(task, Call::SyncDir { at })),
            Question::StreamBlob { id } => {
                let path = task.path(&Place::Blob { id: id.clone() });
                let written = self.create_all(&parent(&path)).and_then(|_| {
                    let (data, writer) = stream(body);
                    self.write(&path, Data::Bytes(data))?;
                    Ok(writer.finish(id))
                });
                Answer::Blob(written)
            }
            Question::StreamFile { at } => {
                let path = task.path(&at);
                let (data, writer) = stream(body);
                let size = writer.written();
                let digest = writer.digest();
                Answer::Body(
                    self.write(&path, Data::Bytes(data))
                        .map(|_| BodyDigest { digest, size }),
                )
            }
            Question::ReadManifest { at } => Answer::Manifest(self.manifest(&task.path(&at))),
            Question::ReadJournal { at } => Answer::Journal(
                self.read(&task.path(&at)).and_then(|data| match &*data {
                    Data::Journal(j) => Ok(copy_journal(j)),
                    _ => failed(IoErrorKind::InvalidData),
                }),
            ),
            Question::ReadMetadata { at } => Answer::Metadata(self.metadata(&task.path(&at))),
            Question::ProbeUpload { id } => {
                let dir = task.path(&Place::Upload { id });
                Answer::Upload(UploadProbe {
                    dir: upload_dir(self.kind(&dir), &Some(dir.clone()), &Some("/data".to_string())),
                    completed: self.has(&format!("{dir}/completed")),
                    upload: self.upload(&format!("{dir}/upload.json")),
                })
            }
            Question::ReadPlainUpload { id } => Answer::PlainUpload(self.upload(&task.path(
                &Place::PlainUploadFile { id, name: "meta.json".to_string() },
            ))),
            Question::ReadPartRef { at } => Answer::PartRef(
                self.read(&task.path(&at)).ok().and_then(|data| {
                    part_of(&data)
                        .map(|p| StoredRef { bytes: ref_bytes(&data), blob_id: p.blob_id })
                }),
            ),
            Question::ReadPartRefs { id } => {
                let dir = task.path(&Place::UploadFile { id, name: "parts".to_string() });
                Answer::PartRefs(self.listing(&dir).map(|entries| {
                    entries
                        .into_iter()
                        .map(|e| {
                            let name = e.unwrap().name;
                            let data = self.read(&format!("{dir}/{name}")).ok();
                            RefEntry { part: data.and_then(|d| part_of(&d)), name }
                        })
                        .collect()
                }))
            }
            Question::RefTimes { id, numbers } => Answer::Times(
                numbers
                    .iter()
                    .map(|n| {
                        let name = format!("{n:05}.ref");
                        let path = task.path(&Place::PartFile { id: id.clone(), name });
                        self.times.get(&path).copied().unwrap_or(0)
                    })
                    .collect(),
            ),
            Question::OpenFile { at } => {
                Answer::Opened(self.read(&task.path(&at)).map(|data| size_of(&data)))
            }
            Question::Walk { at, instead } => {
                let (mut dir, base) = (task.path(&at), task.path(&instead));
                if !self.is_dir(&dir) {
                    dir = base.clone();
                }
                let rel = dir[base.len()..].trim_start_matches('/');
                Answer::Files(self.walk(&base, TreeWalk::new(rel)))
            }
            Question::WalkObjects { at } => {
                Answer::Files(self.walk(&task.path(&at), TreeWalk::over_objects()))
            }
            Question::List { at } => Answer::Entries(self.listing(&task.path(&at))),
            Question::ScanUploads { .. } => {
                Answer::UploadDirs(self.scan_uploads(&task.path(&Place::Arriving)))
            }
            Question::ProbePlainPart { at } => {
                let data = self.read(&task.path(&at));
                Answer::PlainPart(match data {
                    Ok(data) => PlainPart {
                        size: Some(size_of(&data)),
                        digest: Ok(md5_digest(&ref_bytes(&data))),
                    },
                    Err(e) => PlainPart { size: None, digest: Err(e) },
                })
            }
            Question::ListPlainParts { id } => {
                let dir = task.path(&Place::PlainUploadFile { id, name: "parts".to_string() });
                Answer::PlainParts(self.listing(&dir).map(|entries| {
                    entries
                        .into_iter()
                        .map(|e| {
                            let e = e.unwrap();
                            let path = format!("{dir}/{}", e.name);
                            let data = self.read(&path)?;
                            Ok(PlainPartEntry {
                                is_dir: e.kind == Some(EntryKind::Directory),
                                size: size_of(&data),
                                mtime: e.mtime,
                                digest: Ok(md5_digest(&ref_bytes(&data))),
                                name: e.name,
                            })
                        })
                        .collect()
                }))
            }
            Question::ListPlainUploads => {
                let area = task.path(&Place::Uploads);
                Answer::PlainUploads(self.listing(&area).map(|entries| {
                    entries
                        .into_iter()
                        .map(|e| Ok(self.upload(&format!("{area}/{}/meta.json", e?.name)).ok()))
                        .collect()
                }))
            }
            Question::Describe { key } => {
                let path = task.path(&Place::Object { key });
                Answer::Described(self.read(&path).map(|data| FileDescription {
                    size: size_of(&data),
                    mtime: self.times[&path],
                    metadata: self.metadata(&format!("{path}.s3meta")).ok(),
                }))
            }
        }
    }

    /// Reads a body to its end, `want` bytes at a time.
    fn read_body(&self, body: BodySource, range: Option<ByteRange>, want: usize) -> Vec<u8> {
        match body {
            BodySource::Single { path, size } => read_single(&self.bytes(&path), size, range, want),
            BodySource::Parts { parts } => {
                let paths: Vec<String> = parts.iter().map(|p| p.path.clone()).collect();
                let mut reader = MultipartReader::new(parts, range);
                let mut file: Vec<u8> = Vec::new();
                let mut out = Vec::new();
                loop {
                    let got = match reader.begin(want) {
                        ReadStep::Bytes(b) => b,
                        ReadStep::Open { part } => {
                            file = self.bytes(&paths[part]);
                            reader.opened();
                            continue;
                        }
                        ReadStep::Window { offset, len } => {
                            match reader.window(window(&file, offset, len), want) {
                                Some(b) => b,
                                None => continue,
                            }
                        }
                    };
                    if got.is_empty() {
                        return out;
                    }
                    out.extend_from_slice(&got);
                }
            }
        }
    }
}

/// Reads a body of one file to its end, `want` bytes at a time.
fn read_single(file: &[u8], size: u64, range: Option<ByteRange>, want: usize) -> Vec<u8> {
    let mut out = Vec::new();
    let mut reader = PlainFileReader::open(size, range);
    loop {
        let got = match reader.begin(want) {
            ReadStep::Bytes(b) => b,
            ReadStep::Open { .. } => unreachable!(),
            ReadStep::Window { offset, len } => reader.window(window(file, offset, len), want),
        };
        if got.is_empty() {
            return out;
        }
        out.extend_from_slice(&got);
    }
}

/// What a read of a file at an offset gives back.
fn window(file: &[u8], offset: u64, len: usize) -> &[u8] {
    let start = (offset as usize).min(file.len());
    &file[start..(start + len).min(file.len())]
}

/// Stores a body in a file, block by block.
fn stream(body: &[u8]) -> (Vec<u8>, BodyWriter) {
    let mut file: Vec<u8> = Vec::new();
    let mut pos = 0usize;
    let mut block = AlignedBuf::new(DEFAULT_BUF_SIZE);
    let cap = block.capacity();
    let (mut writer, mut step) = BodyWriter::new(cap);
    loop {
        step = match step {
            BodyStep::Read { from } => {
                let n = (cap - from).min(body.len() - pos).min(400_000);
                block.as_mut_slice()[from..from + n].copy_from_slice(&body[pos..pos + n]);
                pos += n;
                writer.on_read(&block.as_slice()[..cap], Ok(n))
            }
            BodyStep::Write { from, len, offset } => {
                let n = (len - from).min(300_000);
                file.resize(offset as usize, 0);
                file.extend_from_slice(&block.as_slice()[from..from + n]);
                writer.on_write(Ok(n))
            }
            BodyStep::Sync => return (file, writer),
            BodyStep::Failed(e) => panic!("{e:?}"),
        };
    }
}

/// A task that can be driven.
trait Driven {
    fn resume(&mut self, reply: Reply) -> Next;
    fn path(&self, place: &Place<String>) -> String;
}

/// Drives a task to its end.
fn drive<T: Driven>(
    disk: &mut Disk,
    task: &mut T,
    body: &[u8],
) -> (Result<Outcome, StorageError>, Tallies) {
    let mut next = task.resume(Reply::Start);
    loop {
        next = match next {
            Next::Do(call) => {
                let result = disk.call(task, call);
                task.resume(Reply::Settled(result))
            }
            Next::Ask(question) => {
                let answer = disk.answer(task, question, body);
                task.resume(Reply::Answered(answer))
            }
            Next::Done(result, tallies) => return (result, tallies),
        };
    }
}

fn md5_hex(data: &[u8]) -> String {
    hex::encode(md5_digest(data))
}

impl Driven for PlainTask {
    fn resume(&mut self, reply: Reply) -> Next {
        PlainTask::resume(self, reply)
    }

    fn path(&self, place: &Place<String>) -> String {
        locate(&self.env().root, &self.env().bucket, place)
    }
}

type Pairs = Vec<(String, String)>;

/// The store together with its disk.
struct Store {
    plain: Filesystem,
    disk: RefCell<Disk>,
}

struct Got {
    metadata: ObjectMetadata,
    range: Option<ByteRange>,
    total_size: u64,
    body: Vec<u8>,
}

impl Store {
    fn run(
        &self,
        bucket: &str,
        stage: PlainStage,
        plan: Plan,
        body: &[u8],
    ) -> Result<Outcome, PlainError> {
        let mut task = PlainTask::new(self.plain.env(bucket), stage, plan);
        drive(&mut self.disk.borrow_mut(), &mut task, body).0.map_err(to_plain_error)
    }

    fn done(&self, bucket: &str, stage: PlainStage, plan: Plan) -> Result<(), PlainError> {
        self.run(bucket, stage, plan, b"").map(|_| ())
    }

    fn has(&self, path: &str) -> bool {
        self.disk.borrow().has(path)
    }

    fn create_bucket(&self, name: &str) -> Result<(), PlainError> {
        self.done(name, PlainStage::CreatingBucket, self.plain.create_bucket(name))
    }

    fn head_bucket(&self, name: &str) -> Result<(), PlainError> {
        self.done(name, PlainStage::Closed, self.plain.head_bucket(name))
    }

    fn delete_bucket(&self, name: &str) -> Result<(), PlainError> {
        self.done(name, PlainStage::RemovingBucket, self.plain.delete_bucket(name))
    }

    fn list_buckets(&self) -> Result<Vec<BucketInfo>, PlainError> {
        match self.run("", PlainStage::BucketsList, self.plain.list_buckets(), b"")? {
            Outcome::Buckets { buckets } => Ok(buckets),
            other => panic!("{other:?}"),
        }
    }

    fn put_object(
        &self,
        bucket: &str,
        key: &str,
        body: &[u8],
        content_type: &str,
        user_metadata: Pairs,
    ) -> Result<String, PlainError> {
        let (stage, plan) = self.plain.put_object(
            bucket,
            key,
            content_type,
            user_metadata,
            new_blob_id(),
            1_700_000_000,
        );
        match self.run(bucket, PlainStage::Body(stage), plan, body)? {
            Outcome::Etag { etag } => Ok(etag),
            other => panic!("{other:?}"),
        }
    }

    fn get_object(
        &self,
        bucket: &str,
        key: &str,
        range: Option<ByteRange>,
    ) -> Result<Got, PlainError> {
        let (stage, plan) = self.plain.get_object(bucket, key, range);
        match self.run(bucket, PlainStage::Reading(stage), plan, b"")? {
            Outcome::Object { object } => {
                let object = GetObjectResult::from_answer(object);
                Ok(Got {
                    metadata: object.metadata,
                    range: object.range,
                    total_size: object.total_size,
                    body: self.disk.borrow().read_body(object.body, object.range, 100_000),
                })
            }
            other => panic!("{other:?}"),
        }
    }

    fn head_object(&self, bucket: &str, key: &str) -> Result<ObjectMetadata, PlainError> {
        match self.run(bucket, PlainStage::Heading, self.plain.head_object(bucket, key), b"")? {
            Outcome::Headers { metadata } => Ok(metadata),
            other => panic!("{other:?}"),
        }
    }

    fn delete_object(&self, bucket: &str, key: &str) -> Result<(), PlainError> {
        self.done(bucket, PlainStage::Closed, self.plain.delete_object(bucket, key))
    }

    fn list_objects(&self, input: &ListObjectsInput) -> Result<ListObjectsOutput, PlainError> {
        let (stage, plan) = self.plain.list_objects(input);
        match self.run(&input.bucket, PlainStage::Walking(stage), plan, b"")? {
            Outcome::Listing { page } => Ok(page),
            other => panic!("{other:?}"),
        }
    }

    fn create_multipart_upload(
        &self,
        bucket: &str,
        key: &str,
        content_type: &str,
        user_metadata: Pairs,
    ) -> Result<String, PlainError> {
        let plan = self.plain.create_multipart_upload(
            bucket,
            key,
            content_type,
            user_metadata,
            new_blob_id(),
            1_700_000_000,
        );
        match self.run(bucket, PlainStage::Closed, plan, b"")? {
            Outcome::UploadId { id } => Ok(id),
            other => panic!("{other:?}"),
        }
    }

    fn upload_part(&self, upload_id: &str, n: i32, body: &[u8]) -> Result<String, PlainError> {
        let (stage, plan) = self.plain.upload_part(upload_id, n, new_blob_id());
        match self.run("", PlainStage::PartBody(stage), plan, body)? {
            Outcome::Etag { etag } => Ok(etag),
            other => panic!("{other:?}"),
        }
    }

    fn complete_multipart_upload(
        &self,
        upload_id: &str,
        parts: Vec<CompletePart>,
    ) -> Result<String, PlainError> {
        let (stage, plan) =
            self.plain.complete_multipart_upload(upload_id, parts, 1_700_000_000);
        match self.run("", PlainStage::Completing(stage), plan, b"")? {
            Outcome::Etag { etag } => Ok(etag),
            other => panic!("{other:?}"),
        }
    }

    fn abort_multipart_upload(&self, upload_id: &str) -> Result<(), PlainError> {
        self.done("", PlainStage::Closed, self.plain.abort_multipart_upload(upload_id))
    }

    fn list_multipart_uploads(&self, bucket: &str) -> Result<Vec<MultipartUpload>, PlainError> {
        let (stage, plan) = self.plain.list_multipart_uploads(bucket);
        match self.run("", PlainStage::UploadsList(stage), plan, b"")? {
            Outcome::Uploads { uploads, .. } => Ok(uploads),
            other => panic!("{other:?}"),
        }
    }

    fn list_parts(&self, upload_id: &str) -> Result<Vec<PartInfo>, PlainError> {
        match self.run("", PlainStage::PartsList, self.plain.list_parts(upload_id), b"")? {
            Outcome::Parts { parts } => Ok(parts),
            other => panic!("{other:?}"),
        }
    }
}

fn fs() -> Store {
    Store { plain: Filesystem::new("/data"), disk: RefCell::new(Disk::new()) }
}

fn um() -> Pairs {
    Vec::new()
}

fn part(part_number: i32, etag: &str) -> CompletePart {
    CompletePart { part_number, etag: etag.to_string() }
}

fn all_of(bucket: &str) -> ListObjectsInput {
    ListObjectsInput {
        bucket: bucket.to_string(),
        prefix: String::new(),
        delimiter: String::new(),
        max_keys: 0,
        start_after: String::new(),
        continuation_token: String::new(),
    }
}

#[test]
fn bucket_lifecycle() {
    let f = fs();
    f.create_bucket("my-bucket").unwrap();
    assert!(matches!(f.create_bucket("my-bucket"), Err(PlainError::BucketExists)));
    f.head_bucket("my-bucket").unwrap();
    assert!(matches!(f.head_bucket("nope"), Err(PlainError::BucketNotFound)));
    let buckets = f.list_buckets().unwrap();
    assert_eq!(buckets.len(), 1);
    f.delete_bucket("my-bucket").unwrap();
    assert!(matches!(f.head_bucket("my-bucket"), Err(PlainError::BucketNotFound)));
}

#[test]
fn delete_non_empty_bucket_fails() {
    let f = fs();
    f.create_bucket("bkt").unwrap();
    f.put_object("bkt", "k", &b"data"[..], "text/plain", um()).unwrap();
    assert!(matches!(f.delete_bucket("bkt"), Err(PlainError::BucketNotEmpty)));
}

#[test]
fn filesystem_bucket_name_validation() {
    assert!(validate_bucket_name("abc").is_ok());
    assert!(validate_bucket_name("my-bucket.example").is_ok());
    assert!(validate_bucket_name("a1b2").is_ok());
    // too short / long
    assert!(validate_bucket_name("ab").is_err());
    assert!(validate_bucket_name(&"a".repeat(64)).is_err());
    // uppercase
    assert!(validate_bucket_name("MyBucket").is_err());
    // start/end with non-alnum
    assert!(validate_bucket_name("-abc").is_err());
    assert!(validate_bucket_name("abc-").is_err());
    assert!(validate_bucket_name(".abc").is_err());
    // adjacent dots
    assert!(validate_bucket_name("a..b").is_err());
    // ip address
    assert!(validate_bucket_name("192.168.0.1").is_err());
    // xn-- prefix, -s3alias suffix
    assert!(validate_bucket_name("xn--abc").is_err());
    assert!(validate_bucket_name("mybucket-s3alias").is_err());
    // invalid char
    assert!(validate_bucket_name("under_score").is_err());
}

#[test]
fn a_bucket_with_a_bad_name_is_not_created() {
    let f = fs();
    assert!(matches!(f.create_bucket("Bad_Name"), Err(PlainError::InvalidBucket)));
}

#[test]
fn put_get_head_delete_small() {
    let f = fs();
    f.create_bucket("buck").unwrap();
    let data = b"hello, world";
    let etag = f.put_object("buck", "greeting.txt", &data[..], "text/plain", um()).unwrap();
    let expected = format!("\"{}\"", md5_hex(data));
    assert_eq!(etag, expected);

    let meta = f.head_object("buck", "greeting.txt").unwrap();
    assert_eq!(meta.content_length, data.len() as i64);
    assert_eq!(meta.content_type, "text/plain");
    assert_eq!(meta.etag, expected);

    let res = f.get_object("buck", "greeting.txt", None).unwrap();
    assert_eq!(res.body, data);
    assert_eq!(res.total_size, data.len() as u64);

    f.delete_object("buck", "greeting.txt").unwrap();
    assert!(matches!(
        f.get_object("buck", "greeting.txt", None),
        Err(PlainError::ObjectNotFound)
    ));
    f.delete_object("buck", "greeting.txt").unwrap();
}

#[test]
fn user_metadata_preserved() {
    let f = fs();
    f.create_bucket("buck").unwrap();
    let m = vec![("x-amz-meta-foo".to_string(), "bar".to_string())];
    f.put_object("buck", "k", &b"x"[..], "", m.clone()).unwrap();
    let meta = f.head_object("buck", "k").unwrap();
    assert_eq!(meta.user_metadata, m);
    assert_eq!(meta.content_type, "application/octet-stream");
}

#[test]
fn zero_byte_object() {
    let f = fs();
    f.create_bucket("buck").unwrap();
    let etag = f.put_object("buck", "empty", &b""[..], "", um()).unwrap();
    assert_eq!(etag, format!("\"{}\"", md5_hex(b"")));
    let res = f.get_object("buck", "empty", None).unwrap();
    assert!(res.body.is_empty());
}

#[test]
fn streaming_50mb_round_trip() {
    let f = fs();
    f.create_bucket("buck").unwrap();
    let size = 50 * 1024 * 1024 + 12345;
    let data: Vec<u8> = (0..size).map(|i| (i as u8).wrapping_mul(31)).collect();
    let etag = f.put_object("buck", "big", &data[..], "", um()).unwrap();
    assert_eq!(etag, format!("\"{}\"", md5_hex(&data)));
    let res = f.get_object("buck", "big", None).unwrap();
    assert_eq!(res.body.len(), data.len());
    assert_eq!(res.body, data);
}

#[test]
fn get_range_on_single_part() {
    let f = fs();
    f.create_bucket("buck").unwrap();
    let data: Vec<u8> = (0..5000).map(|i| (i % 256) as u8).collect();
    f.put_object("buck", "k", &data[..], "", um()).unwrap();
    let r = ByteRange { start: 1000, end: 1999 };
    let res = f.get_object("buck", "k", Some(r)).unwrap();
    assert_eq!(res.range, Some(r));
    assert_eq!(res.body, data[1000..=1999]);
}

#[test]
fn unicode_and_nested_keys() {
    let f = fs();
    f.create_bucket("buck").unwrap();
    f.put_object("buck", "日本語/ファイル.txt", &b"u"[..], "", um()).unwrap();
    f.put_object("buck", "a/b/c/deep.txt", &b"d"[..], "", um()).unwrap();
    let r = f.get_object("buck", "日本語/ファイル.txt", None).unwrap();
    assert_eq!(r.body, b"u");
}

#[test]
fn key_with_spaces() {
    let f = fs();
    f.create_bucket("buck").unwrap();
    f.put_object("buck", "my file name.txt", &b"s"[..], "", um()).unwrap();
    let meta = f.head_object("buck", "my file name.txt").unwrap();
    assert_eq!(meta.content_length, 1);
}

#[test]
fn put_to_missing_bucket() {
    let f = fs();
    assert!(matches!(
        f.put_object("nope", "k", &b"x"[..], "", um()),
        Err(PlainError::BucketNotFound)
    ));
}

#[test]
fn path_traversal_rejected() {
    let f = fs();
    f.create_bucket("buck").unwrap();
    assert!(matches!(
        f.put_object("buck", "../escape", &b"x"[..], "", um()),
        Err(PlainError::PathTraversal)
    ));
    assert!(matches!(
        f.put_object("buck", "a/../../escape", &b"x"[..], "", um()),
        Err(PlainError::PathTraversal)
    ));
    assert!(matches!(
        f.head_object("buck", "/etc/passwd"),
        Err(PlainError::PathTraversal)
    ));
    assert!(matches!(
        f.head_object("buck", "with\0null"),
        Err(PlainError::PathTraversal)
    ));
}

#[test]
fn malicious_bucket_name_rejected_on_all_ops() {
    let f = fs();
    for bucket in ["..", ".", "", "/", "a/b", "with\0null", "../escape"] {
        assert!(
            matches!(f.get_object(bucket, "k", None), Err(PlainError::PathTraversal)),
            "get_object should reject bucket {bucket:?}"
        );
        assert!(
            matches!(
                f.put_object(bucket, "k", &b"x"[..], "", um()),
                Err(PlainError::PathTraversal)
            ),
            "put_object should reject bucket {bucket:?}"
        );
        assert!(
            matches!(f.delete_object(bucket, "k"), Err(PlainError::PathTraversal)),
            "delete_object should reject bucket {bucket:?}"
        );
        assert!(
            matches!(f.list_objects(&all_of(bucket)), Err(PlainError::PathTraversal)),
            "list_objects should reject bucket {bucket:?}"
        );
        assert!(
            matches!(f.head_object(bucket, "k"), Err(PlainError::PathTraversal)),
            "head_object should reject bucket {bucket:?}"
        );
    }
    f.create_bucket("valid-bucket").unwrap();
    assert!(matches!(
        f.get_object("valid-bucket", "../x", None),
        Err(PlainError::PathTraversal)
    ));
    assert!(matches!(
        f.put_object("valid-bucket", "../x", &b"x"[..], "", um()),
        Err(PlainError::PathTraversal)
    ));
    f.put_object("valid-bucket", "a/b/c/d/e/deep.txt", &b"deep"[..], "", um()).unwrap();
    let r = f.get_object("valid-bucket", "a/b/c/d/e/deep.txt", None).unwrap();
    assert_eq!(r.body, b"deep");
}

#[test]
fn malicious_bucket_does_not_escape_data_root_on_disk() {
    let f = fs();
    assert!(matches!(
        f.put_object("..", "target/pwned.txt", &b"pwned"[..], "", um()),
        Err(PlainError::PathTraversal)
    ));
    assert!(!f.has("/target/pwned.txt"));
}

#[test]
fn list_prefix_delimiter_pagination() {
    let f = fs();
    f.create_bucket("buck").unwrap();
    for i in 0..10 {
        f.put_object("buck", &format!("file{:02}", i), &b"x"[..], "", um()).unwrap();
    }
    f.put_object("buck", "dir/a", &b"x"[..], "", um()).unwrap();
    f.put_object("buck", "dir/b", &b"x"[..], "", um()).unwrap();

    let out = f.list_objects(&all_of("buck")).unwrap();
    assert_eq!(out.objects.len(), 12);
    assert!(!out.is_truncated);

    let out = f
        .list_objects(&ListObjectsInput { prefix: "file0".into(), ..all_of("buck") })
        .unwrap();
    assert_eq!(out.objects.len(), 10);

    let out = f
        .list_objects(&ListObjectsInput { delimiter: "/".into(), ..all_of("buck") })
        .unwrap();
    assert_eq!(out.common_prefixes, vec!["dir/".to_string()]);
    assert_eq!(out.objects.len(), 10);

    let out = f
        .list_objects(&ListObjectsInput {
            prefix: "file".into(),
            max_keys: 3,
            ..all_of("buck")
        })
        .unwrap();
    assert_eq!(out.objects.len(), 3);
    assert!(out.is_truncated);
    assert_eq!(out.next_continuation_token, "file02");

    let out2 = f
        .list_objects(&ListObjectsInput {
            prefix: "file".into(),
            max_keys: 100,
            continuation_token: out.next_continuation_token.clone(),
            ..all_of("buck")
        })
        .unwrap();
    assert_eq!(out2.objects.len(), 7);
    assert_eq!(out2.objects[0].key, "file03");
}

#[test]
fn a_page_that_ends_with_a_group_continues_behind_its_last_object() {
    let f = fs();
    f.create_bucket("buck").unwrap();
    for k in ["a", "p/1", "z"] {
        f.put_object("buck", k, &b"x"[..], "", um()).unwrap();
    }
    let page = |token: &str| {
        f.list_objects(&ListObjectsInput {
            delimiter: "/".into(),
            max_keys: 2,
            continuation_token: token.to_string(),
            ..all_of("buck")
        })
        .unwrap()
    };
    let first = page("");
    assert_eq!(first.common_prefixes, vec!["p/".to_string()]);
    assert_eq!(first.next_continuation_token, "a");
    let second = page("a");
    assert_eq!(second.common_prefixes, vec!["p/".to_string()]);
    assert_eq!(second.objects[0].key, "z");
    assert!(!second.is_truncated);
}

#[test]
fn filesystem_list_empty_bucket() {
    let f = fs();
    f.create_bucket("buck").unwrap();
    let out = f.list_objects(&all_of("buck")).unwrap();
    assert!(out.objects.is_empty());
    assert!(!out.is_truncated);
}

#[test]
fn filesystem_list_start_after() {
    let f = fs();
    f.create_bucket("buck").unwrap();
    for k in ["a", "buck", "c", "d"] {
        f.put_object("buck", k, &b"x"[..], "", um()).unwrap();
    }
    let out = f
        .list_objects(&ListObjectsInput { start_after: "buck".into(), ..all_of("buck") })
        .unwrap();
    let keys: Vec<&str> = out.objects.iter().map(|o| o.key.as_str()).collect();
    assert_eq!(keys, vec!["c", "d"]);
}

#[test]
fn a_file_without_a_sidecar_is_listed_by_its_size_and_time() {
    let f = fs();
    f.create_bucket("buck").unwrap();
    f.disk
        .borrow_mut()
        .write("/data/buck/stray", Data::Bytes(b"four".to_vec()))
        .unwrap();
    let out = f.list_objects(&all_of("buck")).unwrap();
    assert_eq!(out.objects.len(), 1);
    assert_eq!(out.objects[0].size, 4);
    assert_eq!(out.objects[0].etag, "");
    assert_eq!(out.objects[0].last_modified_unix, 1_700_000_000);
    assert!(matches!(
        f.get_object("buck", "stray", None),
        Err(PlainError::ObjectNotFound)
    ));
}

#[test]
fn multipart_full_round_trip() {
    let f = fs();
    f.create_bucket("buck").unwrap();
    let uid = f
        .create_multipart_upload("buck", "big.bin", "application/octet-stream", um())
        .unwrap();
    let p1 = vec![1u8; 5 * 1024 * 1024];
    let p2 = vec![2u8; 5 * 1024 * 1024];
    let p3 = vec![3u8; 1234];
    let e1 = f.upload_part(&uid, 1, &p1[..]).unwrap();
    let e2 = f.upload_part(&uid, 2, &p2[..]).unwrap();
    let e3 = f.upload_part(&uid, 3, &p3[..]).unwrap();
    assert_eq!(e1, format!("\"{}\"", md5_hex(&p1)));

    let parts = f.list_parts(&uid).unwrap();
    assert_eq!(parts.len(), 3);
    assert_eq!(parts[0].part_number, 1);

    let ups = f.list_multipart_uploads("buck").unwrap();
    assert_eq!(ups.len(), 1);
    assert_eq!(ups[0].key, "big.bin");

    let etag = f
        .complete_multipart_upload(&uid, vec![part(1, &e1), part(2, &e2), part(3, &e3)])
        .unwrap();
    let mut concat = Vec::new();
    concat.extend_from_slice(&md5_digest(&p1));
    concat.extend_from_slice(&md5_digest(&p2));
    concat.extend_from_slice(&md5_digest(&p3));
    let expected = format!("\"{}-3\"", md5_hex(&concat));
    assert_eq!(etag, expected);

    let res = f.get_object("buck", "big.bin", None).unwrap();
    assert!(res.metadata.is_multipart());
    let mut full = p1.clone();
    full.extend_from_slice(&p2);
    full.extend_from_slice(&p3);
    assert_eq!(res.body.len(), full.len());
    assert_eq!(res.body, full);

    let r = ByteRange { start: 5 * 1024 * 1024 - 2, end: 5 * 1024 * 1024 + 2 };
    let res = f.get_object("buck", "big.bin", Some(r)).unwrap();
    assert_eq!(res.body, &full[(5 * 1024 * 1024 - 2)..=(5 * 1024 * 1024 + 2)]);

    assert!(matches!(f.list_parts(&uid), Err(PlainError::NoSuchUpload)));
}

#[test]
fn list_reports_multipart_real_size_and_composite_etag() {
    let f = fs();
    f.create_bucket("buck").unwrap();
    let uid = f.create_multipart_upload("buck", "mp.bin", "", um()).unwrap();
    let p1 = vec![7u8; 5 * 1024 * 1024];
    let p2 = vec![9u8; 4096];
    let e1 = f.upload_part(&uid, 1, &p1[..]).unwrap();
    let e2 = f.upload_part(&uid, 2, &p2[..]).unwrap();
    let composite = f
        .complete_multipart_upload(&uid, vec![part(1, &e1), part(2, &e2)])
        .unwrap();
    let real_size = (p1.len() + p2.len()) as i64;

    let out = f.list_objects(&all_of("buck")).unwrap();
    assert_eq!(out.objects.len(), 1);
    let obj = &out.objects[0];
    assert_eq!(obj.key, "mp.bin");
    assert_eq!(obj.size, real_size, "listed size must be the real object size");
    assert_eq!(obj.etag, composite, "listed etag must be the composite -N");
    assert!(obj.etag.ends_with("-2\""), "composite etag should end with -2");
}

#[test]
fn multipart_wrong_etag_rejected() {
    let f = fs();
    f.create_bucket("buck").unwrap();
    let uid = f.create_multipart_upload("buck", "k", "", um()).unwrap();
    f.upload_part(&uid, 1, &b"hello"[..]).unwrap();
    let err = f.complete_multipart_upload(&uid, vec![part(1, "\"deadbeef\"")]);
    assert!(matches!(err, Err(PlainError::InvalidPart)));
}

#[test]
fn multipart_wrong_order_rejected() {
    let f = fs();
    f.create_bucket("buck").unwrap();
    let uid = f.create_multipart_upload("buck", "k", "", um()).unwrap();
    f.upload_part(&uid, 1, &b"a"[..]).unwrap();
    f.upload_part(&uid, 2, &b"b"[..]).unwrap();
    let err = f.complete_multipart_upload(&uid, vec![part(2, ""), part(1, "")]);
    assert!(matches!(err, Err(PlainError::InvalidPartOrder)));
}

#[test]
fn a_claim_without_an_entity_tag_fits_any_part() {
    let f = fs();
    f.create_bucket("buck").unwrap();
    let uid = f.create_multipart_upload("buck", "k", "", um()).unwrap();
    f.upload_part(&uid, 1, &b"a"[..]).unwrap();
    f.upload_part(&uid, 12, &b"b"[..]).unwrap();
    f.complete_multipart_upload(&uid, vec![part(1, ""), part(12, "")]).unwrap();
    assert_eq!(f.get_object("buck", "k", None).unwrap().body, b"ab");
}

#[test]
fn a_part_that_was_not_uploaded_is_refused() {
    let f = fs();
    f.create_bucket("buck").unwrap();
    let uid = f.create_multipart_upload("buck", "k", "", um()).unwrap();
    let err = f.complete_multipart_upload(&uid, vec![part(4, "")]);
    assert!(matches!(err, Err(PlainError::InvalidPart)));
    assert!(matches!(
        f.complete_multipart_upload("no-upload", vec![]),
        Err(PlainError::NoSuchUpload)
    ));
}

#[test]
fn uploads_are_listed_by_key_for_one_bucket_or_all() {
    let f = fs();
    f.create_bucket("buck").unwrap();
    f.create_bucket("other").unwrap();
    assert!(f.list_multipart_uploads("").unwrap().is_empty());
    for (b, k) in [("buck", "z"), ("other", "m"), ("buck", "a")] {
        f.create_multipart_upload(b, k, "", um()).unwrap();
    }
    let keys = |b: &str| -> Vec<String> {
        f.list_multipart_uploads(b).unwrap().iter().map(|u| u.key.clone()).collect()
    };
    assert_eq!(keys("buck"), vec!["a", "z"]);
    assert_eq!(keys(""), vec!["a", "m", "z"]);
}

#[test]
fn multipart_abort_cleans_up() {
    let f = fs();
    f.create_bucket("buck").unwrap();
    let uid = f.create_multipart_upload("buck", "k", "", um()).unwrap();
    f.upload_part(&uid, 1, &b"a"[..]).unwrap();
    f.abort_multipart_upload(&uid).unwrap();
    assert!(matches!(f.list_parts(&uid), Err(PlainError::NoSuchUpload)));
    assert!(matches!(f.abort_multipart_upload(&uid), Err(PlainError::NoSuchUpload)));
}

#[test]
fn upload_part_overwrite() {
    let f = fs();
    f.create_bucket("buck").unwrap();
    let uid = f.create_multipart_upload("buck", "k", "", um()).unwrap();
    f.upload_part(&uid, 1, &b"first"[..]).unwrap();
    let e = f.upload_part(&uid, 1, &b"second-version"[..]).unwrap();
    assert_eq!(e, format!("\"{}\"", md5_hex(b"second-version")));
    let parts = f.list_parts(&uid).unwrap();
    assert_eq!(parts.len(), 1);
    assert_eq!(parts[0].size, "second-version".len() as i64);
}

#[test]
fn parts_are_listed_by_number() {
    let f = fs();
    f.create_bucket("buck").unwrap();
    let uid = f.create_multipart_upload("buck", "k", "", um()).unwrap();
    for n in [10, 2, 0] {
        f.upload_part(&uid, n, &b"x"[..]).unwrap();
    }
    f.disk
        .borrow_mut()
        .write(
            &format!("/data/.multipart/{uid}/parts/00007.tmp.1"),
            Data::Bytes(Vec::new()),
        )
        .unwrap();
    let numbers: Vec<i32> =
        f.list_parts(&uid).unwrap().iter().map(|p| p.part_number).collect();
    assert_eq!(numbers, vec![0, 2, 10]);
}

#[test]
fn delete_multipart_object_cleans_parts_and_allows_bucket_delete() {
    let f = fs();
    f.create_bucket("buck").unwrap();
    let uid = f.create_multipart_upload("buck", "obj.bin", "", um()).unwrap();
    let p1 = vec![1u8; 5 * 1024 * 1024];
    let p2 = vec![2u8; 1024];
    let e1 = f.upload_part(&uid, 1, &p1[..]).unwrap();
    let e2 = f.upload_part(&uid, 2, &p2[..]).unwrap();
    f.complete_multipart_upload(&uid, vec![part(1, &e1), part(2, &e2)]).unwrap();
    f.delete_object("buck", "obj.bin").unwrap();
    assert!(matches!(
        f.get_object("buck", "obj.bin", None),
        Err(PlainError::ObjectNotFound)
    ));
    f.delete_bucket("buck").unwrap();
    assert!(matches!(f.head_bucket("buck"), Err(PlainError::BucketNotFound)));
}

#[test]
fn deleting_prunes_the_empty_directories_above() {
    let f = fs();
    f.create_bucket("buck").unwrap();
    f.put_object("buck", "a/b/c", &b"x"[..], "", um()).unwrap();
    f.put_object("buck", "a/d", &b"y"[..], "", um()).unwrap();
    f.delete_object("buck", "a/b/c").unwrap();
    assert!(!f.has("/data/buck/a/b"));
    assert!(f.has("/data/buck/a"));
    assert_eq!(f.get_object("buck", "a/d", None).unwrap().body, b"y");
}

#[test]
fn complete_over_prior_multipart_clears_stale_parts() {
    let f = fs();
    f.create_bucket("buck").unwrap();
    let key = "obj.bin";
    let uid3 = f.create_multipart_upload("buck", key, "", um()).unwrap();
    let a1 = vec![1u8; 5 * 1024 * 1024];
    let a2 = vec![2u8; 5 * 1024 * 1024];
    let a3 = vec![3u8; 1234];
    let e1 = f.upload_part(&uid3, 1, &a1[..]).unwrap();
    let e2 = f.upload_part(&uid3, 2, &a2[..]).unwrap();
    let e3 = f.upload_part(&uid3, 3, &a3[..]).unwrap();
    f.complete_multipart_upload(&uid3, vec![part(1, &e1), part(2, &e2), part(3, &e3)])
        .unwrap();
    let parts_dir = "/data/buck/obj.bin.parts";
    assert!(f.has(&format!("{parts_dir}/00003")), "3-part object has 00003");

    let uid2 = f.create_multipart_upload("buck", key, "", um()).unwrap();
    let b1 = vec![4u8; 5 * 1024 * 1024];
    let b2 = vec![5u8; 4321];
    let f1 = f.upload_part(&uid2, 1, &b1[..]).unwrap();
    let f2 = f.upload_part(&uid2, 2, &b2[..]).unwrap();
    f.complete_multipart_upload(&uid2, vec![part(1, &f1), part(2, &f2)]).unwrap();

    assert!(!f.has(&format!("{parts_dir}/00003")), "stale 00003 must be gone");
    assert!(f.has(&format!("{parts_dir}/00001")));
    assert!(f.has(&format!("{parts_dir}/00002")));

    let res = f.get_object("buck", key, None).unwrap();
    let mut expected = b1.clone();
    expected.extend_from_slice(&b2);
    assert_eq!(res.body.len(), expected.len());
    assert_eq!(res.body, expected);
}

#[test]
fn single_part_put_over_multipart_drops_parts() {
    let f = fs();
    f.create_bucket("buck").unwrap();
    let key = "obj.bin";
    let uid = f.create_multipart_upload("buck", key, "", um()).unwrap();
    let p1 = vec![1u8; 5 * 1024 * 1024];
    let p2 = vec![2u8; 2048];
    let e1 = f.upload_part(&uid, 1, &p1[..]).unwrap();
    let e2 = f.upload_part(&uid, 2, &p2[..]).unwrap();
    f.complete_multipart_upload(&uid, vec![part(1, &e1), part(2, &e2)]).unwrap();
    let parts_dir = "/data/buck/obj.bin.parts";
    assert!(f.has(parts_dir), "multipart object has a .parts dir");

    let new_bytes = b"just a small single-part object";
    f.put_object("buck", key, &new_bytes[..], "", um()).unwrap();
    assert!(!f.has(parts_dir), ".parts must be removed after single PUT");
    let meta = f.head_object("buck", key).unwrap();
    assert!(!meta.is_multipart(), "sidecar must not be multipart anymore");
    let res = f.get_object("buck", key, None).unwrap();
    assert_eq!(res.body, new_bytes);
}

#[test]
fn upload_part_no_such_upload() {
    let f = fs();
    f.create_bucket("buck").unwrap();
    assert!(matches!(
        f.upload_part("does-not-exist", 1, &b"x"[..]),
        Err(PlainError::NoSuchUpload)
    ));
}

#[test]
fn a_listing_leaves_the_upload_areas_alone() {
    let f = fs();
    f.create_bucket("buck").unwrap();
    for key in ["a", "dir/b"] {
        f.put_object("buck", key, &b"x"[..], "", um()).unwrap();
    }
    let uid = f.create_multipart_upload("buck", "dir/m", "", um()).unwrap();
    let e1 = f.upload_part(&uid, 1, &b"part"[..]).unwrap();
    f.complete_multipart_upload(&uid, vec![part(1, &e1)]).unwrap();
    f.create_multipart_upload("buck", "open", "", um()).unwrap();
    assert!(f.has("/data/buck/dir/m.parts"));
    // Neither directory can be listed, and the listing does not ask.
    f.disk.borrow_mut().faults = vec![
        Fault { op: "list", path: "/.multipart" },
        Fault { op: "list", path: ".parts" },
    ];
    let page = f.list_objects(&all_of("buck")).unwrap();
    let keys: Vec<String> = page.objects.iter().map(|o| o.key.clone()).collect();
    assert_eq!(keys, ["a", "dir/b", "dir/m"]);
    // A directory that holds objects does count.
    f.disk.borrow_mut().faults = vec![Fault { op: "list", path: "/dir" }];
    assert!(matches!(f.list_objects(&all_of("buck")), Err(PlainError::Io(_))));
}
