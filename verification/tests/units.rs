//! The parts of the library that need no disk.

use s3gateway::aligned::{skew_for, AlignedBuf, ALIGN};
use s3gateway::blob::{
    blob_path, fsync_blob_dir, is_valid_blob_id, md5_digest, new_blob_id, BlockFill, BlockWrite,
    BodyStep, BodyWriter, FillStep, WriteStep,
};
use s3gateway::cas::complete::{composite_etag, unquote};
use s3gateway::cas::parts::upload_dir;
use s3gateway::cas::store::{
    assert_real_parent_within_root, bucket_lock_shard, key_lock_shard, quote, CasStore,
};
use s3gateway::directio::{DioFile, IoTurn, OpenTurn, EINVAL};
use s3gateway::listing::{group_keys, paginate};
use s3gateway::manifest::{
    decode_relpath_to_key, escape_key_to_relpath, is_valid_key, manifest_path, Manifest,
    ManifestPartRef,
};
use s3gateway::metadata::PartRef;
use s3gateway::path::within;
use s3gateway::plan::call::{Call, DirState, Entry, EntryKind, Outcome, Report};
use s3gateway::plan::place::Place;
use s3gateway::plan::runner::{Next, Plan, Runner, Step};
use s3gateway::numbers::{decimal_text, parse_i32, part_stem};
use s3gateway::reader::{parse_range, ByteRange, MultipartReader, PlainFileReader, ReadStep};
use s3gateway::sorting::{sort_by_name, sort_text_set};
use s3gateway::types::{validate_bucket_name, IoError, IoErrorKind, StorageError};
use s3gateway::walk::{TreeWalk, WalkStep};

fn text(v: &[&str]) -> Vec<String> {
    v.iter().map(|s| s.to_string()).collect()
}

fn md5_hex(data: &[u8]) -> String {
    hex::encode(md5_digest(data))
}

#[test]
fn allocation_is_aligned() {
    let b = AlignedBuf::new(1000);
    assert!(b.is_aligned());
    // Rounded up to a multiple of ALIGN.
    assert_eq!(b.capacity() % ALIGN, 0);
    assert!(b.capacity() >= 1000);
}

#[test]
fn zero_rounds_to_one_page() {
    let b = AlignedBuf::new(0);
    assert_eq!(b.capacity(), ALIGN);
}

#[test]
fn the_skew_leads_to_the_next_multiple() {
    assert_eq!(skew_for(0), 0);
    assert_eq!(skew_for(1), ALIGN - 1);
    assert_eq!(skew_for(ALIGN - 1), 1);
    assert_eq!(skew_for(ALIGN), 0);
    assert_eq!(skew_for(3 * ALIGN + 16), ALIGN - 16);
    assert_eq!(skew_for(usize::MAX), 1);
}

#[test]
fn read_write_through_deref() {
    let mut b = AlignedBuf::new(ALIGN);
    b.as_mut_slice()[0] = 42;
    b.as_mut_slice()[ALIGN - 1] = 7;
    assert_eq!(b.as_slice()[0], 42);
    assert_eq!(b.as_slice()[ALIGN - 1], 7);
}

#[test]
fn fanout_path_is_two_by_two_hex() {
    let root = "/data/bk";
    let id = "b3f1c2a4-1111-2222-3333-444455556666";
    let p = blob_path(root, id);
    assert_eq!(p, format!("/data/bk/blobs/b3/f1/{id}"));
}

#[test]
fn the_directories_of_a_blob_are_synced_from_the_inside_out() {
    let dirs = fsync_blob_dir("/data/bk", "b3f1c2a4-1111-2222-3333-444455556666");
    assert_eq!(
        dirs,
        vec!["/data/bk/blobs/b3/f1", "/data/bk/blobs/b3", "/data/bk/blobs"]
    );
}

#[test]
fn blob_id_validation() {
    assert!(is_valid_blob_id(&new_blob_id()));
    assert!(!is_valid_blob_id("not-a-uuid"));
    assert!(!is_valid_blob_id("../../etc/passwd"));
    assert!(!is_valid_blob_id(""));
    assert!(is_valid_blob_id("b3f1c2a4-1111-2222-3333-444455556666"));
    assert!(!is_valid_blob_id("B3F1C2A4-1111-2222-3333-444455556666"));
    assert!(!is_valid_blob_id("b3f1c2a4111122223333444455556666"));
}

#[test]
fn types_bucket_name_validation() {
    assert!(validate_bucket_name("abc").is_ok());
    assert!(validate_bucket_name("my-bucket.example").is_ok());
    assert!(validate_bucket_name("a1b2").is_ok());
    // too short / long
    assert!(validate_bucket_name("ab").is_err());
    assert!(validate_bucket_name(&"a".repeat(64)).is_err());
    // uppercase
    assert!(validate_bucket_name("MyBucket").is_err());
    // start/end with non-alnum
    assert!(validate_bucket_name("-abc").is_err());
    assert!(validate_bucket_name("abc-").is_err());
    assert!(validate_bucket_name(".abc").is_err());
    // adjacent dots
    assert!(validate_bucket_name("a..b").is_err());
    // ip address
    assert!(validate_bucket_name("192.168.0.1").is_err());
    // xn-- prefix, -s3alias suffix
    assert!(validate_bucket_name("xn--abc").is_err());
    assert!(validate_bucket_name("mybucket-s3alias").is_err());
    // invalid char
    assert!(validate_bucket_name("under_score").is_err());
}

#[test]
fn an_address_with_a_number_that_is_too_large_is_a_name() {
    assert!(validate_bucket_name("192.168.0.256").is_ok());
    assert!(validate_bucket_name("192.168.0").is_ok());
}

fn sample(key: &str) -> Manifest {
    Manifest {
        key: key.to_string(),
        content_type: "text/plain".into(),
        content_length: 11,
        etag: "\"abc\"".into(),
        last_modified: 1_700_000_000,
        created: 1_699_999_000,
        user_metadata: vec![("x-amz-meta-foo".to_string(), "bar".to_string())],
        content_disposition: String::new(),
        content_encoding: String::new(),
        cache_control: String::new(),
        parts: vec![ManifestPartRef {
            part_number: 1,
            blob_id: new_blob_id(),
            size: 11,
            md5_hex: "5eb63bbbe01eeed093cb22bb8f5acdc3".into(),
        }],
        commit_nonce: Manifest::new_nonce(),
    }
}

#[test]
fn key_to_path_simple_and_nested() {
    let cur = "/data/bk/current";
    assert_eq!(
        manifest_path(cur, "photo.jpg"),
        "/data/bk/current/photo.jpg.s3gw-live.meta"
    );
    assert_eq!(manifest_path(cur, "a/b/c"), "/data/bk/current/a/b/c.s3gw-live.meta");
}

#[test]
fn manifest_key_ending_in_meta_round_trips() {
    let cur = "/data/bk/current";
    let p = manifest_path(cur, "report.meta");
    let rel = p.strip_prefix("/data/bk/current/").unwrap();
    assert_eq!(rel, "report.meta.s3gw-live.meta");
    assert_eq!(decode_relpath_to_key(rel).unwrap(), "report.meta");
}

#[test]
fn nested_key_ending_in_meta_round_trips() {
    let cur = "/data/bk/current";
    let p = manifest_path(cur, "a/b.meta");
    assert_eq!(p, "/data/bk/current/a/b.meta.s3gw-live.meta");
    let rel = p.strip_prefix("/data/bk/current/").unwrap();
    assert_eq!(decode_relpath_to_key(rel).unwrap(), "a/b.meta");
    let p2 = manifest_path(cur, "a.meta/b");
    assert_eq!(p2, "/data/bk/current/a.meta/b.s3gw-live.meta");
    let rel2 = p2.strip_prefix("/data/bk/current/").unwrap();
    assert_eq!(decode_relpath_to_key(rel2).unwrap(), "a.meta/b");
}

#[test]
fn coexist_a_and_a_slash_b_paths_differ() {
    let cur = "/data/bk/current";
    let pa = manifest_path(cur, "a");
    let pab = manifest_path(cur, "a/b");
    assert_eq!(pa, "/data/bk/current/a.s3gw-live.meta");
    assert_eq!(pab, "/data/bk/current/a/b.s3gw-live.meta");
    let parent = |p: &str| p[..p.rfind('/').unwrap()].to_string();
    assert_ne!(parent(&pa), parent(&pab));
}

#[test]
fn coexist_a_and_a_meta_slash_b_paths_differ() {
    let cur = "/data/bk/current";
    let pa = manifest_path(cur, "a");
    let pab = manifest_path(cur, "a.meta/b");
    assert_eq!(pa, "/data/bk/current/a.s3gw-live.meta");
    assert_eq!(pab, "/data/bk/current/a.meta/b.s3gw-live.meta");
    assert!(!pab.starts_with(&pa));
}

#[test]
fn decode_rejects_non_manifest() {
    assert!(decode_relpath_to_key("foo.tmp.123").is_none());
    assert!(decode_relpath_to_key("staged").is_none());
    // A plain `.meta`-suffixed name is NOT a manifest under the new scheme.
    assert!(decode_relpath_to_key("report.meta").is_none());
}

#[test]
fn key_to_path_decode_round_trip_tricky() {
    let cur = "/data/bk/current";
    for key in [
        "a",
        "a/b",
        "a.meta",
        "a.meta/b",
        "deeply/nested/path/to/object.bin",
        "café/résumé.txt",
        "emoji/😀/file",
        "trailing.dot.",
        "x.s3gw-live.metameta",
    ] {
        let p = manifest_path(cur, key);
        let rel = p.strip_prefix("/data/bk/current/").unwrap();
        let decoded = decode_relpath_to_key(rel)
            .unwrap_or_else(|| panic!("decode failed for key {key:?}"));
        assert_eq!(decoded, key, "round-trip mismatch for key {key:?}");
        assert!(is_valid_key(key));
        assert_eq!(escape_key_to_relpath(key), key);
    }
}

#[test]
fn to_object_metadata_single_and_multi() {
    let m1 = sample("k");
    let om1 = m1.to_object_metadata();
    assert!(om1.multipart.is_none());
    assert_eq!(om1.etag, "\"abc\"");

    let mut m2 = sample("k");
    m2.parts.push(ManifestPartRef {
        part_number: 2,
        blob_id: new_blob_id(),
        size: 7,
        md5_hex: "deadbeef".into(),
    });
    let om2 = m2.to_object_metadata();
    assert_eq!(om2.multipart.as_ref().unwrap().len(), 2);
    assert_eq!(m2.blob_ids().len(), 2);
}

#[test]
fn parse_range_cases() {
    assert_eq!(
        parse_range("bytes=0-99", 1000).unwrap().unwrap(),
        ByteRange { start: 0, end: 99 }
    );
    assert_eq!(
        parse_range("bytes=500-", 1000).unwrap().unwrap(),
        ByteRange { start: 500, end: 999 }
    );
    assert_eq!(
        parse_range("bytes=-100", 1000).unwrap().unwrap(),
        ByteRange { start: 900, end: 999 }
    );
    // end clamps to size-1
    assert_eq!(
        parse_range("bytes=0-100000", 1000).unwrap().unwrap(),
        ByteRange { start: 0, end: 999 }
    );
    // no header
    assert!(parse_range("something", 1000).unwrap().is_none());
    // unsatisfiable: start past end
    assert!(parse_range("bytes=2000-", 1000).is_err());
}

#[test]
fn a_range_that_is_none_selects_the_whole_object() {
    for header in ["bytes=a-b", "bytes=0-1,4-5", "bytes=", "bytes=5", "lines=0-1"] {
        assert_eq!(parse_range(header, 1000), Ok(None), "{header}");
    }
    assert!(parse_range("bytes=0-", 0).is_err());
    assert!(parse_range("bytes=-0", 10).is_err());
    assert_eq!(ByteRange { start: 3, end: 7 }.len(), 5);
    assert!(!ByteRange { start: 3, end: 3 }.is_empty());
}

/// What a read of a file at an offset gives back.
fn window(file: &[u8], offset: u64, len: usize) -> &[u8] {
    let start = (offset as usize).min(file.len());
    &file[start..(start + len).min(file.len())]
}

fn read_plain(file: &[u8], range: Option<ByteRange>, want: usize) -> Vec<u8> {
    let mut reader = PlainFileReader::open(file.len() as u64, range);
    let mut out = Vec::new();
    loop {
        let got = match reader.begin(want) {
            ReadStep::Bytes(b) => b,
            ReadStep::Open { .. } => unreachable!(),
            ReadStep::Window { offset, len } => {
                assert_eq!(offset % ALIGN as u64, 0);
                reader.window(window(file, offset, len), want)
            }
        };
        if got.is_empty() {
            return out;
        }
        out.extend_from_slice(&got);
    }
}

#[test]
fn a_range_that_ends_before_it_starts_gives_nothing() {
    let file: Vec<u8> = (0..200u8).collect();
    assert_eq!(read_plain(&file, Some(ByteRange { start: 9, end: 5 }), 16), b"");
    assert_eq!(PlainFileReader::open(200, Some(ByteRange { start: 9, end: 5 })).remaining(), 0);
    assert_eq!(read_plain(&file, Some(ByteRange { start: 9, end: 8 }), 16), b"");
    assert_eq!(read_plain(&file, Some(ByteRange { start: 9, end: 9 }), 16), &file[9..=9]);
    assert_eq!(read_plain(&file, Some(ByteRange { start: 9, end: 12 }), 2), &file[9..=12]);
}

fn read_parts(files: &[Vec<u8>], range: Option<ByteRange>, want: usize) -> Vec<u8> {
    let parts: Vec<PartRef> = files
        .iter()
        .enumerate()
        .map(|(i, f)| PartRef {
            part_number: i as i32 + 1,
            path: part_stem(i as i32 + 1),
            size: f.len() as u64,
            md5_hex: md5_hex(f),
        })
        .collect();
    let mut reader = MultipartReader::new(parts, range);
    let mut open = 0usize;
    let mut out = Vec::new();
    loop {
        let got = match reader.begin(want) {
            ReadStep::Bytes(b) => b,
            ReadStep::Open { part } => {
                open = part;
                reader.opened();
                continue;
            }
            ReadStep::Window { offset, len } => {
                match reader.window(window(&files[open], offset, len), want) {
                    Some(b) => b,
                    None => continue,
                }
            }
        };
        if got.is_empty() {
            return out;
        }
        out.extend_from_slice(&got);
    }
}

#[test]
fn plain_full_read() {
    let data: Vec<u8> = (0..10000).map(|i| (i % 256) as u8).collect();
    assert_eq!(read_plain(&data, None, 8192), data);
}

#[test]
fn plain_range_read() {
    let data: Vec<u8> = (0..10000).map(|i| (i % 256) as u8).collect();
    let r = ByteRange { start: 100, end: 199 };
    assert_eq!(read_plain(&data, Some(r), 8192), data[100..=199]);
    let r = ByteRange { start: 4095, end: 8193 };
    assert_eq!(read_plain(&data, Some(r), 7), data[4095..=8193]);
}

#[test]
fn multipart_full_concat() {
    let p1 = b"AAAAAAAAAA".to_vec();
    let p2 = b"BBBBBBBBBBBBBBB".to_vec();
    let p3 = b"CC".to_vec();
    let mut expected = p1.clone();
    expected.extend_from_slice(&p2);
    expected.extend_from_slice(&p3);
    assert_eq!(read_parts(&[p1, p2, p3], None, 8192), expected);
}

#[test]
fn multipart_range_spanning_parts() {
    let p1 = vec![1u8; 1000];
    let p2 = vec![2u8; 1000];
    let p3 = vec![3u8; 1000];
    let mut expected = Vec::new();
    expected.extend_from_slice(&p1[500..]);
    expected.extend_from_slice(&p2);
    expected.extend_from_slice(&p3[..500]);
    let r = ByteRange { start: 500, end: 2499 };
    let out = read_parts(&[p1, p2, p3], Some(r), 8192);
    assert_eq!(out.len(), 2000);
    assert_eq!(out, expected);
}

#[test]
fn multipart_large_one_pass() {
    let mk = |seed: u8, n: usize| -> Vec<u8> {
        (0..n).map(|i| (i as u8).wrapping_add(seed)).collect()
    };
    let p1 = mk(0, 1_500_000);
    let p2 = mk(99, 1_500_007);
    let mut expected = p1.clone();
    expected.extend_from_slice(&p2);
    assert_eq!(read_parts(&[p1, p2], None, 4099), expected);
}

/// A file in memory that may refuse to bypass the cache.
struct MemFile {
    data: Vec<u8>,
    refuses_open: bool,
    refuses_io: bool,
}

fn refused() -> IoError {
    IoError { kind: IoErrorKind::Other, code: EINVAL }
}

fn open(file: &MemFile, mut turn: s3gateway::directio::DioOpening) -> DioFile {
    loop {
        let result = if turn.flags().direct && file.refuses_open {
            Err(refused())
        } else {
            Ok(())
        };
        match turn.opened(result) {
            OpenTurn::Ready(f) => return f,
            OpenTurn::Again(next) => turn = next,
            OpenTurn::Failed(e) => panic!("{e:?}"),
        }
    }
}

fn write_at(file: &mut MemFile, f: &mut DioFile, data: &[u8], offset: usize) -> usize {
    loop {
        let result = if f.is_direct() && file.refuses_io {
            Err(refused())
        } else {
            file.data.resize(file.data.len().max(offset + data.len()), 0);
            file.data[offset..offset + data.len()].copy_from_slice(data);
            Ok(data.len())
        };
        match f.pwrite_at(result) {
            IoTurn::Done(r) => return r.unwrap(),
            IoTurn::Reopen(flags) => {
                assert!(!flags.truncate && !flags.create && !flags.direct);
                f.fallback_buffered(Ok(())).unwrap();
            }
        }
    }
}

fn read_at(file: &MemFile, f: &mut DioFile, buf: &mut [u8], offset: usize) -> usize {
    loop {
        let result = if f.is_direct() && file.refuses_io {
            Err(refused())
        } else {
            let n = buf.len().min(file.data.len() - offset);
            buf[..n].copy_from_slice(&file.data[offset..offset + n]);
            Ok(n)
        };
        match f.pread_at(result) {
            IoTurn::Done(r) => return r.unwrap(),
            IoTurn::Reopen(_) => f.fallback_buffered(Ok(())).unwrap(),
        }
    }
}

#[test]
fn write_then_read_with_fallback() {
    for (refuses_open, refuses_io) in [(false, false), (false, true), (true, true)] {
        let mut file = MemFile { data: Vec::new(), refuses_open, refuses_io };
        let data = b"the quick brown fox";
        let mut f = open(&file, DioFile::create_write());
        assert_eq!(f.is_direct(), !refuses_open);
        let n = write_at(&mut file, &mut f, data, 0);
        assert_eq!(n, data.len());
        assert_eq!(f.is_direct(), !refuses_open && !refuses_io);
        let mut f = open(&file, DioFile::open_read());
        assert_eq!(file.data.len(), data.len());
        let mut buf = vec![0u8; data.len()];
        let n = read_at(&file, &mut f, &mut buf, 0);
        assert_eq!(n, data.len());
        assert_eq!(&buf, data);
    }
}

#[test]
fn positional_offsets() {
    let mut file = MemFile { data: Vec::new(), refuses_open: false, refuses_io: true };
    let mut f = open(&file, DioFile::create_write());
    write_at(&mut file, &mut f, b"AAAA", 0);
    write_at(&mut file, &mut f, b"BBBB", 4);
    let mut r = open(&file, DioFile::open_read());
    let mut buf = [0u8; 4];
    read_at(&file, &mut r, &mut buf, 4);
    assert_eq!(&buf, b"BBBB");
}

#[test]
fn buffered_fallback_path_produces_same_md5() {
    let data: Vec<u8> = (0..200_000u32).map(|i| (i % 251) as u8).collect();
    let mut file = MemFile { data: Vec::new(), refuses_open: false, refuses_io: true };
    let mut f = open(&file, DioFile::create_write());
    let mut hasher = s3gateway::blob::BodyHasher::new();
    for block in data.chunks(65_536) {
        let (mut write, mut step) = BlockWrite::new(block.len(), hasher.written());
        while let WriteStep::Write { from, offset } = step {
            let n = write_at(&mut file, &mut f, &block[from..], offset as usize);
            step = write.on_write(Ok(n));
        }
        assert_eq!(step, WriteStep::Written);
        hasher.push(block);
    }
    assert!(!f.is_direct());
    let info = hasher.finish(new_blob_id());
    assert_eq!(info.size, data.len() as u64);
    assert_eq!(info.md5_hex, md5_hex(&data));
    assert_eq!(file.data, data);
}

#[test]
fn filling_a_block_goes_on_after_an_interruption() {
    let (mut fill, step) = BlockFill::new(10);
    assert_eq!(step, FillStep::Read { from: 0 });
    assert_eq!(fill.on_read(Ok(4)), FillStep::Read { from: 4 });
    let interrupted = IoError { kind: IoErrorKind::Interrupted, code: 4 };
    assert_eq!(fill.on_read(Err(interrupted)), FillStep::Read { from: 4 });
    assert_eq!(fill.on_read(Ok(0)), FillStep::Full { len: 4 });
    let broken = IoError { kind: IoErrorKind::Other, code: 5 };
    assert_eq!(BlockFill::new(3).0.on_read(Err(broken)), FillStep::Failed(broken));
    assert_eq!(
        BlockWrite::new(3, 9).0.on_write(Ok(0)),
        WriteStep::Failed(IoError { kind: IoErrorKind::WriteZero, code: 0 })
    );
}

#[test]
fn digests_and_tags() {
    assert_eq!(md5_hex(b""), "d41d8cd98f00b204e9800998ecf8427e");
    assert_eq!(md5_hex(b"abc"), "900150983cd24fb0d6963f7d28e17f72");
    assert_eq!(
        composite_etag(&md5_digest(b"abc"), 12),
        "\"900150983cd24fb0d6963f7d28e17f72-12\""
    );
    assert_eq!(quote("x"), "\"x\"");
    assert_eq!(unquote("\"\"x\"y\""), "x\"y");
}

#[test]
fn shards_follow_the_hash() {
    assert!(key_lock_shard("bkt", "k") < 256);
    assert!(bucket_lock_shard("bkt") < 64);
    assert_eq!(key_lock_shard("bkt", "k"), key_lock_shard("bkt", "k"));
    let spread: std::collections::BTreeSet<usize> =
        (0..64).map(|i| key_lock_shard("bkt", &format!("k{i}"))).collect();
    assert!(spread.len() > 16);
}

#[test]
fn numbers_are_written_and_read() {
    assert_eq!(decimal_text(0), "0");
    assert_eq!(decimal_text(18_446_744_073_709_551_615), "18446744073709551615");
    assert_eq!(part_stem(7), "00007");
    assert_eq!(part_stem(-7), "-0007");
    assert_eq!(part_stem(123_456), "123456");
    assert_eq!(parse_i32("-2147483648"), Some(i32::MIN));
    assert_eq!(parse_i32("2147483648"), None);
    assert_eq!(parse_i32("+5"), Some(5));
    assert_eq!(parse_i32(""), None);
}

#[test]
fn sorting_is_by_bytes() {
    assert_eq!(
        sort_by_name(text(&["b", "é", "a", "Z", "b"])),
        text(&["Z", "a", "b", "b", "é"])
    );
    assert_eq!(sort_text_set(text(&["p/", "a/", "p/"])), text(&["a/", "p/"]));
}

#[test]
fn keys_are_grouped_by_the_delimiter() {
    let (keys, groups) = group_keys(text(&["a", "a/b", "c/d/e", "c/f", "x"]), "", "/");
    assert_eq!(keys, text(&["a", "x"]));
    assert_eq!(sort_text_set(groups), text(&["a/", "c/"]));
    let (keys, groups) = group_keys(text(&["c/d/e", "c/f", "x"]), "c/", "/");
    assert_eq!(keys, text(&["c/f"]));
    assert_eq!(sort_text_set(groups), text(&["c/d/"]));
}

#[test]
fn pages_join_up_to_the_whole_listing() {
    let objects = text(&["a", "b", "m", "z"]);
    let groups = text(&["c/", "p/"]);
    let mut token = String::new();
    let mut seen = Vec::new();
    loop {
        let page = paginate(objects.clone(), groups.clone(), &token, 2);
        assert!(page.objects.len() + page.groups.len() <= 2);
        let mut lines = page.objects.clone();
        lines.extend(page.groups.clone());
        lines.sort();
        seen.extend(lines);
        if !page.truncated {
            break;
        }
        token = page.last.clone();
    }
    assert_eq!(seen, text(&["a", "b", "c/", "m", "p/", "z"]));
}

#[test]
fn the_root_is_kept() {
    assert_eq!(CasStore::new("/srv/data").root(), "/srv/data");
}

fn entry(name: &str, kind: EntryKind) -> Result<Entry, IoError> {
    Ok(Entry { name: name.to_string(), kind: Some(kind), mtime: 0 })
}

#[test]
fn a_walk_finds_the_files_in_the_order_of_the_listings() {
    let mut walk = TreeWalk::new("");
    let mut asked = Vec::new();
    loop {
        match walk.advance() {
            WalkStep::List { rel } => {
                let listing = match rel.as_str() {
                    "" => vec![
                        entry("a", EntryKind::File),
                        entry("d", EntryKind::Directory),
                        entry("link", EntryKind::Other),
                        entry("gone", EntryKind::Directory),
                        entry("z", EntryKind::File),
                    ],
                    "d" => vec![entry("e", EntryKind::Directory), entry("f", EntryKind::File)],
                    "d/e" => vec![entry("g", EntryKind::File)],
                    _ => Vec::new(),
                };
                let missing = IoError { kind: IoErrorKind::NotFound, code: 2 };
                let listing = if rel == "gone" { Err(missing) } else { Ok(listing) };
                walk.listed(&rel, listing);
                asked.push(rel);
            }
            WalkStep::Done => break,
            WalkStep::Failed { error } => panic!("{error:?}"),
        }
    }
    assert_eq!(asked, text(&["", "d", "d/e", "gone"]));
    assert_eq!(walk.files, text(&["a", "d/e/g", "d/f", "z"]));
}

#[test]
fn a_walk_over_objects_leaves_the_upload_areas_alone() {
    let names = [".multipart", "m.parts", "parts", "x.meta", "dir"];
    let listing = || names.iter().map(|n| entry(n, EntryKind::Directory)).collect();
    for (mut walk, found) in [
        (TreeWalk::over_objects(), text(&["", "parts", "x.meta", "dir"])),
        (TreeWalk::new(""), text(&["", ".multipart", "m.parts", "parts", "x.meta", "dir"])),
    ] {
        let mut asked = Vec::new();
        while let WalkStep::List { rel } = walk.advance() {
            walk.listed(&rel, Ok(if rel.is_empty() { listing() } else { Vec::new() }));
            asked.push(rel);
        }
        assert_eq!(asked, found);
        assert!(walk.files.is_empty());
    }
}

#[test]
fn a_walk_ends_at_what_cannot_be_read() {
    let error = IoError { kind: IoErrorKind::Other, code: 5 };
    let mut walk = TreeWalk::new("below");
    assert!(matches!(walk.advance(), WalkStep::List { rel } if rel == "below"));
    walk.listed("below", Ok(vec![entry("a", EntryKind::File), Err(error)]));
    assert!(matches!(walk.advance(), WalkStep::Failed { error: e } if e == error));
    assert_eq!(walk.files, text(&["below/a"]));
    let mut walk = TreeWalk::new("");
    assert!(matches!(walk.advance(), WalkStep::List { .. }));
    walk.listed("", Err(error));
    assert!(matches!(walk.advance(), WalkStep::Failed { error: e } if e == error));
}

#[test]
fn a_path_lies_within_another_by_whole_components() {
    assert!(within("/data", "/data"));
    assert!(within("/data", "/data/bkt/x"));
    assert!(within("/data/", "/data/./bkt"));
    assert!(!within("/data", "/database"));
    assert!(!within("/data/bkt", "/data"));
    assert!(!within("/data", "data/bkt"));
}

#[test]
fn the_first_directory_that_resolves_decides_about_containment() {
    let root = Some("/data".to_string());
    let inside = Some("/data/bkt".to_string());
    let outside = Some("/etc".to_string());
    let refused = Err(StorageError::PathTraversal);
    assert_eq!(assert_real_parent_within_root(&root, &vec![None, inside.clone()]), Ok(()));
    assert_eq!(assert_real_parent_within_root(&root, &vec![None, outside.clone()]), refused);
    assert_eq!(
        assert_real_parent_within_root(&root, &vec![inside.clone(), outside.clone()]),
        Ok(())
    );
    assert_eq!(assert_real_parent_within_root(&root, &Vec::new()), Ok(()));
    assert_eq!(assert_real_parent_within_root(&None, &vec![outside.clone()]), Ok(()));
    let missing = IoError { kind: IoErrorKind::NotFound, code: 2 };
    let broken = IoError { kind: IoErrorKind::Other, code: 5 };
    assert_eq!(upload_dir(Ok(EntryKind::Directory), &inside, &root), DirState::Present);
    assert_eq!(upload_dir(Ok(EntryKind::Directory), &outside, &root), DirState::Foreign);
    assert_eq!(upload_dir(Ok(EntryKind::Directory), &outside, &None), DirState::Present);
    assert_eq!(upload_dir(Ok(EntryKind::Other), &inside, &root), DirState::Foreign);
    assert_eq!(upload_dir(Err(missing), &None, &root), DirState::Missing);
    assert_eq!(upload_dir(Err(broken), &None, &root), DirState::Failed(broken));
}

#[test]
fn a_body_is_stored_as_it_was_read() {
    let body = b"ninebytes";
    let mut block = [0u8; 4];
    let mut file: Vec<u8> = Vec::new();
    let mut pos = 0usize;
    let mut interrupted = false;
    let (mut writer, mut step) = BodyWriter::new(4);
    loop {
        step = match step {
            BodyStep::Read { from } => {
                if pos == 3 && !interrupted {
                    interrupted = true;
                    let again = IoError { kind: IoErrorKind::Interrupted, code: 4 };
                    writer.on_read(&block, Err(again))
                } else {
                    let n = (4 - from).min(body.len() - pos).min(3);
                    block[from..from + n].copy_from_slice(&body[pos..pos + n]);
                    pos += n;
                    writer.on_read(&block, Ok(n))
                }
            }
            BodyStep::Write { from, len, offset } => {
                assert_eq!(offset as usize, file.len());
                let n = (len - from).min(3);
                file.extend_from_slice(&block[from..from + n]);
                writer.on_write(Ok(n))
            }
            BodyStep::Sync => break,
            BodyStep::Failed(e) => panic!("{e:?}"),
        };
    }
    assert!(interrupted);
    assert_eq!(file, body);
    let info = writer.finish("id".to_string());
    assert_eq!(info.size, 9);
    assert_eq!(info.md5_hex, md5_hex(body));
}

#[test]
fn storing_a_body_ends_with_the_first_failure() {
    let broken = IoError { kind: IoErrorKind::Other, code: 5 };
    let (mut writer, _) = BodyWriter::new(2);
    assert_eq!(writer.on_read(&[0, 0], Err(broken)), BodyStep::Failed(broken));
    assert_eq!(
        writer.on_read(&[1, 2], Ok(2)),
        BodyStep::Write { from: 0, len: 2, offset: 0 }
    );
    assert_eq!(writer.on_write(Err(broken)), BodyStep::Failed(broken));
    let nothing = IoError { kind: IoErrorKind::WriteZero, code: 0 };
    assert_eq!(writer.on_write(Ok(0)), BodyStep::Failed(nothing));
    assert_eq!(writer.on_write(Ok(2)), BodyStep::Read { from: 0 });
    assert_eq!(writer.on_read(&[1, 2], Ok(0)), BodyStep::Sync);
}

#[test]
fn a_runner_undoes_the_newest_first_and_then_reports() {
    let at = |name: &str| Place::Staged { name: name.to_string() };
    let remove = |name: &str| Call::RemoveFile { at: at(name) };
    let mut plan = Plan::new();
    plan.defer(remove("a"));
    plan.may(remove("tolerated"));
    plan.defer(remove("b"));
    plan.defer(remove("forgotten"));
    plan.push(Step::Disarm);
    plan.must(remove("needed"), Report::Given(StorageError::BucketNotFound));
    plan.must(remove("never"), Report::Io);
    plan.finish(Outcome::Nothing);
    let mut runner = Runner::new(plan);
    let error = IoError { kind: IoErrorKind::Other, code: 5 };
    let mut made = Vec::new();
    let end = loop {
        match runner.advance() {
            Next::Do(Call::RemoveFile { at: Place::Staged { name } }) => {
                let fails = name == "tolerated" || name == "needed" || name == "b";
                made.push(name);
                runner.settle(if fails { Err(error) } else { Ok(()) });
            }
            Next::Done(result, _) => break result,
            other => panic!("{other:?}"),
        }
    };
    assert_eq!(made, text(&["tolerated", "needed", "b", "a"]));
    assert!(matches!(end, Err(StorageError::BucketNotFound)));
}
