//! Sessions' snapshots, written to a disk in memory.

use libmemlog::listing::{probe_next_seq, sorted_snaps};
use libmemlog::lock::{flock_outcome, lock_path};
use libmemlog::persistence::{
    write_session_meta, AtomicWrite, MetaTask, OpenTask, SessionWriter, SnapEnd, SnapTask,
};
use libmemlog::storage::{DirEntry, LockOutcome, Reply, Request};
use libmemlog::{parse_records, RecordHeader, RECORD_MAGIC, SCHEMA_VERSION};
use std::collections::{BTreeMap, BTreeSet, HashMap};

/// A disk in memory that carries requests out.
#[derive(Default)]
struct Disk {
    files: BTreeMap<String, Vec<u8>>,
    dirs: BTreeSet<String>,
    told: Vec<String>,
    clock: Option<u64>,
    busy: bool,
    /// The requests seen so far.
    seen: usize,
    /// The request, by its number, at which everything starts to fail.
    broken_from: Option<usize>,
}

impl Disk {
    fn perform(&mut self, request: Request) -> Reply {
        self.seen += 1;
        if let Some(from) = self.broken_from {
            if self.seen > from {
                return Reply::Failed;
            }
        }
        match request {
            Request::CreateDirs { path } => {
                self.dirs.insert(path);
                Reply::Done
            }
            Request::ListDir { path } => {
                if !self.dirs.contains(&path) {
                    return Reply::Failed;
                }
                let prefix = format!("{path}/");
                let mut entries: Vec<DirEntry> = Vec::new();
                for (file, data) in self.files.iter().rev() {
                    if let Some(name) = file.strip_prefix(&prefix) {
                        if !name.contains('/') {
                            entries.push(DirEntry {
                                name: name.to_string(),
                                size: Some(data.len() as u64),
                            });
                        }
                    }
                }
                Reply::Listing(entries)
            }
            Request::Exists { path } => {
                Reply::Present(self.files.contains_key(&path) || self.dirs.contains(&path))
            }
            Request::WriteSynced { path, data } | Request::Write { path, data } => {
                self.files.insert(path, data);
                Reply::Done
            }
            Request::CreateFile { path } => {
                self.files.insert(path, Vec::new());
                Reply::Done
            }
            Request::Rename { from, to } => match self.files.remove(&from) {
                Some(data) => {
                    self.files.insert(to, data);
                    Reply::Done
                }
                None => Reply::Failed,
            },
            Request::Size { path } => match self.files.get(&path) {
                Some(data) => Reply::Size(data.len() as u64),
                None => Reply::Failed,
            },
            Request::Remove { path } => match self.files.remove(&path) {
                Some(_) => Reply::Done,
                None => Reply::Failed,
            },
            Request::SyncDir { path } => {
                if self.dirs.contains(&path) {
                    Reply::Done
                } else {
                    Reply::Failed
                }
            }
            Request::ReadText { path } => match self.files.get(&path) {
                Some(data) => match String::from_utf8(data.clone()) {
                    Ok(text) => Reply::Text(text),
                    Err(_) => Reply::Failed,
                },
                None => Reply::Failed,
            },
            Request::ReadBytes { path } => match self.files.get(&path) {
                Some(data) => Reply::Bytes(data.clone()),
                None => Reply::Failed,
            },
            Request::Lock { path } => {
                self.files.entry(path).or_default();
                Reply::Lock(if self.busy { LockOutcome::Busy } else { LockOutcome::Acquired })
            }
            Request::Clock => match self.clock {
                Some(seconds) => Reply::Seconds(seconds),
                None => Reply::Failed,
            },
            Request::Tell { text } => {
                self.told.push(text);
                Reply::Done
            }
        }
    }

    fn has(&self, path: &str) -> bool {
        self.files.contains_key(path)
    }

    fn text(&self, path: &str) -> String {
        String::from_utf8(self.files[path].clone()).unwrap()
    }
}

fn open(disk: &mut Disk, dir: &str, quota: u64) -> OpenTask {
    let mut task = SessionWriter::open(dir, quota);
    while let Some(request) = task.request() {
        let reply = disk.perform(request);
        task = task.step(reply);
    }
    task
}

fn opened(disk: &mut Disk, dir: &str, quota: u64) -> SessionWriter {
    match open(disk, dir, quota) {
        OpenTask::Opened(writer) => writer,
        _ => panic!("not opened"),
    }
}

fn write(disk: &mut Disk, w: &mut SessionWriter, data: &[u8]) -> SnapTask {
    let mut task = w.write_snap(data);
    while let Some(request) = w.snap_request(&task) {
        let reply = disk.perform(request);
        task = w.snap_step(task, reply);
    }
    task
}

fn written(disk: &mut Disk, w: &mut SessionWriter, data: &[u8]) {
    assert_eq!(write(disk, w, data).end(), Some(SnapEnd::Finished));
}

fn meta(disk: &mut Disk, dir: &str, id: &str) -> MetaTask {
    let mut task = write_session_meta(dir, id);
    while let Some(request) = task.request() {
        let reply = disk.perform(request);
        task = task.step(reply);
    }
    task
}

fn overrun(disk: &mut Disk, w: &SessionWriter, seq: u64) -> AtomicWrite {
    let mut task = w.write_overrun(seq);
    while let Some(request) = task.request() {
        let reply = disk.perform(request);
        task = task.step(reply);
    }
    task
}

fn listing(disk: &mut Disk, dir: &str) -> Option<Vec<DirEntry>> {
    match disk.perform(Request::ListDir { path: dir.to_string() }) {
        Reply::Listing(entries) => Some(entries),
        _ => None,
    }
}

fn names(disk: &mut Disk, dir: &str) -> Vec<String> {
    let entries = listing(disk, dir).unwrap();
    sorted_snaps(&entries).into_iter().map(|e| e.name).collect()
}

/// A ring with two records of one session and one of another.
fn fixture_bytes() -> Vec<u8> {
    let mut bytes = Vec::new();
    let records: [(&[u8; 16], u64, &[u8]); 3] = [
        (b"session-a\0\0\0\0\0\0\0", 1, b"\xa1\x61a\x01"),
        (b"session-b\0\0\0\0\0\0\0", 2, b"\xa1\x61b\x02"),
        (b"session-a\0\0\0\0\0\0\0", 3, b""),
    ];
    for (session_id, seq, blob) in records {
        let header = RecordHeader {
            magic: RECORD_MAGIC,
            schema_version: SCHEMA_VERSION,
            length: blob.len() as u32,
            reserved: 0,
            ts_ns: 1_000 + seq,
            seq,
            uid: 1000,
            pid: 4242,
            session_id: *session_id,
        };
        bytes.extend_from_slice(&header.to_bytes());
        bytes.extend_from_slice(blob);
    }
    bytes
}

/// A session's name as text, or in hex if it is none.
fn session_id_str(session_id: &[u8; 16], pid: u32) -> String {
    if session_id.iter().all(|&b| b == 0) {
        format!("comm:unknown:pid:{pid}")
    } else {
        let s = std::str::from_utf8(session_id).unwrap_or("").trim_end_matches('\0').to_string();
        if s.is_empty() {
            hex::encode(session_id)
        } else {
            s
        }
    }
}

#[test]
fn probe_seq_empty_dir() {
    let mut disk = Disk::default();
    disk.dirs.insert("d".to_string());
    assert_eq!(probe_next_seq(&listing(&mut disk, "d")), 0);
}

#[test]
fn write_snap_creates_file() {
    let mut disk = Disk::default();
    let mut w = opened(&mut disk, "d", 0);
    written(&mut disk, &mut w, b"{}");
    assert!(disk.has("d/snap-00000.json"));
    assert_eq!(w.snap_count(), 1);
}

#[test]
fn write_snap_sequential() {
    let mut disk = Disk::default();
    let mut w = opened(&mut disk, "d", 0);
    for i in 0..5u64 {
        written(&mut disk, &mut w, format!("{{\"i\":{i}}}").as_bytes());
    }
    assert!(disk.has("d/snap-00004.json"));
    assert_eq!(w.snap_count(), 5);
}

#[test]
fn probe_seq_resumes_after_existing() {
    let mut disk = Disk::default();
    disk.dirs.insert("d".to_string());
    disk.files.insert("d/snap-00003.json".to_string(), b"x".to_vec());
    disk.files.insert("d/snap-00001.json".to_string(), b"x".to_vec());
    assert_eq!(probe_next_seq(&listing(&mut disk, "d")), 4);
}

#[test]
fn snap_content_matches() {
    let mut disk = Disk::default();
    let mut w = opened(&mut disk, "d", 0);
    written(&mut disk, &mut w, b"{\"hello\":\"world\"}");
    assert_eq!(disk.files["d/snap-00000.json"], b"{\"hello\":\"world\"}");
}

#[test]
fn quota_trims_oldest() {
    let mut disk = Disk::default();
    // ~200-byte blobs, quota 500: trimmed from the third on
    let blob = b"{\"x\":\"aaaaaaaaaaaaaaaaaaaaaaaaaaaaaaaaaaaaaaaaaaaaaaaaaaaaaaaaaaaaaaaaaaaaaaaaaaaaaaaaaaaaaaaaaaaaaaaaaaaaaaaaaaaaaaaaaaaaaaaaaaaaaaaaaaaaaaaaaaaaaaaaaaaaaaaaaaaaaaaaaaaaaaaaaaaaaaaaaaaaaaaaaaaaa\"}";
    let mut w = opened(&mut disk, "d", 500);
    for _ in 0..5 {
        written(&mut disk, &mut w, blob);
    }
    // oldest snaps should be trimmed, marker should exist
    assert!(disk.has("d/_quota-trimmed"));
    // at least some snaps removed
    let remaining = names(&mut disk, "d").len();
    assert!(remaining < 5, "expected trimming, got {remaining} snaps");
    assert_eq!(names(&mut disk, "d"), ["snap-00003.json", "snap-00004.json"]);
}

#[test]
fn overrun_sentinel_created() {
    let mut disk = Disk::default();
    let w = opened(&mut disk, "d", 0);
    assert!(matches!(overrun(&mut disk, &w, 42), AtomicWrite::Finished));
    assert!(disk.has("d/_overrun-00042.json"));
    assert_eq!(
        disk.text("d/_overrun-00042.json"),
        "{\"overrun\":true,\"ring_seq_at_overrun\":42}\n"
    );
    assert!(!disk.has("d/overrun.tmp"));
}

#[test]
fn write_session_meta_idempotent() {
    let mut disk = Disk::default();
    disk.clock = Some(1_700_000_000);
    assert!(matches!(meta(&mut disk, "d", "test-session"), MetaTask::Finished));
    let tag1 = disk.text("d/intent_tag");
    let time1 = disk.text("d/opened_at");
    disk.clock = Some(1_800_000_000);
    assert!(matches!(meta(&mut disk, "d", "test-session"), MetaTask::Finished));
    let tag2 = disk.text("d/intent_tag");
    assert_eq!(tag1, tag2);
    assert_eq!(tag1, "test-session");
    assert_eq!(time1, "1700000000\n");
    assert_eq!(disk.text("d/opened_at"), time1);
}

#[test]
fn fixture_parses_to_three_records() {
    let data = fixture_bytes();
    let records = parse_records(&data);
    assert_eq!(records.len(), 3, "expected 3 records in fixture");
}

#[test]
fn fixture_replay_writes_per_session_snaps() {
    let data = fixture_bytes();
    let records = parse_records(&data);
    let mut disk = Disk::default();
    let mut writers: HashMap<String, SessionWriter> = HashMap::new();

    for rec in &records {
        let sid = session_id_str(&rec.header.session_id, rec.header.pid);
        let session_dir = format!("out/{sid}");
        if !writers.contains_key(&sid) {
            let w = opened(&mut disk, &session_dir, 0);
            assert!(matches!(meta(&mut disk, &session_dir, &sid), MetaTask::Finished));
            writers.insert(sid.clone(), w);
        }
        let json = format!(
            "{{\"seq\":{},\"ts_ns\":{},\"uid\":{},\"pid\":{},\"blob_hex\":\"{}\"}}",
            rec.header.seq,
            rec.header.ts_ns,
            rec.header.uid,
            rec.header.pid,
            hex::encode(&rec.blob),
        );
        written(&mut disk, writers.get_mut(&sid).unwrap(), json.as_bytes());
    }

    // session-a had 2 records
    assert!(disk.dirs.contains("out/session-a"), "session-a dir missing");
    assert!(disk.has("out/session-a/snap-00000.json"), "snap-00000 missing");
    assert!(disk.has("out/session-a/snap-00001.json"), "snap-00001 missing");
    assert!(!disk.has("out/session-a/snap-00002.json"), "unexpected snap-00002");

    // session-b had 1 record
    assert!(disk.dirs.contains("out/session-b"), "session-b dir missing");
    assert!(disk.has("out/session-b/snap-00000.json"), "session-b snap missing");
}

#[test]
fn fixture_replay_snap_content_is_valid_json() {
    let data = fixture_bytes();
    let records = parse_records(&data);
    let mut disk = Disk::default();
    let mut writers: HashMap<String, SessionWriter> = HashMap::new();

    for rec in &records {
        let sid = session_id_str(&rec.header.session_id, rec.header.pid);
        if !writers.contains_key(&sid) {
            let w = opened(&mut disk, &format!("out/{sid}"), 0);
            writers.insert(sid.clone(), w);
        }
        let json = format!("{{\"seq\":{}}}", rec.header.seq);
        written(&mut disk, writers.get_mut(&sid).unwrap(), json.as_bytes());
    }

    // Check that snap files contain valid UTF-8 starting with '{'
    let sa_snap = &disk.files["out/session-a/snap-00000.json"];
    assert!(sa_snap.starts_with(b"{"), "not JSON");
}

#[test]
fn session_meta_written_for_each_session() {
    let data = fixture_bytes();
    let records = parse_records(&data);
    let mut disk = Disk::default();
    let mut sessions_seen: Vec<String> = Vec::new();

    for rec in &records {
        let sid = session_id_str(&rec.header.session_id, rec.header.pid);
        let session_dir = format!("out/{sid}");
        disk.dirs.insert(session_dir.clone());
        assert!(matches!(meta(&mut disk, &session_dir, &sid), MetaTask::Finished));
        if !sessions_seen.contains(&sid) {
            sessions_seen.push(sid.clone());
        }
    }

    for sid in &sessions_seen {
        assert!(disk.has(&format!("out/{sid}/intent_tag")), "intent_tag missing for {sid}");
        assert!(disk.has(&format!("out/{sid}/opened_at")), "opened_at missing for {sid}");
    }
}

#[test]
fn snapshot_goes_by_way_of_the_temporary_file() {
    let mut disk = Disk::default();
    let mut w = opened(&mut disk, "d", 9);
    let task = w.write_snap(b"abc");
    assert_eq!(
        w.snap_request(&task),
        Some(Request::WriteSynced { path: "d/snap.tmp".to_string(), data: b"abc".to_vec() })
    );
    let task = w.snap_step(task, Reply::Done);
    assert_eq!(
        w.snap_request(&task),
        Some(Request::Rename {
            from: "d/snap.tmp".to_string(),
            to: "d/snap-00000.json".to_string()
        })
    );
    assert_eq!(w.snap_count(), 0);
    let task = w.snap_step(task, Reply::Done);
    assert_eq!(w.snap_count(), 1);
    assert_eq!(w.snap_request(&task), Some(Request::ListDir { path: "d".to_string() }));
    assert_eq!(w.dir(), "d");
    assert_eq!(w.snap_path(123456), "d/snap-123456.json");
}

#[test]
fn write_that_is_cut_short_leaves_the_old_state_or_the_new_file() {
    for cut in 0..4 {
        let mut disk = Disk::default();
        let mut w = opened(&mut disk, "d", 0);
        written(&mut disk, &mut w, b"first");
        disk.broken_from = Some(disk.seen + cut);
        let task = write(&mut disk, &mut w, b"second");
        assert_eq!(disk.text("d/snap-00000.json"), "first");
        if cut < 2 {
            assert_eq!(task.end(), Some(SnapEnd::Failed));
            assert_eq!(w.snap_count(), 1);
            assert!(!disk.has("d/snap-00001.json"));
        } else {
            assert_eq!(task.end(), Some(SnapEnd::Finished));
            assert_eq!(w.snap_count(), 2);
            assert_eq!(disk.text("d/snap-00001.json"), "second");
        }
    }
}

#[test]
fn without_a_quota_nothing_is_listed() {
    let mut disk = Disk::default();
    let mut w = opened(&mut disk, "d", 0);
    let before = disk.seen;
    written(&mut disk, &mut w, &[7u8; 5000]);
    assert_eq!(disk.seen, before + 2);
}

#[test]
fn trimming_makes_two_requests_for_each_snapshot_that_goes() {
    let mut disk = Disk::default();
    for seq in 0..4 {
        disk.files.insert(format!("d/snap-0000{seq}.json"), b"xy".to_vec());
    }
    let mut w = opened(&mut disk, "d", 5);
    let before = disk.seen;
    written(&mut disk, &mut w, b"abc");
    // write, rename, list, look for the marker, make it, and four times two
    assert_eq!(disk.seen, before + 13);
    assert_eq!(names(&mut disk, "d"), ["snap-00004.json"]);
}

#[test]
fn leftover_temporary_file_is_ignored() {
    let mut disk = Disk::default();
    disk.files.insert("d/snap.tmp".to_string(), b"half".to_vec());
    disk.files.insert("d/snap-00007.json".to_string(), b"x".to_vec());
    disk.files.insert("d/snap-x.json".to_string(), b"x".to_vec());
    disk.files.insert("d/snap-.json".to_string(), b"x".to_vec());
    let mut w = opened(&mut disk, "d", 0);
    assert_eq!(w.snap_count(), 8);
    written(&mut disk, &mut w, b"new");
    assert_eq!(disk.text("d/snap-00008.json"), "new");
    assert_eq!(disk.text("d/snap-00007.json"), "x");
    assert!(!disk.has("d/snap.tmp"));
}

#[test]
fn reopened_session_goes_on_after_its_last_snapshot() {
    let mut disk = Disk::default();
    let mut w = opened(&mut disk, "d", 0);
    written(&mut disk, &mut w, b"a");
    written(&mut disk, &mut w, b"b");
    let again = opened(&mut disk, "d", 0);
    assert_eq!(again.snap_count(), w.snap_count());
    assert_eq!(again.snap_count(), 2);
}

#[test]
fn directory_that_cannot_be_listed_counts_as_empty() {
    let task = SessionWriter::open("d", 0).step(Reply::Done).step(Reply::Failed);
    match task {
        OpenTask::Opened(w) => assert_eq!(w.snap_count(), 0),
        _ => panic!("not opened"),
    }
    assert_eq!(probe_next_seq(&None), 0);
}

#[test]
fn directory_that_cannot_be_created_is_not_opened() {
    let mut disk = Disk::default();
    disk.broken_from = Some(0);
    assert!(matches!(open(&mut disk, "d", 0), OpenTask::Failed));
}

#[test]
fn last_number_of_all_has_none_after_it() {
    let mut disk = Disk::default();
    disk.files.insert("d/snap-18446744073709551615.json".to_string(), Vec::new());
    assert!(matches!(open(&mut disk, "d", 0), OpenTask::Overflow));
    disk.files.clear();
    disk.files.insert("d/snap-18446744073709551614.json".to_string(), Vec::new());
    let mut w = opened(&mut disk, "d", 0);
    assert_eq!(w.snap_count(), u64::MAX);
    assert_eq!(write(&mut disk, &mut w, b"x").end(), Some(SnapEnd::Overflow));
    assert!(disk.has("d/snap-18446744073709551615.json"));
}

#[test]
fn quota_that_is_met_exactly_removes_nothing() {
    let mut disk = Disk::default();
    let mut w = opened(&mut disk, "d", 6);
    written(&mut disk, &mut w, b"abc");
    written(&mut disk, &mut w, b"def");
    assert_eq!(names(&mut disk, "d").len(), 2);
    assert!(!disk.has("d/_quota-trimmed"));
    written(&mut disk, &mut w, b"g");
    assert_eq!(names(&mut disk, "d"), ["snap-00001.json", "snap-00002.json"]);
    assert!(disk.has("d/_quota-trimmed"));
}

/// Enforces `quota` on a directory with these files, and gives the names that are
/// left, the marker's among them.
fn enforced(quota: u64, files: &[(&str, usize)]) -> Vec<String> {
    let mut disk = Disk::default();
    let mut w = opened(&mut disk, "d", quota);
    for (name, size) in files {
        disk.files.insert(format!("d/{name}"), vec![0u8; *size]);
    }
    let task = w.write_snap(b"");
    let task = w.snap_step(task, Reply::Done);
    let mut task = w.snap_step(task, Reply::Done);
    while let Some(request) = w.snap_request(&task) {
        let reply = disk.perform(request);
        task = w.snap_step(task, reply);
    }
    assert_eq!(task.end(), Some(SnapEnd::Finished));
    disk.files.keys().map(|path| path.strip_prefix("d/").unwrap().to_string()).collect()
}

#[test]
fn trimming_goes_on_until_usage_is_below_the_quota() {
    let files = [("snap-00000.json", 100), ("snap-00001.json", 100), ("snap-00002.json", 100)];
    assert_eq!(enforced(200, &files), ["_quota-trimmed", "snap-00002.json"]);
    assert_eq!(enforced(201, &files), ["_quota-trimmed", "snap-00001.json", "snap-00002.json"]);
    assert_eq!(
        enforced(300, &files),
        ["snap-00000.json", "snap-00001.json", "snap-00002.json"]
    );
}

#[test]
fn oldest_snapshot_goes_first_whatever_its_name() {
    let files = [("snap-99999.json", 10), ("snap-100000.json", 10)];
    assert_eq!(enforced(15, &files), ["_quota-trimmed", "snap-100000.json"]);
    // one without a number goes first if its name is before the digits, else last
    let files = [("snap-.json", 10), ("snap-00003.json", 10)];
    assert_eq!(enforced(15, &files), ["_quota-trimmed", "snap-00003.json"]);
    let files = [("snap-.json", 10), ("snap-00003.json", 10), ("snap-x.json", 10)];
    assert_eq!(enforced(25, &files), ["_quota-trimmed", "snap-00003.json", "snap-x.json"]);
    assert_eq!(enforced(15, &files), ["_quota-trimmed", "snap-x.json"]);
}

#[test]
fn quota_counts_every_file_of_the_session() {
    let files = [("intent_tag", 20), ("snap-00000.json", 20), ("snap-00001.json", 20)];
    assert_eq!(enforced(50, &files), ["_quota-trimmed", "intent_tag", "snap-00001.json"]);
    assert_eq!(enforced(60, &files), ["intent_tag", "snap-00000.json", "snap-00001.json"]);
    // files that are no snapshots stay, though they alone take too much
    assert_eq!(enforced(10, &files), ["_quota-trimmed", "intent_tag"]);
    assert_eq!(enforced(10, &[("intent_tag", 20)]), ["_quota-trimmed", "intent_tag"]);
}

#[test]
fn entry_without_a_name_is_counted() {
    let mut disk = Disk::default();
    let mut w = opened(&mut disk, "d", 10);
    let task = w.write_snap(b"");
    let task = w.snap_step(task, Reply::Done);
    let task = w.snap_step(task, Reply::Done);
    let entries = vec![
        DirEntry { name: String::new(), size: Some(9) },
        DirEntry { name: "snap-00000.json".to_string(), size: Some(2) },
    ];
    let task = w.snap_step(task, Reply::Listing(entries));
    assert_eq!(
        w.snap_request(&task),
        Some(Request::Exists { path: "d/_quota-trimmed".to_string() })
    );
}

#[test]
fn snapshot_over_the_quota_is_removed_itself() {
    let mut disk = Disk::default();
    let mut w = opened(&mut disk, "d", 2);
    written(&mut disk, &mut w, b"abc");
    assert!(names(&mut disk, "d").is_empty());
    assert_eq!(w.snap_count(), 1);
    written(&mut disk, &mut w, b"ab");
    assert_eq!(names(&mut disk, "d"), ["snap-00001.json"]);
}

#[test]
fn marker_that_is_there_is_left_alone() {
    let mut disk = Disk::default();
    disk.files.insert("d/_quota-trimmed".to_string(), b"kept".to_vec());
    let mut w = opened(&mut disk, "d", 2);
    written(&mut disk, &mut w, b"abc");
    assert_eq!(disk.text("d/_quota-trimmed"), "kept");
}

#[test]
fn other_files_are_left_alone() {
    let mut disk = Disk::default();
    disk.files.insert("d/notes.json".to_string(), vec![0u8; 1000]);
    disk.files.insert("d/snap-old.txt".to_string(), vec![0u8; 1000]);
    let mut w = opened(&mut disk, "d", 2004);
    written(&mut disk, &mut w, b"abc");
    written(&mut disk, &mut w, b"def");
    assert_eq!(names(&mut disk, "d"), ["snap-00001.json"]);
    assert_eq!(disk.files["d/notes.json"].len(), 1000);
    assert_eq!(disk.files["d/snap-old.txt"].len(), 1000);
}

#[test]
fn snapshot_that_cannot_be_weighed_counts_as_nothing() {
    let mut disk = Disk::default();
    let mut w = opened(&mut disk, "d", 4);
    written(&mut disk, &mut w, b"abc");
    let mut task = w.write_snap(b"def");
    while let Some(request) = w.snap_request(&task) {
        let weighing = matches!(request, Request::Size { .. });
        let reply = disk.perform(request);
        task = w.snap_step(task, if weighing { Reply::Failed } else { reply });
    }
    assert_eq!(task.end(), Some(SnapEnd::Finished));
    assert!(names(&mut disk, "d").is_empty());
}

#[test]
fn sizes_that_cannot_be_counted_stop_the_trimming() {
    let mut disk = Disk::default();
    let mut w = opened(&mut disk, "d", 4);
    let task = w.write_snap(b"abc");
    let task = w.snap_step(task, Reply::Done);
    let task = w.snap_step(task, Reply::Done);
    let entries = vec![
        DirEntry { name: "snap-00000.json".to_string(), size: Some(u64::MAX) },
        DirEntry { name: "snap-00001.json".to_string(), size: Some(1) },
    ];
    assert_eq!(w.snap_step(task, Reply::Listing(entries)).end(), Some(SnapEnd::Overflow));
}

#[test]
fn failing_requests_end_the_trimming() {
    let mut disk = Disk::default();
    let mut w = opened(&mut disk, "d", 4);
    written(&mut disk, &mut w, b"abc");
    for cut in [2, 4, 6] {
        disk.broken_from = Some(disk.seen + cut);
        assert_eq!(write(&mut disk, &mut w, b"def").end(), Some(SnapEnd::Failed), "{cut}");
        disk.broken_from = None;
    }
    assert_eq!(w.snap_count(), 4);
}

#[test]
fn overrun_that_is_cut_short_leaves_no_sentinel() {
    let mut disk = Disk::default();
    let w = opened(&mut disk, "d", 0);
    for cut in 0..2 {
        disk.broken_from = Some(disk.seen + cut);
        assert!(matches!(overrun(&mut disk, &w, 1_234_567), AtomicWrite::Failed));
        assert!(!disk.has("d/_overrun-1234567.json"));
        disk.broken_from = None;
    }
    assert!(matches!(overrun(&mut disk, &w, 1_234_567), AtomicWrite::Finished));
    assert!(disk.has("d/_overrun-1234567.json"));
}

#[test]
fn session_without_a_clock_was_opened_at_zero() {
    let mut disk = Disk::default();
    disk.files.insert("d/intent_tag".to_string(), b"older".to_vec());
    assert!(matches!(meta(&mut disk, "d", "newer"), MetaTask::Finished));
    assert_eq!(disk.text("d/intent_tag"), "older");
    assert_eq!(disk.text("d/opened_at"), "0\n");
}

#[test]
fn meta_that_cannot_be_written_fails() {
    let mut disk = Disk::default();
    disk.broken_from = Some(1);
    assert!(matches!(meta(&mut disk, "d", "x"), MetaTask::Failed));
    let mut disk = Disk::default();
    disk.broken_from = Some(4);
    assert!(matches!(meta(&mut disk, "d", "x"), MetaTask::Failed));
    assert!(disk.has("d/intent_tag"));
    assert!(!disk.has("d/opened_at"));
}

#[test]
fn lock_is_ours_busy_or_out_of_reach() {
    assert_eq!(lock_path("out"), "out/.witness.lock");
    assert_eq!(flock_outcome(0, false), LockOutcome::Acquired);
    assert_eq!(flock_outcome(0, true), LockOutcome::Acquired);
    assert_eq!(flock_outcome(-1, true), LockOutcome::Busy);
    assert_eq!(flock_outcome(-1, false), LockOutcome::Failed);
}
