//! The daemon, from its start to its end, on a disk in memory.

use libmemlog::daemon::{run_daemon, snap_line, start_line, Daemon, Exit};
use libmemlog::storage::{DirEntry, LockOutcome, Reply, Request};
use libmemlog::{Record, RecordHeader, RECORD_MAGIC, SCHEMA_VERSION};
use std::collections::{BTreeMap, BTreeSet};

/// A disk in memory that carries requests out.
#[derive(Default)]
struct Disk {
    files: BTreeMap<String, Vec<u8>>,
    dirs: BTreeSet<String>,
    told: Vec<String>,
    clock: Option<u64>,
    busy: bool,
    /// The requests seen so far.
    seen: usize,
    /// The request, by its number, at which everything starts to fail.
    broken_from: Option<usize>,
}

impl Disk {
    fn perform(&mut self, request: Request) -> Reply {
        self.seen += 1;
        if let Some(from) = self.broken_from {
            if self.seen > from {
                return Reply::Failed;
            }
        }
        match request {
            Request::CreateDirs { path } => {
                self.dirs.insert(path);
                Reply::Done
            }
            Request::ListDir { path } => {
                if !self.dirs.contains(&path) {
                    return Reply::Failed;
                }
                let prefix = format!("{path}/");
                let mut entries: Vec<DirEntry> = Vec::new();
                for (file, data) in self.files.iter().rev() {
                    if let Some(name) = file.strip_prefix(&prefix) {
                        if !name.contains('/') {
                            entries.push(DirEntry {
                                name: name.to_string(),
                                size: Some(data.len() as u64),
                            });
                        }
                    }
                }
                Reply::Listing(entries)
            }
            Request::Exists { path } => {
                Reply::Present(self.files.contains_key(&path) || self.dirs.contains(&path))
            }
            Request::WriteSynced { path, data } | Request::Write { path, data } => {
                self.files.insert(path, data);
                Reply::Done
            }
            Request::CreateFile { path } => {
                self.files.insert(path, Vec::new());
                Reply::Done
            }
            Request::Rename { from, to } => match self.files.remove(&from) {
                Some(data) => {
                    self.files.insert(to, data);
                    Reply::Done
                }
                None => Reply::Failed,
            },
            Request::Size { path } => match self.files.get(&path) {
                Some(data) => Reply::Size(data.len() as u64),
                None => Reply::Failed,
            },
            Request::Remove { path } => match self.files.remove(&path) {
                Some(_) => Reply::Done,
                None => Reply::Failed,
            },
            Request::SyncDir { path } => {
                if self.dirs.contains(&path) {
                    Reply::Done
                } else {
                    Reply::Failed
                }
            }
            Request::ReadText { path } => match self.files.get(&path) {
                Some(data) => match String::from_utf8(data.clone()) {
                    Ok(text) => Reply::Text(text),
                    Err(_) => Reply::Failed,
                },
                None => Reply::Failed,
            },
            Request::ReadBytes { path } => match self.files.get(&path) {
                Some(data) => Reply::Bytes(data.clone()),
                None => Reply::Failed,
            },
            Request::Lock { path } => {
                self.files.entry(path).or_default();
                Reply::Lock(if self.busy { LockOutcome::Busy } else { LockOutcome::Acquired })
            }
            Request::Clock => match self.clock {
                Some(seconds) => Reply::Seconds(seconds),
                None => Reply::Failed,
            },
            Request::Tell { text } => {
                self.told.push(text);
                Reply::Done
            }
        }
    }

    fn has(&self, path: &str) -> bool {
        self.files.contains_key(path)
    }

    fn text(&self, path: &str) -> String {
        String::from_utf8(self.files[path].clone()).unwrap()
    }
}

fn record(session: &[u8], pid: u32, seq: u64, blob: &[u8]) -> Vec<u8> {
    let mut session_id = [0u8; 16];
    session_id[..session.len()].copy_from_slice(session);
    let header = RecordHeader {
        magic: RECORD_MAGIC,
        schema_version: SCHEMA_VERSION,
        length: blob.len() as u32,
        reserved: 0,
        ts_ns: 100 + seq,
        seq,
        uid: 1000,
        pid,
        session_id,
    };
    let mut bytes = header.to_bytes().to_vec();
    bytes.extend_from_slice(blob);
    bytes
}

fn drain(disk: &mut Disk, quota: u64) -> Option<Exit> {
    let mut daemon: Daemon = run_daemon("out", "/dev/memlog", quota);
    while let Some(request) = daemon.request() {
        assert_eq!(daemon.exit(), None);
        let reply = disk.perform(request);
        daemon = daemon.step(reply);
    }
    daemon.exit()
}

fn ring(records: &[Vec<u8>]) -> Disk {
    let mut disk = Disk::default();
    disk.clock = Some(5);
    disk.files.insert("/dev/memlog".to_string(), records.concat());
    disk
}

#[test]
fn every_record_gets_its_snapshot_in_its_session() {
    let mut disk = ring(&[
        record(b"session-a", 7, 1, b"hello"),
        record(b"session-b", 8, 2, b""),
        record(b"session-a", 7, 3, b"wor"),
        b"garbage".to_vec(),
    ]);
    assert_eq!(drain(&mut disk, 0), Some(Exit::Drained));
    assert_eq!(
        disk.text("out/session-a/snap-00000.json"),
        "{\"seq\":1,\"ts_ns\":101,\"uid\":1000,\"pid\":7,\"blob_len\":5}"
    );
    assert_eq!(
        disk.text("out/session-a/snap-00001.json"),
        "{\"seq\":3,\"ts_ns\":103,\"uid\":1000,\"pid\":7,\"blob_len\":3}"
    );
    assert_eq!(
        disk.text("out/session-b/snap-00000.json"),
        "{\"seq\":2,\"ts_ns\":102,\"uid\":1000,\"pid\":8,\"blob_len\":0}"
    );
    assert_eq!(disk.text("out/session-a/intent_tag"), "session-a");
    assert_eq!(disk.text("out/session-b/opened_at"), "5\n");
    assert_eq!(
        disk.told,
        [
            "memlog-witness: starting daemon, device=/dev/memlog, out=\"out\"",
            "memlog-witness: wrote snap for session=session-a seq=1",
            "memlog-witness: wrote snap for session=session-b seq=2",
            "memlog-witness: wrote snap for session=session-a seq=3",
            "memlog-witness: device drained (EOF)",
        ]
    );
    let snaps = disk.files.keys().filter(|p| p.contains("snap-")).count();
    assert_eq!(snaps, 3);
    assert!(disk.has("out/.witness.lock"));
}

#[test]
fn second_instance_leaves_everything_alone() {
    let mut disk = ring(&[record(b"a", 1, 1, b"x")]);
    disk.busy = true;
    assert_eq!(drain(&mut disk, 0), Some(Exit::AlreadyRunning));
    assert_eq!(disk.told, ["memlog-witness: already running (lock held by another process)"]);
    assert_eq!(disk.files.keys().collect::<Vec<_>>(), ["/dev/memlog", "out/.witness.lock"]);
}

#[test]
fn record_without_a_session_goes_by_its_process() {
    let mut disk = ring(&[
        record(b"", 7, 1, b""),
        record(b"", 8, 2, b""),
        record(b"", 9, 3, b""),
        record(b"", 7, 4, b""),
    ]);
    disk.files.insert("/proc/7/agent_session".to_string(), b" named \n".to_vec());
    disk.files.insert("/proc/8/agent_session".to_string(), b" \n".to_vec());
    assert_eq!(drain(&mut disk, 0), Some(Exit::Drained));
    assert!(disk.has("out/named/snap-00000.json"));
    assert!(disk.has("out/named/snap-00001.json"));
    assert!(disk.has("out/comm:unknown:pid:8/snap-00000.json"));
    assert!(disk.has("out/comm:unknown:pid:9/snap-00000.json"));
}

#[test]
fn daemon_that_runs_again_adds_to_what_is_there() {
    let mut disk = ring(&[record(b"a", 1, 1, b"x"), record(b"a", 1, 2, b"y")]);
    assert_eq!(drain(&mut disk, 0), Some(Exit::Drained));
    assert_eq!(drain(&mut disk, 0), Some(Exit::Drained));
    for n in 0..4 {
        let line = disk.text(&format!("out/a/snap-0000{n}.json"));
        assert!(line.starts_with(&format!("{{\"seq\":{},", n % 2 + 1)), "{line}");
    }
}

#[test]
fn quota_holds_for_each_session() {
    let mut records = Vec::new();
    for seq in 0..6 {
        records.push(record(if seq % 2 == 0 { b"a" } else { b"b" }, 1, seq, b""));
    }
    let mut disk = ring(&records);
    let line = "{\"seq\":0,\"ts_ns\":100,\"uid\":1000,\"pid\":1,\"blob_len\":0}".len() as u64;
    // two lines, and the three bytes of the session's other files, are below it
    assert_eq!(drain(&mut disk, 2 * line + 4), Some(Exit::Drained));
    for session in ["a", "b"] {
        assert!(!disk.has(&format!("out/{session}/snap-00000.json")));
        assert!(disk.has(&format!("out/{session}/snap-00001.json")));
        assert!(disk.has(&format!("out/{session}/snap-00002.json")));
        assert!(disk.has(&format!("out/{session}/_quota-trimmed")));
    }
}

#[test]
fn snapshots_are_numbered_by_the_records_of_their_session() {
    let sessions: [&[u8]; 7] = [b"a", b"b", b"a", b"c", b"b", b"a", b"c"];
    let mut records = Vec::new();
    for (seq, session) in sessions.iter().enumerate() {
        records.push(record(session, 1, seq as u64, b""));
    }
    let mut disk = ring(&records);
    disk.files.insert("out/c/snap-00041.json".to_string(), b"older".to_vec());
    assert_eq!(drain(&mut disk, 0), Some(Exit::Drained));
    let places = ["a/snap-00000", "b/snap-00000", "a/snap-00001", "c/snap-00042", "b/snap-00001",
        "a/snap-00002", "c/snap-00043"];
    for (seq, place) in places.iter().enumerate() {
        let line = disk.text(&format!("out/{place}.json"));
        assert!(line.starts_with(&format!("{{\"seq\":{seq},")), "{place}: {line}");
    }
    assert_eq!(disk.text("out/c/snap-00041.json"), "older");
}

#[test]
fn snapshots_stay_whole_or_are_removed_to_make_room() {
    let mut records = Vec::new();
    for seq in 0..9 {
        records.push(record(if seq % 3 == 0 { b"a" } else { b"b" }, 1, seq, b""));
    }
    let line = "{\"seq\":0,\"ts_ns\":100,\"uid\":1000,\"pid\":1,\"blob_len\":0}".len();
    let mut disk = ring(&records);
    assert_eq!(drain(&mut disk, 3 * line as u64), Some(Exit::Drained));
    let mut left = 0;
    for (path, data) in &disk.files {
        if path.contains("snap-") {
            assert_eq!(data.len(), line);
            left += 1;
        }
    }
    assert_eq!(left, 4);
    assert!(disk.has("out/a/snap-00002.json"));
    assert!(disk.has("out/b/snap-00005.json"));
    assert!(!disk.has("out/b/snap-00003.json"));
}

#[test]
fn failures_end_the_daemon() {
    let exits = [
        (0, Exit::Failed),
        (1, Exit::Failed),
        (3, Exit::Failed),
        (4, Exit::OpenFailed),
        (11, Exit::Failed),
        (12, Exit::Failed),
    ];
    for (from, exit) in exits {
        let mut disk = ring(&[record(b"a", 1, 1, b"x")]);
        disk.broken_from = Some(from);
        assert_eq!(drain(&mut disk, 0), Some(exit), "{from}");
        assert!(!disk.has("out/a/snap-00000.json"));
    }
    let mut disk = Disk::default();
    assert_eq!(drain(&mut disk, 0), Some(Exit::Failed));
}

#[test]
fn session_that_cannot_describe_itself_is_written_all_the_same() {
    let mut daemon = run_daemon("out", "/dev/memlog", 0);
    let mut disk = ring(&[record(b"a", 1, 1, b"x")]);
    while let Some(request) = daemon.request() {
        let describing = matches!(request, Request::Write { .. });
        let reply = disk.perform(request);
        daemon = daemon.step(if describing { Reply::Failed } else { reply });
    }
    assert_eq!(daemon.exit(), Some(Exit::Drained));
    assert!(disk.has("out/a/snap-00000.json"));
}

#[test]
fn session_whose_numbers_are_used_up_ends_the_daemon() {
    let mut disk = ring(&[record(b"a", 1, 1, b"x")]);
    disk.files.insert("out/a/snap-18446744073709551615.json".to_string(), Vec::new());
    assert_eq!(drain(&mut disk, 0), Some(Exit::Overflow));
}

#[test]
fn empty_device_is_drained_at_once() {
    let mut disk = ring(&[]);
    assert_eq!(drain(&mut disk, 0), Some(Exit::Drained));
    assert_eq!(disk.told.len(), 2);
}

#[test]
fn quoted_output_directory_is_told() {
    let mut daemon = run_daemon("a \"b\"\n\u{e9}", "dev", 0);
    daemon = daemon.step(Reply::Done).step(Reply::Lock(LockOutcome::Acquired));
    let out = std::path::Path::new("a \"b\"\n\u{e9}");
    assert_eq!(start_line("dev", "<q>"), "memlog-witness: starting daemon, device=dev, out=<q>");
    assert_eq!(
        daemon.request(),
        Some(Request::Tell {
            text: format!("memlog-witness: starting daemon, device=dev, out={out:?}")
        })
    );
}

#[test]
fn line_of_a_record_holds_its_numbers() {
    let record = Record {
        header: RecordHeader {
            magic: RECORD_MAGIC,
            schema_version: SCHEMA_VERSION,
            length: 2,
            reserved: 0,
            ts_ns: u64::MAX,
            seq: 0,
            uid: u32::MAX,
            pid: 10,
            session_id: [1u8; 16],
        },
        blob: vec![1, 2],
    };
    assert_eq!(
        snap_line(&record),
        "{\"seq\":0,\"ts_ns\":18446744073709551615,\"uid\":4294967295,\"pid\":10,\"blob_len\":2}"
    );
}
