//! The report on the sessions, and the flushing of one.

use libmemlog::status::{
    count_snaps, missing_line, no_out_line, no_out_report, run_drain, status_report, synced_line,
    DrainTask, SessionDir,
};
use libmemlog::storage::{DirEntry, Reply, Request};

fn entry(name: &str, size: Option<u64>) -> DirEntry {
    DirEntry { name: name.to_string(), size }
}

fn session(name: &str, is_dir: bool, files: Option<Vec<DirEntry>>) -> SessionDir {
    SessionDir { key: name.as_bytes().to_vec(), label: name.to_string(), is_dir, files }
}

#[test]
fn snapshots_are_counted() {
    let files = Some(vec![
        entry("snap-00000.json", Some(10)),
        entry("snap.tmp", Some(1000)),
        entry("snap-x.json", None),
        entry("intent_tag", Some(3)),
        entry("snap-00001.json", Some(5)),
    ]);
    assert_eq!(count_snaps(&files), (3, 15));
    assert_eq!(count_snaps(&None), (0, 0));
}

#[test]
fn report_has_a_row_for_each_session_in_order() {
    let long = "a-session-with-a-name-that-is-longer-than-its-column";
    let report = status_report(vec![
        session("b", true, Some(vec![entry("snap-00000.json", Some(12))])),
        session(".witness.lock", false, None),
        session("\u{e9}t\u{e9}", true, None),
        session(long, true, Some(vec![])),
        session("B", true, Some(vec![entry("snap-1.json", Some(1)), entry("snap-2.json", Some(2))])),
    ])
    .unwrap();
    let mut expected = vec![
        format!("{:<40} {:>6} {:>12}", "session-id", "snaps", "bytes"),
        "-".repeat(62),
    ];
    for (name, snaps, bytes) in [("B", 2, 3), (long, 0, 0), ("b", 1, 12), ("\u{e9}t\u{e9}", 0, 0)] {
        expected.push(format!("{:<40} {:>6} {:>12}", name, snaps, bytes));
    }
    assert_eq!(report, expected);
}

#[test]
fn report_without_sessions_says_so() {
    assert_eq!(status_report(vec![]), Some(vec!["no sessions".to_string()]));
    let report = status_report(vec![session(".witness.lock", false, None)]);
    assert_eq!(report, Some(vec!["no sessions".to_string()]));
    let path = std::path::Path::new("a \"b\"");
    assert_eq!(
        no_out_report("a \"b\""),
        format!("no sessions (out_dir {path:?} does not exist)")
    );
}

#[test]
fn sizes_that_cannot_be_counted_give_no_report() {
    let files = vec![entry("snap-0.json", Some(u64::MAX)), entry("snap-1.json", Some(1))];
    assert_eq!(status_report(vec![session("a", true, Some(files))]), None);
    let files = vec![entry("snap-0.json", Some(u64::MAX)), entry("snap-1.txt", Some(1))];
    assert!(status_report(vec![session("a", true, Some(files))]).is_some());
}

#[test]
fn session_is_flushed_and_told() {
    let task = run_drain("out", "s");
    assert_eq!(task.request(), Some(Request::Exists { path: "out/s".to_string() }));
    let task = task.step(Reply::Present(true));
    assert_eq!(task.request(), Some(Request::SyncDir { path: "out/s".to_string() }));
    let task = task.step(Reply::Done);
    assert_eq!(
        task.request(),
        Some(Request::Tell { text: "memlog-witness: fsynced \"out/s\"".to_string() })
    );
    let task = task.step(Reply::Done);
    assert!(matches!(task, DrainTask::Finished));
    assert_eq!(task.request(), None);
}

#[test]
fn session_that_is_missing_is_told() {
    let task = run_drain("out", "s").step(Reply::Present(false));
    assert_eq!(
        task.request(),
        Some(Request::Tell {
            text: "memlog-witness: session s has no directory at \"out/s\"".to_string()
        })
    );
    assert!(matches!(task.step(Reply::Done), DrainTask::Finished));
}

#[test]
fn session_that_cannot_be_flushed_fails() {
    let task = run_drain("out", "s").step(Reply::Present(true)).step(Reply::Failed);
    assert!(matches!(task, DrainTask::Failed));
    assert_eq!(task.request(), None);
}

#[test]
fn lines_take_the_quoted_path_as_it_is() {
    assert_eq!(no_out_line("<q>"), "no sessions (out_dir <q> does not exist)");
    assert_eq!(missing_line("s", "<q>"), "memlog-witness: session s has no directory at <q>");
    assert_eq!(synced_line("<q>"), "memlog-witness: fsynced <q>");
}
