//! Snapshot files: names, numbers, order and sizes.

use libmemlog::listing::{
    checked_total, last_seq, oldest_first, parse_snap_seq, probe_next_seq, snap_entries,
    snap_name, sorted_snaps, total_bytes,
};
use libmemlog::storage::DirEntry;

fn entries(names: &[&str]) -> Vec<DirEntry> {
    names.iter().map(|n| DirEntry { name: n.to_string(), size: Some(n.len() as u64) }).collect()
}

fn names(files: Vec<DirEntry>) -> Vec<String> {
    files.into_iter().map(|e| e.name).collect()
}

#[test]
fn names_and_numbers_go_together() {
    for seq in [0u64, 1, 9, 42, 99999, 100000, 123456789, u64::MAX] {
        assert_eq!(snap_name(seq), format!("snap-{seq:05}.json"));
        assert_eq!(parse_snap_seq(&snap_name(seq)), Some(seq));
    }
}

#[test]
fn names_without_a_number_have_none() {
    for name in [
        "", "snap-", ".json", "snap-.json", "snap.json", "snap-x.json", "snap-1.jso", "Snap-1.json",
        "snap--1.json", "snap-18446744073709551616.json", "snap-1 .json", "snap.tmp", "xsnap-1.json",
    ] {
        assert_eq!(parse_snap_seq(name), None, "{name}");
    }
    assert_eq!(parse_snap_seq("snap-7.json"), Some(7));
    assert_eq!(parse_snap_seq("snap-+7.json"), Some(7));
    assert_eq!(parse_snap_seq("snap-0000000000000000000000007.json"), Some(7));
}

#[test]
fn next_number_is_above_all_in_use() {
    let files = entries(&["snap-00003.json", "snap.tmp", "snap-00012.json", "snap-a.json", "x"]);
    assert_eq!(last_seq(&files), Some(12));
    assert_eq!(probe_next_seq(&Some(files)), 13);
    assert_eq!(last_seq(&entries(&["snap.tmp"])), None);
    assert_eq!(probe_next_seq(&Some(entries(&["snap.tmp"]))), 0);
    assert_eq!(probe_next_seq(&None), 0);
}

#[test]
fn snapshots_are_sorted_by_their_names() {
    let files = entries(&[
        "snap-00010.json", "intent_tag", "snap-00002.json", "snap-\u{e9}.json", "snap-00009.json",
        "snap-.json", "snap-zzzzz.json", "snap.json",
    ]);
    let mut expected: Vec<String> = files
        .iter()
        .map(|e| e.name.clone())
        .filter(|n| n.starts_with("snap-") && n.ends_with(".json"))
        .collect();
    assert_eq!(names(snap_entries(&files)), expected);
    expected.sort();
    assert_eq!(names(sorted_snaps(&files)), expected);
}

#[test]
fn oldest_snapshots_stand_first() {
    let files = entries(&[
        "snap-x.json", "snap-100000.json", "snap-7.json", "snap-00001.json", "snap.tmp",
        "snap-.json", "snap-99999.json", "snap-00007.json", "snap-+3.json", "snap--3.json",
        "snap-5x.json",
    ]);
    assert_eq!(
        names(oldest_first(&files)),
        [
            "snap--3.json", "snap-.json", "snap-00001.json", "snap-+3.json", "snap-00007.json",
            "snap-7.json", "snap-99999.json", "snap-100000.json", "snap-5x.json", "snap-x.json",
        ]
    );
    // sorted by name the first digits decide
    let files = entries(&["snap-99999.json", "snap-100000.json", "snap-00001.json"]);
    assert_eq!(
        names(sorted_snaps(&files)),
        ["snap-00001.json", "snap-100000.json", "snap-99999.json"]
    );
}

#[test]
fn sizes_are_added_up() {
    let mut files = entries(&["a", "bcd"]);
    files.push(DirEntry { name: "gone".to_string(), size: None });
    assert_eq!(total_bytes(&files), 4);
    assert_eq!(checked_total(&files), Some(4));
    files.push(DirEntry { name: "big".to_string(), size: Some(u64::MAX - 4) });
    assert_eq!(checked_total(&files), Some(u64::MAX));
    files.push(DirEntry { name: "more".to_string(), size: Some(1) });
    assert_eq!(checked_total(&files), None);
}
