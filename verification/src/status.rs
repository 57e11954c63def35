//! The report on the sessions, and the flushing of one.

use vstd::prelude::*;
use vstd::string::*;

use crate::bytes::bytes_le;
use crate::listing::{checked_total, snap_entries, total_bytes};
use crate::number::{append_fill, decimal_string};
use crate::path::join;
use crate::quote::quoted_path;
use crate::storage::{Answer, DirEntry, EntryView, Op, Reply, Request};

verus! {

broadcast use vstd::string::group_string_axioms;

/// An entry of the output directory.
#[derive(Debug, PartialEq, Eq)]
pub struct SessionDir {
    /// The bytes of its name.
    pub key: Vec<u8>,
    /// Its name as text, for the report.
    pub label: String,
    /// It is a directory.
    pub is_dir: bool,
    /// What is in it, if it could be listed.
    pub files: Option<Vec<DirEntry>>,
}

pub struct SessionDirView {
    pub key: Seq<u8>,
    pub label: Seq<char>,
    pub is_dir: bool,
    /// Nothing if it could not be listed.
    pub files: Seq<EntryView>,
}

/// The entries of a directory that could be listed; none of one that could not.
pub open spec fn files_in(files: Option<Vec<DirEntry>>) -> Seq<EntryView> {
    match files {
        Some(entries) => crate::storage::entry_views(entries@),
        None => seq![],
    }
}

impl View for SessionDir {
    type V = SessionDirView;

    open spec fn view(&self) -> SessionDirView {
        SessionDirView {
            key: self.key@,
            label: self.label@,
            is_dir: self.is_dir,
            files: files_in(self.files),
        }
    }
}

/// The views of a run of entries.
pub open spec fn dir_views(dirs: Seq<SessionDir>) -> Seq<SessionDirView> {
    dirs.map_values(|d: SessionDir| d@)
}

/// `s` with spaces behind it up to `width` characters.
pub open spec fn pad_right(s: Seq<char>, width: int) -> Seq<char> {
    s + crate::number::fill(' ', width - s.len())
}

/// `s` with spaces before it up to `width` characters.
pub open spec fn pad_left(s: Seq<char>, width: int) -> Seq<char> {
    crate::number::fill(' ', width - s.len()) + s
}

/// Three texts in the columns of the report.
pub open spec fn columns(first: Seq<char>, second: Seq<char>, third: Seq<char>) -> Seq<char> {
    pad_right(first, 40) + " "@ + pad_left(second, 6) + " "@ + pad_left(third, 12)
}

/// The number of snapshots among the files of a session.
pub open spec fn snaps_of(files: Seq<EntryView>) -> nat {
    crate::listing::snaps_among(files).len()
}

/// The bytes that the snapshots of a session take.
pub open spec fn bytes_of(files: Seq<EntryView>) -> nat {
    crate::listing::sizes(crate::listing::snaps_among(files))
}

/// The row of a session in the report.
pub open spec fn row_of(dir: SessionDirView) -> Seq<char> {
    columns(
        dir.label,
        crate::number::decimal(snaps_of(dir.files)),
        crate::number::decimal(bytes_of(dir.files)),
    )
}

/// The directories among `dirs`.
pub open spec fn only_dirs(dirs: Seq<SessionDirView>) -> Seq<SessionDirView>
    decreases dirs.len(),
{
    if dirs.len() == 0 {
        dirs
    } else if dirs.last().is_dir {
        only_dirs(dirs.drop_last()).push(dirs.last())
    } else {
        only_dirs(dirs.drop_last())
    }
}

/// The order of the rows.
pub open spec fn by_key() -> spec_fn(SessionDirView, SessionDirView) -> bool {
    |a: SessionDirView, b: SessionDirView| crate::bytes::lex_le(a.key, b.key)
}

/// The sessions in the order of the report.
pub open spec fn sessions_among(dirs: Seq<SessionDirView>) -> Seq<SessionDirView> {
    crate::order::sorted_by(only_dirs(dirs), by_key())
}

/// The lines of the report.
pub open spec fn report_of(dirs: Seq<SessionDirView>) -> Seq<Seq<char>> {
    let sessions = sessions_among(dirs);
    if sessions.len() == 0 {
        seq!["no sessions"@]
    } else {
        seq![
            columns("session-id"@, "snaps"@, "bytes"@),
            crate::number::fill('-', 62),
        ] + sessions.map_values(|d: SessionDirView| row_of(d))
    }
}

/// What every session's snapshots take can be counted in 64 bits.
pub open spec fn countable(dirs: Seq<SessionDirView>) -> bool {
    forall|i: int| 0 <= i < dirs.len() ==> bytes_of((#[trigger] dirs[i]).files) <= u64::MAX
}

/// The number of snapshots among the files of a session, and the bytes that they
/// take.
pub fn count_snaps(files: &Option<Vec<DirEntry>>) -> (counts: (usize, u64))
    requires
        bytes_of(files_in(*files)) <= u64::MAX,
    ensures
        counts.0 as nat == snaps_of(files_in(*files)),
        counts.1 as nat == bytes_of(files_in(*files)),
{
    match files {
        Some(entries) => {
            let snaps: Vec<DirEntry> = snap_entries(entries);
            assert(snaps@.len() == crate::storage::entry_views(snaps@).len());
            (snaps.len(), total_bytes(&snaps))
        },
        None => (0, 0),
    }
}

fn counts_fit(files: &Option<Vec<DirEntry>>) -> (fit: bool)
    ensures
        fit == (bytes_of(files_in(*files)) <= u64::MAX),
{
    match files {
        Some(entries) => checked_total(&snap_entries(entries)).is_some(),
        None => true,
    }
}

fn append_padded_left(out: &mut String, text: &str, width: usize)
    ensures
        final(out)@ == old(out)@ + pad_left(text@, width as int),
{
    let ghost before = out@;
    let len: usize = text.unicode_len();
    if len < width {
        proof {
            reveal_strlit(" ");
        }
        append_fill(out, " ", width - len);
    }
    out.append(text);
    assert(out@ =~= before + pad_left(text@, width as int));
}

fn append_padded_right(out: &mut String, text: &str, width: usize)
    ensures
        final(out)@ == old(out)@ + pad_right(text@, width as int),
{
    let ghost before = out@;
    let len: usize = text.unicode_len();
    out.append(text);
    if len < width {
        proof {
            reveal_strlit(" ");
        }
        append_fill(out, " ", width - len);
    }
    assert(out@ =~= before + pad_right(text@, width as int));
}

fn in_columns(first: &str, second: &str, third: &str) -> (line: String)
    ensures
        line@ == columns(first@, second@, third@),
{
    let mut line: String = String::new();
    append_padded_right(&mut line, first, 40);
    line.append(" ");
    append_padded_left(&mut line, second, 6);
    line.append(" ");
    append_padded_left(&mut line, third, 12);
    assert(line@ =~= columns(first@, second@, third@));
    line
}

fn insert_dir(sorted: &mut Vec<SessionDir>, dir: SessionDir)
    ensures
        dir_views(final(sorted)@) == crate::order::insert_by(
            dir_views(old(sorted)@),
            dir@,
            by_key(),
        ),
{
    let ghost views = dir_views(sorted@);
    let mut at: usize = sorted.len();
    while at > 0 && !bytes_le(sorted[at - 1].key.as_slice(), dir.key.as_slice())
        invariant
            at <= sorted@.len(),
            views == dir_views(sorted@),
            forall|j: int| at <= j < views.len() ==> !by_key()(#[trigger] views[j], dir@),
        decreases at,
    {
        assert(views[at - 1] == sorted@[at - 1]@);
        at = at - 1;
    }
    proof {
        if at > 0 {
            assert(views[at - 1] == sorted@[at - 1]@);
        }
        crate::order::lemma_insert_at(views, dir@, by_key(), at as int);
    }
    sorted.insert(at, dir);
    assert(dir_views(sorted@) =~= views.insert(at as int, dir@));
}

fn sort_sessions(dirs: Vec<SessionDir>) -> (sessions: Vec<SessionDir>)
    ensures
        dir_views(sessions@) == sessions_among(dir_views(dirs@)),
{
    let ghost views = dir_views(dirs@);
    let mut rest: Vec<SessionDir> = dirs;
    let mut reversed: Vec<SessionDir> = Vec::new();
    while rest.len() > 0
        invariant
            views == dir_views(rest@) + dir_views(reversed@).reverse(),
        decreases rest@.len(),
    {
        let ghost before = rest@;
        let ghost moved = reversed@;
        if let Some(dir) = rest.pop() {
            reversed.push(dir);
            proof {
                assert(before =~= rest@.push(dir));
                assert(dir_views(before) =~= dir_views(rest@).push(dir@));
                assert(dir_views(reversed@) =~= dir_views(moved).push(dir@));
                assert(dir_views(rest@) + dir_views(reversed@).reverse() =~= views);
            }
        }
    }
    let mut sessions: Vec<SessionDir> = Vec::new();
    let ghost mut done: int = 0;
    proof {
        assert(dir_views(rest@) =~= Seq::<SessionDirView>::empty());
        assert(views =~= dir_views(reversed@).reverse());
        assert(views.take(0) =~= Seq::<SessionDirView>::empty());
        assert(dir_views(sessions@) =~= Seq::<SessionDirView>::empty());
    }
    while reversed.len() > 0
        invariant
            0 <= done <= views.len(),
            dir_views(reversed@).reverse() == views.skip(done),
            dir_views(sessions@) == sessions_among(views.take(done)),
        decreases reversed@.len(),
    {
        let ghost before = reversed@;
        if let Some(dir) = reversed.pop() {
            proof {
                assert(before =~= reversed@.push(dir));
                assert(dir_views(before) =~= dir_views(reversed@).push(dir@));
                assert(views.skip(done)[0] == dir@);
                assert(dir_views(reversed@).reverse() =~= views.skip(done).skip(1));
                assert(views.skip(done).skip(1) =~= views.skip(done + 1));
                assert(views.take(done + 1).drop_last() =~= views.take(done));
                assert(views.take(done + 1).last() == dir@);
            }
            if dir.is_dir {
                proof {
                    let kept = only_dirs(views.take(done));
                    assert(kept.push(dir@).drop_last() =~= kept);
                }
                insert_dir(&mut sessions, dir);
            }
            proof {
                done = done + 1;
            }
        }
    }
    proof {
        assert(views.skip(done).len() == dir_views(reversed@).len());
        assert(views.take(done) =~= views);
    }
    sessions
}

/// The report on the entries of the output directory, line by line; none if what
/// a session's snapshots take cannot be counted in 64 bits.
pub fn status_report(dirs: Vec<SessionDir>) -> (report: Option<Vec<String>>)
    ensures
        report is Some <==> countable(sessions_among(dir_views(dirs@))),
        report matches Some(lines) ==> crate::cli::texts(lines@) == report_of(dir_views(dirs@)),
{
    let ghost views = dir_views(dirs@);
    let sessions: Vec<SessionDir> = sort_sessions(dirs);
    let ghost shown = dir_views(sessions@);
    let mut lines: Vec<String> = Vec::new();
    if sessions.len() == 0 {
        lines.push("no sessions".to_owned());
        assert(shown.len() == 0);
        assert(crate::cli::texts(lines@) =~= report_of(views));
        return Some(lines);
    }
    lines.push(in_columns("session-id", "snaps", "bytes"));
    let mut rule: String = String::new();
    proof {
        reveal_strlit("-");
    }
    append_fill(&mut rule, "-", 62);
    assert(rule@ =~= crate::number::fill('-', 62));
    lines.push(rule);
    let ghost rows = shown.map_values(|d: SessionDirView| row_of(d));
    let ghost head = seq![
        columns("session-id"@, "snaps"@, "bytes"@),
        crate::number::fill('-', 62),
    ];
    assert(crate::cli::texts(lines@) =~= head + rows.take(0));
    let mut i: usize = 0;
    while i < sessions.len()
        invariant
            i <= sessions@.len(),
            shown == dir_views(sessions@),
            shown == sessions_among(views),
            views == dir_views(dirs@),
            rows == shown.map_values(|d: SessionDirView| row_of(d)),
            crate::cli::texts(lines@) == head + rows.take(i as int),
            forall|j: int| 0 <= j < i ==> bytes_of((#[trigger] shown[j]).files) <= u64::MAX,
        decreases sessions@.len() - i,
    {
        let session = &sessions[i];
        assert(shown[i as int] == session@);
        if !counts_fit(&session.files) {
            return None;
        }
        let (snaps, bytes) = count_snaps(&session.files);
        let ghost before = lines@;
        let row: String = in_columns(
            session.label.as_str(),
            decimal_string(snaps as u64).as_str(),
            decimal_string(bytes).as_str(),
        );
        lines.push(row);
        proof {
            assert(row@ == rows[i as int]);
            assert(crate::cli::texts(lines@) =~= crate::cli::texts(before).push(row@));
            assert(head + rows.take(i + 1) =~= (head + rows.take(i as int)).push(rows[i as int]));
        }
        i = i + 1;
    }
    assert(rows.take(rows.len() as int) =~= rows);
    Some(lines)
}

/// The report if the output directory does not exist, given its path in quotes.
pub open spec fn no_out_text(quoted_out: Seq<char>) -> Seq<char> {
    "no sessions (out_dir "@ + quoted_out + " does not exist)"@
}

/// The report if the output directory does not exist, given its path in quotes.
pub fn no_out_line(quoted_out: &str) -> (line: String)
    ensures
        line@ == no_out_text(quoted_out@),
{
    let mut line: String = String::from_str("no sessions (out_dir ");
    line.append(quoted_out);
    line.append(" does not exist)");
    line
}

/// The report if the output directory does not exist.
pub fn no_out_report(out: &str) -> (line: String)
    ensures
        line@ == no_out_text(crate::quote::path_debug_text(out@)),
{
    no_out_line(quoted_path(out).as_str())
}

/// What is told of a session without a directory, given its path in quotes.
pub open spec fn missing_text(session: Seq<char>, quoted_dir: Seq<char>) -> Seq<char> {
    "memlog-witness: session "@ + session + " has no directory at "@ + quoted_dir
}

/// What is told of a session without a directory, given its path in quotes.
pub fn missing_line(session: &str, quoted_dir: &str) -> (line: String)
    ensures
        line@ == missing_text(session@, quoted_dir@),
{
    let mut line: String = String::from_str("memlog-witness: session ");
    line.append(session);
    line.append(" has no directory at ");
    line.append(quoted_dir);
    line
}

/// What is told of a directory that is flushed, given its path in quotes.
pub open spec fn synced_text(quoted_dir: Seq<char>) -> Seq<char> {
    "memlog-witness: fsynced "@ + quoted_dir
}

/// What is told of a directory that is flushed, given its path in quotes.
pub fn synced_line(quoted_dir: &str) -> (line: String)
    ensures
        line@ == synced_text(quoted_dir@),
{
    let mut line: String = String::from_str("memlog-witness: fsynced ");
    line.append(quoted_dir);
    line
}

/// How far the flushing of a session's directory is.
pub enum DrainTask {
    /// See whether the directory is there.
    Find { session: String, dir: String },
    /// Tell that it is not.
    TellMissing { session: String, dir: String },
    /// Flush it.
    Sync { dir: String },
    /// Tell that it is flushed.
    TellSynced { dir: String },
    Finished,
    /// The directory could not be flushed.
    Failed,
}

#[verifier::ext_equal]
pub enum DrainView {
    Find { session: Seq<char>, dir: Seq<char> },
    TellMissing { session: Seq<char>, dir: Seq<char> },
    Sync { dir: Seq<char> },
    TellSynced { dir: Seq<char> },
    Finished,
    Failed,
}

impl View for DrainTask {
    type V = DrainView;

    open spec fn view(&self) -> DrainView {
        match self {
            DrainTask::Find { session, dir } => DrainView::Find { session: session@, dir: dir@ },
            DrainTask::TellMissing { session, dir } => DrainView::TellMissing {
                session: session@,
                dir: dir@,
            },
            DrainTask::Sync { dir } => DrainView::Sync { dir: dir@ },
            DrainTask::TellSynced { dir } => DrainView::TellSynced { dir: dir@ },
            DrainTask::Finished => DrainView::Finished,
            DrainTask::Failed => DrainView::Failed,
        }
    }
}

impl DrainView {
    /// The next thing to do.
    pub open spec fn op(self) -> Option<Op> {
        match self {
            DrainView::Find { session, dir } => Some(Op::Exists { path: dir }),
            DrainView::TellMissing { session, dir } => Some(
                Op::Tell { text: missing_text(session, crate::quote::path_debug_text(dir)) },
            ),
            DrainView::Sync { dir } => Some(Op::SyncDir { path: dir }),
            DrainView::TellSynced { dir } => Some(
                Op::Tell { text: synced_text(crate::quote::path_debug_text(dir)) },
            ),
            _ => None,
        }
    }

    /// Where the task goes on after `answer`.
    pub open spec fn next(self, answer: Answer) -> DrainView {
        match self {
            DrainView::Find { session, dir } => if answer == Answer::Present(true) {
                DrainView::Sync { dir }
            } else {
                DrainView::TellMissing { session, dir }
            },
            DrainView::TellMissing { session, dir } => DrainView::Finished,
            DrainView::Sync { dir } => if answer is Done {
                DrainView::TellSynced { dir }
            } else {
                DrainView::Failed
            },
            DrainView::TellSynced { dir } => DrainView::Finished,
            _ => self,
        }
    }
}

/// Start flushing the directory of `session` under `out`.
pub fn run_drain(out: &str, session: &str) -> (task: DrainTask)
    ensures
        task@ == (DrainView::Find {
            session: session@,
            dir: crate::path::joined(out@, session@),
        }),
{
    DrainTask::Find { session: session.to_owned(), dir: join(out, session) }
}

impl DrainTask {
    /// The next request; none if the task is at its end.
    pub fn request(&self) -> (request: Option<Request>)
        ensures
            crate::storage::asks(request, self@.op()),
    {
        match self {
            DrainTask::Find { dir, .. } => Some(Request::Exists { path: dir.clone() }),
            DrainTask::TellMissing { session, dir } => {
                let path: String = quoted_path(dir.as_str());
                Some(Request::Tell { text: missing_line(session.as_str(), path.as_str()) })
            },
            DrainTask::Sync { dir } => Some(Request::SyncDir { path: dir.clone() }),
            DrainTask::TellSynced { dir } => {
                let path: String = quoted_path(dir.as_str());
                Some(Request::Tell { text: synced_line(path.as_str()) })
            },
            _ => None,
        }
    }

    /// Go on after `reply`.
    pub fn step(self, reply: Reply) -> (next: DrainTask)
        ensures
            next@ == self@.next(reply@),
    {
        match self {
            DrainTask::Find { session, dir } => match reply {
                Reply::Present(true) => DrainTask::Sync { dir },
                _ => DrainTask::TellMissing { session, dir },
            },
            DrainTask::TellMissing { .. } => DrainTask::Finished,
            DrainTask::Sync { dir } => match reply {
                Reply::Done => DrainTask::TellSynced { dir },
                _ => DrainTask::Failed,
            },
            DrainTask::TellSynced { .. } => DrainTask::Finished,
            DrainTask::Finished => DrainTask::Finished,
            DrainTask::Failed => DrainTask::Failed,
        }
    }
}

/// The report has a row for each directory, and no other; the rows are sorted by
/// the names of the directories.
pub proof fn every_session_is_reported(dirs: Seq<SessionDirView>)
    ensures
        sessions_among(dirs).to_multiset() == only_dirs(dirs).to_multiset(),
        only_dirs(dirs).len() > 0 ==> report_of(dirs).len() == only_dirs(dirs).len() + 2,
        forall|i: int, j: int|
            0 <= i <= j < sessions_among(dirs).len() ==> crate::bytes::lex_le(
                (#[trigger] sessions_among(dirs)[i]).key,
                (#[trigger] sessions_among(dirs)[j]).key,
            ),
{
    let kept = only_dirs(dirs);
    assert forall|a: SessionDirView, b: SessionDirView| #[trigger]
        by_key()(a, b) || by_key()(b, a) by {
        crate::bytes::byte_order_is_total(a.key, b.key);
    }
    assert forall|a: SessionDirView, b: SessionDirView, c: SessionDirView|
        #[trigger] by_key()(a, b) && #[trigger] by_key()(b, c) implies by_key()(a, c) by {
        crate::bytes::byte_order_chains(a.key, b.key, c.key);
    }
    crate::order::sorting_keeps_the_items(kept, by_key());
    crate::order::sorting_sorts(kept, by_key());
    let sorted = sessions_among(dirs);
    assert forall|i: int, j: int| 0 <= i <= j < sorted.len() implies crate::bytes::lex_le(
        (#[trigger] sorted[i]).key,
        (#[trigger] sorted[j]).key,
    ) by {
        assert(by_key()(sorted[i], sorted[j]));
    }
}

/// Flushing a session changes no file: it looks for the directory, flushes it and
/// tells.
pub proof fn draining_changes_no_file(task: DrainView)
    ensures
        match task.op() {
            None => task is Finished || task is Failed,
            Some(op) => op is Exists || op is SyncDir || op is Tell,
        },
{
}

/// The sum of the sizes of `files`; one whose size is not known counts nothing.
pub open spec fn weight(files: Seq<EntryView>) -> nat
    decreases files.len(),
{
    if files.len() == 0 {
        0
    } else {
        weight(files.drop_first()) + (match files[0].size {
            Some(size) => size as nat,
            None => 0,
        })
    }
}

proof fn lemma_weight(files: Seq<EntryView>)
    ensures
        weight(files) == crate::listing::sizes(files),
    decreases files.len(),
{
    if files.len() > 0 {
        let rest = files.drop_first();
        lemma_weight(rest);
        crate::listing::each_file_adds_its_size(seq![], files[0], rest);
        assert(Seq::<EntryView>::empty().push(files[0]) + rest =~= files);
        assert(Seq::<EntryView>::empty() + rest =~= rest);
    }
}

/// What the row of a session tells: as digits, how many of its files are named
/// `snap-`, anything, `.json`, and how much these take.
pub struct RowDigits {
    pub snaps: Seq<char>,
    pub bytes: Seq<char>,
}

/// The files of a session that are named as snapshots are.
pub open spec fn named_as_snaps(files: Seq<EntryView>) -> Seq<EntryView> {
    files.filter(|e: EntryView| "snap-"@.is_prefix_of(e.name) && ".json"@.is_suffix_of(e.name))
}

/// The number of spaces that fill `len` characters up to `width`.
pub open spec fn gap(width: int, len: nat) -> Seq<char> {
    Seq::new(
        if len < width {
            (width - len) as nat
        } else {
            0
        },
        |i: int| ' ',
    )
}

/// The row of a session is its name, filled up to 40 characters, and behind it, in
/// columns of 6 and 12, the digits of how many snapshots it has and how much they
/// take.
pub proof fn row_tells_the_session(dir: SessionDirView) -> (digits: RowDigits)
    ensures
        row_of(dir) == dir.label + gap(40, dir.label.len()) + " "@ + (gap(6, digits.snaps.len())
            + digits.snaps) + " "@ + (gap(12, digits.bytes.len()) + digits.bytes),
        crate::number::spells(digits.snaps, named_as_snaps(dir.files).len()),
        crate::number::spells(digits.bytes, weight(named_as_snaps(dir.files))),
{
    let snaps = snaps_of(dir.files);
    let bytes = bytes_of(dir.files);
    crate::listing::snapshots_are_the_entries_with_such_names(dir.files);
    lemma_weight(named_as_snaps(dir.files));
    crate::number::decimal_spells_its_number(snaps);
    crate::number::decimal_spells_its_number(bytes);
    let a = crate::number::decimal(snaps);
    let b = crate::number::decimal(bytes);
    assert(crate::number::fill(' ', 40 - dir.label.len()) =~= gap(40, dir.label.len()));
    assert(crate::number::fill(' ', 6 - a.len()) =~= gap(6, a.len()));
    assert(crate::number::fill(' ', 12 - b.len()) =~= gap(12, b.len()));
    RowDigits { snaps: a, bytes: b }
}

/// A file that is not named as a snapshot leaves the row of its session as it is,
/// wherever it stands among the files.
pub proof fn other_files_leave_the_row(
    dir: SessionDirView,
    front: Seq<EntryView>,
    other: EntryView,
    back: Seq<EntryView>,
)
    requires
        !("snap-"@.is_prefix_of(other.name) && ".json"@.is_suffix_of(other.name)),
    ensures
        row_of(SessionDirView { files: front.push(other) + back, ..dir }) == row_of(
            SessionDirView { files: front + back, ..dir },
        ),
{
    crate::listing::other_files_are_ignored(front, other, back);
}

/// A snapshot more, wherever it stands, counts one more and its size more.
pub proof fn snapshot_adds_to_the_row(front: Seq<EntryView>, snap: EntryView, back: Seq<EntryView>)
    requires
        "snap-"@.is_prefix_of(snap.name),
        ".json"@.is_suffix_of(snap.name),
    ensures
        snaps_of(front.push(snap) + back) == snaps_of(front + back) + 1,
        bytes_of(front.push(snap) + back) == bytes_of(front + back) + (match snap.size {
            Some(size) => size as nat,
            None => 0,
        }),
        snaps_of(seq![]) == 0,
        bytes_of(seq![]) == 0,
{
    let wanted = |e: EntryView| "snap-"@.is_prefix_of(e.name) && ".json"@.is_suffix_of(e.name);
    let with = front.push(snap) + back;
    let without = front + back;
    crate::listing::snapshots_are_the_entries_with_such_names(with);
    crate::listing::snapshots_are_the_entries_with_such_names(without);
    Seq::filter_distributes_over_add(front.push(snap), back, wanted);
    Seq::filter_distributes_over_add(front, back, wanted);
    assert(front.push(snap).filter(wanted) == front.filter(wanted).push(snap)) by {
        reveal(Seq::filter);
        assert(front.push(snap).drop_last() =~= front);
    }
    crate::listing::each_file_adds_its_size(front.filter(wanted), snap, back.filter(wanted));
}

/// The report shows the directories among the entries, each once, sorted by the bytes
/// of their names, each in its row behind the two lines of the heading.
pub proof fn report_shows_each_directory(dirs: Seq<SessionDirView>)
    ensures
        ({
            let shown = sessions_among(dirs);
            let wanted = dirs.filter(|d: SessionDirView| d.is_dir);
            &&& shown.to_multiset() == wanted.to_multiset()
            &&& shown.len() == wanted.len()
            &&& shown.len() == 0 ==> report_of(dirs) == seq!["no sessions"@]
            &&& shown.len() > 0 ==> report_of(dirs).len() == shown.len() + 2
            &&& forall|i: int|
                0 <= i < shown.len() ==> report_of(dirs)[i + 2] == row_of(#[trigger] shown[i])
            &&& forall|i: int, j: int|
                0 <= i <= j < shown.len() ==> crate::bytes::lex_le(
                    (#[trigger] shown[i]).key,
                    (#[trigger] shown[j]).key,
                )
        }),
{
    every_session_is_reported(dirs);
    lemma_only_dirs(dirs);
    crate::order::sorting_keeps_the_items(only_dirs(dirs), by_key());
}

proof fn lemma_only_dirs(dirs: Seq<SessionDirView>)
    ensures
        only_dirs(dirs) == dirs.filter(|d: SessionDirView| d.is_dir),
    decreases dirs.len(),
{
    reveal(Seq::filter);
    if dirs.len() > 0 {
        lemma_only_dirs(dirs.drop_last());
    }
}

/// What is told holds the name of the session and the quoted path, unchanged.
pub proof fn told_lines_hold_their_parts(session: Seq<char>, quoted: Seq<char>)
    ensures
        no_out_text(quoted) == "no sessions (out_dir "@ + quoted + " does not exist)"@,
        missing_text(session, quoted) == "memlog-witness: session "@ + session
            + " has no directory at "@ + quoted,
        synced_text(quoted) == "memlog-witness: fsynced "@ + quoted,
{
}

/// Flushing a session looks for its directory below the output directory; if it is
/// there flushes it and tells so, or fails; if it is not, tells that.
pub proof fn drain_flushes_the_directory(session: Seq<char>, dir: Seq<char>, told: Answer)
    ensures
        ({
            let find = DrainView::Find { session, dir };
            let there = find.next(Answer::Present(true));
            let gone = find.next(Answer::Present(false));
            let quoted = crate::quote::path_debug_text(dir);
            &&& find.op() == Some(Op::Exists { path: dir })
            &&& there.op() == Some(Op::SyncDir { path: dir })
            &&& there.next(Answer::Failed) == DrainView::Failed
            &&& there.next(Answer::Done).op() == Some(
                Op::Tell { text: "memlog-witness: fsynced "@ + quoted },
            )
            &&& there.next(Answer::Done).next(told) == DrainView::Finished
            &&& gone.op() == Some(
                Op::Tell {
                    text: "memlog-witness: session "@ + session + " has no directory at "@ + quoted,
                },
            )
            &&& gone.next(told) == DrainView::Finished
        }),
{
}

/// A report can be given unless the snapshots of a session take more than 64 bits
/// can count.
pub proof fn reports_fail_only_beyond_counting(dirs: Seq<SessionDirView>)
    ensures
        countable(dirs) <==> forall|i: int|
            0 <= i < dirs.len() ==> weight(named_as_snaps((#[trigger] dirs[i]).files))
                <= 0xffff_ffff_ffff_ffff,
{
    assert forall|i: int| 0 <= i < dirs.len() implies weight(
        named_as_snaps((#[trigger] dirs[i]).files),
    ) == bytes_of(dirs[i].files) by {
        crate::listing::snapshots_are_the_entries_with_such_names(dirs[i].files);
        lemma_weight(named_as_snaps(dirs[i].files));
    }
}

/// Where there is a session, the report starts with the names of its columns, each in
/// its place, and with a rule of sixty-two dashes; where there is none it is one line.
pub proof fn report_starts_with_its_columns(dirs: Seq<SessionDirView>)
    ensures
        ({
            let report = report_of(dirs);
            let some = exists|i: int| 0 <= i < dirs.len() && (#[trigger] dirs[i]).is_dir;
            &&& !some ==> report == seq!["no sessions"@]
            &&& some ==> {
                &&& report.len() > 2
                &&& report[0].len() == 60
                &&& report[0].take(10) == "session-id"@
                &&& report[0].subrange(42, 47) == "snaps"@
                &&& report[0].skip(55) == "bytes"@
                &&& report[1].len() == 62
                &&& forall|i: int| 0 <= i < 62 ==> #[trigger] report[1][i] == '-'
            }
        }),
{
    reveal_strlit("session-id");
    reveal_strlit("snaps");
    reveal_strlit("bytes");
    reveal_strlit(" ");
    let head = columns("session-id"@, "snaps"@, "bytes"@);
    assert(head.len() == 60);
    assert(head.take(10) =~= "session-id"@);
    assert(head.subrange(42, 47) =~= "snaps"@);
    assert(head.skip(55) =~= "bytes"@);
    lemma_some_dir(dirs);
    every_session_is_reported(dirs);
    only_dirs(dirs).to_multiset_ensures();
    sessions_among(dirs).to_multiset_ensures();
    if exists|i: int| 0 <= i < dirs.len() && (#[trigger] dirs[i]).is_dir {
        assert(report_of(dirs)[0] == head);
        assert(report_of(dirs)[1] == crate::number::fill('-', 62));
    } else {
        assert(sessions_among(dirs).len() == 0);
    }
}

proof fn lemma_some_dir(dirs: Seq<SessionDirView>)
    ensures
        only_dirs(dirs).len() > 0 <==> exists|i: int|
            0 <= i < dirs.len() && (#[trigger] dirs[i]).is_dir,
    decreases dirs.len(),
{
    if dirs.len() > 0 {
        let front = dirs.drop_last();
        lemma_some_dir(front);
        if dirs.last().is_dir {
            assert(dirs[dirs.len() - 1].is_dir);
        } else if only_dirs(dirs).len() > 0 {
            let i = choose|i: int| 0 <= i < front.len() && (#[trigger] front[i]).is_dir;
            assert(dirs[i].is_dir);
        } else {
            assert forall|i: int| 0 <= i < dirs.len() implies !(#[trigger] dirs[i]).is_dir by {
                if i < front.len() {
                    assert(front[i] == dirs[i]);
                }
            }
        }
    }
}

} // verus!
