//! Atomic per-session snapshot writer.
//!
//! Each snapshot is kept as `snap-NNNNN.json` in the directory of its session.
//! Writes are atomic: the bytes go to `snap.tmp`, are flushed to the disk, and
//! are then renamed into place. A partial `snap.tmp` that a crash left behind is
//! ignored when the next sequence number is looked for.
//!
//! When the files in the directory of a session take more than its quota, a
//! `_quota-trimmed` marker is left, and the oldest snapshots are removed until what
//! the files take drops below the quota, or no snapshot is left.

use vstd::prelude::*;
use vstd::string::*;

use crate::listing::{checked_total, last_seq, oldest_first, probe_next_seq, snap_name};
use crate::number::{append_decimal, append_decimal_padded, decimal_string};
use crate::path::join;
use crate::storage::{Answer, DirEntry, EntryView, Op, Reply, Request};

verus! {

broadcast use vstd::string::group_string_axioms;

/// Manages the writes into the directory of one session.
pub struct SessionWriter {
    dir: String,
    next_seq: u64,
    quota_bytes: u64,
}

/// A writer as characters and numbers.
pub struct WriterView {
    pub dir: Seq<char>,
    pub next_seq: nat,
    /// Zero for no quota.
    pub quota_bytes: nat,
}

impl View for SessionWriter {
    type V = WriterView;

    closed spec fn view(&self) -> WriterView {
        WriterView {
            dir: self.dir@,
            next_seq: self.next_seq as nat,
            quota_bytes: self.quota_bytes as nat,
        }
    }
}

impl WriterView {
    /// The path of `name` in the session's directory.
    pub open spec fn file(self, name: Seq<char>) -> Seq<char> {
        crate::path::joined(self.dir, name)
    }

    /// The path of the snapshot `seq`.
    pub open spec fn snap(self, seq: nat) -> Seq<char> {
        self.file(crate::listing::snap_name_of(seq))
    }
}

/// The snapshots that may still have to go, oldest first, and the bytes that the
/// files of the session take.
struct Trim {
    snaps: Vec<DirEntry>,
    total: u64,
}

#[verifier::ext_equal]
pub struct TrimView {
    pub snaps: Seq<EntryView>,
    pub total: nat,
}

impl View for Trim {
    type V = TrimView;

    closed spec fn view(&self) -> TrimView {
        TrimView { snaps: crate::storage::entry_views(self.snaps@), total: self.total as nat }
    }
}

enum SnapStage {
    /// Write the bytes to the temporary file.
    WriteTemp { data: Vec<u8> },
    /// Rename the temporary file, which holds the bytes, to the snapshot.
    Publish { data: Vec<u8> },
    /// List the session's files, to see what they take.
    Survey,
    /// See whether the marker is there.
    FindMarker { trim: Trim },
    /// Create the marker.
    MakeMarker { trim: Trim },
    /// See how much the oldest snapshot takes.
    Weigh { trim: Trim },
    /// Remove the oldest snapshot, which takes `size` bytes.
    Remove { trim: Trim, size: u64 },
    Ended(SnapEnd),
}

/// How the writing of a snapshot came to its end.
#[derive(Clone, Copy, Debug, PartialEq, Eq, Structural)]
pub enum SnapEnd {
    /// The snapshot is written, and the quota of the session is enforced.
    Finished,
    /// A request failed; the work ended there.
    Failed,
    /// A count went past what 64 bits hold; the work ended there.
    Overflow,
}

/// The writing of a snapshot, as far as it is.
pub struct SnapTask {
    stage: SnapStage,
}

#[verifier::ext_equal]
pub enum SnapView {
    WriteTemp { data: Seq<u8> },
    Publish { data: Seq<u8> },
    Survey,
    FindMarker { trim: TrimView },
    MakeMarker { trim: TrimView },
    Weigh { trim: TrimView },
    Remove { trim: TrimView, size: nat },
    Finished,
    Failed,
    Overflow,
}

impl View for SnapTask {
    type V = SnapView;

    closed spec fn view(&self) -> SnapView {
        match self.stage {
            SnapStage::WriteTemp { data } => SnapView::WriteTemp { data: data@ },
            SnapStage::Publish { data } => SnapView::Publish { data: data@ },
            SnapStage::Survey => SnapView::Survey,
            SnapStage::FindMarker { trim } => SnapView::FindMarker { trim: trim@ },
            SnapStage::MakeMarker { trim } => SnapView::MakeMarker { trim: trim@ },
            SnapStage::Weigh { trim } => SnapView::Weigh { trim: trim@ },
            SnapStage::Remove { trim, size } => SnapView::Remove { trim: trim@, size: size as nat },
            SnapStage::Ended(SnapEnd::Finished) => SnapView::Finished,
            SnapStage::Ended(SnapEnd::Failed) => SnapView::Failed,
            SnapStage::Ended(SnapEnd::Overflow) => SnapView::Overflow,
        }
    }
}

impl SnapTask {
    /// A task in the middle of trimming has something to trim.
    #[verifier::type_invariant]
    spec fn has_work(self) -> bool {
        self@.valid()
    }

    /// How the task came to its end, if it has.
    pub fn end(&self) -> (end: Option<SnapEnd>)
        ensures
            end == (match self@ {
                SnapView::Finished => Some(SnapEnd::Finished),
                SnapView::Failed => Some(SnapEnd::Failed),
                SnapView::Overflow => Some(SnapEnd::Overflow),
                _ => None,
            }),
    {
        match &self.stage {
            SnapStage::Ended(end) => Some(*end),
            _ => None,
        }
    }
}

/// Where trimming goes on: with the oldest snapshot until what the files take has
/// dropped below the quota, or none is left.
pub open spec fn trimming(quota_bytes: nat, trim: TrimView) -> SnapView {
    if trim.total >= quota_bytes && trim.snaps.len() > 0 {
        SnapView::Weigh { trim }
    } else {
        SnapView::Finished
    }
}

/// What is left to trim once the oldest snapshot, of `size` bytes, is gone.
pub open spec fn without_oldest(trim: TrimView, size: nat) -> TrimView {
    TrimView {
        snaps: trim.snaps.drop_first(),
        total: if trim.total >= size {
            (trim.total - size) as nat
        } else {
            0
        },
    }
}

/// What a listing of the session's files makes of the quota.
pub open spec fn surveyed(quota_bytes: nat, entries: Seq<EntryView>) -> SnapView {
    let total = crate::listing::sizes(entries);
    if total > u64::MAX {
        SnapView::Overflow
    } else if total <= quota_bytes {
        SnapView::Finished
    } else {
        SnapView::FindMarker {
            trim: TrimView { snaps: crate::listing::snaps_by_age(entries), total },
        }
    }
}

impl SnapView {
    /// The task is at its end, one way or another.
    pub open spec fn ended(self) -> bool {
        self is Finished || self is Failed || self is Overflow
    }

    /// The next thing to do, for the writer `w`.
    pub open spec fn op(self, w: WriterView) -> Option<Op> {
        match self {
            SnapView::WriteTemp { data } => Some(
                Op::WriteSynced { path: w.file("snap.tmp"@), data },
            ),
            SnapView::Publish { data } => Some(
                Op::Rename { from: w.file("snap.tmp"@), to: w.snap(w.next_seq) },
            ),
            SnapView::Survey => Some(Op::ListDir { path: w.dir }),
            SnapView::FindMarker { trim } => Some(Op::Exists { path: w.file("_quota-trimmed"@) }),
            SnapView::MakeMarker { trim } => Some(
                Op::CreateFile { path: w.file("_quota-trimmed"@) },
            ),
            SnapView::Weigh { trim } => Some(Op::Size { path: w.file(trim.snaps[0].name) }),
            SnapView::Remove { trim, size } => Some(
                Op::Remove { path: w.file(trim.snaps[0].name) },
            ),
            _ => None,
        }
    }

    /// Where the task goes on after `answer`.
    pub open spec fn next(self, w: WriterView, answer: Answer) -> SnapView {
        match self {
            SnapView::WriteTemp { data } => if answer is Done {
                SnapView::Publish { data }
            } else {
                SnapView::Failed
            },
            SnapView::Publish { data } => if answer !is Done {
                SnapView::Failed
            } else if w.next_seq == u64::MAX {
                SnapView::Overflow
            } else if w.quota_bytes == 0 {
                SnapView::Finished
            } else {
                SnapView::Survey
            },
            SnapView::Survey => match answer {
                Answer::Listing(entries) => surveyed(w.quota_bytes, entries),
                _ => SnapView::Failed,
            },
            SnapView::FindMarker { trim } => if answer == Answer::Present(true) {
                trimming(w.quota_bytes, trim)
            } else {
                SnapView::MakeMarker { trim }
            },
            SnapView::MakeMarker { trim } => if answer is Done {
                trimming(w.quota_bytes, trim)
            } else {
                SnapView::Failed
            },
            SnapView::Weigh { trim } => match answer {
                Answer::Size(size) => SnapView::Remove { trim, size: size as nat },
                _ => SnapView::Remove { trim, size: 0 },
            },
            SnapView::Remove { trim, size } => if answer is Done {
                trimming(w.quota_bytes, without_oldest(trim, size))
            } else {
                SnapView::Failed
            },
            _ => self,
        }
    }

    /// The writer after `answer`: it counts the snapshot once the rename is done.
    pub open spec fn writer_next(self, w: WriterView, answer: Answer) -> WriterView {
        if self is Publish && answer is Done && w.next_seq < u64::MAX {
            WriterView { next_seq: w.next_seq + 1, ..w }
        } else {
            w
        }
    }

    /// A task in the middle of trimming has something to trim.
    pub open spec fn valid(self) -> bool {
        match self {
            SnapView::Weigh { trim } => trim.snaps.len() > 0,
            SnapView::Remove { trim, size } => trim.snaps.len() > 0,
            _ => true,
        }
    }
}

fn go_on_trimming(quota_bytes: u64, trim: Trim) -> (task: SnapTask)
    ensures
        task@ == trimming(quota_bytes as nat, trim@),
{
    if trim.total >= quota_bytes && trim.snaps.len() > 0 {
        SnapTask { stage: SnapStage::Weigh { trim } }
    } else {
        SnapTask { stage: SnapStage::Ended(SnapEnd::Finished) }
    }
}

/// What a listing of the session's files makes of the quota.
fn enforce_quota(quota_bytes: u64, listing: &Vec<DirEntry>) -> (task: SnapTask)
    ensures
        task@ == surveyed(quota_bytes as nat, crate::storage::entry_views(listing@)),
{
    match checked_total(listing) {
        None => SnapTask { stage: SnapStage::Ended(SnapEnd::Overflow) },
        Some(total) => {
            if total <= quota_bytes {
                SnapTask { stage: SnapStage::Ended(SnapEnd::Finished) }
            } else {
                let snaps: Vec<DirEntry> = oldest_first(listing);
                SnapTask { stage: SnapStage::FindMarker { trim: Trim { snaps, total } } }
            }
        },
    }
}

fn remove_oldest(trim: Trim, size: u64) -> (rest: Trim)
    requires
        trim@.snaps.len() > 0,
    ensures
        rest@ == without_oldest(trim@, size as nat),
{
    let mut snaps: Vec<DirEntry> = trim.snaps;
    let ghost before = snaps@;
    let _oldest: DirEntry = snaps.remove(0);
    let rest: Trim = Trim { snaps, total: trim.total.saturating_sub(size) };
    assert(rest@.snaps =~= crate::storage::entry_views(before).drop_first());
    rest
}

impl SessionWriter {
    /// Start writing `json_bytes` as the next snapshot.
    pub fn write_snap(&self, json_bytes: &[u8]) -> (task: SnapTask)
        ensures
            task@ == (SnapView::WriteTemp { data: json_bytes@ }),
    {
        let data: Vec<u8> = vstd::slice::slice_to_vec(json_bytes);
        SnapTask { stage: SnapStage::WriteTemp { data } }
    }

    /// The next request of a snapshot's task; none if it is at its end.
    pub fn snap_request(&self, task: &SnapTask) -> (request: Option<Request>)
        ensures
            crate::storage::asks(request, task@.op(self@)),
    {
        proof {
            use_type_invariant(task);
        }
        match &task.stage {
            SnapStage::WriteTemp { data } => {
                let copy: Vec<u8> = vstd::slice::slice_to_vec(data.as_slice());
                Some(Request::WriteSynced { path: self.file("snap.tmp"), data: copy })
            },
            SnapStage::Publish { .. } => {
                Some(
                    Request::Rename {
                        from: self.file("snap.tmp"),
                        to: self.snap_path(self.next_seq),
                    },
                )
            },
            SnapStage::Survey => Some(Request::ListDir { path: self.dir.clone() }),
            SnapStage::FindMarker { .. } => {
                Some(Request::Exists { path: self.file("_quota-trimmed") })
            },
            SnapStage::MakeMarker { .. } => {
                Some(Request::CreateFile { path: self.file("_quota-trimmed") })
            },
            SnapStage::Weigh { trim } => {
                assert(trim@.snaps[0] == trim.snaps@[0]@);
                Some(Request::Size { path: self.file(trim.snaps[0].name.as_str()) })
            },
            SnapStage::Remove { trim, .. } => {
                assert(trim@.snaps[0] == trim.snaps@[0]@);
                Some(Request::Remove { path: self.file(trim.snaps[0].name.as_str()) })
            },
            SnapStage::Ended(_) => None,
        }
    }

    /// Go on with a snapshot's task after `reply`. Any reply but the ones that a
    /// request can have counts as its failure.
    pub fn snap_step(&mut self, task: SnapTask, reply: Reply) -> (next: SnapTask)
        ensures
            next@ == task@.next(old(self)@, reply@),
            final(self)@ == task@.writer_next(old(self)@, reply@),
    {
        proof {
            use_type_invariant(&task);
        }
        match task.stage {
            SnapStage::WriteTemp { data } => match reply {
                Reply::Done => SnapTask { stage: SnapStage::Publish { data } },
                _ => SnapTask { stage: SnapStage::Ended(SnapEnd::Failed) },
            },
            SnapStage::Publish { .. } => match reply {
                Reply::Done => {
                    if self.next_seq == u64::MAX {
                        SnapTask { stage: SnapStage::Ended(SnapEnd::Overflow) }
                    } else {
                        self.next_seq = self.next_seq + 1;
                        if self.quota_bytes == 0 {
                            SnapTask { stage: SnapStage::Ended(SnapEnd::Finished) }
                        } else {
                            SnapTask { stage: SnapStage::Survey }
                        }
                    }
                },
                _ => SnapTask { stage: SnapStage::Ended(SnapEnd::Failed) },
            },
            SnapStage::Survey => match reply {
                Reply::Listing(listing) => enforce_quota(self.quota_bytes, &listing),
                _ => SnapTask { stage: SnapStage::Ended(SnapEnd::Failed) },
            },
            SnapStage::FindMarker { trim } => match reply {
                Reply::Present(true) => go_on_trimming(self.quota_bytes, trim),
                _ => SnapTask { stage: SnapStage::MakeMarker { trim } },
            },
            SnapStage::MakeMarker { trim } => match reply {
                Reply::Done => go_on_trimming(self.quota_bytes, trim),
                _ => SnapTask { stage: SnapStage::Ended(SnapEnd::Failed) },
            },
            SnapStage::Weigh { trim } => match reply {
                Reply::Size(size) => SnapTask { stage: SnapStage::Remove { trim, size } },
                _ => SnapTask { stage: SnapStage::Remove { trim, size: 0 } },
            },
            SnapStage::Remove { trim, size } => match reply {
                Reply::Done => go_on_trimming(self.quota_bytes, remove_oldest(trim, size)),
                _ => SnapTask { stage: SnapStage::Ended(SnapEnd::Failed) },
            },
            SnapStage::Ended(end) => SnapTask { stage: SnapStage::Ended(end) },
        }
    }

    fn file(&self, name: &str) -> (path: String)
        ensures
            path@ == self@.file(name@),
    {
        join(self.dir.as_str(), name)
    }

    /// The path of `snap-NNNNN.json` for `seq`.
    pub fn snap_path(&self, seq: u64) -> (path: String)
        ensures
            path@ == self@.snap(seq as nat),
    {
        self.file(snap_name(seq).as_str())
    }

    /// The number of snapshots written so far, counted from sequence number zero.
    pub fn snap_count(&self) -> (count: u64)
        ensures
            count as nat == self@.next_seq,
    {
        self.next_seq
    }

    /// The directory of the session.
    pub fn dir(&self) -> (dir: &str)
        ensures
            dir@ == self@.dir,
    {
        self.dir.as_str()
    }
}

/// How far the opening of a session's directory is.
pub enum OpenTask {
    /// Create the directory.
    MakeDir { dir: String, quota_bytes: u64 },
    /// List the directory, to find the next sequence number.
    Probe { dir: String, quota_bytes: u64 },
    /// The directory is there, and this is its writer.
    Opened(SessionWriter),
    /// The directory could not be created.
    Failed,
    /// The highest sequence number in use has none after it.
    Overflow,
}

#[verifier::ext_equal]
pub enum OpenView {
    MakeDir { dir: Seq<char>, quota_bytes: nat },
    Probe { dir: Seq<char>, quota_bytes: nat },
    Opened(WriterView),
    Failed,
    Overflow,
}

impl View for OpenTask {
    type V = OpenView;

    open spec fn view(&self) -> OpenView {
        match self {
            OpenTask::MakeDir { dir, quota_bytes } => OpenView::MakeDir {
                dir: dir@,
                quota_bytes: *quota_bytes as nat,
            },
            OpenTask::Probe { dir, quota_bytes } => OpenView::Probe {
                dir: dir@,
                quota_bytes: *quota_bytes as nat,
            },
            OpenTask::Opened(writer) => OpenView::Opened(writer@),
            OpenTask::Failed => OpenView::Failed,
            OpenTask::Overflow => OpenView::Overflow,
        }
    }
}

impl OpenView {
    /// The next thing to do.
    pub open spec fn op(self) -> Option<Op> {
        match self {
            OpenView::MakeDir { dir, quota_bytes } => Some(Op::CreateDirs { path: dir }),
            OpenView::Probe { dir, quota_bytes } => Some(Op::ListDir { path: dir }),
            _ => None,
        }
    }

    /// Where the task goes on after `answer`. A directory that cannot be listed
    /// counts as empty.
    pub open spec fn next(self, answer: Answer) -> OpenView {
        match self {
            OpenView::MakeDir { dir, quota_bytes } => if answer is Done {
                OpenView::Probe { dir, quota_bytes }
            } else {
                OpenView::Failed
            },
            OpenView::Probe { dir, quota_bytes } => match answer {
                Answer::Listing(entries) => if crate::listing::highest_seq(entries) == Some(
                    u64::MAX as nat,
                ) {
                    OpenView::Overflow
                } else {
                    OpenView::Opened(
                        WriterView {
                            dir,
                            next_seq: crate::listing::seq_after(entries),
                            quota_bytes,
                        },
                    )
                },
                _ => OpenView::Opened(WriterView { dir, next_seq: 0, quota_bytes }),
            },
            _ => self,
        }
    }
}

impl SessionWriter {
    /// Start opening the session's directory at `dir`, which is created if it is
    /// missing, and searched for the sequence number to go on with.
    pub fn open(dir: &str, quota_bytes: u64) -> (task: OpenTask)
        ensures
            task@ == (OpenView::MakeDir { dir: dir@, quota_bytes: quota_bytes as nat }),
    {
        OpenTask::MakeDir { dir: dir.to_owned(), quota_bytes }
    }
}

impl OpenTask {
    /// The next request; none if the task is at its end.
    pub fn request(&self) -> (request: Option<Request>)
        ensures
            crate::storage::asks(request, self@.op()),
    {
        match self {
            OpenTask::MakeDir { dir, .. } => Some(Request::CreateDirs { path: dir.clone() }),
            OpenTask::Probe { dir, .. } => Some(Request::ListDir { path: dir.clone() }),
            _ => None,
        }
    }

    /// Go on after `reply`.
    pub fn step(self, reply: Reply) -> (next: OpenTask)
        ensures
            next@ == self@.next(reply@),
    {
        match self {
            OpenTask::MakeDir { dir, quota_bytes } => match reply {
                Reply::Done => OpenTask::Probe { dir, quota_bytes },
                _ => OpenTask::Failed,
            },
            OpenTask::Probe { dir, quota_bytes } => {
                let listing: Option<Vec<DirEntry>> = match reply {
                    Reply::Listing(entries) => {
                        if let Some(seq) = last_seq(&entries) {
                            if seq == u64::MAX {
                                return OpenTask::Overflow;
                            }
                        }
                        Some(entries)
                    },
                    _ => None,
                };
                let next_seq: u64 = probe_next_seq(&listing);
                OpenTask::Opened(SessionWriter { dir, next_seq, quota_bytes })
            },
            OpenTask::Opened(writer) => OpenTask::Opened(writer),
            OpenTask::Failed => OpenTask::Failed,
            OpenTask::Overflow => OpenTask::Overflow,
        }
    }
}

/// How far the atomic write of one file is.
pub enum AtomicWrite {
    /// Write the bytes to the temporary file.
    WriteTemp { tmp: String, dst: String, data: Vec<u8> },
    /// Rename the temporary file to its destination.
    Publish { tmp: String, dst: String },
    Finished,
    /// A request failed; the work ended there.
    Failed,
}

#[verifier::ext_equal]
pub enum AtomicView {
    WriteTemp { tmp: Seq<char>, dst: Seq<char>, data: Seq<u8> },
    Publish { tmp: Seq<char>, dst: Seq<char> },
    Finished,
    Failed,
}

impl View for AtomicWrite {
    type V = AtomicView;

    open spec fn view(&self) -> AtomicView {
        match self {
            AtomicWrite::WriteTemp { tmp, dst, data } => AtomicView::WriteTemp {
                tmp: tmp@,
                dst: dst@,
                data: data@,
            },
            AtomicWrite::Publish { tmp, dst } => AtomicView::Publish { tmp: tmp@, dst: dst@ },
            AtomicWrite::Finished => AtomicView::Finished,
            AtomicWrite::Failed => AtomicView::Failed,
        }
    }
}

impl AtomicView {
    /// The next thing to do.
    pub open spec fn op(self) -> Option<Op> {
        match self {
            AtomicView::WriteTemp { tmp, dst, data } => Some(Op::WriteSynced { path: tmp, data }),
            AtomicView::Publish { tmp, dst } => Some(Op::Rename { from: tmp, to: dst }),
            _ => None,
        }
    }

    /// Where the task goes on after `answer`.
    pub open spec fn next(self, answer: Answer) -> AtomicView {
        match self {
            AtomicView::WriteTemp { tmp, dst, data } => if answer is Done {
                AtomicView::Publish { tmp, dst }
            } else {
                AtomicView::Failed
            },
            AtomicView::Publish { tmp, dst } => if answer is Done {
                AtomicView::Finished
            } else {
                AtomicView::Failed
            },
            _ => self,
        }
    }
}

impl AtomicWrite {
    /// The next request; none if the task is at its end.
    pub fn request(&self) -> (request: Option<Request>)
        ensures
            crate::storage::asks(request, self@.op()),
    {
        match self {
            AtomicWrite::WriteTemp { tmp, data, .. } => {
                let copy: Vec<u8> = vstd::slice::slice_to_vec(data.as_slice());
                Some(Request::WriteSynced { path: tmp.clone(), data: copy })
            },
            AtomicWrite::Publish { tmp, dst } => {
                Some(Request::Rename { from: tmp.clone(), to: dst.clone() })
            },
            _ => None,
        }
    }

    /// Go on after `reply`.
    pub fn step(self, reply: Reply) -> (next: AtomicWrite)
        ensures
            next@ == self@.next(reply@),
    {
        match self {
            AtomicWrite::WriteTemp { tmp, dst, .. } => match reply {
                Reply::Done => AtomicWrite::Publish { tmp, dst },
                _ => AtomicWrite::Failed,
            },
            AtomicWrite::Publish { .. } => match reply {
                Reply::Done => AtomicWrite::Finished,
                _ => AtomicWrite::Failed,
            },
            AtomicWrite::Finished => AtomicWrite::Finished,
            AtomicWrite::Failed => AtomicWrite::Failed,
        }
    }
}

/// Start writing `data` to `dst`, by way of `tmp`.
fn atomic_write(tmp: String, dst: String, data: Vec<u8>) -> (task: AtomicWrite)
    ensures
        task@ == (AtomicView::WriteTemp { tmp: tmp@, dst: dst@, data: data@ }),
{
    AtomicWrite::WriteTemp { tmp, dst, data }
}

/// `_overrun-NNNNN.json`: the ring's sequence number in at least five digits.
pub open spec fn overrun_name_of(seq: nat) -> Seq<char> {
    "_overrun-"@ + crate::number::decimal_padded(seq, 5) + ".json"@
}

/// What the sentinel of an overrun holds.
pub open spec fn overrun_payload_of(seq: nat) -> Seq<char> {
    "{\"overrun\":true,\"ring_seq_at_overrun\":"@ + crate::number::decimal(seq) + "}\n"@
}

impl SessionWriter {
    /// Start writing the sentinel of a ring overrun.
    pub fn write_overrun(&self, seq_at_overrun: u64) -> (task: AtomicWrite)
        ensures
            task@ == (AtomicView::WriteTemp {
                tmp: self@.file("overrun.tmp"@),
                dst: self@.file(overrun_name_of(seq_at_overrun as nat)),
                data: vstd::utf8::encode_utf8(overrun_payload_of(seq_at_overrun as nat)),
            }),
    {
        let mut name: String = String::from_str("_overrun-");
        append_decimal_padded(&mut name, seq_at_overrun, 5);
        name.append(".json");
        let mut payload: String = String::from_str(
            "{\"overrun\":true,\"ring_seq_at_overrun\":",
        );
        append_decimal(&mut payload, seq_at_overrun);
        payload.append("}\n");
        atomic_write(
            self.file("overrun.tmp"),
            self.file(name.as_str()),
            payload.as_str().as_bytes_vec(),
        )
    }
}

/// How far the writing of a new session's files about itself is.
pub enum MetaTask {
    /// See whether the tag is there.
    FindTag { dir: String, session_id: String },
    /// Write the tag.
    WriteTag { dir: String, session_id: String },
    /// See whether the time is there.
    FindTime { dir: String },
    /// Ask for the time.
    AskTime { dir: String },
    /// Write the time.
    WriteTime { dir: String, seconds: u64 },
    Finished,
    /// A request failed; the work ended there.
    Failed,
}

#[verifier::ext_equal]
pub enum MetaView {
    FindTag { dir: Seq<char>, session_id: Seq<char> },
    WriteTag { dir: Seq<char>, session_id: Seq<char> },
    FindTime { dir: Seq<char> },
    AskTime { dir: Seq<char> },
    WriteTime { dir: Seq<char>, seconds: nat },
    Finished,
    Failed,
}

impl View for MetaTask {
    type V = MetaView;

    open spec fn view(&self) -> MetaView {
        match self {
            MetaTask::FindTag { dir, session_id } => MetaView::FindTag {
                dir: dir@,
                session_id: session_id@,
            },
            MetaTask::WriteTag { dir, session_id } => MetaView::WriteTag {
                dir: dir@,
                session_id: session_id@,
            },
            MetaTask::FindTime { dir } => MetaView::FindTime { dir: dir@ },
            MetaTask::AskTime { dir } => MetaView::AskTime { dir: dir@ },
            MetaTask::WriteTime { dir, seconds } => MetaView::WriteTime {
                dir: dir@,
                seconds: *seconds as nat,
            },
            MetaTask::Finished => MetaView::Finished,
            MetaTask::Failed => MetaView::Failed,
        }
    }
}

impl MetaView {
    /// The directory of the session, until the task is at its end.
    pub open spec fn dir(self) -> Option<Seq<char>> {
        match self {
            MetaView::FindTag { dir, session_id } => Some(dir),
            MetaView::WriteTag { dir, session_id } => Some(dir),
            MetaView::FindTime { dir } => Some(dir),
            MetaView::AskTime { dir } => Some(dir),
            MetaView::WriteTime { dir, seconds } => Some(dir),
            _ => None,
        }
    }

    /// The next thing to do.
    pub open spec fn op(self) -> Option<Op> {
        match self {
            MetaView::FindTag { dir, session_id } => Some(
                Op::Exists { path: crate::path::joined(dir, "intent_tag"@) },
            ),
            MetaView::WriteTag { dir, session_id } => Some(
                Op::Write {
                    path: crate::path::joined(dir, "intent_tag"@),
                    data: vstd::utf8::encode_utf8(session_id),
                },
            ),
            MetaView::FindTime { dir } => Some(
                Op::Exists { path: crate::path::joined(dir, "opened_at"@) },
            ),
            MetaView::AskTime { dir } => Some(Op::Clock),
            MetaView::WriteTime { dir, seconds } => Some(
                Op::Write {
                    path: crate::path::joined(dir, "opened_at"@),
                    data: vstd::utf8::encode_utf8(crate::number::decimal(seconds) + "\n"@),
                },
            ),
            _ => None,
        }
    }

    /// Where the task goes on after `answer`. A file that is there is left as it
    /// is; without a clock the time is zero.
    pub open spec fn next(self, answer: Answer) -> MetaView {
        match self {
            MetaView::FindTag { dir, session_id } => if answer == Answer::Present(true) {
                MetaView::FindTime { dir }
            } else {
                MetaView::WriteTag { dir, session_id }
            },
            MetaView::WriteTag { dir, session_id } => if answer is Done {
                MetaView::FindTime { dir }
            } else {
                MetaView::Failed
            },
            MetaView::FindTime { dir } => if answer == Answer::Present(true) {
                MetaView::Finished
            } else {
                MetaView::AskTime { dir }
            },
            MetaView::AskTime { dir } => MetaView::WriteTime {
                dir,
                seconds: match answer {
                    Answer::Seconds(seconds) => seconds as nat,
                    _ => 0,
                },
            },
            MetaView::WriteTime { dir, seconds } => if answer is Done {
                MetaView::Finished
            } else {
                MetaView::Failed
            },
            _ => self,
        }
    }
}

/// Start writing `intent_tag` and `opened_at` for a session, where they are
/// missing.
pub fn write_session_meta(dir: &str, session_id: &str) -> (task: MetaTask)
    ensures
        task@ == (MetaView::FindTag { dir: dir@, session_id: session_id@ }),
{
    MetaTask::FindTag { dir: dir.to_owned(), session_id: session_id.to_owned() }
}

impl MetaTask {
    /// The next request; none if the task is at its end.
    pub fn request(&self) -> (request: Option<Request>)
        ensures
            crate::storage::asks(request, self@.op()),
    {
        match self {
            MetaTask::FindTag { dir, .. } => {
                Some(Request::Exists { path: join(dir.as_str(), "intent_tag") })
            },
            MetaTask::WriteTag { dir, session_id } => {
                Some(
                    Request::Write {
                        path: join(dir.as_str(), "intent_tag"),
                        data: session_id.as_str().as_bytes_vec(),
                    },
                )
            },
            MetaTask::FindTime { dir } => {
                Some(Request::Exists { path: join(dir.as_str(), "opened_at") })
            },
            MetaTask::AskTime { .. } => Some(Request::Clock),
            MetaTask::WriteTime { dir, seconds } => {
                let mut text: String = decimal_string(*seconds);
                text.append("\n");
                Some(
                    Request::Write {
                        path: join(dir.as_str(), "opened_at"),
                        data: text.as_str().as_bytes_vec(),
                    },
                )
            },
            _ => None,
        }
    }

    /// Go on after `reply`.
    pub fn step(self, reply: Reply) -> (next: MetaTask)
        ensures
            next@ == self@.next(reply@),
    {
        match self {
            MetaTask::FindTag { dir, session_id } => match reply {
                Reply::Present(true) => MetaTask::FindTime { dir },
                _ => MetaTask::WriteTag { dir, session_id },
            },
            MetaTask::WriteTag { dir, .. } => match reply {
                Reply::Done => MetaTask::FindTime { dir },
                _ => MetaTask::Failed,
            },
            MetaTask::FindTime { dir } => match reply {
                Reply::Present(true) => MetaTask::Finished,
                _ => MetaTask::AskTime { dir },
            },
            MetaTask::AskTime { dir } => match reply {
                Reply::Seconds(seconds) => MetaTask::WriteTime { dir, seconds },
                _ => MetaTask::WriteTime { dir, seconds: 0 },
            },
            MetaTask::WriteTime { .. } => match reply {
                Reply::Done => MetaTask::Finished,
                _ => MetaTask::Failed,
            },
            MetaTask::Finished => MetaTask::Finished,
            MetaTask::Failed => MetaTask::Failed,
        }
    }
}

} // verus!
