//! The daemon: drains the device into per-session snapshots.
//!
//! It takes the single-instance lock, reads the device, and writes one snapshot
//! for each record into the directory of the record's session, which it opens
//! the first time that it meets the session.

use vstd::prelude::*;
use vstd::string::*;

use crate::lock::lock_path;
use crate::number::append_decimal;
use crate::path::join;
use crate::persistence::{
    write_session_meta, MetaTask, MetaView, OpenTask, OpenView, SessionWriter, SnapEnd, SnapTask,
    SnapView, WriterView,
};
use crate::quote::quoted_path;
use crate::record::{parse_records, Record, RecordView};
use crate::session::{agent_session_path, derive_session_id, is_unnamed};
use crate::storage::{Answer, LockOutcome, Op, Reply, Request};
use crate::text::same_text;

verus! {

broadcast use vstd::string::group_string_axioms;

/// How the daemon came to its end.
#[derive(Clone, Copy, Debug, PartialEq, Eq, Structural)]
pub enum Exit {
    /// Every record has its snapshot.
    Drained,
    /// Another instance holds the lock.
    AlreadyRunning,
    /// A request failed.
    Failed,
    /// The directory of a session could not be opened.
    OpenFailed,
    /// A count went past what 64 bits hold.
    Overflow,
}

/// A session that the daemon has opened.
pub struct Session {
    pub id: String,
    pub writer: SessionWriter,
}

pub struct SessionView {
    pub id: Seq<char>,
    pub writer: WriterView,
}

impl View for Session {
    type V = SessionView;

    open spec fn view(&self) -> SessionView {
        SessionView { id: self.id@, writer: self.writer@ }
    }
}

/// What the daemon is at.
#[allow(inconsistent_fields)]
pub enum Phase {
    /// Create the output directory.
    MakeOut,
    /// Take the lock.
    TakeLock,
    /// Tell that another instance is running.
    TellBusy,
    /// Tell that the daemon starts.
    TellStart,
    /// Read the device.
    ReadDevice,
    /// Read which session the process of the record states.
    AskProcess,
    /// Open the directory of a session that is new.
    Open { id: String, task: OpenTask },
    /// Write the new session's files about itself.
    Describe { task: MetaTask },
    /// Write the record's snapshot in the session `slot`.
    Save { slot: usize, task: SnapTask },
    /// Tell that the snapshot in the session `slot` is written.
    TellSaved { slot: usize },
    /// Tell that the device is drained.
    TellDrained,
    /// Nothing is left to do.
    Ended(Exit),
}

#[allow(inconsistent_fields)]
#[verifier::ext_equal]
pub enum PhaseView {
    MakeOut,
    TakeLock,
    TellBusy,
    TellStart,
    ReadDevice,
    AskProcess,
    Open { id: Seq<char>, task: OpenView },
    Describe { task: MetaView },
    Save { slot: int, task: SnapView },
    TellSaved { slot: int },
    TellDrained,
    Ended(Exit),
}

impl View for Phase {
    type V = PhaseView;

    open spec fn view(&self) -> PhaseView {
        match self {
            Phase::MakeOut => PhaseView::MakeOut,
            Phase::TakeLock => PhaseView::TakeLock,
            Phase::TellBusy => PhaseView::TellBusy,
            Phase::TellStart => PhaseView::TellStart,
            Phase::ReadDevice => PhaseView::ReadDevice,
            Phase::AskProcess => PhaseView::AskProcess,
            Phase::Open { id, task } => PhaseView::Open { id: id@, task: task@ },
            Phase::Describe { task } => PhaseView::Describe { task: task@ },
            Phase::Save { slot, task } => PhaseView::Save { slot: *slot as int, task: task@ },
            Phase::TellSaved { slot } => PhaseView::TellSaved { slot: *slot as int },
            Phase::TellDrained => PhaseView::TellDrained,
            Phase::Ended(exit) => PhaseView::Ended(*exit),
        }
    }
}

/// The daemon at work.
pub struct Daemon {
    out: String,
    device: String,
    quota: u64,
    records: Vec<Record>,
    pos: usize,
    sessions: Vec<Session>,
    phase: Phase,
}

pub struct DaemonView {
    pub out: Seq<char>,
    pub device: Seq<char>,
    pub quota: nat,
    /// What the device held.
    pub records: Seq<RecordView>,
    /// How many of the records are dealt with.
    pub pos: int,
    /// The sessions that are open, in the order in which they were met.
    pub sessions: Seq<SessionView>,
    pub phase: PhaseView,
}

/// The views of a run of sessions.
pub open spec fn session_views(sessions: Seq<Session>) -> Seq<SessionView> {
    sessions.map_values(|s: Session| s@)
}

impl View for Daemon {
    type V = DaemonView;

    closed spec fn view(&self) -> DaemonView {
        DaemonView {
            out: self.out@,
            device: self.device@,
            quota: self.quota as nat,
            records: crate::record::record_views(self.records@),
            pos: self.pos as int,
            sessions: session_views(self.sessions@),
            phase: self.phase@,
        }
    }
}

/// What is told at the start, given the path of the output directory in quotes.
pub open spec fn start_text(device: Seq<char>, quoted_out: Seq<char>) -> Seq<char> {
    "memlog-witness: starting daemon, device="@ + device + ", out="@ + quoted_out
}

/// What is told at the start, given the path of the output directory in quotes.
pub fn start_line(device: &str, quoted_out: &str) -> (line: String)
    ensures
        line@ == start_text(device@, quoted_out@),
{
    let mut line: String = String::from_str("memlog-witness: starting daemon, device=");
    line.append(device);
    line.append(", out=");
    line.append(quoted_out);
    line
}

/// The line that a snapshot holds about its record.
pub open spec fn line_of(record: RecordView) -> Seq<char> {
    "{\"seq\":"@ + crate::number::decimal(record.header.seq) + ",\"ts_ns\":"@
        + crate::number::decimal(record.header.ts_ns) + ",\"uid\":"@ + crate::number::decimal(
        record.header.uid,
    ) + ",\"pid\":"@ + crate::number::decimal(record.header.pid) + ",\"blob_len\":"@
        + crate::number::decimal(record.blob.len()) + "}"@
}

/// The line that a snapshot holds about its record.
pub fn snap_line(record: &Record) -> (line: String)
    ensures
        line@ == line_of(record@),
{
    let mut line: String = String::from_str("{\"seq\":");
    append_decimal(&mut line, record.header.seq);
    line.append(",\"ts_ns\":");
    append_decimal(&mut line, record.header.ts_ns);
    line.append(",\"uid\":");
    append_decimal(&mut line, record.header.uid as u64);
    line.append(",\"pid\":");
    append_decimal(&mut line, record.header.pid as u64);
    line.append(",\"blob_len\":");
    append_decimal(&mut line, record.blob.len() as u64);
    line.append("}");
    line
}

/// The bytes of a record's snapshot.
pub open spec fn snapshot_of(record: RecordView) -> Seq<u8> {
    vstd::utf8::encode_utf8(line_of(record))
}

/// The place of the session `id`; the number of sessions if it is not open.
pub open spec fn slot_of(sessions: Seq<SessionView>, id: Seq<char>) -> int
    decreases sessions.len(),
{
    if sessions.len() == 0 || sessions[0].id == id {
        0
    } else {
        1 + slot_of(sessions.drop_first(), id)
    }
}

/// `id` is the session of `record`, for something that its process may state.
pub open spec fn belongs(record: RecordView, id: Seq<char>) -> bool {
    exists|stated: Option<Seq<char>>|
        id == #[trigger] crate::session::session_of(
            record.header.session_id,
            record.header.pid,
            stated,
        )
}

impl DaemonView {
    /// The daemon before it has done anything.
    pub open spec fn start(out: Seq<char>, device: Seq<char>, quota: nat) -> DaemonView {
        DaemonView {
            out,
            device,
            quota,
            records: seq![],
            pos: 0,
            sessions: seq![],
            phase: PhaseView::MakeOut,
        }
    }

    /// The same daemon in another phase.
    pub open spec fn at(self, phase: PhaseView) -> DaemonView {
        DaemonView { phase, ..self }
    }

    /// The record at hand.
    pub open spec fn record(self) -> RecordView {
        self.records[self.pos]
    }

    /// On to the record at hand, if one is left.
    pub open spec fn take_record(self) -> DaemonView {
        if self.pos >= self.records.len() {
            self.at(PhaseView::TellDrained)
        } else if crate::session::unnamed(self.record().header.session_id) {
            self.at(PhaseView::AskProcess)
        } else {
            self.enter(crate::session::named_session(self.record().header.session_id))
        }
    }

    /// On to the snapshot of the record at hand, in the session `slot`.
    pub open spec fn save(self, slot: int) -> DaemonView {
        self.at(
            PhaseView::Save {
                slot,
                task: SnapView::WriteTemp { data: snapshot_of(self.record()) },
            },
        )
    }

    /// The record at hand is of the session `id`, which is opened if it is new.
    pub open spec fn enter(self, id: Seq<char>) -> DaemonView {
        let slot = slot_of(self.sessions, id);
        if slot < self.sessions.len() {
            self.save(slot)
        } else {
            self.at(
                PhaseView::Open {
                    id,
                    task: OpenView::MakeDir {
                        dir: crate::path::joined(self.out, id),
                        quota_bytes: self.quota,
                    },
                },
            )
        }
    }

    /// The next thing to do.
    pub open spec fn op(self) -> Option<Op> {
        match self.phase {
            PhaseView::MakeOut => Some(Op::CreateDirs { path: self.out }),
            PhaseView::TakeLock => Some(Op::Lock { path: crate::lock::lock_path_of(self.out) }),
            PhaseView::TellBusy => Some(
                Op::Tell {
                    text: "memlog-witness: already running (lock held by another process)"@,
                },
            ),
            PhaseView::TellStart => Some(
                Op::Tell {
                    text: start_text(self.device, crate::quote::path_debug_text(self.out)),
                },
            ),
            PhaseView::ReadDevice => Some(Op::ReadBytes { path: self.device }),
            PhaseView::AskProcess => Some(
                Op::ReadText {
                    path: crate::session::agent_session_path_of(self.record().header.pid),
                },
            ),
            PhaseView::Open { id, task } => task.op(),
            PhaseView::Describe { task } => task.op(),
            PhaseView::Save { slot, task } => task.op(self.sessions[slot].writer),
            PhaseView::TellSaved { slot } => Some(
                Op::Tell {
                    text: "memlog-witness: wrote snap for session="@ + self.sessions[slot].id
                        + " seq="@ + crate::number::decimal(self.record().header.seq),
                },
            ),
            PhaseView::TellDrained => Some(
                Op::Tell { text: "memlog-witness: device drained (EOF)"@ },
            ),
            PhaseView::Ended(exit) => None,
        }
    }

    /// The daemon after `answer`.
    pub open spec fn next(self, answer: Answer) -> DaemonView {
        match self.phase {
            PhaseView::MakeOut => if answer is Done {
                self.at(PhaseView::TakeLock)
            } else {
                self.at(PhaseView::Ended(Exit::Failed))
            },
            PhaseView::TakeLock => match answer {
                Answer::Lock(LockOutcome::Acquired) => self.at(PhaseView::TellStart),
                Answer::Lock(LockOutcome::Busy) => self.at(PhaseView::TellBusy),
                _ => self.at(PhaseView::Ended(Exit::Failed)),
            },
            PhaseView::TellBusy => self.at(PhaseView::Ended(Exit::AlreadyRunning)),
            PhaseView::TellStart => self.at(PhaseView::ReadDevice),
            PhaseView::ReadDevice => match answer {
                Answer::Bytes(bytes) => (DaemonView {
                    records: crate::record::decode(bytes),
                    pos: 0,
                    ..self
                }).take_record(),
                _ => self.at(PhaseView::Ended(Exit::Failed)),
            },
            PhaseView::AskProcess => self.enter(
                crate::session::process_session(
                    match answer {
                        Answer::Text(text) => Some(text),
                        _ => None,
                    },
                    self.record().header.pid,
                ),
            ),
            PhaseView::Open { id, task } => match task.next(answer) {
                OpenView::Opened(writer) => (DaemonView {
                    sessions: self.sessions.push(SessionView { id, writer }),
                    ..self
                }).at(
                    PhaseView::Describe {
                        task: MetaView::FindTag {
                            dir: crate::path::joined(self.out, id),
                            session_id: id,
                        },
                    },
                ),
                OpenView::Failed => self.at(PhaseView::Ended(Exit::OpenFailed)),
                OpenView::Overflow => self.at(PhaseView::Ended(Exit::Overflow)),
                more => self.at(PhaseView::Open { id, task: more }),
            },
            PhaseView::Describe { task } => match task.next(answer) {
                MetaView::Finished => self.save(self.sessions.len() - 1),
                MetaView::Failed => self.save(self.sessions.len() - 1),
                more => self.at(PhaseView::Describe { task: more }),
            },
            PhaseView::Save { slot, task } => {
                let writer = self.sessions[slot].writer;
                let session = SessionView {
                    id: self.sessions[slot].id,
                    writer: task.writer_next(writer, answer),
                };
                let counted = DaemonView { sessions: self.sessions.update(slot, session), ..self };
                match task.next(writer, answer) {
                    SnapView::Finished => counted.at(PhaseView::TellSaved { slot }),
                    SnapView::Failed => counted.at(PhaseView::Ended(Exit::Failed)),
                    SnapView::Overflow => counted.at(PhaseView::Ended(Exit::Overflow)),
                    more => counted.at(PhaseView::Save { slot, task: more }),
                }
            },
            PhaseView::TellSaved { slot } => (DaemonView {
                pos: self.pos + 1,
                ..self
            }).take_record(),
            PhaseView::TellDrained => self.at(PhaseView::Ended(Exit::Drained)),
            PhaseView::Ended(exit) => self,
        }
    }

    /// A record is at hand.
    pub open spec fn has_record(self) -> bool {
        0 <= self.pos < self.records.len()
    }

    /// The record at hand belongs to the session `slot`.
    pub open spec fn routed(self, slot: int) -> bool {
        &&& self.has_record()
        &&& 0 <= slot < self.sessions.len()
        &&& belongs(self.record(), self.sessions[slot].id)
    }

    /// No session is open twice, and each writes into the directory of its name
    /// under the output directory, within the daemon's quota.
    pub open spec fn sessions_sound(self) -> bool {
        &&& forall|i: int, j: int|
            0 <= i < j < self.sessions.len() ==> (#[trigger] self.sessions[i]).id != (
            #[trigger] self.sessions[j]).id
        &&& forall|i: int|
            0 <= i < self.sessions.len() ==> {
                &&& (#[trigger] self.sessions[i]).writer.dir == crate::path::joined(
                    self.out,
                    self.sessions[i].id,
                )
                &&& self.sessions[i].writer.quota_bytes == self.quota
            }
    }

    /// What always holds of the daemon: its sessions are sound, the snapshot at
    /// work is that of the record at hand, in the session that it belongs to, and
    /// the daemon has drained the device only when no record is left.
    pub open spec fn sound(self) -> bool {
        &&& 0 <= self.pos <= self.records.len()
        &&& self.sessions_sound()
        &&& match self.phase {
            PhaseView::AskProcess => {
                &&& self.has_record()
                &&& crate::session::unnamed(self.record().header.session_id)
            },
            PhaseView::Open { id, task } => {
                &&& self.has_record()
                &&& belongs(self.record(), id)
                &&& slot_of(self.sessions, id) == self.sessions.len()
                &&& match task {
                    OpenView::MakeDir { dir, quota_bytes } => {
                        dir == crate::path::joined(self.out, id) && quota_bytes == self.quota
                    },
                    OpenView::Probe { dir, quota_bytes } => {
                        dir == crate::path::joined(self.out, id) && quota_bytes == self.quota
                    },
                    _ => false,
                }
            },
            PhaseView::Describe { task } => {
                &&& self.routed(self.sessions.len() - 1)
                &&& task.dir() == Some(self.sessions.last().writer.dir)
            },
            PhaseView::Save { slot, task } => {
                &&& self.routed(slot)
                &&& !task.ended()
                &&& match task {
                    SnapView::WriteTemp { data } => data == snapshot_of(self.record()),
                    SnapView::Publish { data } => data == snapshot_of(self.record()),
                    _ => true,
                }
            },
            PhaseView::TellSaved { slot } => self.routed(slot),
            PhaseView::TellDrained => self.pos == self.records.len(),
            PhaseView::Ended(exit) => exit is Drained ==> self.pos == self.records.len(),
            _ => self.sessions.len() == 0 && self.records.len() == 0,
        }
    }
}

/// The place of a session is the first that bears its name.
pub proof fn lemma_slot(sessions: Seq<SessionView>, id: Seq<char>)
    ensures
        0 <= slot_of(sessions, id) <= sessions.len(),
        forall|j: int| 0 <= j < slot_of(sessions, id) ==> (#[trigger] sessions[j]).id != id,
        slot_of(sessions, id) < sessions.len() ==> sessions[slot_of(sessions, id)].id == id,
    decreases sessions.len(),
{
    if sessions.len() > 0 && sessions[0].id != id {
        let rest = sessions.drop_first();
        lemma_slot(rest, id);
        assert forall|j: int| 0 <= j < slot_of(sessions, id) implies (
        #[trigger] sessions[j]).id != id by {
            if j > 0 {
                assert(sessions[j] == rest[j - 1]);
            }
        }
    }
}

proof fn lemma_enter(d: DaemonView, id: Seq<char>)
    requires
        d.has_record(),
        d.sessions_sound(),
        belongs(d.record(), id),
    ensures
        d.enter(id).sound(),
{
    lemma_slot(d.sessions, id);
    let e = d.enter(id);
    assert(e.sessions_sound());
    assert(e.record() == d.record());
}

proof fn lemma_take_record(d: DaemonView)
    requires
        0 <= d.pos <= d.records.len(),
        d.sessions_sound(),
    ensures
        d.take_record().sound(),
{
    if d.pos < d.records.len() {
        let header = d.record().header;
        if crate::session::unnamed(header.session_id) {
            assert(d.take_record().sessions_sound());
        } else {
            let id = crate::session::named_session(header.session_id);
            assert(id == crate::session::session_of(header.session_id, header.pid, None));
            lemma_enter(d, id);
        }
    } else {
        assert(d.take_record().sessions_sound());
    }
}

/// The daemon starts sound.
pub proof fn daemon_starts_sound(out: Seq<char>, device: Seq<char>, quota: nat)
    ensures
        DaemonView::start(out, device, quota).sound(),
{
}

/// The daemon stays sound, whatever comes of its requests.
pub proof fn daemon_stays_sound(d: DaemonView, answer: Answer)
    requires
        d.sound(),
    ensures
        d.next(answer).sound(),
{
    let e = d.next(answer);
    match d.phase {
        PhaseView::ReadDevice => {
            if let Answer::Bytes(bytes) = answer {
                lemma_take_record(
                    DaemonView { records: crate::record::decode(bytes), pos: 0, ..d },
                );
            }
        },
        PhaseView::AskProcess => {
            let stated = match answer {
                Answer::Text(text) => Some(text),
                _ => None,
            };
            let header = d.record().header;
            let id = crate::session::process_session(stated, header.pid);
            assert(id == crate::session::session_of(header.session_id, header.pid, stated));
            lemma_enter(d, id);
        },
        PhaseView::Open { id, task } => {
            lemma_slot(d.sessions, id);
            assert(e.record() == d.record());
            assert(e.sessions_sound());
        },
        PhaseView::Describe { task } => {
            assert(e.record() == d.record());
            assert(e.sessions_sound());
        },
        PhaseView::Save { slot, task } => {
            assert(e.record() == d.record());
            assert(e.sessions_sound());
        },
        PhaseView::TellSaved { slot } => {
            lemma_take_record(DaemonView { pos: d.pos + 1, ..d });
        },
        _ => {},
    }
}

/// Start draining `device` into snapshots under `out`.
pub fn run_daemon(out: &str, device: &str, quota: u64) -> (daemon: Daemon)
    ensures
        daemon@ == DaemonView::start(out@, device@, quota as nat),
        daemon@.sound(),
{
    let daemon: Daemon = Daemon {
        out: out.to_owned(),
        device: device.to_owned(),
        quota,
        records: Vec::new(),
        pos: 0,
        sessions: Vec::new(),
        phase: Phase::MakeOut,
    };
    proof {
        assert(daemon@.records =~= Seq::<RecordView>::empty());
        assert(daemon@.sessions =~= Seq::<SessionView>::empty());
    }
    daemon
}

fn find_session(sessions: &Vec<Session>, id: &str) -> (slot: usize)
    ensures
        slot as int == slot_of(session_views(sessions@), id@),
        slot <= sessions@.len(),
{
    let ghost all = session_views(sessions@);
    let mut i: usize = 0;
    assert(all.skip(0) =~= all);
    while i < sessions.len()
        invariant
            i <= sessions@.len(),
            all == session_views(sessions@),
            slot_of(all, id@) == i + slot_of(all.skip(i as int), id@),
        decreases sessions@.len() - i,
    {
        proof {
            assert(all.skip(i as int)[0] == sessions@[i as int]@);
            assert(all.skip(i as int).drop_first() =~= all.skip(i + 1));
        }
        if same_text(sessions[i].id.as_str(), id) {
            return i;
        }
        i = i + 1;
    }
    i
}

impl Daemon {
    /// How the daemon came to its end, if it has.
    pub fn exit(&self) -> (exit: Option<Exit>)
        ensures
            exit == (match self@.phase {
                PhaseView::Ended(exit) => Some(exit),
                _ => None,
            }),
    {
        match self.phase {
            Phase::Ended(exit) => Some(exit),
            _ => None,
        }
    }

    /// The next request; none if the daemon has come to its end.
    pub fn request(&self) -> (request: Option<Request>)
        requires
            self@.sound(),
        ensures
            crate::storage::asks(request, self@.op()),
            request is None <==> self@.phase is Ended,
    {
        match &self.phase {
            Phase::MakeOut => Some(Request::CreateDirs { path: self.out.clone() }),
            Phase::TakeLock => Some(Request::Lock { path: lock_path(self.out.as_str()) }),
            Phase::TellBusy => {
                let text: String =
                    "memlog-witness: already running (lock held by another process)".to_owned();
                Some(Request::Tell { text })
            },
            Phase::TellStart => {
                let out: String = quoted_path(self.out.as_str());
                Some(Request::Tell { text: start_line(self.device.as_str(), out.as_str()) })
            },
            Phase::ReadDevice => Some(Request::ReadBytes { path: self.device.clone() }),
            Phase::AskProcess => {
                Some(Request::ReadText { path: agent_session_path(self.records[self.pos].header.pid) })
            },
            Phase::Open { task, .. } => task.request(),
            Phase::Describe { task } => task.request(),
            Phase::Save { slot, task } => {
                assert(self@.sessions[*slot as int] == self.sessions@[*slot as int]@);
                self.sessions[*slot].writer.snap_request(task)
            },
            Phase::TellSaved { slot } => {
                assert(self@.sessions[*slot as int] == self.sessions@[*slot as int]@);
                let mut text: String = String::from_str("memlog-witness: wrote snap for session=");
                text.append(self.sessions[*slot].id.as_str());
                text.append(" seq=");
                append_decimal(&mut text, self.records[self.pos].header.seq);
                Some(Request::Tell { text })
            },
            Phase::TellDrained => {
                Some(Request::Tell { text: "memlog-witness: device drained (EOF)".to_owned() })
            },
            Phase::Ended(_) => None,
        }
    }

    fn take_record(self) -> (next: Daemon)
        ensures
            next@ == self@.take_record(),
    {
        let mut next: Daemon = self;
        if next.pos >= next.records.len() {
            next.phase = Phase::TellDrained;
            return next;
        }
        let header = next.records[next.pos].header;
        if is_unnamed(&header.session_id) {
            next.phase = Phase::AskProcess;
            return next;
        }
        let id: String = derive_session_id(&header.session_id, header.pid, None);
        next.enter(id)
    }

    fn enter(self, id: String) -> (next: Daemon)
        requires
            self@.has_record(),
        ensures
            next@ == self@.enter(id@),
    {
        let slot: usize = find_session(&self.sessions, id.as_str());
        if slot < self.sessions.len() {
            return self.save(slot);
        }
        let mut next: Daemon = self;
        let dir: String = join(next.out.as_str(), id.as_str());
        next.phase = Phase::Open { id, task: SessionWriter::open(dir.as_str(), next.quota) };
        next
    }

    fn save(self, slot: usize) -> (next: Daemon)
        requires
            self@.has_record(),
            slot < self@.sessions.len(),
        ensures
            next@ == self@.save(slot as int),
    {
        let mut next: Daemon = self;
        let line: String = snap_line(&next.records[next.pos]);
        let task: SnapTask = next.sessions[slot].writer.write_snap(line.as_str().as_bytes());
        next.phase = Phase::Save { slot, task };
        next
    }

    /// Go on after `reply`. Any reply but the ones that a request can have counts
    /// as its failure.
    pub fn step(self, reply: Reply) -> (next: Daemon)
        requires
            self@.sound(),
        ensures
            next@ == self@.next(reply@),
            next@.sound(),
    {
        proof {
            daemon_stays_sound(self@, reply@);
        }
        let ghost before = self@;
        let Daemon { out, device, quota, records, pos, sessions, phase } = self;
        let mut next: Daemon = Daemon {
            out,
            device,
            quota,
            records,
            pos,
            sessions,
            phase: Phase::MakeOut,
        };
        match phase {
            Phase::MakeOut => {
                next.phase = match reply {
                    Reply::Done => Phase::TakeLock,
                    _ => Phase::Ended(Exit::Failed),
                };
                next
            },
            Phase::TakeLock => {
                next.phase = match reply {
                    Reply::Lock(LockOutcome::Acquired) => Phase::TellStart,
                    Reply::Lock(LockOutcome::Busy) => Phase::TellBusy,
                    _ => Phase::Ended(Exit::Failed),
                };
                next
            },
            Phase::TellBusy => {
                next.phase = Phase::Ended(Exit::AlreadyRunning);
                next
            },
            Phase::TellStart => {
                next.phase = Phase::ReadDevice;
                next
            },
            Phase::ReadDevice => match reply {
                Reply::Bytes(bytes) => {
                    next.records = parse_records(bytes.as_slice());
                    next.pos = 0;
                    next.phase = Phase::ReadDevice;
                    next.take_record()
                },
                _ => {
                    next.phase = Phase::Ended(Exit::Failed);
                    next
                },
            },
            Phase::AskProcess => {
                next.phase = Phase::AskProcess;
                let header = next.records[next.pos].header;
                let id: String = match reply {
                    Reply::Text(text) => derive_session_id(
                        &header.session_id,
                        header.pid,
                        Some(text.as_str()),
                    ),
                    _ => derive_session_id(&header.session_id, header.pid, None),
                };
                next.enter(id)
            },
            Phase::Open { id, task } => match task.step(reply) {
                OpenTask::Opened(writer) => {
                    let dir: String = join(next.out.as_str(), id.as_str());
                    next.phase = Phase::Describe {
                        task: write_session_meta(dir.as_str(), id.as_str()),
                    };
                    let ghost opened = next.sessions@;
                    let session: Session = Session { id, writer };
                    next.sessions.push(session);
                    assert(session_views(next.sessions@) =~= session_views(opened).push(session@));
                    next
                },
                OpenTask::Failed => {
                    next.phase = Phase::Ended(Exit::OpenFailed);
                    next
                },
                OpenTask::Overflow => {
                    next.phase = Phase::Ended(Exit::Overflow);
                    next
                },
                more => {
                    next.phase = Phase::Open { id, task: more };
                    next
                },
            },
            Phase::Describe { task } => match task.step(reply) {
                MetaTask::Finished | MetaTask::Failed => {
                    let slot: usize = next.sessions.len() - 1;
                    next.save(slot)
                },
                more => {
                    next.phase = Phase::Describe { task: more };
                    next
                },
            },
            Phase::Save { slot, task } => {
                let ghost open = next.sessions@;
                assert(before.sessions[slot as int] == open[slot as int]@);
                let after: SnapTask = next.sessions[slot].writer.snap_step(task, reply);
                proof {
                    let session = next.sessions@[slot as int]@;
                    assert(session_views(next.sessions@) =~= session_views(open).update(
                        slot as int,
                        session,
                    ));
                }
                next.phase = match after.end() {
                    Some(SnapEnd::Finished) => Phase::TellSaved { slot },
                    Some(SnapEnd::Failed) => Phase::Ended(Exit::Failed),
                    Some(SnapEnd::Overflow) => Phase::Ended(Exit::Overflow),
                    None => Phase::Save { slot, task: after },
                };
                next
            },
            Phase::TellSaved { .. } => {
                assert(next.pos < next.records.len());
                next.pos = next.pos + 1;
                next.phase = Phase::ReadDevice;
                next.take_record()
            },
            Phase::TellDrained => {
                next.phase = Phase::Ended(Exit::Drained);
                next
            },
            Phase::Ended(exit) => {
                next.phase = Phase::Ended(exit);
                next
            },
        }
    }
}

/// The parts of a record's line, in their order: the digits that stand for the
/// sequence number, the time, the user, the process and the length of the blob.
pub struct LineDigits {
    pub seq: Seq<char>,
    pub ts_ns: Seq<char>,
    pub uid: Seq<char>,
    pub pid: Seq<char>,
    pub blob_len: Seq<char>,
}

/// The line of a record says, behind each of its keys, in digits, what the record
/// holds: its sequence number, time, user and process, and how long its blob is.
pub proof fn line_tells_the_record(record: RecordView) -> (digits: LineDigits)
    ensures
        line_of(record) == "{\"seq\":"@ + digits.seq + ",\"ts_ns\":"@ + digits.ts_ns
            + ",\"uid\":"@ + digits.uid + ",\"pid\":"@ + digits.pid + ",\"blob_len\":"@
            + digits.blob_len + "}"@,
        crate::number::spells(digits.seq, record.header.seq),
        crate::number::spells(digits.ts_ns, record.header.ts_ns),
        crate::number::spells(digits.uid, record.header.uid),
        crate::number::spells(digits.pid, record.header.pid),
        crate::number::spells(digits.blob_len, record.blob.len()),
{
    crate::number::decimal_spells_its_number(record.header.seq);
    crate::number::decimal_spells_its_number(record.header.ts_ns);
    crate::number::decimal_spells_its_number(record.header.uid);
    crate::number::decimal_spells_its_number(record.header.pid);
    crate::number::decimal_spells_its_number(record.blob.len());
    LineDigits {
        seq: crate::number::decimal(record.header.seq),
        ts_ns: crate::number::decimal(record.header.ts_ns),
        uid: crate::number::decimal(record.header.uid),
        pid: crate::number::decimal(record.header.pid),
        blob_len: crate::number::decimal(record.blob.len()),
    }
}

/// Digits, and what follows them and is no digit, are told apart in one way only.
proof fn lemma_digits_end(a: Seq<char>, x: Seq<char>, b: Seq<char>, y: Seq<char>)
    requires
        a + x == b + y,
        forall|i: int| 0 <= i < a.len() ==> '0' <= #[trigger] a[i] <= '9',
        forall|i: int| 0 <= i < b.len() ==> '0' <= #[trigger] b[i] <= '9',
        x.len() > 0 && !('0' <= x[0] <= '9'),
        y.len() > 0 && !('0' <= y[0] <= '9'),
    ensures
        a == b,
        x == y,
{
    let s = a + x;
    let t = b + y;
    if a.len() < b.len() {
        assert(s[a.len() as int] == x[0]);
        assert(t[a.len() as int] == b[a.len() as int]);
    }
    if b.len() < a.len() {
        assert(t[b.len() as int] == y[0]);
        assert(s[b.len() as int] == a[b.len() as int]);
    }
    assert(a =~= s.take(a.len() as int));
    assert(b =~= t.take(b.len() as int));
    assert(x =~= s.skip(a.len() as int));
    assert(y =~= t.skip(b.len() as int));
}

proof fn lemma_same_tail(key: Seq<char>, x: Seq<char>, y: Seq<char>)
    requires
        key + x == key + y,
    ensures
        x == y,
{
    assert(x =~= (key + x).skip(key.len() as int));
    assert(y =~= (key + y).skip(key.len() as int));
}

proof fn lemma_keys()
    ensures
        ",\"ts_ns\":"@.len() > 0 && ",\"ts_ns\":"@[0] == ',',
        ",\"uid\":"@.len() > 0 && ",\"uid\":"@[0] == ',',
        ",\"pid\":"@.len() > 0 && ",\"pid\":"@[0] == ',',
        ",\"blob_len\":"@.len() > 0 && ",\"blob_len\":"@[0] == ',',
        "}"@.len() > 0 && "}"@[0] == '}',
{
    reveal_strlit(",\"ts_ns\":");
    reveal_strlit(",\"uid\":");
    reveal_strlit(",\"pid\":");
    reveal_strlit(",\"blob_len\":");
    reveal_strlit("}");
}

proof fn lemma_line_regrouped(d: LineDigits)
    ensures
        "{\"seq\":"@ + d.seq + ",\"ts_ns\":"@ + d.ts_ns + ",\"uid\":"@ + d.uid + ",\"pid\":"@ + d.pid
            + ",\"blob_len\":"@ + d.blob_len + "}"@ == "{\"seq\":"@ + (d.seq + (",\"ts_ns\":"@ + (
        d.ts_ns + (",\"uid\":"@ + (d.uid + (",\"pid\":"@ + (d.pid + (",\"blob_len\":"@ + (d.blob_len
            + "}"@))))))))),
{
    let whole = "{\"seq\":"@ + d.seq + ",\"ts_ns\":"@ + d.ts_ns + ",\"uid\":"@ + d.uid
        + ",\"pid\":"@ + d.pid + ",\"blob_len\":"@ + d.blob_len + "}"@;
    assert(whole =~= "{\"seq\":"@ + (d.seq + (",\"ts_ns\":"@ + (d.ts_ns + (",\"uid\":"@ + (d.uid + (
    ",\"pid\":"@ + (d.pid + (",\"blob_len\":"@ + (d.blob_len + "}"@))))))))));
}

/// Records with one snapshot have the same sequence number, time, user and process,
/// and blobs of one length.
pub proof fn snapshots_tell_records_apart(a: RecordView, b: RecordView)
    requires
        snapshot_of(a) == snapshot_of(b),
    ensures
        a.header.seq == b.header.seq,
        a.header.ts_ns == b.header.ts_ns,
        a.header.uid == b.header.uid,
        a.header.pid == b.header.pid,
        a.blob.len() == b.blob.len(),
{
    vstd::utf8::encode_utf8_decode_utf8(line_of(a));
    vstd::utf8::encode_utf8_decode_utf8(line_of(b));
    let d = line_tells_the_record(a);
    let e = line_tells_the_record(b);
    lemma_line_regrouped(d);
    lemma_line_regrouped(e);
    lemma_keys();
    let d4 = ",\"blob_len\":"@ + (d.blob_len + "}"@);
    let e4 = ",\"blob_len\":"@ + (e.blob_len + "}"@);
    let d3 = ",\"pid\":"@ + (d.pid + d4);
    let e3 = ",\"pid\":"@ + (e.pid + e4);
    let d2 = ",\"uid\":"@ + (d.uid + d3);
    let e2 = ",\"uid\":"@ + (e.uid + e3);
    let d1 = ",\"ts_ns\":"@ + (d.ts_ns + d2);
    let e1 = ",\"ts_ns\":"@ + (e.ts_ns + e2);
    lemma_same_tail("{\"seq\":"@, d.seq + d1, e.seq + e1);
    lemma_digits_end(d.seq, d1, e.seq, e1);
    lemma_same_tail(",\"ts_ns\":"@, d.ts_ns + d2, e.ts_ns + e2);
    lemma_digits_end(d.ts_ns, d2, e.ts_ns, e2);
    lemma_same_tail(",\"uid\":"@, d.uid + d3, e.uid + e3);
    lemma_digits_end(d.uid, d3, e.uid, e3);
    lemma_same_tail(",\"pid\":"@, d.pid + d4, e.pid + e4);
    lemma_digits_end(d.pid, d4, e.pid, e4);
    lemma_same_tail(",\"blob_len\":"@, d.blob_len + "}"@, e.blob_len + "}"@);
    lemma_digits_end(d.blob_len, "}"@, e.blob_len, "}"@);
}

} // verus!
