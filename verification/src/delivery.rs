//! What becomes of the records that the daemon drains.

use vstd::prelude::*;

use crate::daemon::{DaemonView, Exit, PhaseView};
use crate::disk::{Files, Moment};
use crate::persistence::{MetaView, SnapView, WriterView};
use crate::record::RecordView;
use crate::storage::{Answer, LockOutcome, Op};

verus! {

/// A snapshot that the daemon has put in its place.
pub struct Saved {
    /// The place, among the daemon's sessions, of the one that it was written for.
    pub slot: int,
    /// The name of that session.
    pub id: Seq<char>,
    /// What was asked to learn the session that the process of the record states;
    /// none if the header names the session.
    pub asked: Option<Op>,
    /// The text that came back.
    pub stated: Option<Seq<char>>,
    pub seq: nat,
    pub data: Seq<u8>,
}

/// The daemon, the disk that it writes to, and what it has done.
pub struct DaemonState {
    pub daemon: DaemonView,
    pub files: Files,
    /// What the device held, once it was read.
    pub read: Option<Seq<u8>>,
    /// The snapshots that it has put in their places, in the order in which it did.
    pub saved: Seq<Saved>,
    /// What was asked, for the record at hand, to learn the session that its process
    /// states.
    pub asked: Option<Op>,
    /// The text that came back; none if it was not asked, or nothing could be read.
    pub stated: Option<Seq<char>>,
    /// For each session, what came back when its directory was listed.
    pub met: Seq<Answer>,
    /// The paths of the snapshots that it has asked to remove to make room.
    pub removed: Set<Seq<char>>,
}

impl DaemonState {
    /// The state one moment later.
    pub open spec fn at(self, moment: Moment) -> DaemonState {
        DaemonState {
            daemon: self.daemon.next(moment.answer),
            files: moment.files,
            read: match (self.daemon.phase, moment.answer) {
                (PhaseView::ReadDevice, Answer::Bytes(bytes)) => Some(bytes),
                _ => self.read,
            },
            saved: match self.daemon.phase {
                PhaseView::Save { slot, task: SnapView::Publish { data } } => if moment.answer is Done {
                    let session = self.daemon.sessions[slot];
                    let seq = session.writer.next_seq;
                    self.saved.push(
                        Saved {
                            slot,
                            id: session.id,
                            asked: self.asked,
                            stated: self.stated,
                            seq,
                            data,
                        },
                    )
                } else {
                    self.saved
                },
                _ => self.saved,
            },
            asked: match self.daemon.phase {
                PhaseView::AskProcess => self.daemon.op(),
                PhaseView::TellSaved { slot } => None,
                _ => self.asked,
            },
            stated: match self.daemon.phase {
                PhaseView::TellSaved { slot } => None,
                PhaseView::AskProcess => match moment.answer {
                    Answer::Text(text) => Some(text),
                    _ => None,
                },
                _ => self.stated,
            },
            met: match self.daemon.phase {
                PhaseView::Open { id, task } => if task.next(moment.answer) is Opened {
                    self.met.push(moment.answer)
                } else {
                    self.met
                },
                _ => self.met,
            },
            removed: match self.daemon.phase {
                PhaseView::Save { slot, task: SnapView::Remove { trim, size } } => {
                    let writer = self.daemon.sessions[slot].writer;
                    self.removed.insert(writer.file(trim.snaps[0].name))
                },
                _ => self.removed,
            },
        }
    }

    /// The state after `moments`.
    pub open spec fn after(self, moments: Seq<Moment>) -> DaemonState
        decreases moments.len(),
    {
        if moments.len() == 0 {
            self
        } else {
            self.after(moments.drop_last()).at(moments.last())
        }
    }

    /// The moment can come next: it carries out the request of the daemon.
    pub open spec fn allows(self, moment: Moment) -> bool {
        self.daemon.op() matches Some(op) && crate::disk::performed(
            op,
            moment.answer,
            self.files,
            moment.files,
        )
    }

    /// The moments can come one after the other.
    pub open spec fn run(self, moments: Seq<Moment>) -> bool
        decreases moments.len(),
    {
        moments.len() > 0 ==> self.run(moments.drop_last()) && self.after(
            moments.drop_last(),
        ).allows(moments.last())
    }

    /// The record at hand has its snapshot already.
    pub open spec fn ahead(self) -> bool {
        match self.daemon.phase {
            PhaseView::TellSaved { slot } => true,
            PhaseView::Save { slot, task } => task !is WriteTemp && task !is Publish,
            _ => false,
        }
    }
}

/// The daemon before it has done anything, on a disk that holds `files`.
pub open spec fn daemon_start(
    out: Seq<char>,
    device: Seq<char>,
    quota: nat,
    files: Files,
) -> DaemonState {
    DaemonState {
        daemon: DaemonView::start(out, device, quota),
        files,
        read: None,
        saved: seq![],
        asked: None,
        stated: None,
        met: seq![],
        removed: Set::empty(),
    }
}

/// `id` is the session of `record`: if its header names none, `asked` was to read
/// the file in which its process states one, and gave `stated`.
pub open spec fn session_is(
    record: RecordView,
    asked: Option<Op>,
    stated: Option<Seq<char>>,
    id: Seq<char>,
) -> bool {
    let header = record.header;
    &&& id == crate::session::session_of(header.session_id, header.pid, stated)
    &&& asked == if crate::session::unnamed(header.session_id) {
        Some(Op::ReadText { path: crate::session::agent_session_path_of(header.pid) })
    } else {
        None
    }
}

/// The record at hand is dealt with in its session.
pub open spec fn settled(s: DaemonState) -> bool {
    let d = s.daemon;
    match d.phase {
        PhaseView::Open { id, task } => session_is(d.record(), s.asked, s.stated, id),
        PhaseView::Describe { task } => session_is(
            d.record(),
            s.asked,
            s.stated,
            d.sessions.last().id,
        ),
        PhaseView::Save { slot, task } => session_is(
            d.record(),
            s.asked,
            s.stated,
            d.sessions[slot].id,
        ),
        PhaseView::TellSaved { slot } => session_is(
            d.record(),
            s.asked,
            s.stated,
            d.sessions[slot].id,
        ),
        PhaseView::Ended(exit) => true,
        _ => s.asked is None && s.stated is None,
    }
}

/// The records in what was read from the device.
pub open spec fn records_in(read: Option<Seq<u8>>) -> Seq<RecordView> {
    match read {
        Some(bytes) => crate::record::decode(bytes),
        None => seq![],
    }
}

/// Each record before has its snapshot, in order, and none has two.
pub open spec fn in_step(s: DaemonState) -> bool {
    let d = s.daemon;
    &&& d.sound()
    &&& settled(s)
    &&& d.records == records_in(s.read)
    &&& s.saved.len() <= d.records.len()
    &&& match d.phase {
        PhaseView::Ended(exit) => exit is Drained ==> s.saved.len() == d.records.len()
            && s.read is Some,
        PhaseView::TellDrained => s.saved.len() == d.pos && s.read is Some,
        PhaseView::TellSaved { slot } => s.saved.len() == d.pos + 1 && s.read is Some,
        _ => s.saved.len() == d.pos + (if s.ahead() {
            1int
        } else {
            0
        }),
    }
    &&& forall|i: int| #![trigger s.saved[i]]
        0 <= i < s.saved.len() ==> {
            &&& s.saved[i].data == crate::daemon::snapshot_of(d.records[i])
            &&& session_is(d.records[i], s.saved[i].asked, s.saved[i].stated, s.saved[i].id)
        }
}

proof fn lemma_settled_record(d: DaemonView, t: DaemonState)
    requires
        0 <= d.pos <= d.records.len(),
        t.daemon == d.take_record(),
        t.asked is None && t.stated is None,
    ensures
        settled(t),
{
    if d.pos < d.records.len() {
        crate::daemon::lemma_slot(
            d.sessions,
            crate::session::named_session(d.record().header.session_id),
        );
    }
}

proof fn lemma_in_step(s: DaemonState, moment: Moment)
    requires
        in_step(s),
    ensures
        in_step(s.at(moment)),
{
    let t = s.at(moment);
    let d = s.daemon;
    crate::daemon::daemon_stays_sound(d, moment.answer);
    match d.phase {
        PhaseView::ReadDevice => {
            assert(s.saved.len() == 0);
            if let Answer::Bytes(bytes) = moment.answer {
                lemma_settled_record(
                    DaemonView { records: crate::record::decode(bytes), pos: 0, ..d },
                    t,
                );
            }
        },
        PhaseView::AskProcess => {
            crate::daemon::lemma_slot(
                d.sessions,
                crate::session::process_session(t.stated, d.record().header.pid),
            );
        },
        PhaseView::TellSaved { slot } => {
            lemma_settled_record(DaemonView { pos: d.pos + 1, ..d }, t);
        },
        PhaseView::Save { slot, task } => {
            assert(t.daemon.records == d.records);
        },
        _ => {},
    }
}

/// Whatever comes of its requests, the daemon saves the records in their order,
/// each in one snapshot, which holds its line and stands in the session of the
/// record: the one that its header names, else the one that the file of its process
/// held when it was read for this record, else one made of its process id. The records
/// are those in what was read from the device; and the daemon has drained it only when
/// every one of them has its snapshot.
pub proof fn every_record_is_saved_once(
    out: Seq<char>,
    device: Seq<char>,
    quota: nat,
    files: Files,
    moments: Seq<Moment>,
)
    ensures
        ({
            let s = daemon_start(out, device, quota, files).after(moments);
            &&& s.daemon.records == records_in(s.read)
            &&& s.daemon.phase == PhaseView::Ended(Exit::Drained) ==> s.read is Some
            &&& s.saved.len() <= s.daemon.records.len()
            &&& s.daemon.phase == PhaseView::Ended(Exit::Drained) ==> s.saved.len()
                == s.daemon.records.len()
            &&& forall|i: int| #![trigger s.saved[i]]
                0 <= i < s.saved.len() ==> {
                    &&& s.saved[i].data == crate::daemon::snapshot_of(s.daemon.records[i])
                    &&& session_is(
                        s.daemon.records[i],
                        s.saved[i].asked,
                        s.saved[i].stated,
                        s.saved[i].id,
                    )
                }
        }),
{
    lemma_stays_in_step(out, device, quota, files, moments);
}

proof fn lemma_stays_in_step(
    out: Seq<char>,
    device: Seq<char>,
    quota: nat,
    files: Files,
    moments: Seq<Moment>,
)
    ensures
        in_step(daemon_start(out, device, quota, files).after(moments)),
    decreases moments.len(),
{
    let start = daemon_start(out, device, quota, files);
    if moments.len() == 0 {
        crate::daemon::daemon_starts_sound(out, device, quota);
    } else {
        lemma_stays_in_step(out, device, quota, files, moments.drop_last());
        lemma_in_step(start.after(moments.drop_last()), moments.last());
    }
}

/// While another instance holds the lock, the daemon tells so and ends, without
/// reading the device or writing anything.
pub proof fn second_instance_does_nothing(
    out: Seq<char>,
    device: Seq<char>,
    quota: nat,
    told: Answer,
)
    ensures
        ({
            let locking = DaemonView::start(out, device, quota).next(Answer::Done);
            let busy = locking.next(Answer::Lock(LockOutcome::Busy));
            &&& locking.op() == Some(Op::Lock { path: crate::lock::lock_path_of(out) })
            &&& busy.op() matches Some(Op::Tell { text })
            &&& busy.next(told).phase == PhaseView::Ended(Exit::AlreadyRunning)
            &&& busy.next(told).op() is None
            &&& busy.next(told).records == Seq::<RecordView>::empty()
        }),
{
}

/// How many of the snapshots are of the session `id`.
pub open spec fn count_of(saved: Seq<Saved>, id: Seq<char>) -> nat
    decreases saved.len(),
{
    if saved.len() == 0 {
        0
    } else {
        count_of(saved.drop_last(), id) + (if saved.last().id == id {
            1nat
        } else {
            0
        })
    }
}

/// The number with which a session goes on whose directory was listed with `answer`:
/// the one after the highest that the listing shows, zero if it shows none.
pub open spec fn first_seq(answer: Answer) -> nat {
    match answer {
        Answer::Listing(entries) => crate::listing::seq_after(entries),
        _ => 0,
    }
}

proof fn lemma_count_push(saved: Seq<Saved>, more: Saved, id: Seq<char>)
    ensures
        count_of(saved.push(more), id) == count_of(saved, id) + (if more.id == id {
            1nat
        } else {
            0
        }),
{
    assert(saved.push(more).drop_last() =~= saved);
}

proof fn lemma_count_none(saved: Seq<Saved>, id: Seq<char>)
    requires
        forall|i: int| 0 <= i < saved.len() ==> (#[trigger] saved[i]).id != id,
    ensures
        count_of(saved, id) == 0,
    decreases saved.len(),
{
    if saved.len() > 0 {
        let front = saved.drop_last();
        assert forall|i: int| 0 <= i < front.len() implies (#[trigger] front[i]).id != id by {
            assert(front[i] == saved[i]);
        }
        lemma_count_none(front, id);
        assert(saved[saved.len() - 1].id != id);
    }
}

proof fn lemma_count_grows(saved: Seq<Saved>, i: int)
    requires
        0 <= i < saved.len(),
    ensures
        count_of(saved.take(i), saved[i].id) < count_of(saved, saved[i].id),
    decreases saved.len(),
{
    let front = saved.drop_last();
    if i < front.len() {
        lemma_count_grows(front, i);
        assert(front.take(i) =~= saved.take(i));
    } else {
        assert(saved.take(i) =~= front);
    }
}

/// Each session goes on, and each snapshot is numbered, after those before it.
spec fn numbered(s: DaemonState) -> bool {
    let d = s.daemon;
    &&& s.met.len() == d.sessions.len()
    &&& forall|k: int| #![trigger d.sessions[k]]
        0 <= k < d.sessions.len() ==> {
            &&& d.sessions[k].writer.next_seq <= u64::MAX
            &&& d.phase !is Ended ==> d.sessions[k].writer.next_seq == first_seq(s.met[k])
                + count_of(s.saved, d.sessions[k].id)
        }
    &&& forall|i: int| #![trigger s.saved[i]]
        0 <= i < s.saved.len() ==> {
            &&& 0 <= s.saved[i].slot < d.sessions.len()
            &&& d.sessions[s.saved[i].slot].id == s.saved[i].id
            &&& s.saved[i].seq <= u64::MAX
            &&& s.saved[i].seq == first_seq(s.met[s.saved[i].slot]) + count_of(
                s.saved.take(i),
                s.saved[i].id,
            )
        }
}

proof fn lemma_numbered_step(s: DaemonState, moment: Moment)
    requires
        s.daemon.sound(),
        numbered(s),
    ensures
        numbered(s.at(moment)),
{
    let t = s.at(moment);
    let d = s.daemon;
    match d.phase {
        PhaseView::Open { id, task } => {
            if t.daemon.phase is Describe {
                lemma_opened(s, moment);
            } else {
                assert(t.daemon.sessions == d.sessions);
                assert(t.met == s.met);
            }
        },
        PhaseView::Save { slot, task } => {
            assert(d.sessions[slot].writer.next_seq <= u64::MAX);
            if task is Publish && moment.answer is Done {
                let more = t.saved.last();
                assert(t.saved == s.saved.push(more));
                assert forall|i: int| 0 <= i < s.saved.len() implies #[trigger] t.saved.take(i)
                    == s.saved.take(i) by {
                    assert(t.saved.take(i) =~= s.saved.take(i));
                }
                assert(t.saved.take(s.saved.len() as int) =~= s.saved);
                assert forall|k: int| #![trigger t.daemon.sessions[k]]
                    0 <= k < t.daemon.sessions.len() implies {
                    &&& t.daemon.sessions[k].writer.next_seq <= u64::MAX
                    &&& t.daemon.phase !is Ended ==> t.daemon.sessions[k].writer.next_seq
                        == first_seq(t.met[k]) + count_of(t.saved, t.daemon.sessions[k].id)
                } by {
                    lemma_count_push(s.saved, more, d.sessions[k].id);
                    assert(d.sessions[k].writer.next_seq <= u64::MAX);
                }
                assert forall|i: int| #![trigger t.saved[i]] 0 <= i < t.saved.len() implies {
                    &&& 0 <= t.saved[i].slot < t.daemon.sessions.len()
                    &&& t.daemon.sessions[t.saved[i].slot].id == t.saved[i].id
                    &&& t.saved[i].seq <= u64::MAX
                    &&& t.saved[i].seq == first_seq(t.met[t.saved[i].slot]) + count_of(
                        t.saved.take(i),
                        t.saved[i].id,
                    )
                } by {
                    if i < s.saved.len() {
                        assert(t.saved[i] == s.saved[i]);
                    }
                }
            } else {
                assert(t.daemon.sessions =~= d.sessions);
            }
        },
        _ => {
            assert(t.daemon.sessions == d.sessions);
        },
    }
}

proof fn lemma_opened(s: DaemonState, moment: Moment)
    requires
        s.daemon.sound(),
        numbered(s),
        s.daemon.phase is Open,
        s.at(moment).daemon.phase is Describe,
    ensures
        numbered(s.at(moment)),
{
    let t = s.at(moment);
    let d = s.daemon;
    let id = d.phase->Open_id;
    if let Answer::Listing(entries) = moment.answer {
        crate::listing::highest_seq_is_the_highest(entries);
    }
    crate::daemon::lemma_slot(d.sessions, id);
    assert forall|i: int| 0 <= i < s.saved.len() implies (#[trigger] s.saved[i]).id != id by {
        assert(d.sessions[s.saved[i].slot].id != id);
    }
    lemma_count_none(s.saved, id);
    assert(t.saved == s.saved);
    assert forall|k: int| #![trigger t.daemon.sessions[k]]
        0 <= k < t.daemon.sessions.len() implies {
        &&& t.daemon.sessions[k].writer.next_seq <= u64::MAX
        &&& t.daemon.sessions[k].writer.next_seq == first_seq(t.met[k]) + count_of(
            t.saved,
            t.daemon.sessions[k].id,
        )
    } by {
        if k < d.sessions.len() {
            assert(t.daemon.sessions[k] == d.sessions[k]);
        }
    }
    assert forall|i: int| #![trigger t.saved[i]] 0 <= i < t.saved.len() implies {
        &&& 0 <= t.saved[i].slot < t.daemon.sessions.len()
        &&& t.daemon.sessions[t.saved[i].slot].id == t.saved[i].id
        &&& t.saved[i].seq <= u64::MAX
        &&& t.saved[i].seq == first_seq(t.met[t.saved[i].slot]) + count_of(
            t.saved.take(i),
            t.saved[i].id,
        )
    } by {
        assert(s.saved[i].slot < d.sessions.len());
        assert(t.daemon.sessions[s.saved[i].slot] == d.sessions[s.saved[i].slot]);
    }
}

proof fn lemma_stays_numbered(
    out: Seq<char>,
    device: Seq<char>,
    quota: nat,
    files: Files,
    moments: Seq<Moment>,
)
    ensures
        numbered(daemon_start(out, device, quota, files).after(moments)),
    decreases moments.len(),
{
    let start = daemon_start(out, device, quota, files);
    if moments.len() > 0 {
        lemma_stays_in_step(out, device, quota, files, moments.drop_last());
        lemma_stays_numbered(out, device, quota, files, moments.drop_last());
        lemma_numbered_step(start.after(moments.drop_last()), moments.last());
    }
}

/// Whatever comes of the requests, the snapshots of a session are numbered one
/// after the other, in the order of its records, from the number after the highest
/// that the listing of its directory showed. So where the listing showed no
/// snapshot, a record that `k` records of its session come before is in the snapshot
/// `k`.
pub proof fn snapshots_are_numbered_in_order(
    out: Seq<char>,
    device: Seq<char>,
    quota: nat,
    files: Files,
    moments: Seq<Moment>,
    i: int,
)
    requires
        0 <= i < daemon_start(out, device, quota, files).after(moments).saved.len(),
    ensures
        ({
            let s = daemon_start(out, device, quota, files).after(moments);
            let snap = s.saved[i];
            let before = count_of(s.saved.take(i), snap.id);
            &&& 0 <= snap.slot < s.daemon.sessions.len() == s.met.len()
            &&& s.daemon.sessions[snap.slot].id == snap.id
            &&& snap.seq == first_seq(s.met[snap.slot]) + before
            &&& s.met[snap.slot] == Answer::Listing(seq![]) ==> snap.seq == before
        }),
{
    lemma_stays_numbered(out, device, quota, files, moments);
    let s = daemon_start(out, device, quota, files).after(moments);
    assert(s.saved[i].slot < s.met.len());
}

/// The path of the snapshot.
pub open spec fn saved_path(out: Seq<char>, saved: Saved) -> Seq<char> {
    crate::path::joined(
        crate::path::joined(out, saved.id),
        crate::listing::snap_name_of(saved.seq),
    )
}

/// The name of each session that is open is that of a directory entry.
pub open spec fn plain_sessions(daemon: DaemonView) -> bool {
    forall|i: int|
        0 <= i < daemon.sessions.len() ==> crate::disk::plain((#[trigger] daemon.sessions[i]).id)
}

/// Each snapshot is in its place, whole, unless it was removed to make room; and no
/// two have one place.
pub open spec fn all_there(
    out: Seq<char>,
    saved: Seq<Saved>,
    removed: Set<Seq<char>>,
    files: Files,
) -> bool {
    &&& forall|i: int| #![trigger saved[i]]
        0 <= i < saved.len() ==> {
            let path = saved_path(out, saved[i]);
            removed.contains(path) || (files.contains_key(path) && files[path] == saved[i].data)
        }
    &&& forall|i: int, j: int|
        0 <= i < j < saved.len() ==> saved_path(out, #[trigger] saved[i]) != saved_path(
            out,
            #[trigger] saved[j],
        )
}

spec fn snap_there(s: DaemonState, files: Files, i: int) -> bool {
    let path = saved_path(s.daemon.out, s.saved[i]);
    s.removed.contains(path) || (files.contains_key(path) && files[path] == s.saved[i].data)
}

/// What holds on the disk at every moment.
spec fn on_disk(s: DaemonState) -> bool {
    let d = s.daemon;
    &&& forall|i: int| #![trigger s.saved[i]] 0 <= i < s.saved.len() ==> snap_there(s, s.files, i)
    &&& match d.phase {
        PhaseView::Save { slot, task: SnapView::Publish { data } } => {
            let tmp = crate::durability::temporary(d.sessions[slot].writer);
            s.files.contains_key(tmp) && s.files[tmp] == data
        },
        PhaseView::Save { slot, task } => d.quota == 0 ==> task is WriteTemp,
        _ => true,
    }
    &&& d.quota == 0 ==> s.removed == Set::<Seq<char>>::empty()
}

proof fn lemma_not_a_snapshot(
    out: Seq<char>,
    id: Seq<char>,
    name: Seq<char>,
    other: Seq<char>,
    seq: nat,
)
    requires
        crate::disk::plain(id),
        crate::disk::plain(name),
        !crate::listing::is_snap(name),
        crate::disk::plain(other),
        seq <= u64::MAX,
    ensures
        crate::path::joined(crate::path::joined(out, id), name) != crate::path::joined(
            crate::path::joined(out, other),
            crate::listing::snap_name_of(seq),
        ),
{
    let w = WriterView { dir: out, next_seq: seq, quota_bytes: 0 };
    crate::durability::lemma_plain_names(w);
    crate::listing::snap_name_round_trips(seq);
    let snap = crate::listing::snap_name_of(seq);
    if crate::path::joined(crate::path::joined(out, id), name) == crate::path::joined(
        crate::path::joined(out, other),
        snap,
    ) {
        crate::disk::lemma_below(out, id, name, other, snap);
    }
}

/// A change to a file of a session that is no snapshot keeps what is saved.
proof fn lemma_elsewhere(s: DaemonState, files: Files, id: Seq<char>, name: Seq<char>)
    requires
        numbered(s),
        on_disk(s),
        plain_sessions(s.daemon),
        crate::disk::plain(id),
        crate::disk::plain(name),
        !crate::listing::is_snap(name),
        crate::disk::same_but(
            files,
            s.files,
            crate::path::joined(crate::path::joined(s.daemon.out, id), name),
        ),
    ensures
        forall|i: int| #![trigger s.saved[i]] 0 <= i < s.saved.len() ==> snap_there(s, files, i),
{
    let d = s.daemon;
    assert forall|i: int| #![trigger s.saved[i]] 0 <= i < s.saved.len() implies snap_there(
        s,
        files,
        i,
    ) by {
        let snap = s.saved[i];
        assert(crate::disk::plain(d.sessions[snap.slot].id));
        lemma_not_a_snapshot(d.out, id, name, snap.id, snap.seq);
        assert(snap_there(s, s.files, i));
        assert(files.contains_key(saved_path(d.out, snap)) == s.files.contains_key(
            saved_path(d.out, snap),
        ));
    }
}

proof fn lemma_names_of_files()
    ensures
        crate::disk::plain("snap.tmp"@),
        crate::disk::plain("intent_tag"@),
        crate::disk::plain("opened_at"@),
        crate::disk::plain("_quota-trimmed"@),
        !crate::listing::is_snap("snap.tmp"@),
        !crate::listing::is_snap("intent_tag"@),
        !crate::listing::is_snap("opened_at"@),
        !crate::listing::is_snap("_quota-trimmed"@),
{
    reveal_strlit("snap.tmp");
    reveal_strlit("intent_tag");
    reveal_strlit("opened_at");
    reveal_strlit("snap-");
    reveal_strlit(".");
    reveal_strlit("..");
    reveal_strlit("_quota-trimmed");
    crate::durability::lemma_marker_is_plain();
    crate::listing::temporary_file_is_no_snapshot();
    if crate::listing::is_snap("intent_tag"@) {
        assert("snap-"@[0] == "intent_tag"@.subrange(0, 5)[0]);
    }
    if crate::listing::is_snap("opened_at"@) {
        assert("snap-"@[0] == "opened_at"@.subrange(0, 5)[0]);
    }
    if crate::listing::is_snap("_quota-trimmed"@) {
        assert("snap-"@[0] == "_quota-trimmed"@.subrange(0, 5)[0]);
    }
}

/// Two snapshots with different sessions or numbers have different places.
proof fn lemma_places_differ(out: Seq<char>, a: Saved, b: Saved)
    requires
        crate::disk::plain(a.id),
        crate::disk::plain(b.id),
        a.seq <= u64::MAX,
        b.seq <= u64::MAX,
        saved_path(out, a) == saved_path(out, b),
    ensures
        a.id == b.id,
        a.seq == b.seq,
{
    let w = WriterView { dir: out, next_seq: a.seq, quota_bytes: 0 };
    crate::durability::lemma_plain_names(w);
    crate::disk::lemma_below(
        out,
        a.id,
        crate::listing::snap_name_of(a.seq),
        b.id,
        crate::listing::snap_name_of(b.seq),
    );
    crate::listing::snap_names_differ(a.seq, b.seq);
}

/// The rename of a new snapshot, done or not, keeps those before it.
proof fn lemma_published(s: DaemonState, slot: int, data: Seq<u8>)
    requires
        s.daemon.sound(),
        numbered(s),
        on_disk(s),
        plain_sessions(s.daemon),
        s.daemon.phase == (PhaseView::Save { slot, task: SnapView::Publish { data } }),
    ensures
        ({
            let w = s.daemon.sessions[slot].writer;
            let files = crate::disk::moved(
                s.files,
                crate::durability::temporary(w),
                crate::durability::target(w),
            );
            &&& forall|i: int|
                #![trigger s.saved[i]]
                0 <= i < s.saved.len() ==> snap_there(s, files, i)
            &&& files.contains_key(crate::durability::target(w))
            &&& files[crate::durability::target(w)] == data
        }),
{
    let d = s.daemon;
    let w = d.sessions[slot].writer;
    let id = d.sessions[slot].id;
    let tmp = crate::durability::temporary(w);
    let target = crate::durability::target(w);
    let cleared = s.files.remove(tmp);
    lemma_names_of_files();
    assert(crate::disk::plain(d.sessions[slot].id));
    assert(crate::disk::same_but(cleared, s.files, tmp));
    lemma_elsewhere(s, cleared, id, "snap.tmp"@);
    let files = crate::disk::moved(s.files, tmp, target);
    let new = Saved { slot, id, asked: None, stated: None, seq: w.next_seq, data };
    assert(target == saved_path(d.out, new));
    assert forall|i: int| #![trigger s.saved[i]] 0 <= i < s.saved.len() implies snap_there(
        s,
        files,
        i,
    ) by {
        let snap = s.saved[i];
        assert(snap_there(s, cleared, i));
        assert(crate::disk::plain(d.sessions[snap.slot].id));
        if saved_path(d.out, snap) == target {
            lemma_places_differ(d.out, snap, new);
            assert(snap.slot == slot);
            lemma_count_grows(s.saved, i);
            assert(false);
        }
    }
}

#[verifier::spinoff_prover]
proof fn lemma_on_disk_step(s: DaemonState, moment: Moment)
    requires
        s.daemon.sound(),
        numbered(s),
        on_disk(s),
        plain_sessions(s.daemon),
        s.allows(moment),
    ensures
        on_disk(s.at(moment)),
{
    let t = s.at(moment);
    let d = s.daemon;
    lemma_names_of_files();
    match d.phase {
        PhaseView::Describe { task } => {
            let last = d.sessions[d.sessions.len() - 1];
            assert(last == d.sessions.last());
            match task {
                MetaView::WriteTag { dir, session_id } => {
                    lemma_elsewhere(s, t.files, last.id, "intent_tag"@);
                },
                MetaView::WriteTime { dir, seconds } => {
                    lemma_elsewhere(s, t.files, last.id, "opened_at"@);
                },
                _ => {
                    assert(t.files == s.files);
                },
            }
            assert forall|i: int| #![trigger t.saved[i]] 0 <= i < t.saved.len() implies snap_there(
                t,
                t.files,
                i,
            ) by {
                assert(snap_there(s, t.files, i));
            }
        },
        PhaseView::Save { slot, task } => match task {
            SnapView::WriteTemp { data } => lemma_on_disk_temp(s, moment),
            SnapView::Publish { data } => lemma_on_disk_publish(s, moment),
            SnapView::MakeMarker { trim } => lemma_on_disk_marker(s, moment),
            _ => lemma_on_disk_trim(s, moment),
        },
        _ => {
            assert(t.files == s.files);
            assert forall|i: int| #![trigger t.saved[i]] 0 <= i < t.saved.len() implies snap_there(
                t,
                t.files,
                i,
            ) by {
                assert(snap_there(s, s.files, i));
            }
        },
    }
}

proof fn lemma_on_disk_temp(s: DaemonState, moment: Moment)
    requires
        s.daemon.sound(),
        numbered(s),
        on_disk(s),
        plain_sessions(s.daemon),
        s.allows(moment),
        s.daemon.phase matches PhaseView::Save { slot, task } && task is WriteTemp,
    ensures
        on_disk(s.at(moment)),
{
    let t = s.at(moment);
    let d = s.daemon;
    let slot = d.phase->Save_slot;
    let session = d.sessions[slot];
    assert(crate::disk::plain(session.id));
    assert(session.writer.dir == crate::path::joined(d.out, session.id));
    assert(session.writer.quota_bytes == d.quota);
    lemma_names_of_files();
    lemma_elsewhere(s, t.files, session.id, "snap.tmp"@);
    assert forall|i: int| #![trigger t.saved[i]] 0 <= i < t.saved.len() implies snap_there(
        t,
        t.files,
        i,
    ) by {
        assert(t.saved[i] == s.saved[i]);
        assert(snap_there(s, t.files, i));
    }
}

proof fn lemma_on_disk_publish(s: DaemonState, moment: Moment)
    requires
        s.daemon.sound(),
        numbered(s),
        on_disk(s),
        plain_sessions(s.daemon),
        s.allows(moment),
        s.daemon.phase matches PhaseView::Save { slot, task } && task is Publish,
    ensures
        on_disk(s.at(moment)),
{
    let t = s.at(moment);
    let d = s.daemon;
    let slot = d.phase->Save_slot;
    let session = d.sessions[slot];
    assert(crate::disk::plain(session.id));
    assert(session.writer.dir == crate::path::joined(d.out, session.id));
    assert(session.writer.quota_bytes == d.quota);
    let data = d.phase->Save_task->Publish_data;
    lemma_published(s, slot, data);
    assert forall|i: int| #![trigger t.saved[i]] 0 <= i < t.saved.len() implies snap_there(
        t,
        t.files,
        i,
    ) by {
        if i < s.saved.len() {
            assert(t.saved[i] == s.saved[i]);
            assert(snap_there(s, s.files, i));
        } else {
            assert(saved_path(d.out, t.saved[i]) == crate::durability::target(session.writer));
        }
    }
}

proof fn lemma_on_disk_marker(s: DaemonState, moment: Moment)
    requires
        s.daemon.sound(),
        numbered(s),
        on_disk(s),
        plain_sessions(s.daemon),
        s.allows(moment),
        s.daemon.phase matches PhaseView::Save { slot, task } && task is MakeMarker,
    ensures
        on_disk(s.at(moment)),
{
    let t = s.at(moment);
    let d = s.daemon;
    let slot = d.phase->Save_slot;
    let session = d.sessions[slot];
    assert(crate::disk::plain(session.id));
    assert(session.writer.dir == crate::path::joined(d.out, session.id));
    assert(session.writer.quota_bytes == d.quota);
    lemma_names_of_files();
    lemma_elsewhere(s, t.files, session.id, "_quota-trimmed"@);
    assert forall|i: int| #![trigger t.saved[i]] 0 <= i < t.saved.len() implies snap_there(
        t,
        t.files,
        i,
    ) by {
        assert(t.saved[i] == s.saved[i]);
        assert(snap_there(s, t.files, i));
    }
}

proof fn lemma_trimming_stays_trimming(task: SnapView, w: WriterView, answer: Answer)
    requires
        task is Survey || task is FindMarker || task is Weigh || task is Remove,
    ensures
        task.next(w, answer) !is Publish,
        task.next(w, answer) !is WriteTemp,
        task.writer_next(w, answer) == w,
{
}

proof fn lemma_on_disk_trim(s: DaemonState, moment: Moment)
    requires
        on_disk(s),
        s.allows(moment),
        s.daemon.phase matches PhaseView::Save { slot, task } && (task is Survey || task is FindMarker
            || task is Weigh || task is Remove),
    ensures
        on_disk(s.at(moment)),
{
    let t = s.at(moment);
    let d = s.daemon;
    let slot = d.phase->Save_slot;
    let task = d.phase->Save_task;
    let w = d.sessions[slot].writer;
    lemma_trimming_stays_trimming(task, w, moment.answer);
    assert(d.quota != 0);
    assert(t.saved == s.saved);
    assert(t.daemon.out == d.out && t.daemon.quota == d.quota);
    assert(match t.daemon.phase {
        PhaseView::Save { slot, task } => task == d.phase->Save_task.next(w, moment.answer),
        _ => true,
    });
    if let SnapView::Remove { trim, size } = task {
        let path = w.file(trim.snaps[0].name);
        assert(t.removed == s.removed.insert(path));
        assert(t.files == s.files || t.files == s.files.remove(path));
    } else {
        assert(t.files == s.files);
        assert(t.removed == s.removed);
    }
    assert forall|i: int| #![trigger t.saved[i]] 0 <= i < t.saved.len() implies snap_there(
        t,
        t.files,
        i,
    ) by {
        assert(t.saved[i] == s.saved[i]);
        assert(snap_there(s, s.files, i));
    }
}

proof fn lemma_sessions_stay(s: DaemonState, moment: Moment)
    requires
        s.daemon.sound(),
        plain_sessions(s.at(moment).daemon),
    ensures
        plain_sessions(s.daemon),
{
    let d = s.daemon;
    let e = s.at(moment).daemon;
    assert forall|i: int| 0 <= i < d.sessions.len() implies crate::disk::plain(
        (#[trigger] d.sessions[i]).id,
    ) by {
        assert(d.sessions[i].id == e.sessions[i].id);
    }
}

proof fn lemma_stays_on_disk(
    out: Seq<char>,
    device: Seq<char>,
    quota: nat,
    files: Files,
    moments: Seq<Moment>,
)
    requires
        daemon_start(out, device, quota, files).run(moments),
        plain_sessions(daemon_start(out, device, quota, files).after(moments).daemon),
    ensures
        on_disk(daemon_start(out, device, quota, files).after(moments)),
    decreases moments.len(),
{
    let start = daemon_start(out, device, quota, files);
    if moments.len() > 0 {
        let s = start.after(moments.drop_last());
        lemma_stays_in_step(out, device, quota, files, moments.drop_last());
        lemma_stays_numbered(out, device, quota, files, moments.drop_last());
        lemma_sessions_stay(s, moments.last());
        lemma_stays_on_disk(out, device, quota, files, moments.drop_last());
        lemma_on_disk_step(s, moments.last());
    }
}

proof fn lemma_out_stays(
    out: Seq<char>,
    device: Seq<char>,
    quota: nat,
    files: Files,
    moments: Seq<Moment>,
)
    ensures
        daemon_start(out, device, quota, files).after(moments).daemon.out == out,
        daemon_start(out, device, quota, files).after(moments).daemon.quota == quota,
    decreases moments.len(),
{
    if moments.len() > 0 {
        lemma_out_stays(out, device, quota, files, moments.drop_last());
    }
}

/// Whatever the quota, every snapshot that the daemon has put in its place is there
/// at every later moment, whole, unless the daemon has asked to remove it to make
/// room, which without a quota it never does; and no two share a place. The names of
/// the sessions must be such as a directory entry can have. So a device that is
/// drained has had each of its records in a file of its own.
pub proof fn saved_snapshots_stay(
    out: Seq<char>,
    device: Seq<char>,
    quota: nat,
    files: Files,
    moments: Seq<Moment>,
)
    requires
        daemon_start(out, device, quota, files).run(moments),
        plain_sessions(daemon_start(out, device, quota, files).after(moments).daemon),
    ensures
        ({
            let s = daemon_start(out, device, quota, files).after(moments);
            &&& all_there(out, s.saved, s.removed, s.files)
            &&& quota == 0 ==> s.removed == Set::<Seq<char>>::empty()
        }),
{
    let s = daemon_start(out, device, quota, files).after(moments);
    let d = s.daemon;
    lemma_stays_on_disk(out, device, quota, files, moments);
    lemma_stays_numbered(out, device, quota, files, moments);
    lemma_out_stays(out, device, quota, files, moments);
    assert forall|i: int| #![trigger s.saved[i]] 0 <= i < s.saved.len() implies {
        let path = saved_path(out, s.saved[i]);
        s.removed.contains(path) || (s.files.contains_key(path) && s.files[path]
            == s.saved[i].data)
    } by {
        assert(snap_there(s, s.files, i));
    }
    assert forall|i: int, j: int| 0 <= i < j < s.saved.len() implies saved_path(
        out,
        #[trigger] s.saved[i],
    ) != saved_path(out, #[trigger] s.saved[j]) by {
        let a = s.saved[i];
        let b = s.saved[j];
        assert(crate::disk::plain(d.sessions[a.slot].id));
        assert(crate::disk::plain(d.sessions[b.slot].id));
        if saved_path(out, a) == saved_path(out, b) {
            lemma_places_differ(out, a, b);
            lemma_count_grows(s.saved.take(j), i);
            assert(s.saved.take(j).take(i) =~= s.saved.take(i));
            lemma_stays_in_step(out, device, quota, files, moments);
            assert(a.slot == b.slot);
        }
    }
}

/// The daemon creates the output directory, takes the lock, tells that it starts and
/// reads the device, in this order.
pub proof fn daemon_locks_before_it_reads(out: Seq<char>, device: Seq<char>, quota: nat)
    ensures
        ({
            let start = DaemonView::start(out, device, quota);
            let lock = start.next(Answer::Done);
            let tell = lock.next(Answer::Lock(LockOutcome::Acquired));
            let read = tell.next(Answer::Done);
            &&& start.op() == Some(Op::CreateDirs { path: out })
            &&& lock.op() == Some(Op::Lock { path: crate::path::joined(out, ".witness.lock"@) })
            &&& tell.op() == Some(
                Op::Tell {
                    text: "memlog-witness: starting daemon, device="@ + device + ", out="@
                        + crate::quote::path_debug_text(out),
                },
            )
            &&& read.op() == Some(Op::ReadBytes { path: device })
        }),
{
}

/// Behind each snapshot the daemon tells its session and, in digits, the number of its
/// record; and at the end that the device is drained.
pub proof fn daemon_tells_what_it_saved(d: DaemonView, told: Answer) -> (digits: Seq<char>)
    ensures
        crate::number::spells(digits, d.record().header.seq),
        d.phase matches PhaseView::TellSaved { slot } ==> d.op() == Some(
            Op::Tell {
                text: "memlog-witness: wrote snap for session="@ + d.sessions[slot].id + " seq="@
                    + digits,
            },
        ),
        d.phase is TellDrained ==> d.op() == Some(
            Op::Tell { text: "memlog-witness: device drained (EOF)"@ },
        ) && d.next(told).phase == PhaseView::Ended(Exit::Drained),
{
    crate::number::decimal_spells_its_number(d.record().header.seq);
    crate::number::decimal(d.record().header.seq)
}

/// The daemon fails only at a request that does; it does not fail at one that tells
/// something, reads what a process states, lists a directory that it opens, or writes a
/// session's files about itself. It ends as a second instance only where somebody else
/// holds the lock.
pub proof fn daemon_fails_only_with_a_request(d: DaemonView, answer: Answer)
    requires
        d.sound(),
        d.phase !is Ended,
    ensures
        d.op() is Some,
        crate::durability::succeeded(d.op()->Some_0, answer) && answer != Answer::Lock(
            LockOutcome::Failed,
        ) ==> d.next(answer).phase != PhaseView::Ended(Exit::Failed) && d.next(answer).phase
            != PhaseView::Ended(Exit::OpenFailed),
        d.phase is AskProcess || d.phase is Describe || d.phase is TellStart || d.phase is TellSaved
            || d.phase is TellDrained ==> d.next(answer).phase != PhaseView::Ended(Exit::Failed)
            && d.next(answer).phase != PhaseView::Ended(Exit::OpenFailed),
        d.next(answer).phase == PhaseView::Ended(Exit::OpenFailed) ==> d.op()->Some_0 is CreateDirs
            && answer !is Done,
        d.phase is TakeLock && answer != Answer::Lock(LockOutcome::Busy) ==> d.next(answer).phase
            !is TellBusy,
        d.next(answer).phase == PhaseView::Ended(Exit::AlreadyRunning) ==> d.phase is TellBusy,
        d.next(answer).phase == PhaseView::Ended(Exit::Drained) ==> d.phase is TellDrained,
{
    if let PhaseView::Save { slot, task } = d.phase {
        crate::durability::writing_fails_only_with_a_request(
            d.sessions[slot].writer,
            task,
            answer,
        );
    }
}

/// The daemon starts with no record and no session and with the settings that it is
/// given, and nothing that it is told changes them.
pub proof fn daemon_keeps_its_settings(
    d: DaemonView,
    answer: Answer,
    out: Seq<char>,
    device: Seq<char>,
    quota: nat,
)
    ensures
        ({
            let start = DaemonView::start(out, device, quota);
            &&& start.out == out && start.device == device && start.quota == quota
            &&& start.records.len() == 0 && start.sessions.len() == 0
        }),
        d.next(answer).out == d.out,
        d.next(answer).device == d.device,
        d.next(answer).quota == d.quota,
{
}

/// A record that names its session is never asked about; for one that names none the
/// daemon asks its process, and goes on whatever the answer is.
pub proof fn daemon_asks_the_process_of_a_nameless_record(d: DaemonView, answer: Answer)
    requires
        d.has_record(),
        d.phase is TellSaved,
        d.pos + 1 < d.records.len(),
    ensures
        ({
            let header = d.records[d.pos + 1].header;
            let next = d.next(answer);
            &&& (forall|i: int| 0 <= i < header.session_id.len() ==> header.session_id[i] == 0)
                <==> next.phase is AskProcess
            &&& next.phase is AskProcess ==> next.op() == Some(
                Op::ReadText {
                    path: "/proc/"@ + crate::number::decimal(header.pid) + "/agent_session"@,
                },
            )
        }),
{
}

/// Where somebody else holds the lock, the daemon tells so and ends, without reading
/// the device.
pub proof fn second_daemon_ends(
    out: Seq<char>,
    device: Seq<char>,
    quota: nat,
    told: Answer,
)
    ensures
        ({
            let lock = DaemonView::start(out, device, quota).next(Answer::Done);
            let busy = lock.next(Answer::Lock(LockOutcome::Busy));
            &&& busy.op() == Some(
                Op::Tell {
                    text: "memlog-witness: already running (lock held by another process)"@,
                },
            )
            &&& busy.next(told).phase == PhaseView::Ended(Exit::AlreadyRunning)
            &&& busy.next(told).op() is None
        }),
{
}

} // verus!
