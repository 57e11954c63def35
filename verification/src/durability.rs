//! What the writing of snapshots leaves on the disk, whenever it is cut short.
//!
//! A run is the list of its moments: the answers to its requests, and what the
//! disk held after each. Every beginning of a run is a run, so what a law says of
//! the end of a run holds at each moment, a crash included.

use vstd::prelude::*;

use crate::disk::{Files, Moment};
use crate::persistence::{AtomicView, MetaView, OpenView, SnapView, TrimView, WriterView};
use crate::storage::{Answer, EntryView, Op};

verus! {

/// The writing of a snapshot, and the disk that it writes to.
pub struct SnapState {
    pub writer: WriterView,
    pub task: SnapView,
    pub files: Files,
}

impl SnapState {
    /// The state one moment later.
    pub open spec fn at(self, moment: Moment) -> SnapState {
        SnapState {
            writer: self.task.writer_next(self.writer, moment.answer),
            task: self.task.next(self.writer, moment.answer),
            files: moment.files,
        }
    }

    /// The state after `moments`.
    pub open spec fn after(self, moments: Seq<Moment>) -> SnapState
        decreases moments.len(),
    {
        if moments.len() == 0 {
            self
        } else {
            self.after(moments.drop_last()).at(moments.last())
        }
    }

    /// The moment can come next: it carries out the request of the task.
    pub open spec fn allows(self, moment: Moment) -> bool {
        self.task.op(self.writer) matches Some(op) && crate::disk::performed(
            op,
            moment.answer,
            self.files,
            moment.files,
        )
    }

    /// The moments can come one after the other.
    pub open spec fn run(self, moments: Seq<Moment>) -> bool
        decreases moments.len(),
    {
        moments.len() > 0 ==> self.run(moments.drop_last()) && self.after(
            moments.drop_last(),
        ).allows(moments.last())
    }

    /// What the moment answers is so.
    pub open spec fn told(self, moment: Moment) -> bool {
        self.task.op(self.writer) matches Some(op) && crate::disk::truthful(
            op,
            moment.answer,
            self.files,
        )
    }

    /// The moments can come one after the other, and what they answer is so.
    pub open spec fn true_run(self, moments: Seq<Moment>) -> bool
        decreases moments.len(),
    {
        moments.len() > 0 ==> self.true_run(moments.drop_last()) && {
            let before = self.after(moments.drop_last());
            before.allows(moments.last()) && before.told(moments.last())
        }
    }
}

/// The writer `w` before it has done anything about the snapshot `data`.
pub open spec fn snap_start(w: WriterView, data: Seq<u8>, files: Files) -> SnapState {
    SnapState { writer: w, task: SnapView::WriteTemp { data }, files }
}

/// The file that `w` writes first.
pub open spec fn temporary(w: WriterView) -> Seq<char> {
    w.file("snap.tmp"@)
}

/// The file that tells that snapshots were removed.
pub open spec fn marker(w: WriterView) -> Seq<char> {
    w.file("_quota-trimmed"@)
}

/// The snapshot that `w` writes next.
pub open spec fn target(w: WriterView) -> Seq<char> {
    w.snap(w.next_seq)
}

/// What is at `path` in `files` was there in `before`.
pub open spec fn was_there(path: Seq<char>, files: Files, before: Files) -> bool {
    before.contains_key(path) && files[path] == before[path]
}

/// The names that a writer gives are those of directory entries, and differ.
pub proof fn lemma_plain_names(w: WriterView)
    requires
        w.next_seq <= u64::MAX,
    ensures
        crate::disk::plain("snap.tmp"@),
        crate::disk::plain("_quota-trimmed"@),
        forall|seq: nat| seq <= u64::MAX ==> crate::disk::plain(
            #[trigger] crate::listing::snap_name_of(seq),
        ),
        temporary(w) != target(w),
        temporary(w) != marker(w),
        marker(w) != target(w),
{
    reveal_strlit("snap.tmp");
    reveal_strlit("_quota-trimmed");
    reveal_strlit(".");
    reveal_strlit("..");
    reveal_strlit("snap-");
    reveal_strlit(".json");
    assert forall|seq: nat| seq <= u64::MAX implies crate::disk::plain(
        #[trigger] crate::listing::snap_name_of(seq),
    ) by {
        let name = crate::listing::snap_name_of(seq);
        let digits = crate::number::decimal_padded(seq, 5);
        crate::number::lemma_padded(seq, 5);
        assert forall|i: int| 0 <= i < name.len() implies name[i] != '/' by {
            if 5 <= i < 5 + digits.len() {
                assert(name[i] == digits[i - 5]);
            }
        }
    }
    let name = crate::listing::snap_name_of(w.next_seq);
    assert(name[4] == '-' && "snap.tmp"@[4] == '.' && "_quota-trimmed"@[4] == 't');
    if temporary(w) == target(w) {
        crate::disk::lemma_same_dir(w.dir, "snap.tmp"@, name);
    }
    if temporary(w) == marker(w) {
        crate::disk::lemma_same_dir(w.dir, "snap.tmp"@, "_quota-trimmed"@);
    }
    if marker(w) == target(w) {
        crate::disk::lemma_same_dir(w.dir, "_quota-trimmed"@, name);
    }
}

/// What holds at every moment of the writing of the snapshot `data` by `w`, on a
/// disk that held `before`.
spec fn snap_kept(w: WriterView, data: Seq<u8>, before: Files, s: SnapState) -> bool {
    let counted = WriterView { next_seq: w.next_seq + 1, ..w };
    match s.task {
        SnapView::WriteTemp { data: d } => d == data && s.writer == w && s.files == before,
        SnapView::Publish { data: d } => {
            &&& d == data
            &&& s.writer == w
            &&& crate::disk::same_but(s.files, before, temporary(w))
            &&& s.files.contains_key(temporary(w))
            &&& s.files[temporary(w)] == data
        },
        SnapView::Failed | SnapView::Overflow => {
            &&& s.writer == w || s.writer == counted
            &&& w.quota_bytes == 0 ==> s.writer == w
            &&& s.writer == w ==> crate::disk::same_but(s.files, before, temporary(w))
                || crate::disk::same_but(s.files, before.insert(target(w), data), temporary(w))
            &&& forall|p: Seq<char>|
                p != temporary(w) && p != marker(w) && #[trigger] s.files.contains_key(p)
                    ==> was_there(p, s.files, before.insert(target(w), data)) || was_there(
                    p,
                    s.files,
                    before,
                )
        },
        _ => {
            &&& s.writer == counted
            &&& !s.files.contains_key(temporary(w))
            &&& w.quota_bytes == 0 ==> {
                &&& s.task is Finished
                &&& crate::disk::same_but(
                    s.files,
                    before.insert(target(w), data),
                    temporary(w),
                )
            }
            &&& forall|p: Seq<char>|
                p != temporary(w) && p != marker(w) && #[trigger] s.files.contains_key(p)
                    ==> was_there(p, s.files, before.insert(target(w), data))
        },
    }
}

proof fn lemma_snap_kept(w: WriterView, data: Seq<u8>, before: Files, moments: Seq<Moment>)
    requires
        w.next_seq <= u64::MAX,
        snap_start(w, data, before).run(moments),
    ensures
        snap_kept(w, data, before, snap_start(w, data, before).after(moments)),
    decreases moments.len(),
{
    if moments.len() > 0 {
        let front = moments.drop_last();
        lemma_snap_kept(w, data, before, front);
        lemma_plain_names(w);
        let s = snap_start(w, data, before).after(front);
        let t = s.at(moments.last());
        assert(temporary(s.writer) == temporary(w));
        assert(marker(s.writer) == marker(w));
        assert(s.allows(moments.last()));
        assert(snap_kept(w, data, before, t));
    }
}

/// Until a snapshot is counted, and for good where there is no quota, the disk
/// holds what it held before, or that and the whole new snapshot, whatever the
/// temporary file holds.
pub proof fn write_is_all_or_nothing(
    w: WriterView,
    data: Seq<u8>,
    before: Files,
    moments: Seq<Moment>,
)
    requires
        w.next_seq <= u64::MAX,
        snap_start(w, data, before).run(moments),
    ensures
        ({
            let s = snap_start(w, data, before).after(moments);
            s.writer.next_seq == w.next_seq || w.quota_bytes == 0 ==> {
                ||| crate::disk::same_but(s.files, before, temporary(w))
                ||| crate::disk::same_but(s.files, before.insert(target(w), data), temporary(w))
            }
        }),
{
    lemma_snap_kept(w, data, before, moments);
}

/// Where there is no quota, the work is finished only once the whole new snapshot
/// is there and counted, beside all that was there before, and the temporary file
/// is gone.
pub proof fn finished_write_is_there(
    w: WriterView,
    data: Seq<u8>,
    before: Files,
    moments: Seq<Moment>,
)
    requires
        w.next_seq <= u64::MAX,
        w.quota_bytes == 0,
        snap_start(w, data, before).run(moments),
        snap_start(w, data, before).after(moments).task is Finished,
    ensures
        ({
            let s = snap_start(w, data, before).after(moments);
            &&& s.writer == WriterView { next_seq: w.next_seq + 1, ..w }
            &&& s.files == before.insert(target(w), data).remove(temporary(w))
            &&& s.files.contains_key(target(w))
            &&& s.files[target(w)] == data
            &&& !s.files.contains_key(temporary(w))
        }),
{
    lemma_snap_kept(w, data, before, moments);
    lemma_plain_names(w);
    let s = snap_start(w, data, before).after(moments);
    lemma_same_without(s.files, before.insert(target(w), data), temporary(w));
}

proof fn lemma_same_without(files: Files, other: Files, path: Seq<char>)
    requires
        crate::disk::same_but(files, other, path),
        !files.contains_key(path),
    ensures
        files == other.remove(path),
{
    assert forall|p: Seq<char>| #[trigger] files.contains_key(p) == other.remove(path).contains_key(
        p,
    ) by {
        if p != path {
            assert(files.contains_key(p) == other.contains_key(p));
        }
    }
    assert(files.dom() =~= other.remove(path).dom());
    assert(files =~= other.remove(path));
}

/// No file but the temporary one and the marker is ever in part written: it holds
/// what it held before, or it is the new snapshot, whole.
pub proof fn no_file_is_ever_partial(
    w: WriterView,
    data: Seq<u8>,
    before: Files,
    moments: Seq<Moment>,
    path: Seq<char>,
)
    requires
        w.next_seq <= u64::MAX,
        snap_start(w, data, before).run(moments),
        path != temporary(w),
        path != marker(w),
        snap_start(w, data, before).after(moments).files.contains_key(path),
    ensures
        ({
            let files = snap_start(w, data, before).after(moments).files;
            was_there(path, files, before) || (path == target(w) && files[path] == data)
        }),
{
    lemma_snap_kept(w, data, before, moments);
    let s = snap_start(w, data, before).after(moments);
    assert(s.files.contains_key(path));
    assert(before.insert(target(w), data).contains_key(path) || before.contains_key(path));
}

/// The writer goes on to the next number just when the rename of the snapshot is
/// done, and never back.
pub proof fn snapshots_are_counted_when_renamed(w: WriterView, task: SnapView, answer: Answer)
    requires
        w.next_seq < u64::MAX,
    ensures
        task.writer_next(w, answer) == (WriterView {
            next_seq: if task is Publish && answer is Done {
                w.next_seq + 1
            } else {
                w.next_seq
            },
            ..w
        }),
{
}

/// Without a quota, nothing is listed, weighed or removed.
pub proof fn no_quota_no_trimming(
    w: WriterView,
    data: Seq<u8>,
    before: Files,
    moments: Seq<Moment>,
)
    requires
        w.next_seq <= u64::MAX,
        w.quota_bytes == 0,
        snap_start(w, data, before).run(moments),
    ensures
        ({
            let s = snap_start(w, data, before).after(moments);
            s.task is WriteTemp || s.task is Publish || s.task.ended()
        }),
{
    lemma_snap_kept(w, data, before, moments);
}

/// The snapshots in a listing are those of its entries that are snapshots.
proof fn lemma_snaps_listed(entries: Seq<EntryView>, e: EntryView)
    ensures
        crate::listing::snaps_among(entries).contains(e) <==> (entries.contains(e)
            && crate::listing::is_snap(e.name)),
    decreases entries.len(),
{
    if entries.len() > 0 {
        let front = entries.drop_last();
        let last = entries.last();
        lemma_snaps_listed(front, e);
        assert(entries =~= front.push(last));
        assert(entries.contains(e) <==> (front.contains(e) || e == last)) by {
            vstd::seq_lib::lemma_seq_contains_after_push(front, last, e);
        }
        let snaps = crate::listing::snaps_among(front);
        if crate::listing::is_snap(last.name) {
            vstd::seq_lib::lemma_seq_contains_after_push(snaps, last, e);
        }
    }
}

/// Sorting the snapshots keeps them.
pub proof fn lemma_sorted_snaps_listed(entries: Seq<EntryView>, e: EntryView)
    ensures
        crate::listing::snaps_by_age(entries).contains(e) <==> (entries.contains(e)
            && crate::listing::is_snap(e.name)),
{
    broadcast use vstd::seq_lib::group_to_multiset_ensures;

    let snaps = crate::listing::snaps_among(entries);
    let named = crate::listing::snaps_by_name(entries);
    let sorted = crate::listing::snaps_by_age(entries);
    lemma_snaps_listed(entries, e);
    crate::order::sorting_keeps_the_items(snaps, crate::listing::by_name());
    crate::order::sorting_keeps_the_items(named, crate::listing::by_seq());
    assert(sorted.contains(e) <==> sorted.to_multiset().count(e) > 0);
    assert(snaps.contains(e) <==> snaps.to_multiset().count(e) > 0);
}

/// A file of the session that is neither the temporary file nor the marker nor a
/// snapshot.
pub open spec fn other_file(w: WriterView, path: Seq<char>) -> bool {
    &&& path != temporary(w)
    &&& path != marker(w)
    &&& forall|name: Seq<char>| crate::listing::is_snap(name) ==> path != #[trigger] w.file(name)
}

spec fn trim_of(task: SnapView) -> Seq<EntryView> {
    match task {
        SnapView::FindMarker { trim } => trim.snaps,
        SnapView::MakeMarker { trim } => trim.snaps,
        SnapView::Weigh { trim } => trim.snaps,
        SnapView::Remove { trim, size } => trim.snaps,
        _ => seq![],
    }
}

spec fn others_kept(w: WriterView, before: Files, s: SnapState) -> bool {
    &&& s.writer.dir == w.dir
    &&& s.writer.next_seq <= u64::MAX
    &&& s.task.valid()
    &&& forall|i: int| #![trigger trim_of(s.task)[i]]
        0 <= i < trim_of(s.task).len() ==> crate::listing::is_snap(trim_of(s.task)[i].name)
    &&& forall|p: Seq<char>| #![trigger s.files.contains_key(p)]
        other_file(w, p) ==> {
            &&& s.files.contains_key(p) == before.contains_key(p)
            &&& s.files.contains_key(p) ==> s.files[p] == before[p]
        }
}

proof fn lemma_others_step(w: WriterView, before: Files, s: SnapState, moment: Moment)
    requires
        others_kept(w, before, s),
        s.allows(moment),
    ensures
        others_kept(w, before, s.at(moment)),
{
    let t = s.at(moment);
    assert(temporary(s.writer) == temporary(w));
    assert(marker(s.writer) == marker(w));
    assert(forall|name: Seq<char>| s.writer.file(name) == #[trigger] w.file(name));
    crate::listing::snap_name_round_trips(s.writer.next_seq);
    match s.task {
        SnapView::Publish { data } => {
            assert(target(s.writer) == w.file(crate::listing::snap_name_of(s.writer.next_seq)));
        },
        SnapView::Survey => {
            if let Answer::Listing(entries) = moment.answer {
                let snaps = crate::listing::snaps_by_age(entries);
                assert forall|i: int| #![trigger trim_of(t.task)[i]]
                    0 <= i < trim_of(t.task).len() implies crate::listing::is_snap(
                    trim_of(t.task)[i].name,
                ) by {
                    assert(snaps.contains(snaps[i]));
                    lemma_sorted_snaps_listed(entries, snaps[i]);
                }
            }
        },
        SnapView::Remove { trim, size } => {
            assert(crate::listing::is_snap(trim_of(s.task)[0].name));
            assert(w.file(trim.snaps[0].name) == s.writer.file(trim.snaps[0].name));
            assert forall|i: int| #![trigger trim_of(t.task)[i]]
                0 <= i < trim_of(t.task).len() implies crate::listing::is_snap(
                trim_of(t.task)[i].name,
            ) by {
                assert(trim_of(t.task)[i] == trim_of(s.task)[i + 1]);
            }
        },
        SnapView::Weigh { trim } => {
            assert(forall|i: int| 0 <= i < trim.snaps.len() ==> trim_of(t.task)[i] == trim_of(
                s.task,
            )[i]);
        },
        _ => {
            assert(trim_of(t.task) =~= trim_of(s.task) || trim_of(t.task).len() == 0);
        },
    }
}

/// Writing a snapshot, with all the trimming that follows, leaves every other
/// file alone.
pub proof fn other_files_stay(
    w: WriterView,
    data: Seq<u8>,
    before: Files,
    moments: Seq<Moment>,
    path: Seq<char>,
)
    requires
        w.next_seq <= u64::MAX,
        snap_start(w, data, before).run(moments),
        other_file(w, path),
    ensures
        ({
            let files = snap_start(w, data, before).after(moments).files;
            &&& files.contains_key(path) == before.contains_key(path)
            &&& files.contains_key(path) ==> files[path] == before[path]
        }),
{
    lemma_others_kept(w, data, before, moments);
    let s = snap_start(w, data, before).after(moments);
    assert(s.files.contains_key(path) == before.contains_key(path));
}

proof fn lemma_others_kept(w: WriterView, data: Seq<u8>, before: Files, moments: Seq<Moment>)
    requires
        w.next_seq <= u64::MAX,
        snap_start(w, data, before).run(moments),
    ensures
        others_kept(w, before, snap_start(w, data, before).after(moments)),
    decreases moments.len(),
{
    if moments.len() > 0 {
        lemma_others_kept(w, data, before, moments.drop_last());
        lemma_others_step(
            w,
            before,
            snap_start(w, data, before).after(moments.drop_last()),
            moments.last(),
        );
    }
}

/// How many of the snapshots, from the oldest on, go until what is left takes less
/// than the quota together with the `others` bytes that stay.
pub open spec fn surplus(quota_bytes: nat, others: nat, snaps: Seq<EntryView>) -> nat
    decreases snaps.len(),
{
    if snaps.len() == 0 || others + crate::listing::sizes(snaps) < quota_bytes {
        0
    } else {
        1 + surplus(quota_bytes, others, snaps.drop_first())
    }
}

/// The files take more than the quota.
pub open spec fn exceeded(quota_bytes: nat, others: nat, snaps: Seq<EntryView>) -> bool {
    others + crate::listing::sizes(snaps) > quota_bytes
}

/// How many of the snapshots, from the oldest on, have to go: none unless the files
/// take more than the quota.
pub open spec fn removals(quota_bytes: nat, others: nat, snaps: Seq<EntryView>) -> nat {
    if exceeded(quota_bytes, others, snaps) {
        surplus(quota_bytes, others, snaps)
    } else {
        0
    }
}

proof fn lemma_sizes_first(snaps: Seq<EntryView>)
    requires
        snaps.len() > 0,
    ensures
        crate::listing::sizes(snaps) == crate::listing::size_of_entry(snaps[0])
            + crate::listing::sizes(snaps.drop_first()),
    decreases snaps.len(),
{
    let rest = snaps.drop_first();
    if rest.len() > 0 {
        lemma_sizes_first(snaps.drop_last());
        assert(snaps.drop_last().drop_first() =~= rest.drop_last());
        assert(rest.last() == snaps.last());
        assert(snaps.drop_last()[0] == snaps[0]);
    } else {
        assert(crate::listing::sizes(snaps.drop_last()) == 0);
        assert(crate::listing::sizes(rest) == 0);
    }
}

/// The surplus is the least number of snapshots whose removal brings what the files
/// take below the quota, or all of them if none does.
pub proof fn surplus_is_the_least(quota_bytes: nat, others: nat, snaps: Seq<EntryView>)
    ensures
        ({
            let n = surplus(quota_bytes, others, snaps) as int;
            &&& n <= snaps.len()
            &&& n == snaps.len() || others + crate::listing::sizes(snaps.skip(n)) < quota_bytes
            &&& forall|k: int|
                0 <= k < n ==> others + crate::listing::sizes(#[trigger] snaps.skip(k))
                    >= quota_bytes
        }),
    decreases snaps.len(),
{
    assert(snaps.skip(0) =~= snaps);
    if snaps.len() > 0 && others + crate::listing::sizes(snaps) >= quota_bytes {
        let rest = snaps.drop_first();
        let n = surplus(quota_bytes, others, rest);
        surplus_is_the_least(quota_bytes, others, rest);
        assert(rest.skip(n as int) =~= snaps.skip(n as int + 1));
        assert forall|k: int| 0 <= k < n + 1 implies others + crate::listing::sizes(
            #[trigger] snaps.skip(k),
        ) >= quota_bytes by {
            if k > 0 {
                assert(rest.skip(k - 1) =~= snaps.skip(k));
            }
        }
    }
}

/// `name` is that of one of the first `count` entries.
pub open spec fn among_first(entries: Seq<EntryView>, count: int, name: Seq<char>) -> bool {
    exists|i: int| 0 <= i < count && i < entries.len() && (#[trigger] entries[i]).name == name
}

/// Of the files in the directory of `w`, `files` holds what `before` held, but for
/// the first `count` of the snapshots and perhaps the marker.
pub open spec fn without_first(
    w: WriterView,
    before: Files,
    files: Files,
    snaps: Seq<EntryView>,
    count: int,
) -> bool {
    forall|name: Seq<char>| #![trigger w.file(name)]
        crate::disk::plain(name) && name != "_quota-trimmed"@ ==> {
            let path = w.file(name);
            &&& files.contains_key(path) <==> (before.contains_key(path) && !among_first(
                snaps,
                count,
                name,
            ))
            &&& files.contains_key(path) ==> files[path] == before[path]
        }
}

spec fn trim_kept(
    w: WriterView,
    others: nat,
    snaps: Seq<EntryView>,
    before: Files,
    s: SnapState,
) -> bool {
    let done = |trim: TrimView| snaps.len() - trim.snaps.len();
    let held = |trim: TrimView|
        {
            &&& 0 <= done(trim)
            &&& exceeded(w.quota_bytes, others, snaps)
            &&& trim.snaps == snaps.skip(done(trim))
            &&& trim.total == others + crate::listing::sizes(trim.snaps)
            &&& surplus(w.quota_bytes, others, snaps) == done(trim) + surplus(
                w.quota_bytes,
                others,
                trim.snaps,
            )
        };
    &&& s.writer == w
    &&& match s.task {
        SnapView::FindMarker { trim } => trim.snaps == snaps && held(trim) && s.files == before,
        SnapView::MakeMarker { trim } => {
            &&& trim.snaps == snaps && held(trim) && s.files == before
            &&& !before.contains_key(marker(w))
        },
        SnapView::Weigh { trim } => {
            &&& held(trim)
            &&& trim.total >= w.quota_bytes
            &&& trim.snaps.len() > 0
            &&& without_first(w, before, s.files, snaps, done(trim))
            &&& s.files.contains_key(marker(w))
            &&& before.contains_key(marker(w)) ==> s.files[marker(w)] == before[marker(w)]
        },
        SnapView::Remove { trim, size } => {
            &&& held(trim)
            &&& trim.total >= w.quota_bytes
            &&& trim.snaps.len() > 0
            &&& size == crate::listing::size_of_entry(trim.snaps[0])
            &&& without_first(w, before, s.files, snaps, done(trim))
            &&& s.files.contains_key(marker(w))
            &&& before.contains_key(marker(w)) ==> s.files[marker(w)] == before[marker(w)]
        },
        SnapView::Finished => {
            let count = removals(w.quota_bytes, others, snaps) as int;
            &&& without_first(w, before, s.files, snaps, count)
            &&& exceeded(w.quota_bytes, others, snaps) ==> s.files.contains_key(marker(w))
            &&& before.contains_key(marker(w)) ==> s.files.contains_key(marker(w))
                && s.files[marker(w)] == before[marker(w)]
        },
        SnapView::Failed | SnapView::Overflow => true,
        _ => false,
    }
}

/// The snapshots that a listing shows are there, with the sizes that it shows.
spec fn snaps_there(w: WriterView, snaps: Seq<EntryView>, before: Files) -> bool {
    forall|i: int| #![trigger snaps[i]]
        0 <= i < snaps.len() ==> {
            &&& crate::disk::plain(snaps[i].name)
            &&& snaps[i].name != "_quota-trimmed"@
            &&& before.contains_key(w.file(snaps[i].name))
            &&& crate::listing::size_of_entry(snaps[i]) == before[w.file(snaps[i].name)].len()
        }
}

proof fn lemma_snaps_there(w: WriterView, entries: Seq<EntryView>, before: Files)
    requires
        crate::disk::lists(entries, w.dir, before),
    ensures
        snaps_there(w, crate::listing::snaps_by_age(entries), before),
{
    let snaps = crate::listing::snaps_by_age(entries);
    reveal_strlit("snap-");
    reveal_strlit("_quota-trimmed");
    assert forall|i: int| #![trigger snaps[i]] 0 <= i < snaps.len() implies {
        &&& crate::disk::plain(snaps[i].name)
        &&& snaps[i].name != "_quota-trimmed"@
        &&& before.contains_key(w.file(snaps[i].name))
        &&& crate::listing::size_of_entry(snaps[i]) == before[w.file(snaps[i].name)].len()
    } by {
        assert(snaps.contains(snaps[i]));
        lemma_sorted_snaps_listed(entries, snaps[i]);
        let j = choose|j: int| 0 <= j < entries.len() && entries[j] == snaps[i];
        assert(crate::disk::plain(entries[j].name));
        assert(crate::listing::is_snap(snaps[i].name));
        assert("snap-"@[0] == snaps[i].name.subrange(0, 5)[0]);
    }
}

proof fn lemma_trim_goes_on(
    w: WriterView,
    others: nat,
    snaps: Seq<EntryView>,
    before: Files,
    files: Files,
    trim: TrimView,
)
    requires
        ({
            let done = snaps.len() - trim.snaps.len();
            &&& 0 <= done
            &&& exceeded(w.quota_bytes, others, snaps)
            &&& trim.snaps == snaps.skip(done)
            &&& trim.total == others + crate::listing::sizes(trim.snaps)
            &&& surplus(w.quota_bytes, others, snaps) == done + surplus(
                w.quota_bytes,
                others,
                trim.snaps,
            )
            &&& without_first(w, before, files, snaps, done)
            &&& files.contains_key(marker(w))
            &&& before.contains_key(marker(w)) ==> files[marker(w)] == before[marker(w)]
        }),
    ensures
        trim_kept(
            w,
            others,
            snaps,
            before,
            SnapState { writer: w, task: crate::persistence::trimming(w.quota_bytes, trim), files },
        ),
{
}

proof fn lemma_trim_step(
    w: WriterView,
    others: nat,
    snaps: Seq<EntryView>,
    before: Files,
    s: SnapState,
    moment: Moment,
)
    requires
        snaps_there(w, snaps, before),
        trim_kept(w, others, snaps, before, s),
        s.allows(moment),
        s.told(moment),
    ensures
        trim_kept(w, others, snaps, before, s.at(moment)),
{
    let t = s.at(moment);
    lemma_marker_is_plain();
    match s.task {
        SnapView::FindMarker { trim } => {
            if s.files.contains_key(marker(w)) {
                assert(trim.snaps.len() == snaps.len());
                lemma_trim_goes_on(w, others, snaps, before, t.files, trim);
            }
        },
        SnapView::MakeMarker { trim } => {
            if moment.answer is Done {
                assert forall|name: Seq<char>| #![trigger w.file(name)]
                    crate::disk::plain(name) && name != "_quota-trimmed"@ implies w.file(name)
                    != marker(w) by {
                    if w.file(name) == marker(w) {
                        crate::disk::lemma_same_dir(w.dir, name, "_quota-trimmed"@);
                    }
                }
                lemma_trim_goes_on(w, others, snaps, before, t.files, trim);
            }
        },
        SnapView::Weigh { trim } => {
            let k = snaps.len() - trim.snaps.len();
            assert(trim.snaps[0] == snaps[k]);
            assert(s.files[w.file(snaps[k].name)] == before[w.file(snaps[k].name)]);
        },
        SnapView::Remove { trim, size } => {
            if moment.answer is Done {
                let k = snaps.len() - trim.snaps.len();
                let rest = crate::persistence::without_oldest(trim, size);
                let gone = snaps[k].name;
                assert(trim.snaps[0] == snaps[k]);
                lemma_sizes_first(trim.snaps);
                assert(rest.snaps =~= snaps.skip(k + 1));
                assert forall|name: Seq<char>| #![trigger w.file(name)]
                    crate::disk::plain(name) && name != "_quota-trimmed"@ implies {
                    let path = w.file(name);
                    &&& t.files.contains_key(path) <==> (before.contains_key(path) && !among_first(
                        snaps,
                        k + 1,
                        name,
                    ))
                    &&& t.files.contains_key(path) ==> t.files[path] == before[path]
                } by {
                    if name == gone {
                        assert(snaps[k].name == name);
                    } else {
                        if w.file(name) == w.file(gone) {
                            crate::disk::lemma_same_dir(w.dir, name, gone);
                        }
                        if among_first(snaps, k + 1, name) {
                            let i = choose|i: int|
                                0 <= i < k + 1 && i < snaps.len() && (#[trigger] snaps[i]).name
                                    == name;
                            assert(i < k);
                            assert(among_first(snaps, k, name));
                        }
                        if among_first(snaps, k, name) {
                            let i = choose|i: int|
                                0 <= i < k && i < snaps.len() && (#[trigger] snaps[i]).name == name;
                            assert(among_first(snaps, k + 1, name));
                        }
                    }
                }
                if marker(w) == w.file(gone) {
                    crate::disk::lemma_same_dir(w.dir, "_quota-trimmed"@, gone);
                }
                lemma_trim_goes_on(w, others, snaps, before, t.files, rest);
            }
        },
        _ => {},
    }
}

/// The marker's name is that of a directory entry.
pub proof fn lemma_marker_is_plain()
    ensures
        crate::disk::plain("_quota-trimmed"@),
{
    reveal_strlit("_quota-trimmed");
    reveal_strlit(".");
    reveal_strlit("..");
    let name = "_quota-trimmed"@;
    assert(name.len() == 14 && "."@.len() == 1 && ".."@.len() == 2);
    assert(forall|i: int| 0 <= i < name.len() ==> name[i] != '/');
}

/// The quota of `w` about to be enforced, `entries` being the listing of its
/// directory.
pub open spec fn trim_start(w: WriterView, entries: Seq<EntryView>, files: Files) -> SnapState {
    SnapState { writer: w, task: crate::persistence::surveyed(w.quota_bytes, entries), files }
}

proof fn lemma_trim_kept(
    w: WriterView,
    entries: Seq<EntryView>,
    before: Files,
    moments: Seq<Moment>,
)
    requires
        crate::disk::lists(entries, w.dir, before),
        trim_start(w, entries, before).true_run(moments),
    ensures
        trim_kept(
            w,
            crate::listing::sizes(crate::listing::others_among(entries)),
            crate::listing::snaps_by_age(entries),
            before,
            trim_start(w, entries, before).after(moments),
        ),
    decreases moments.len(),
{
    let others = crate::listing::sizes(crate::listing::others_among(entries));
    let snaps = crate::listing::snaps_by_age(entries);
    let start = trim_start(w, entries, before);
    if moments.len() == 0 {
        crate::listing::sizes_add_up(entries);
        assert(snaps.skip(0) =~= snaps);
    } else {
        lemma_trim_kept(w, entries, before, moments.drop_last());
        lemma_snaps_there(w, entries, before);
        lemma_trim_step(w, others, snaps, before, start.after(moments.drop_last()), moments.last());
    }
}

/// What the enforcement of a quota makes of the directory of `w`, `entries` being
/// its listing and `before` what it held: if its files take no more than the quota,
/// nothing changes; else the marker is there, and the oldest snapshots are gone,
/// just as many as have to go for what is left to take less than the quota. A marker
/// that was there is left as it was.
pub open spec fn trimmed(
    w: WriterView,
    entries: Seq<EntryView>,
    before: Files,
    files: Files,
) -> bool {
    let others = crate::listing::sizes(crate::listing::others_among(entries));
    let snaps = crate::listing::snaps_by_age(entries);
    let count = removals(w.quota_bytes, others, snaps) as int;
    let exceeds = crate::listing::sizes(entries) > w.quota_bytes;
    &&& without_first(w, before, files, snaps, count)
    &&& before.contains_key(marker(w)) ==> files.contains_key(marker(w)) && files[marker(w)]
        == before[marker(w)]
    &&& !exceeds ==> count == 0
    &&& exceeds ==> {
        &&& files.contains_key(marker(w))
        &&& count == snaps.len() || others + crate::listing::sizes(snaps.skip(count))
            < w.quota_bytes
        &&& forall|k: int|
            0 <= k < count ==> others + crate::listing::sizes(#[trigger] snaps.skip(k))
                >= w.quota_bytes
    }
}

/// Once the quota of a session is enforced, its directory is trimmed; what went was
/// not younger than any snapshot that is left.
pub proof fn trimming_keeps_the_newest(
    w: WriterView,
    entries: Seq<EntryView>,
    before: Files,
    moments: Seq<Moment>,
)
    requires
        crate::disk::lists(entries, w.dir, before),
        trim_start(w, entries, before).true_run(moments),
        trim_start(w, entries, before).after(moments).task is Finished,
    ensures
        trimmed(w, entries, before, trim_start(w, entries, before).after(moments).files),
        ({
            let snaps = crate::listing::snaps_by_age(entries);
            forall|i: int, j: int|
                0 <= i <= j < snaps.len() ==> crate::order::may_precede(
                    #[trigger] snaps[i],
                    #[trigger] snaps[j],
                    crate::listing::by_seq(),
                    crate::listing::by_name(),
                )
        }),
{
    let others = crate::listing::sizes(crate::listing::others_among(entries));
    let snaps = crate::listing::snaps_by_age(entries);
    lemma_trim_kept(w, entries, before, moments);
    crate::listing::sizes_add_up(entries);
    surplus_is_the_least(w.quota_bytes, others, snaps);
    crate::listing::snapshots_stand_by_age(entries);
}

proof fn lemma_run_splits(s: SnapState, moments: Seq<Moment>, n: int)
    requires
        0 <= n <= moments.len(),
        s.true_run(moments),
    ensures
        s.true_run(moments.take(n)),
        s.after(moments) == s.after(moments.take(n)).after(moments.skip(n)),
        s.after(moments.take(n)).true_run(moments.skip(n)),
    decreases moments.len(),
{
    if n == moments.len() {
        assert(moments.take(n) =~= moments);
        assert(moments.skip(n).len() == 0);
    } else {
        let front = moments.drop_last();
        lemma_run_splits(s, front, n);
        assert(front.take(n) =~= moments.take(n));
        assert(moments.skip(n).drop_last() =~= front.skip(n));
        assert(moments.skip(n).last() == moments.last());
    }
}

/// One more moment of a true run.
proof fn lemma_next_moment(s: SnapState, moments: Seq<Moment>, n: int)
    requires
        0 <= n < moments.len(),
        s.true_run(moments),
    ensures
        s.after(moments.take(n + 1)) == s.after(moments.take(n)).at(moments[n]),
        s.after(moments.take(n)).allows(moments[n]),
        s.after(moments.take(n)).told(moments[n]),
{
    lemma_run_splits(s, moments, n + 1);
    assert(moments.take(n + 1).drop_last() =~= moments.take(n));
    assert(moments.take(n + 1).last() == moments[n]);
}

proof fn lemma_three_moments(w: WriterView, data: Seq<u8>, before: Files, moments: Seq<Moment>)
    requires
        w.quota_bytes > 0,
        snap_start(w, data, before).true_run(moments),
        snap_start(w, data, before).after(moments).task is Finished,
    ensures
        moments.len() >= 3,
        moments[2].answer is Listing,
        ({
            let start = snap_start(w, data, before);
            let s = start.after(moments.take(2));
            let t = start.after(moments.take(3));
            &&& s.task is Survey
            &&& s.files == moments[1].files
            &&& s.told(moments[2])
            &&& t == s.at(moments[2])
            &&& t.files == s.files
        }),
{
    let start = snap_start(w, data, before);
    let len = moments.len() as int;
    assert(moments.take(len) =~= moments);
    assert(start.after(moments.take(0)) == start);
    if len >= 1 {
        lemma_next_moment(start, moments, 0);
    }
    if len >= 2 {
        lemma_next_moment(start, moments, 1);
    }
    if len >= 3 {
        lemma_next_moment(start, moments, 2);
    }
}

/// Once a snapshot is written under a quota, the directory holds what it held
/// before and the whole new snapshot, trimmed.
pub proof fn finished_write_is_trimmed(
    w: WriterView,
    data: Seq<u8>,
    before: Files,
    moments: Seq<Moment>,
)
    requires
        w.next_seq <= u64::MAX,
        w.quota_bytes > 0,
        snap_start(w, data, before).true_run(moments),
        snap_start(w, data, before).after(moments).task is Finished,
    ensures
        moments.len() >= 3,
        moments[2].answer is Listing,
        ({
            let s = snap_start(w, data, before).after(moments);
            let published = moments[1].files;
            let entries = moments[2].answer->Listing_0;
            &&& s.writer == WriterView { next_seq: w.next_seq + 1, ..w }
            &&& published == before.insert(target(w), data).remove(temporary(w))
            &&& crate::disk::lists(entries, w.dir, published)
            &&& trimmed(w, entries, published, s.files)
        }),
{
    let start = snap_start(w, data, before);
    lemma_three_moments(w, data, before, moments);
    lemma_runs_are_true(start, moments);
    lemma_run_splits(start, moments, 3);
    lemma_run_splits(start, moments, 2);
    lemma_runs_are_true(start, moments.take(2));
    lemma_snap_kept(w, data, before, moments);
    lemma_snap_kept(w, data, before, moments.take(2));
    lemma_published(w, data, before, moments);
    lemma_same_without(moments[1].files, before.insert(target(w), data), temporary(w));
    let counted = WriterView { next_seq: w.next_seq + 1, ..w };
    let entries = moments[2].answer->Listing_0;
    assert(start.after(moments.take(3)) == trim_start(counted, entries, moments[1].files));
    trimming_keeps_the_newest(counted, entries, moments[1].files, moments.skip(3));
    let others = crate::listing::sizes(crate::listing::others_among(entries));
    let snaps = crate::listing::snaps_by_age(entries);
    let count = removals(w.quota_bytes, others, snaps) as int;
    let files = start.after(moments).files;
    assert forall|name: Seq<char>| #![trigger w.file(name)]
        crate::disk::plain(name) && name != "_quota-trimmed"@ implies {
        let path = w.file(name);
        &&& files.contains_key(path) <==> (moments[1].files.contains_key(path) && !among_first(
            snaps,
            count,
            name,
        ))
        &&& files.contains_key(path) ==> files[path] == moments[1].files[path]
    } by {
        assert(counted.file(name) == w.file(name));
    }
    assert(marker(counted) == marker(w));
}

/// A true run is a run.
proof fn lemma_runs_are_true(s: SnapState, moments: Seq<Moment>)
    requires
        s.true_run(moments),
    ensures
        s.run(moments),
    decreases moments.len(),
{
    if moments.len() > 0 {
        lemma_runs_are_true(s, moments.drop_last());
    }
}

proof fn lemma_published(w: WriterView, data: Seq<u8>, before: Files, moments: Seq<Moment>)
    requires
        w.next_seq <= u64::MAX,
        moments.len() >= 2,
        snap_start(w, data, before).run(moments.take(2)),
        snap_start(w, data, before).after(moments.take(2)).task is Survey,
    ensures
        crate::disk::same_but(
            moments[1].files,
            before.insert(target(w), data),
            temporary(w),
        ),
{
    let start = snap_start(w, data, before);
    let two = moments.take(2);
    let one = two.drop_last();
    assert(two.last() == moments[1]);
    lemma_snap_kept(w, data, before, one);
    lemma_plain_names(w);
    let s = start.after(one);
    assert(start.run(one));
    assert(s.allows(moments[1]));
    assert(s.task is Publish || s.task is WriteTemp) by {
        assert(one.drop_last().len() == 0);
        reveal_with_fuel(SnapState::after, 3);
    }
}

/// A snapshot is weighed only while the files take the quota or more, and removed
/// only after it was weighed.
pub proof fn snapshots_go_only_for_room(w: WriterView, task: SnapView, answer: Answer)
    requires
        !task.ended(),
    ensures
        task.next(w, answer) matches SnapView::Weigh { trim } ==> trim.total >= w.quota_bytes,
        task.next(w, answer) matches SnapView::Remove { trim, size } ==> task
            == (SnapView::Weigh { trim }),
{
}

/// How many requests the enforcement of a quota may still make.
pub open spec fn requests_left(task: SnapView) -> nat {
    match task {
        SnapView::FindMarker { trim } => 2 * trim.snaps.len() + 2,
        SnapView::MakeMarker { trim } => 2 * trim.snaps.len() + 1,
        SnapView::Weigh { trim } => 2 * trim.snaps.len(),
        SnapView::Remove { trim, size } => (2 * trim.snaps.len() - 1) as nat,
        _ => 0,
    }
}

/// The enforcement of a quota comes to its end, whatever is answered.
pub proof fn trimming_ends(w: WriterView, task: SnapView, answer: Answer)
    requires
        task.valid(),
        task is FindMarker || task is MakeMarker || task is Weigh || task is Remove,
    ensures
        requests_left(task.next(w, answer)) < requests_left(task),
        requests_left(task.next(w, answer)) == 0 ==> task.next(w, answer).ended(),
{
}

/// No snapshot with a number that `w` has yet to give is there.
pub open spec fn names_free(w: WriterView, files: Files) -> bool {
    forall|seq: nat|
        w.next_seq <= seq <= u64::MAX ==> !files.contains_key(#[trigger] w.snap(seq))
}

/// A writer that was opened on a true listing has free names before it, whatever
/// else an earlier run left behind.
pub proof fn opening_finds_free_names(
    dir: Seq<char>,
    quota_bytes: nat,
    entries: Seq<EntryView>,
    files: Files,
)
    requires
        crate::disk::lists(entries, dir, files),
    ensures
        (OpenView::Probe { dir, quota_bytes }).next(Answer::Listing(entries)) matches OpenView::Opened(
            w,
        ) ==> names_free(w, files),
{
    if let OpenView::Opened(w) = (OpenView::Probe { dir, quota_bytes }).next(
        Answer::Listing(entries),
    ) {
        assert forall|seq: nat| w.next_seq <= seq <= u64::MAX implies !files.contains_key(
            #[trigger] w.snap(seq),
        ) by {
            let name = crate::listing::snap_name_of(seq);
            crate::listing::highest_seq_is_the_highest(entries);
            lemma_plain_names(w);
            if files.contains_key(crate::path::joined(dir, name)) {
                let i = choose|i: int|
                    0 <= i < entries.len() && (#[trigger] entries[i]).name == name;
                crate::listing::next_names_are_free(entries, seq, i);
            }
        }
    }
}

/// Snapshots of one writer with one path have one number.
pub proof fn lemma_snaps_apart(w: WriterView, a: nat, b: nat)
    requires
        a <= u64::MAX,
        b <= u64::MAX,
        w.snap(a) == w.snap(b),
        w.next_seq <= u64::MAX,
    ensures
        a == b,
{
    lemma_plain_names(w);
    crate::disk::lemma_same_dir(
        w.dir,
        crate::listing::snap_name_of(a),
        crate::listing::snap_name_of(b),
    );
    crate::listing::snap_names_differ(a, b);
}

/// Writing a snapshot leaves the names after it free, unless it fails.
pub proof fn writing_keeps_names_free(
    w: WriterView,
    data: Seq<u8>,
    before: Files,
    moments: Seq<Moment>,
)
    requires
        w.next_seq <= u64::MAX,
        names_free(w, before),
        snap_start(w, data, before).run(moments),
    ensures
        ({
            let s = snap_start(w, data, before).after(moments);
            s.task is Failed || s.task is Overflow || names_free(s.writer, s.files)
        }),
{
    lemma_snap_kept(w, data, before, moments);
    let s = snap_start(w, data, before).after(moments);
    if s.task !is Failed && s.task !is Overflow {
        assert forall|seq: nat|
            s.writer.next_seq <= seq <= u64::MAX implies !s.files.contains_key(
            #[trigger] s.writer.snap(seq),
        ) by {
            let at = WriterView { next_seq: seq, ..w };
            lemma_plain_names(at);
            assert(w.snap(seq) == target(at));
            assert(temporary(w) == temporary(at) && marker(w) == marker(at));
            assert(!before.contains_key(w.snap(seq)));
            if w.snap(seq) == target(w) && s.writer != w {
                lemma_snaps_apart(w, seq, w.next_seq);
            }
        }
    }
}

/// A writer with free names before it overwrites no file: what was there is there
/// unchanged, or was removed to make room.
pub proof fn no_file_is_overwritten(
    w: WriterView,
    data: Seq<u8>,
    before: Files,
    moments: Seq<Moment>,
    path: Seq<char>,
)
    requires
        w.next_seq <= u64::MAX,
        names_free(w, before),
        snap_start(w, data, before).run(moments),
        path != temporary(w),
        path != marker(w),
        before.contains_key(path),
    ensures
        ({
            let files = snap_start(w, data, before).after(moments).files;
            files.contains_key(path) ==> files[path] == before[path]
        }),
{
    let files = snap_start(w, data, before).after(moments).files;
    assert(!before.contains_key(w.snap(w.next_seq)));
    if files.contains_key(path) {
        no_file_is_ever_partial(w, data, before, moments, path);
    }
}

/// The atomic write of one file, and the disk that it writes to.
pub struct AtomicState {
    pub task: AtomicView,
    pub files: Files,
}

impl AtomicState {
    /// The state one moment later.
    pub open spec fn at(self, moment: Moment) -> AtomicState {
        AtomicState { task: self.task.next(moment.answer), files: moment.files }
    }

    /// The state after `moments`.
    pub open spec fn after(self, moments: Seq<Moment>) -> AtomicState
        decreases moments.len(),
    {
        if moments.len() == 0 {
            self
        } else {
            self.after(moments.drop_last()).at(moments.last())
        }
    }

    /// The moments can come one after the other.
    pub open spec fn run(self, moments: Seq<Moment>) -> bool
        decreases moments.len(),
    {
        moments.len() > 0 ==> self.run(moments.drop_last()) && {
            let before = self.after(moments.drop_last());
            before.task.op() matches Some(op) && crate::disk::performed(
                op,
                moments.last().answer,
                before.files,
                moments.last().files,
            )
        }
    }
}

spec fn atomic_kept(
    tmp: Seq<char>,
    dst: Seq<char>,
    data: Seq<u8>,
    before: Files,
    s: AtomicState,
) -> bool {
    match s.task {
        AtomicView::WriteTemp { tmp: t, dst: d, data: b } => {
            t == tmp && d == dst && b == data && s.files == before
        },
        AtomicView::Publish { tmp: t, dst: d } => {
            &&& t == tmp && d == dst
            &&& crate::disk::same_but(s.files, before, tmp)
            &&& s.files.contains_key(tmp)
            &&& s.files[tmp] == data
        },
        AtomicView::Finished => {
            &&& crate::disk::same_but(s.files, before.insert(dst, data), tmp)
            &&& !s.files.contains_key(tmp)
        },
        AtomicView::Failed => {
            ||| crate::disk::same_but(s.files, before, tmp)
            ||| crate::disk::same_but(s.files, before.insert(dst, data), tmp)
        },
    }
}

/// At every moment of an atomic write the disk holds what it held before, or that
/// and the whole file, whatever the temporary file holds; at its end the file is
/// there and the temporary one is gone.
pub proof fn atomic_write_is_all_or_nothing(
    tmp: Seq<char>,
    dst: Seq<char>,
    data: Seq<u8>,
    before: Files,
    moments: Seq<Moment>,
)
    requires
        tmp != dst,
        (AtomicState { task: AtomicView::WriteTemp { tmp, dst, data }, files: before }).run(moments),
    ensures
        ({
            let start = AtomicState {
                task: AtomicView::WriteTemp { tmp, dst, data },
                files: before,
            };
            let s = start.after(moments);
            let whole = crate::disk::same_but(s.files, before.insert(dst, data), tmp);
            &&& crate::disk::same_but(s.files, before, tmp) || whole
            &&& s.task is Finished ==> whole && s.files == before.insert(dst, data).remove(tmp)
        }),
{
    lemma_atomic_kept(tmp, dst, data, before, moments);
    let start = AtomicState { task: AtomicView::WriteTemp { tmp, dst, data }, files: before };
    let s = start.after(moments);
    if s.task is Finished {
        lemma_same_without(s.files, before.insert(dst, data), tmp);
    }
}

proof fn lemma_atomic_kept(
    tmp: Seq<char>,
    dst: Seq<char>,
    data: Seq<u8>,
    before: Files,
    moments: Seq<Moment>,
)
    requires
        tmp != dst,
        (AtomicState { task: AtomicView::WriteTemp { tmp, dst, data }, files: before }).run(moments),
    ensures
        atomic_kept(
            tmp,
            dst,
            data,
            before,
            (AtomicState { task: AtomicView::WriteTemp { tmp, dst, data }, files: before }).after(
                moments,
            ),
        ),
    decreases moments.len(),
{
    if moments.len() > 0 {
        lemma_atomic_kept(tmp, dst, data, before, moments.drop_last());
    }
}

/// The temporary file of an overrun's sentinel is not the sentinel.
pub proof fn overrun_paths_differ(w: WriterView, seq: nat)
    ensures
        w.file("overrun.tmp"@) != w.file(crate::persistence::overrun_name_of(seq)),
{
    reveal_strlit("overrun.tmp");
    reveal_strlit("_overrun-");
    reveal_strlit("/");
    let a = "overrun.tmp"@;
    let b = crate::persistence::overrun_name_of(seq);
    let x = w.file(a);
    let y = w.file(b);
    assert(a[0] == 'o' && b[0] == '_');
    let at = x.len() - a.len();
    if x == y {
        assert(x[at] == a[0]);
        assert(y[y.len() - b.len()] == b[0]);
        assert(x.len() - a.len() == y.len() - b.len());
    }
}

/// The writing of a session's files about itself, and the disk that it writes to.
pub struct MetaState {
    pub task: MetaView,
    pub files: Files,
}

impl MetaState {
    /// The state one moment later.
    pub open spec fn at(self, moment: Moment) -> MetaState {
        MetaState { task: self.task.next(moment.answer), files: moment.files }
    }

    /// The state after `moments`.
    pub open spec fn after(self, moments: Seq<Moment>) -> MetaState
        decreases moments.len(),
    {
        if moments.len() == 0 {
            self
        } else {
            self.after(moments.drop_last()).at(moments.last())
        }
    }

    /// The moments can come one after the other, and what they answer is so.
    pub open spec fn true_run(self, moments: Seq<Moment>) -> bool
        decreases moments.len(),
    {
        moments.len() > 0 ==> self.true_run(moments.drop_last()) && {
            let before = self.after(moments.drop_last());
            before.task.op() matches Some(op) && crate::disk::performed(
                op,
                moments.last().answer,
                before.files,
                moments.last().files,
            ) && crate::disk::truthful(op, moments.last().answer, before.files)
        }
    }
}

/// The session `session_id` before its files about itself are looked for.
pub open spec fn meta_start(dir: Seq<char>, session_id: Seq<char>, files: Files) -> MetaState {
    MetaState { task: MetaView::FindTag { dir, session_id }, files }
}

/// The file that holds the name of the session.
pub open spec fn tag_path(dir: Seq<char>) -> Seq<char> {
    crate::path::joined(dir, "intent_tag"@)
}

/// The file that holds the time at which the session was opened.
pub open spec fn time_path(dir: Seq<char>) -> Seq<char> {
    crate::path::joined(dir, "opened_at"@)
}

spec fn meta_kept(dir: Seq<char>, id: Seq<char>, before: Files, s: MetaState) -> bool {
    let tag = tag_path(dir);
    let time = time_path(dir);
    let tagged = s.files.contains_key(tag) && (!before.contains_key(tag) ==> s.files[tag]
        == vstd::utf8::encode_utf8(id));
    &&& forall|p: Seq<char>| #![trigger s.files.contains_key(p)]
        before.contains_key(p) ==> was_there(p, before, s.files)
    &&& forall|p: Seq<char>| #![trigger s.files.contains_key(p)]
        s.files.contains_key(p) && p != tag && p != time ==> before.contains_key(p)
    &&& match s.task {
        MetaView::FindTag { dir: d, session_id } => d == dir && session_id == id && s.files
            == before,
        MetaView::WriteTag { dir: d, session_id } => {
            d == dir && session_id == id && s.files == before && !before.contains_key(tag)
        },
        MetaView::FindTime { dir: d } => {
            &&& d == dir && tagged
            &&& before.contains_key(tag) ==> s.files == before
        },
        MetaView::AskTime { dir: d } => d == dir && tagged && !s.files.contains_key(time),
        MetaView::WriteTime { dir: d, seconds } => {
            d == dir && tagged && !s.files.contains_key(time)
        },
        MetaView::Finished => {
            &&& tagged && s.files.contains_key(time)
            &&& before.contains_key(tag) && before.contains_key(time) ==> s.files == before
        },
        MetaView::Failed => !before.contains_key(tag) || !before.contains_key(time),
    }
}

proof fn lemma_meta_kept(
    dir: Seq<char>,
    id: Seq<char>,
    before: Files,
    moments: Seq<Moment>,
)
    requires
        meta_start(dir, id, before).true_run(moments),
    ensures
        meta_kept(dir, id, before, meta_start(dir, id, before).after(moments)),
    decreases moments.len(),
{
    if moments.len() > 0 {
        lemma_meta_kept(dir, id, before, moments.drop_last());
        lemma_meta_paths(dir);
        let s = meta_start(dir, id, before).after(moments.drop_last());
        let t = s.at(moments.last());
        assert(meta_kept(dir, id, before, t));
    }
}

proof fn lemma_meta_paths(dir: Seq<char>)
    ensures
        tag_path(dir) != time_path(dir),
{
    reveal_strlit("intent_tag");
    reveal_strlit("opened_at");
    reveal_strlit(".");
    reveal_strlit("..");
    if tag_path(dir) == time_path(dir) {
        crate::disk::lemma_same_dir(dir, "intent_tag"@, "opened_at"@);
        assert("intent_tag"@.len() == "opened_at"@.len());
    }
}

/// Writing a session's files about itself changes no file that is there, and adds
/// none but the two; at its end both are there, and a tag that is new holds the
/// name of the session.
pub proof fn meta_adds_what_is_missing(
    dir: Seq<char>,
    session_id: Seq<char>,
    before: Files,
    moments: Seq<Moment>,
)
    requires
        meta_start(dir, session_id, before).true_run(moments),
    ensures
        ({
            let s = meta_start(dir, session_id, before).after(moments);
            &&& forall|p: Seq<char>|
                #![trigger s.files.contains_key(p)]
                before.contains_key(p) ==> s.files.contains_key(p) && s.files[p] == before[p]
            &&& forall|p: Seq<char>|
                #![trigger s.files.contains_key(p)]
                s.files.contains_key(p) && p != tag_path(dir) && p != time_path(dir)
                    ==> before.contains_key(p)
            &&& s.task is Finished ==> {
                &&& s.files.contains_key(tag_path(dir))
                &&& s.files.contains_key(time_path(dir))
                &&& !before.contains_key(tag_path(dir)) ==> s.files[tag_path(dir)]
                    == vstd::utf8::encode_utf8(session_id)
            }
        }),
{
    lemma_meta_kept(dir, session_id, before, moments);
    let s = meta_start(dir, session_id, before).after(moments);
    assert forall|p: Seq<char>| #![trigger s.files.contains_key(p)]
        before.contains_key(p) implies s.files.contains_key(p) && s.files[p] == before[p] by {
        assert(was_there(p, before, s.files));
    }
}

/// Writing a session's files about itself once more changes nothing, and is
/// finished once both have been found.
pub proof fn meta_is_idempotent(
    dir: Seq<char>,
    session_id: Seq<char>,
    before: Files,
    moments: Seq<Moment>,
)
    requires
        before.contains_key(tag_path(dir)),
        before.contains_key(time_path(dir)),
        meta_start(dir, session_id, before).true_run(moments),
    ensures
        meta_start(dir, session_id, before).after(moments).files == before,
        moments.len() <= 2,
        meta_start(dir, session_id, before).after(moments).task is Finished <==> moments.len() == 2,
    decreases moments.len(),
{
    lemma_meta_kept(dir, session_id, before, moments);
    if moments.len() > 0 {
        meta_is_idempotent(dir, session_id, before, moments.drop_last());
        lemma_meta_kept(dir, session_id, before, moments.drop_last());
        let start = meta_start(dir, session_id, before);
        let front = moments.drop_last();
        if front.len() == 1 {
            assert(front.drop_last().len() == 0);
            assert(start.after(front.drop_last()) == start);
        }
    }
}

/// The files of a writer are in its directory: the temporary one, the marker, and the
/// snapshots, whose names spell their numbers.
pub proof fn files_are_in_the_directory(w: WriterView, seq: nat) -> (padded: Seq<char>)
    ensures
        temporary(w) == crate::path::joined(w.dir, "snap.tmp"@),
        marker(w) == crate::path::joined(w.dir, "_quota-trimmed"@),
        target(w) == w.snap(w.next_seq),
        w.snap(seq) == crate::path::joined(w.dir, "snap-"@ + padded + ".json"@),
        padded.len() >= 5,
        crate::number::all_digits(padded),
        crate::number::spelled(padded, 10) == seq,
        padded.len() > 5 ==> padded[0] != '0',
{
    crate::number::padded_spells_its_number(seq, 5);
    crate::number::decimal_padded(seq, 5)
}

/// The answer is what a request that succeeds can bring back.
pub open spec fn succeeded(op: Op, answer: Answer) -> bool {
    match op {
        Op::CreateDirs { path } => answer is Done,
        Op::ListDir { path } => answer is Listing,
        Op::Exists { path } => answer is Present,
        Op::WriteSynced { path, data } => answer is Done,
        Op::Write { path, data } => answer is Done,
        Op::CreateFile { path } => answer is Done,
        Op::Rename { from, to } => answer is Done,
        Op::Size { path } => answer is Size,
        Op::Remove { path } => answer is Done,
        Op::SyncDir { path } => answer is Done,
        Op::ReadText { path } => answer is Text,
        Op::ReadBytes { path } => answer is Bytes,
        Op::Lock { path } => answer is Lock,
        Op::Clock => answer is Seconds,
        Op::Tell { text } => answer is Done,
    }
}

/// The writing of a snapshot fails only at a request that does, and ends in overflow
/// only where the numbers of the session are used up, or what its files take is more
/// than 64 bits can count. It fails at every write, rename, listing and removal that
/// does.
pub proof fn writing_fails_only_with_a_request(w: WriterView, task: SnapView, answer: Answer)
    requires
        !task.ended(),
    ensures
        task.op(w) is Some,
        succeeded(task.op(w)->Some_0, answer) ==> task.next(w, answer) !is Failed,
        task.next(w, answer) is Overflow ==> {
            ||| task is Publish && w.next_seq == 0xffff_ffff_ffff_ffff
            ||| task is Survey && (answer matches Answer::Listing(entries)
                && crate::listing::sizes(entries) > 0xffff_ffff_ffff_ffff)
        },
        !succeeded(task.op(w)->Some_0, answer) && !(task is FindMarker || task is Weigh)
            ==> task.next(w, answer) is Failed,
{
}

/// Where there is no quota, a snapshot is written once the write and the rename are
/// done.
pub proof fn write_takes_two_requests(w: WriterView, data: Seq<u8>)
    requires
        w.next_seq < 0xffff_ffff_ffff_ffff,
        w.quota_bytes == 0,
    ensures
        ({
            let start = SnapView::WriteTemp { data };
            let second = start.next(w, Answer::Done);
            &&& start.op(w) == Some(
                Op::WriteSynced { path: crate::path::joined(w.dir, "snap.tmp"@), data },
            )
            &&& second.op(w) == Some(
                Op::Rename {
                    from: crate::path::joined(w.dir, "snap.tmp"@),
                    to: crate::path::joined(w.dir, crate::listing::snap_name_of(w.next_seq)),
                },
            )
            &&& second.next(w, Answer::Done) == SnapView::Finished
            &&& second.writer_next(w, Answer::Done).next_seq == w.next_seq + 1
        }),
{
}

/// A session's directory is created, and listed to find the number to go on with: the
/// one after the highest, zero if there is none or the directory cannot be listed.
/// What is opened writes there, under the quota given.
pub proof fn opening_lists_the_directory(
    dir: Seq<char>,
    quota_bytes: nat,
    entries: Seq<EntryView>,
    answer: Answer,
)
    ensures
        ({
            let start = OpenView::MakeDir { dir, quota_bytes };
            let probe = start.next(Answer::Done);
            let next = crate::listing::seq_after(entries);
            &&& start.op() == Some(Op::CreateDirs { path: dir })
            &&& answer !is Done ==> start.next(answer) == OpenView::Failed
            &&& probe.op() == Some(Op::ListDir { path: dir })
            &&& next <= 0xffff_ffff_ffff_ffff ==> probe.next(Answer::Listing(entries))
                == OpenView::Opened(WriterView { dir, next_seq: next, quota_bytes })
            &&& next > 0xffff_ffff_ffff_ffff ==> probe.next(Answer::Listing(entries))
                == OpenView::Overflow
            &&& answer !is Listing ==> probe.next(answer) == OpenView::Opened(
                WriterView { dir, next_seq: 0, quota_bytes },
            )
        }),
{
    crate::listing::highest_seq_is_the_highest(entries);
}

/// The sentinel of an overrun is named by the number of the record in the ring, in at
/// least five digits, and holds it in digits.
pub proof fn sentinel_tells_the_overrun(seq: nat) -> (digits: (Seq<char>, Seq<char>))
    ensures
        crate::persistence::overrun_name_of(seq) == "_overrun-"@ + digits.0 + ".json"@,
        digits.0.len() >= 5,
        crate::number::all_digits(digits.0),
        crate::number::spelled(digits.0, 10) == seq,
        digits.0.len() > 5 ==> digits.0[0] != '0',
        crate::persistence::overrun_payload_of(seq)
            == "{\"overrun\":true,\"ring_seq_at_overrun\":"@ + digits.1 + "}\n"@,
        crate::number::spells(digits.1, seq),
{
    crate::number::padded_spells_its_number(seq, 5);
    crate::number::decimal_spells_its_number(seq);
    (crate::number::decimal_padded(seq, 5), crate::number::decimal(seq))
}

/// An atomic write asks for the write of the temporary file and for its rename, and is
/// finished when both are done; it fails at either.
pub proof fn atomic_write_takes_two_requests(
    tmp: Seq<char>,
    dst: Seq<char>,
    data: Seq<u8>,
    answer: Answer,
)
    ensures
        ({
            let start = AtomicView::WriteTemp { tmp, dst, data };
            let second = start.next(Answer::Done);
            &&& start.op() == Some(Op::WriteSynced { path: tmp, data })
            &&& second.op() == Some(Op::Rename { from: tmp, to: dst })
            &&& second.next(Answer::Done) == AtomicView::Finished
            &&& answer !is Done ==> start.next(answer) == AtomicView::Failed && second.next(answer)
                == AtomicView::Failed
        }),
{
}

/// The tag of a session is its name; its time is the seconds that the clock tells, in
/// digits and with a line feed, and zero without a clock. Either is written where it
/// is missing, and the work fails only if a write does.
pub proof fn meta_writes_the_name_and_the_time(
    dir: Seq<char>,
    session_id: Seq<char>,
    seconds: u64,
    answer: Answer,
) -> (digits: Seq<char>)
    ensures
        crate::number::spells(digits, seconds as nat),
        ({
            let tag = MetaView::FindTag { dir, session_id };
            let write = tag.next(Answer::Present(false));
            let time = tag.next(Answer::Present(true));
            let ask = time.next(Answer::Present(false));
            let stamp = ask.next(Answer::Seconds(seconds));
            &&& tag.op() == Some(Op::Exists { path: crate::path::joined(dir, "intent_tag"@) })
            &&& write.op() == Some(
                Op::Write {
                    path: crate::path::joined(dir, "intent_tag"@),
                    data: vstd::utf8::encode_utf8(session_id),
                },
            )
            &&& write.next(Answer::Done) == time
            &&& time.op() == Some(Op::Exists { path: crate::path::joined(dir, "opened_at"@) })
            &&& time.next(Answer::Present(true)) == MetaView::Finished
            &&& ask.op() == Some(Op::Clock)
            &&& stamp.op() == Some(
                Op::Write {
                    path: crate::path::joined(dir, "opened_at"@),
                    data: vstd::utf8::encode_utf8(digits + "\n"@),
                },
            )
            &&& stamp.next(Answer::Done) == MetaView::Finished
            &&& answer !is Seconds ==> ask.next(answer) == ask.next(Answer::Seconds(0))
            &&& answer !is Done ==> write.next(answer) == MetaView::Failed && stamp.next(answer)
                == MetaView::Failed
        }),
{
    crate::number::decimal_spells_its_number(seconds as nat);
    crate::number::decimal(seconds as nat)
}

/// Trimming asks for the size of the oldest snapshot, removes it, and counts what it
/// took as freed: nothing if the size could not be told. It goes on while what is left
/// takes the quota or more and there is another snapshot.
pub proof fn removal_frees_what_was_weighed(w: WriterView, trim: TrimView, answer: Answer)
    requires
        trim.snaps.len() > 0,
        w.quota_bytes > 0,
    ensures
        ({
            let weigh = SnapView::Weigh { trim };
            let remove = weigh.next(w, answer);
            let after = remove.next(w, Answer::Done);
            let freed: int = match answer {
                Answer::Size(size) => size as int,
                _ => 0,
            };
            let oldest = crate::path::joined(w.dir, trim.snaps[0].name);
            &&& weigh.op(w) == Some(Op::Size { path: oldest })
            &&& remove.op(w) == Some(Op::Remove { path: oldest })
            &&& trim.total - freed >= w.quota_bytes && trim.snaps.len() > 1 ==> after
                == SnapView::Weigh {
                trim: TrimView {
                    snaps: trim.snaps.drop_first(),
                    total: (trim.total - freed) as nat,
                },
            }
            &&& trim.total - freed < w.quota_bytes || trim.snaps.len() == 1 ==> after
                == SnapView::Finished
        }),
{
}

/// Where it cannot be told whether a file is there, it counts as missing: the marker is
/// made, and the tag and the time of a session are written.
pub proof fn file_that_cannot_be_found_is_missing(
    w: WriterView,
    trim: TrimView,
    dir: Seq<char>,
    session_id: Seq<char>,
    answer: Answer,
)
    requires
        answer != Answer::Present(true),
    ensures
        ({
            let made = SnapView::FindMarker { trim }.next(w, answer);
            let tag = MetaView::FindTag { dir, session_id };
            let time = MetaView::FindTime { dir };
            &&& made.op(w) == Some(
                Op::CreateFile { path: crate::path::joined(w.dir, "_quota-trimmed"@) },
            )
            &&& tag.next(answer) == tag.next(Answer::Present(false))
            &&& tag.next(answer).op()->Some_0 is Write
            &&& time.next(answer) == time.next(Answer::Present(false))
            &&& time.next(answer).op() == Some(Op::Clock)
        }),
{
}

} // verus!
