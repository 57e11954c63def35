//! Snapshot files: their names, their order and their sizes.

use vstd::prelude::*;
use vstd::string::*;

use crate::bytes::bytes_le;
use crate::number::{append_decimal_padded, parse_number};
use crate::storage::{DirEntry, EntryView};
use crate::text::{chars_of, Span};

verus! {

broadcast use vstd::string::group_string_axioms;

/// `snap-NNNNN.json`: the sequence number in at least five digits.
pub open spec fn snap_name_of(seq: nat) -> Seq<char> {
    "snap-"@ + crate::number::decimal_padded(seq, 5) + ".json"@
}

/// The name of the snapshot with this sequence number.
pub fn snap_name(seq: u64) -> (name: String)
    ensures
        name@ == snap_name_of(seq as nat),
{
    let mut name: String = String::from_str("snap-");
    append_decimal_padded(&mut name, seq, 5);
    name.append(".json");
    name
}

/// The name of a snapshot: it starts with `snap-` and ends with `.json`.
pub open spec fn is_snap(name: Seq<char>) -> bool {
    "snap-"@.is_prefix_of(name) && ".json"@.is_suffix_of(name)
}

/// The sequence number in the name of a snapshot, if it holds one.
pub open spec fn snap_seq(name: Seq<char>) -> Option<nat> {
    if is_snap(name) {
        match crate::number::number(name.subrange(5, name.len() - 5), 10, u64::MAX as nat) {
            Ok(seq) => Some(seq),
            Err(_) => None,
        }
    } else {
        None
    }
}

/// The two ends of a snapshot's name do not overlap.
pub proof fn lemma_snap_name_len(name: Seq<char>)
    requires
        is_snap(name),
    ensures
        name.len() >= 10,
{
    reveal_strlit("snap-");
    reveal_strlit(".json");
    let n = name.len();
    if n < 10 {
        assert(name.subrange(n - 5, n as int)[0] == '.');
        assert(name.subrange(0, 5)[n - 5] == name[n - 5]);
    }
}

/// The highest sequence number among `entries`, if any of them has one.
pub open spec fn highest_seq(entries: Seq<EntryView>) -> Option<nat>
    decreases entries.len(),
{
    if entries.len() == 0 {
        None
    } else {
        match (highest_seq(entries.drop_last()), snap_seq(entries.last().name)) {
            (Some(a), Some(b)) => Some(
                if a >= b {
                    a
                } else {
                    b
                },
            ),
            (Some(a), None) => Some(a),
            (None, b) => b,
        }
    }
}

/// The sequence number after the highest one in use.
pub open spec fn seq_after(entries: Seq<EntryView>) -> nat {
    match highest_seq(entries) {
        Some(seq) => seq + 1,
        None => 0,
    }
}

fn name_is_snap(chars: &Vec<char>) -> (yes: bool)
    ensures
        yes == is_snap(chars@),
{
    let whole: Span = Span { start: 0, end: chars.len() };
    assert(whole.of(chars@) =~= chars@);
    whole.starts_with(chars, "snap-") && whole.ends_with(chars, ".json")
}

/// The sequence number in `name`, if it is that of a snapshot and holds one.
pub fn parse_snap_seq(name: &str) -> (seq: Option<u64>)
    ensures
        match (seq, snap_seq(name@)) {
            (Some(n), Some(m)) => n as nat == m,
            (None, None) => true,
            _ => false,
        },
{
    let chars: Vec<char> = chars_of(name);
    if !name_is_snap(&chars) {
        return None;
    }
    proof {
        lemma_snap_name_len(name@);
    }
    let digits: Span = Span { start: 5, end: chars.len() - 5 };
    match parse_number(&chars, digits, 10, u64::MAX) {
        Ok(n) => Some(n),
        Err(_) => None,
    }
}

/// The highest sequence number among `listing`, if any of them has one.
pub fn last_seq(listing: &Vec<DirEntry>) -> (seq: Option<u64>)
    ensures
        match (seq, highest_seq(crate::storage::entry_views(listing@))) {
            (Some(n), Some(m)) => n as nat == m,
            (None, None) => true,
            _ => false,
        },
{
    let mut best: Option<u64> = None;
    let mut i: usize = 0;
    let ghost views = crate::storage::entry_views(listing@);
    assert(views.take(0) =~= Seq::<EntryView>::empty());
    while i < listing.len()
        invariant
            i <= listing@.len(),
            views == crate::storage::entry_views(listing@),
            match (best, highest_seq(views.take(i as int))) {
                (Some(n), Some(m)) => n as nat == m,
                (None, None) => true,
                _ => false,
            },
        decreases listing@.len() - i,
    {
        proof {
            assert(views.take(i + 1).drop_last() =~= views.take(i as int));
            assert(views.take(i + 1).last() == listing@[i as int]@);
        }
        if let Some(n) = parse_snap_seq(listing[i].name.as_str()) {
            best = match best {
                None => Some(n),
                Some(m) => Some(
                    if m >= n {
                        m
                    } else {
                        n
                    },
                ),
            };
        }
        i = i + 1;
    }
    assert(views.take(views.len() as int) =~= views);
    best
}

/// The next snapshot's sequence number in a directory with this listing; a
/// directory that could not be listed counts as empty.
pub fn probe_next_seq(listing: &Option<Vec<DirEntry>>) -> (next: u64)
    requires
        listing matches Some(entries) ==> highest_seq(crate::storage::entry_views(entries@)) != Some(
            u64::MAX as nat,
        ),
    ensures
        next as nat == match *listing {
            Some(entries) => seq_after(crate::storage::entry_views(entries@)),
            None => 0,
        },
{
    match listing {
        Some(entries) => match last_seq(entries) {
            Some(seq) => seq + 1,
            None => 0,
        },
        None => 0,
    }
}

/// Entries are ordered by the bytes of their names.
pub open spec fn name_le(a: EntryView, b: EntryView) -> bool {
    crate::bytes::lex_le(vstd::utf8::encode_utf8(a.name), vstd::utf8::encode_utf8(b.name))
}

/// The order of entries.
pub open spec fn by_name() -> spec_fn(EntryView, EntryView) -> bool {
    |a: EntryView, b: EntryView| name_le(a, b)
}

/// The snapshots among `entries`, in the order in which they stand there.
pub open spec fn snaps_among(entries: Seq<EntryView>) -> Seq<EntryView>
    decreases entries.len(),
{
    if entries.len() == 0 {
        entries
    } else if is_snap(entries.last().name) {
        snaps_among(entries.drop_last()).push(entries.last())
    } else {
        snaps_among(entries.drop_last())
    }
}

/// The entries that are no snapshots.
pub open spec fn others_among(entries: Seq<EntryView>) -> Seq<EntryView>
    decreases entries.len(),
{
    if entries.len() == 0 {
        entries
    } else if is_snap(entries.last().name) {
        others_among(entries.drop_last())
    } else {
        others_among(entries.drop_last()).push(entries.last())
    }
}

/// The snapshots among `entries`, sorted by name.
pub open spec fn snaps_by_name(entries: Seq<EntryView>) -> Seq<EntryView> {
    crate::order::sorted_by(snaps_among(entries), by_name())
}

/// `name` stands before the digits in the order of names: behind `snap-` it goes on
/// with a character that is below them.
pub open spec fn before_digits(name: Seq<char>) -> bool {
    name.len() > 5 && name[5] < '0'
}

/// The name `a` is not after `b` by its number. A name without one comes before all
/// numbers if it stands before the digits, and after them if it does not.
pub open spec fn seq_le(a: Seq<char>, b: Seq<char>) -> bool {
    match (snap_seq(a), snap_seq(b)) {
        (Some(m), Some(n)) => m <= n,
        (None, Some(_)) => before_digits(a),
        (Some(_), None) => !before_digits(b),
        (None, None) => before_digits(a) || !before_digits(b),
    }
}

/// The order of entries by their numbers.
pub open spec fn by_seq() -> spec_fn(EntryView, EntryView) -> bool {
    |a: EntryView, b: EntryView| seq_le(a.name, b.name)
}

/// The snapshots among `entries`, oldest first: sorted by number, and by name where
/// the numbers are the same or missing.
pub open spec fn snaps_by_age(entries: Seq<EntryView>) -> Seq<EntryView> {
    crate::order::sorted_by(snaps_by_name(entries), by_seq())
}

/// The size of an entry; nothing if it is not known.
pub open spec fn size_of_entry(entry: EntryView) -> nat {
    match entry.size {
        Some(size) => size as nat,
        None => 0,
    }
}

/// The sizes of `entries` together.
pub open spec fn sizes(entries: Seq<EntryView>) -> nat
    decreases entries.len(),
{
    if entries.len() == 0 {
        0
    } else {
        sizes(entries.drop_last()) + size_of_entry(entries.last())
    }
}

fn copy_entry(entry: &DirEntry) -> (copy: DirEntry)
    ensures
        copy@ == entry@,
{
    DirEntry { name: entry.name.clone(), size: entry.size }
}

fn insert_entry(sorted: &mut Vec<DirEntry>, entry: DirEntry)
    ensures
        crate::storage::entry_views(final(sorted)@) == crate::order::insert_by(
            crate::storage::entry_views(old(sorted)@),
            entry@,
            by_name(),
        ),
{
    let ghost views = crate::storage::entry_views(sorted@);
    let mut at: usize = sorted.len();
    while at > 0 && !bytes_le(
        sorted[at - 1].name.as_str().as_bytes(),
        entry.name.as_str().as_bytes(),
    )
        invariant
            at <= sorted@.len(),
            views == crate::storage::entry_views(sorted@),
            forall|j: int| at <= j < views.len() ==> !by_name()(#[trigger] views[j], entry@),
        decreases at,
    {
        assert(views[at - 1] == sorted@[at - 1]@);
        at = at - 1;
    }
    proof {
        if at > 0 {
            assert(views[at - 1] == sorted@[at - 1]@);
        }
        crate::order::lemma_insert_at(views, entry@, by_name(), at as int);
    }
    sorted.insert(at, entry);
    assert(crate::storage::entry_views(sorted@) =~= views.insert(at as int, entry@));
}

/// The snapshots in a listing, in the order in which they stand there.
pub fn snap_entries(listing: &Vec<DirEntry>) -> (snaps: Vec<DirEntry>)
    ensures
        crate::storage::entry_views(snaps@) == snaps_among(crate::storage::entry_views(listing@)),
{
    let mut snaps: Vec<DirEntry> = Vec::new();
    let ghost views = crate::storage::entry_views(listing@);
    let mut i: usize = 0;
    proof {
        assert(views.take(0) =~= Seq::<EntryView>::empty());
        assert(crate::storage::entry_views(snaps@) =~= Seq::<EntryView>::empty());
    }
    while i < listing.len()
        invariant
            i <= listing@.len(),
            views == crate::storage::entry_views(listing@),
            crate::storage::entry_views(snaps@) == snaps_among(views.take(i as int)),
        decreases listing@.len() - i,
    {
        let entry = &listing[i];
        proof {
            assert(views.take(i + 1).drop_last() =~= views.take(i as int));
            assert(views.take(i + 1).last() == entry@);
        }
        let chars: Vec<char> = chars_of(entry.name.as_str());
        if name_is_snap(&chars) {
            let ghost before = snaps@;
            let copy: DirEntry = copy_entry(entry);
            snaps.push(copy);
            assert(crate::storage::entry_views(snaps@) =~= crate::storage::entry_views(
                before,
            ).push(entry@));
        }
        i = i + 1;
    }
    assert(views.take(views.len() as int) =~= views);
    snaps
}

/// The snapshots in a listing, sorted by name.
pub fn sorted_snaps(listing: &Vec<DirEntry>) -> (snaps: Vec<DirEntry>)
    ensures
        crate::storage::entry_views(snaps@) == snaps_by_name(crate::storage::entry_views(listing@)),
{
    let mut snaps: Vec<DirEntry> = Vec::new();
    let ghost views = crate::storage::entry_views(listing@);
    let mut i: usize = 0;
    proof {
        assert(views.take(0) =~= Seq::<EntryView>::empty());
        assert(crate::storage::entry_views(snaps@) =~= Seq::<EntryView>::empty());
    }
    while i < listing.len()
        invariant
            i <= listing@.len(),
            views == crate::storage::entry_views(listing@),
            crate::storage::entry_views(snaps@) == snaps_by_name(views.take(i as int)),
        decreases listing@.len() - i,
    {
        let entry = &listing[i];
        proof {
            assert(views.take(i + 1).drop_last() =~= views.take(i as int));
            assert(views.take(i + 1).last() == entry@);
        }
        let chars: Vec<char> = chars_of(entry.name.as_str());
        if name_is_snap(&chars) {
            insert_entry(&mut snaps, copy_entry(entry));
            proof {
                let before = snaps_among(views.take(i as int));
                assert(before.push(entry@).drop_last() =~= before);
            }
        }
        i = i + 1;
    }
    assert(views.take(views.len() as int) =~= views);
    snaps
}

fn stands_before_digits(name: &str) -> (yes: bool)
    ensures
        yes == before_digits(name@),
{
    name.unicode_len() > 5 && name.get_char(5) < '0'
}

fn seq_not_after(a: &str, b: &str) -> (le: bool)
    ensures
        le == seq_le(a@, b@),
{
    match (parse_snap_seq(a), parse_snap_seq(b)) {
        (Some(m), Some(n)) => m <= n,
        (None, Some(_)) => stands_before_digits(a),
        (Some(_), None) => !stands_before_digits(b),
        (None, None) => stands_before_digits(a) || !stands_before_digits(b),
    }
}

fn insert_by_age(sorted: &mut Vec<DirEntry>, entry: DirEntry)
    ensures
        crate::storage::entry_views(final(sorted)@) == crate::order::insert_by(
            crate::storage::entry_views(old(sorted)@),
            entry@,
            by_seq(),
        ),
{
    let ghost views = crate::storage::entry_views(sorted@);
    let mut at: usize = sorted.len();
    while at > 0 && !seq_not_after(sorted[at - 1].name.as_str(), entry.name.as_str())
        invariant
            at <= sorted@.len(),
            views == crate::storage::entry_views(sorted@),
            forall|j: int| at <= j < views.len() ==> !by_seq()(#[trigger] views[j], entry@),
        decreases at,
    {
        assert(views[at - 1] == sorted@[at - 1]@);
        at = at - 1;
    }
    proof {
        if at > 0 {
            assert(views[at - 1] == sorted@[at - 1]@);
        }
        crate::order::lemma_insert_at(views, entry@, by_seq(), at as int);
    }
    sorted.insert(at, entry);
    assert(crate::storage::entry_views(sorted@) =~= views.insert(at as int, entry@));
}

/// The snapshots in a listing, oldest first.
pub fn oldest_first(listing: &Vec<DirEntry>) -> (snaps: Vec<DirEntry>)
    ensures
        crate::storage::entry_views(snaps@) == snaps_by_age(crate::storage::entry_views(listing@)),
{
    let named: Vec<DirEntry> = sorted_snaps(listing);
    let mut snaps: Vec<DirEntry> = Vec::new();
    let ghost views = crate::storage::entry_views(named@);
    let mut i: usize = 0;
    proof {
        assert(views.take(0) =~= Seq::<EntryView>::empty());
        assert(crate::storage::entry_views(snaps@) =~= Seq::<EntryView>::empty());
    }
    while i < named.len()
        invariant
            i <= named@.len(),
            views == crate::storage::entry_views(named@),
            crate::storage::entry_views(snaps@) == crate::order::sorted_by(
                views.take(i as int),
                by_seq(),
            ),
        decreases named@.len() - i,
    {
        proof {
            assert(views.take(i + 1).drop_last() =~= views.take(i as int));
            assert(views.take(i + 1).last() == named@[i as int]@);
        }
        insert_by_age(&mut snaps, copy_entry(&named[i]));
        i = i + 1;
    }
    assert(views.take(views.len() as int) =~= views);
    snaps
}

/// The size of an entry; nothing if it is not known.
fn entry_size(entry: &DirEntry) -> (size: u64)
    ensures
        size as nat == size_of_entry(entry@),
{
    match entry.size {
        Some(size) => size,
        None => 0,
    }
}

/// The sizes of `files` together, if that is a number that fits.
pub fn checked_total(files: &Vec<DirEntry>) -> (total: Option<u64>)
    ensures
        match total {
            Some(n) => n as nat == sizes(crate::storage::entry_views(files@)),
            None => sizes(crate::storage::entry_views(files@)) > u64::MAX,
        },
{
    let mut total: u64 = 0;
    let ghost views = crate::storage::entry_views(files@);
    let mut i: usize = 0;
    assert(views.take(0) =~= Seq::<EntryView>::empty());
    while i < files.len()
        invariant
            i <= files@.len(),
            views == crate::storage::entry_views(files@),
            total as nat == sizes(views.take(i as int)),
        decreases files@.len() - i,
    {
        proof {
            assert(views.take(i + 1).drop_last() =~= views.take(i as int));
            assert(views.take(i + 1).last() == files@[i as int]@);
        }
        match total.checked_add(entry_size(&files[i])) {
            Some(sum) => {
                total = sum;
            },
            None => {
                proof {
                    lemma_sizes_grow(views, i + 1);
                }
                return None;
            },
        }
        i = i + 1;
    }
    assert(views.take(views.len() as int) =~= views);
    Some(total)
}

/// The sizes of `files` together.
pub fn total_bytes(files: &Vec<DirEntry>) -> (total: u64)
    requires
        sizes(crate::storage::entry_views(files@)) <= u64::MAX,
    ensures
        total as nat == sizes(crate::storage::entry_views(files@)),
{
    match checked_total(files) {
        Some(total) => total,
        None => 0,
    }
}

proof fn lemma_sizes_grow(entries: Seq<EntryView>, n: int)
    requires
        0 <= n <= entries.len(),
    ensures
        sizes(entries.take(n)) <= sizes(entries),
    decreases entries.len() - n,
{
    if n < entries.len() {
        assert(entries.take(n + 1).drop_last() =~= entries.take(n));
        lemma_sizes_grow(entries, n + 1);
    } else {
        assert(entries.take(n) =~= entries);
    }
}

/// A snapshot's name is one of a snapshot, and its sequence number is read back
/// from it.
pub proof fn snap_name_round_trips(seq: nat)
    requires
        seq <= u64::MAX,
    ensures
        is_snap(snap_name_of(seq)),
        snap_seq(snap_name_of(seq)) == Some(seq),
{
    reveal_strlit("snap-");
    reveal_strlit(".json");
    let digits = crate::number::decimal_padded(seq, 5);
    let name = snap_name_of(seq);
    assert("snap-"@ =~= name.subrange(0, 5));
    assert(".json"@ =~= name.subrange(name.len() - 5, name.len() as int));
    assert(name.subrange(5, name.len() - 5) =~= digits);
    crate::number::decimal_round_trips(seq, 5, u64::MAX as nat);
}

/// Two snapshots with one name have one sequence number.
pub proof fn snap_names_differ(a: nat, b: nat)
    requires
        a <= u64::MAX,
        b <= u64::MAX,
        snap_name_of(a) == snap_name_of(b),
    ensures
        a == b,
{
    snap_name_round_trips(a);
    snap_name_round_trips(b);
}

/// The highest sequence number is that of an entry, and no entry has a higher
/// one; where there is none, no entry has any.
pub proof fn highest_seq_is_the_highest(entries: Seq<EntryView>)
    ensures
        highest_seq(entries) matches Some(top) ==> top <= u64::MAX && exists|i: int|
            0 <= i < entries.len() && snap_seq((#[trigger] entries[i]).name) == Some(top),
        forall|i: int| #![trigger entries[i]]
            0 <= i < entries.len() ==> (snap_seq(entries[i].name) matches Some(seq)
                ==> highest_seq(entries) matches Some(top) && seq <= top),
    decreases entries.len(),
{
    if entries.len() > 0 {
        let front = entries.drop_last();
        let last = entries.last();
        highest_seq_is_the_highest(front);
        crate::number::lemma_number_max(
            last.name.subrange(5, last.name.len() - 5),
            10,
            u64::MAX as nat,
        );
        assert forall|i: int| #![trigger entries[i]] 0 <= i < entries.len() implies (snap_seq(
            entries[i].name,
        ) matches Some(seq) ==> highest_seq(entries) matches Some(top) && seq <= top) by {
            if i < front.len() {
                assert(entries[i] == front[i]);
            }
        }
        if let Some(top) = highest_seq(entries) {
            if snap_seq(last.name) == Some(top) {
                assert(snap_seq(entries[entries.len() - 1].name) == Some(top));
            } else {
                let i = choose|i: int|
                    0 <= i < front.len() && snap_seq((#[trigger] front[i]).name) == Some(top);
                assert(entries[i] == front[i]);
            }
        }
    }
}

/// No entry bears the name of the snapshot that comes next, nor of one after it.
pub proof fn next_names_are_free(entries: Seq<EntryView>, seq: nat, i: int)
    requires
        seq_after(entries) <= seq <= u64::MAX,
        0 <= i < entries.len(),
    ensures
        entries[i].name != snap_name_of(seq),
{
    highest_seq_is_the_highest(entries);
    snap_name_round_trips(seq);
    assert(snap_seq(entries[i].name) == Some(seq) ==> false);
}

/// A file that is no snapshot, such as the `snap.tmp` that a crash left behind,
/// changes neither the next sequence number nor the snapshots.
pub proof fn other_files_are_ignored(front: Seq<EntryView>, other: EntryView, back: Seq<EntryView>)
    requires
        !is_snap(other.name),
    ensures
        highest_seq(front.push(other) + back) == highest_seq(front + back),
        seq_after(front.push(other) + back) == seq_after(front + back),
        snaps_among(front.push(other) + back) == snaps_among(front + back),
        snaps_by_name(front.push(other) + back) == snaps_by_name(front + back),
    decreases back.len(),
{
    let with = front.push(other) + back;
    let without = front + back;
    if back.len() == 0 {
        assert(without =~= front);
        assert(with =~= front.push(other));
        assert(with.drop_last() =~= front);
    } else {
        other_files_are_ignored(front, other, back.drop_last());
        assert(with.drop_last() =~= front.push(other) + back.drop_last());
        assert(without.drop_last() =~= front + back.drop_last());
    }
}

/// `snap.tmp` is no name of a snapshot.
pub proof fn temporary_file_is_no_snapshot()
    ensures
        !is_snap("snap.tmp"@),
{
    reveal_strlit("snap-");
    reveal_strlit("snap.tmp");
    if is_snap("snap.tmp"@) {
        assert("snap-"@[4] == "snap.tmp"@.subrange(0, 5)[4]);
    }
}

/// Names are in a total order.
pub proof fn names_are_ordered()
    ensures
        crate::order::is_total_order(by_name()),
{
    assert forall|a: EntryView, b: EntryView| #[trigger] by_name()(a, b) || by_name()(b, a) by {
        crate::bytes::byte_order_is_total(
            vstd::utf8::encode_utf8(a.name),
            vstd::utf8::encode_utf8(b.name),
        );
    }
    assert forall|a: EntryView, b: EntryView, c: EntryView|
        #[trigger] by_name()(a, b) && #[trigger] by_name()(b, c) implies by_name()(a, c) by {
        crate::bytes::byte_order_chains(
            vstd::utf8::encode_utf8(a.name),
            vstd::utf8::encode_utf8(b.name),
            vstd::utf8::encode_utf8(c.name),
        );
    }
}

/// Numbers are in a total order.
pub proof fn numbers_are_ordered()
    ensures
        crate::order::is_total_order(by_seq()),
{
    assert(crate::order::is_total_order(by_seq()));
}

/// The snapshots stand by age: the lower number first, those without one before or
/// after all numbers; and by name where the numbers are the same or missing.
pub proof fn snapshots_stand_by_age(entries: Seq<EntryView>)
    ensures
        forall|i: int, j: int|
            0 <= i <= j < snaps_by_age(entries).len() ==> crate::order::may_precede(
                #[trigger] snaps_by_age(entries)[i],
                #[trigger] snaps_by_age(entries)[j],
                by_seq(),
                by_name(),
            ),
{
    let named = snaps_by_name(entries);
    let among = snaps_among(entries);
    names_are_ordered();
    numbers_are_ordered();
    crate::order::sorting_sorts(among, by_name());
    crate::order::sorting_keeps_the_items(among, by_name());
    crate::order::sorting_keeps_the_items(named, by_seq());
    crate::order::sorting_is_stable(named, by_seq(), by_name());
}

/// Of two snapshots that a writer has numbered, the older one stands first.
pub proof fn older_snapshots_stand_first(
    entries: Seq<EntryView>,
    old_seq: nat,
    new_seq: nat,
    i: int,
    j: int,
)
    requires
        old_seq < new_seq <= u64::MAX,
        0 <= i < snaps_by_age(entries).len(),
        0 <= j < snaps_by_age(entries).len(),
        snaps_by_age(entries)[i].name == snap_name_of(old_seq),
        snaps_by_age(entries)[j].name == snap_name_of(new_seq),
    ensures
        i < j,
{
    snap_name_round_trips(old_seq);
    snap_name_round_trips(new_seq);
    snapshots_stand_by_age(entries);
    if j <= i {
        let snaps = snaps_by_age(entries);
        assert(crate::order::may_precede(snaps[j], snaps[i], by_seq(), by_name()));
    }
}

proof fn lemma_sizes_push(entries: Seq<EntryView>, entry: EntryView)
    ensures
        sizes(entries.push(entry)) == sizes(entries) + size_of_entry(entry),
{
    assert(entries.push(entry).drop_last() =~= entries);
}

proof fn lemma_insert_sizes(
    entries: Seq<EntryView>,
    entry: EntryView,
    le: spec_fn(EntryView, EntryView) -> bool,
)
    ensures
        sizes(crate::order::insert_by(entries, entry, le)) == sizes(entries) + size_of_entry(entry),
    decreases entries.len(),
{
    if entries.len() == 0 || le(entries.last(), entry) {
        lemma_sizes_push(entries, entry);
    } else {
        let front = entries.drop_last();
        lemma_insert_sizes(front, entry, le);
        lemma_sizes_push(crate::order::insert_by(front, entry, le), entries.last());
    }
}

proof fn lemma_sorted_sizes(entries: Seq<EntryView>, le: spec_fn(EntryView, EntryView) -> bool)
    ensures
        sizes(crate::order::sorted_by(entries, le)) == sizes(entries),
    decreases entries.len(),
{
    if entries.len() > 0 {
        let front = entries.drop_last();
        lemma_sorted_sizes(front, le);
        lemma_insert_sizes(crate::order::sorted_by(front, le), entries.last(), le);
    }
}

proof fn lemma_parted_sizes(entries: Seq<EntryView>)
    ensures
        sizes(entries) == sizes(others_among(entries)) + sizes(snaps_among(entries)),
    decreases entries.len(),
{
    if entries.len() > 0 {
        let front = entries.drop_last();
        lemma_parted_sizes(front);
        if is_snap(entries.last().name) {
            lemma_sizes_push(snaps_among(front), entries.last());
        } else {
            lemma_sizes_push(others_among(front), entries.last());
        }
    }
}

/// What the files take is what the snapshots take and what the others take.
pub proof fn sizes_add_up(entries: Seq<EntryView>)
    ensures
        sizes(entries) == sizes(others_among(entries)) + sizes(snaps_by_age(entries)),
{
    lemma_parted_sizes(entries);
    lemma_sorted_sizes(snaps_among(entries), by_name());
    lemma_sorted_sizes(snaps_by_name(entries), by_seq());
}

/// The names of snapshots are `snap-`, anything, and `.json`, and no others.
pub proof fn snapshots_are_known_by_their_names(name: Seq<char>, middle: Seq<char>)
    ensures
        is_snap("snap-"@ + middle + ".json"@),
        is_snap(name) <==> (name.len() >= 10 && name == "snap-"@ + name.subrange(5, name.len() - 5)
            + ".json"@),
{
    reveal_strlit("snap-");
    reveal_strlit(".json");
    let made = "snap-"@ + middle + ".json"@;
    assert("snap-"@ =~= made.subrange(0, 5));
    assert(".json"@ =~= made.subrange(made.len() - 5, made.len() as int));
    let n = name.len() as int;
    if is_snap(name) {
        lemma_snap_name_len(name);
        assert(name =~= name.subrange(0, 5) + name.subrange(5, n - 5) + name.subrange(n - 5, n));
    }
    if n >= 10 {
        let again = "snap-"@ + name.subrange(5, n - 5) + ".json"@;
        if name == again {
            assert("snap-"@ =~= name.subrange(0, 5));
            assert(".json"@ =~= name.subrange(n - 5, n));
        }
    }
}

/// A snapshot's name has at least five digits, which spell its number; and digits
/// between `snap-` and `.json`, however many, are the number that they spell, if it
/// is one of 64 bits.
pub proof fn snapshot_names_spell_their_numbers(seq: nat, digits: Seq<char>) -> (padded: Seq<char>)
    requires
        digits.len() > 0,
        crate::number::all_digits(digits),
    ensures
        snap_name_of(seq) == "snap-"@ + padded + ".json"@,
        padded.len() >= 5,
        crate::number::all_digits(padded),
        crate::number::spelled(padded, 10) == seq,
        padded.len() > 5 ==> padded[0] != '0',
        snap_seq("snap-"@ + digits + ".json"@) == if crate::number::spelled(digits, 10)
            <= 0xffff_ffff_ffff_ffff {
            Some(crate::number::spelled(digits, 10))
        } else {
            None
        },
{
    reveal_strlit("snap-");
    reveal_strlit(".json");
    crate::number::padded_spells_its_number(seq, 5);
    let name = "snap-"@ + digits + ".json"@;
    snapshots_are_known_by_their_names(name, digits);
    assert(name.subrange(5, name.len() - 5) =~= digits);
    assert(crate::number::digits_in(digits, 10));
    crate::number::digits_are_read(digits, 10, u64::MAX as nat);
    crate::number::decimal_padded(seq, 5)
}

/// A name with a character that is no digit between `snap-` and `.json`, other than a
/// plus sign before digits, has no number; nor has any other name.
pub proof fn other_names_have_no_number(name: Seq<char>, head: Seq<char>, c: char, rest: Seq<char>)
    requires
        crate::number::all_digits(head),
        !('0' <= c <= '9'),
        head.len() > 0 || c != '+',
    ensures
        snap_seq("snap-"@ + (head.push(c) + rest) + ".json"@) is None,
        snap_seq("snap-.json"@) is None,
        !is_snap(name) ==> snap_seq(name) is None,
{
    reveal_strlit("snap-");
    reveal_strlit(".json");
    reveal_strlit("snap-.json");
    let middle = head.push(c) + rest;
    let made = "snap-"@ + middle + ".json"@;
    assert(made.subrange(5, made.len() - 5) =~= middle);
    assert(crate::number::digits_in(head, 10));
    crate::number::other_texts_are_refused(head, c, rest, 10, u64::MAX as nat);
    assert("snap-.json"@.subrange(5, 5).len() == 0);
}

/// The next number is zero, or the one after a number that is in use.
pub proof fn next_number_follows_one_in_use(entries: Seq<EntryView>)
    ensures
        seq_after(entries) == 0 || exists|i: int|
            0 <= i < entries.len() && snap_seq((#[trigger] entries[i]).name) == Some(
                (seq_after(entries) - 1) as nat,
            ),
        forall|i: int| #![trigger entries[i]]
            0 <= i < entries.len() ==> (snap_seq(entries[i].name) matches Some(seq) ==> seq
                < seq_after(entries)),
{
    highest_seq_is_the_highest(entries);
}

/// The snapshots in a listing are those of its entries whose names start with `snap-`
/// and end with `.json`, in the order in which they stand there.
pub proof fn snapshots_are_the_entries_with_such_names(entries: Seq<EntryView>)
    ensures
        snaps_among(entries) == entries.filter(
            |e: EntryView| "snap-"@.is_prefix_of(e.name) && ".json"@.is_suffix_of(e.name),
        ),
        snaps_by_name(entries).to_multiset() == snaps_among(entries).to_multiset(),
        snaps_by_age(entries).to_multiset() == snaps_among(entries).to_multiset(),
    decreases entries.len(),
{
    reveal(Seq::filter);
    let wanted = |e: EntryView| "snap-"@.is_prefix_of(e.name) && ".json"@.is_suffix_of(e.name);
    if entries.len() > 0 {
        snapshots_are_the_entries_with_such_names(entries.drop_last());
        assert(wanted(entries.last()) == is_snap(entries.last().name));
    }
    crate::order::sorting_keeps_the_items(snaps_among(entries), by_name());
    crate::order::sorting_keeps_the_items(snaps_by_name(entries), by_seq());
}

/// Sorted by name, the snapshots stand in the order of the bytes of their names.
pub proof fn snapshots_stand_by_name(entries: Seq<EntryView>)
    ensures
        forall|i: int, j: int|
            0 <= i <= j < snaps_by_name(entries).len() ==> crate::bytes::lex_le(
                vstd::utf8::encode_utf8((#[trigger] snaps_by_name(entries)[i]).name),
                vstd::utf8::encode_utf8((#[trigger] snaps_by_name(entries)[j]).name),
            ),
{
    let among = snaps_among(entries);
    let named = snaps_by_name(entries);
    names_are_ordered();
    crate::order::sorting_sorts(among, by_name());
    crate::order::sorting_keeps_the_items(among, by_name());
    assert forall|i: int, j: int| 0 <= i <= j < named.len() implies crate::bytes::lex_le(
        vstd::utf8::encode_utf8((#[trigger] named[i]).name),
        vstd::utf8::encode_utf8((#[trigger] named[j]).name),
    ) by {
        assert(by_name()(named[i], named[j]));
    }
}

/// What files take together: nothing if there are none, and with one file more, by
/// its size more, wherever it stands; one whose size is not known takes nothing.
pub proof fn each_file_adds_its_size(front: Seq<EntryView>, file: EntryView, back: Seq<EntryView>)
    ensures
        sizes(seq![]) == 0,
        sizes(front.push(file) + back) == sizes(front + back) + (match file.size {
            Some(size) => size as nat,
            None => 0,
        }),
    decreases back.len(),
{
    let with = front.push(file) + back;
    let without = front + back;
    if back.len() == 0 {
        assert(with =~= front.push(file));
        assert(without =~= front);
        lemma_sizes_push(front, file);
    } else {
        each_file_adds_its_size(front, file, back.drop_last());
        assert(with.drop_last() =~= front.push(file) + back.drop_last());
        assert(without.drop_last() =~= front + back.drop_last());
    }
}

/// In the order of age, a name without a number stands before all numbers if the
/// character behind `snap-` is below the digits, and after them if it is not.
pub proof fn names_without_a_number_stand_outside(plain: EntryView, numbered: EntryView)
    requires
        is_snap(plain.name),
        snap_seq(plain.name) is None,
        snap_seq(numbered.name) is Some,
    ensures
        plain.name[5] < '0' ==> by_seq()(plain, numbered) && !by_seq()(numbered, plain),
        plain.name[5] >= '0' ==> by_seq()(numbered, plain) && !by_seq()(plain, numbered),
{
    lemma_snap_name_len(plain.name);
}

} // verus!
