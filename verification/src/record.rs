//! The record framing of the device: fixed-size headers, each followed by a blob.

use vstd::prelude::*;
use vstd::slice::{slice_subrange, slice_to_vec};
use vstd::string::*;

use crate::bytes::{push_le, u32_at, u64_at};
use crate::number::append_decimal;
use crate::{HEADER_LEN, RECORD_MAGIC, RECORD_MAX};

verus! {

broadcast use vstd::array::group_array_axioms;

/// Header that the kernel puts before every stored blob. All fields are
/// little-endian on the wire, in the order in which they are declared.
#[derive(Clone, Copy, Debug, PartialEq, Eq)]
pub struct RecordHeader {
    /// [`RECORD_MAGIC`]; rejects mis-framed reads.
    pub magic: u32,
    /// Layout version at the time of the write.
    pub schema_version: u32,
    /// Length of the CBOR blob that follows this header.
    pub length: u32,
    pub reserved: u32,
    /// Wall-clock nanoseconds at the write.
    pub ts_ns: u64,
    /// Kernel-issued monotonic sequence number.
    pub seq: u64,
    pub uid: u32,
    pub pid: u32,
    /// Session of the writer if it has one; all-zero otherwise.
    pub session_id: [u8; 16],
}

/// One record read back from the ring: its header and the CBOR blob.
#[derive(Clone, Debug, PartialEq, Eq)]
pub struct Record {
    pub header: RecordHeader,
    pub blob: Vec<u8>,
}

/// A header as numbers and a byte string.
pub struct HeaderView {
    pub magic: nat,
    pub schema_version: nat,
    pub length: nat,
    pub reserved: nat,
    pub ts_ns: nat,
    pub seq: nat,
    pub uid: nat,
    pub pid: nat,
    pub session_id: Seq<u8>,
}

/// A record as a header and a byte string.
pub struct RecordView {
    pub header: HeaderView,
    pub blob: Seq<u8>,
}

impl View for RecordHeader {
    type V = HeaderView;

    open spec fn view(&self) -> HeaderView {
        HeaderView {
            magic: self.magic as nat,
            schema_version: self.schema_version as nat,
            length: self.length as nat,
            reserved: self.reserved as nat,
            ts_ns: self.ts_ns as nat,
            seq: self.seq as nat,
            uid: self.uid as nat,
            pid: self.pid as nat,
            session_id: self.session_id@,
        }
    }
}

impl View for Record {
    type V = RecordView;

    open spec fn view(&self) -> RecordView {
        RecordView { header: self.header@, blob: self.blob@ }
    }
}

impl HeaderView {
    /// Every field fits the width that it has on the wire.
    pub open spec fn valid(self) -> bool {
        &&& self.magic <= u32::MAX
        &&& self.schema_version <= u32::MAX
        &&& self.length <= u32::MAX
        &&& self.reserved <= u32::MAX
        &&& self.ts_ns <= u64::MAX
        &&& self.seq <= u64::MAX
        &&& self.uid <= u32::MAX
        &&& self.pid <= u32::MAX
        &&& self.session_id.len() == 16
    }

    /// The wire form: the fields one after the other, little-endian.
    pub open spec fn wire(self) -> Seq<u8> {
        crate::bytes::le_bytes(self.magic, 4) + crate::bytes::le_bytes(self.schema_version, 4)
            + crate::bytes::le_bytes(self.length, 4) + crate::bytes::le_bytes(self.reserved, 4)
            + crate::bytes::le_bytes(self.ts_ns, 8) + crate::bytes::le_bytes(self.seq, 8)
            + crate::bytes::le_bytes(self.uid, 4) + crate::bytes::le_bytes(self.pid, 4)
            + self.session_id
    }
}

/// `buf` starts with a whole header that carries the magic.
pub open spec fn framed(buf: Seq<u8>) -> bool {
    buf.len() >= HEADER_LEN && crate::bytes::le_value(buf.subrange(0, 4)) == RECORD_MAGIC
}

/// The header that the first [`HEADER_LEN`] bytes of `buf` spell.
pub open spec fn header_of(buf: Seq<u8>) -> HeaderView
    recommends
        buf.len() >= HEADER_LEN,
{
    HeaderView {
        magic: crate::bytes::le_value(buf.subrange(0, 4)),
        schema_version: crate::bytes::le_value(buf.subrange(4, 8)),
        length: crate::bytes::le_value(buf.subrange(8, 12)),
        reserved: crate::bytes::le_value(buf.subrange(12, 16)),
        ts_ns: crate::bytes::le_value(buf.subrange(16, 24)),
        seq: crate::bytes::le_value(buf.subrange(24, 32)),
        uid: crate::bytes::le_value(buf.subrange(32, 36)),
        pid: crate::bytes::le_value(buf.subrange(36, 40)),
        session_id: buf.subrange(40, 56),
    }
}

/// `buf` starts with a framed header and with all of the blob that it announces.
pub open spec fn starts_with_record(buf: Seq<u8>) -> bool {
    framed(buf) && HEADER_LEN + header_of(buf).length <= buf.len()
}

/// Where the first record of `buf` ends.
pub open spec fn record_end(buf: Seq<u8>) -> int {
    HEADER_LEN + header_of(buf).length
}

/// The first record of `buf`.
pub open spec fn first_record(buf: Seq<u8>) -> RecordView
    recommends
        starts_with_record(buf),
{
    RecordView { header: header_of(buf), blob: buf.subrange(HEADER_LEN as int, record_end(buf)) }
}

/// The records at the front of `buf`, up to the first place at which no whole
/// framed record starts.
pub open spec fn decode(buf: Seq<u8>) -> Seq<RecordView>
    decreases buf.len(),
{
    if starts_with_record(buf) {
        seq![first_record(buf)] + decode(buf.skip(record_end(buf)))
    } else {
        seq![]
    }
}

/// The views of a run of records.
pub open spec fn record_views(records: Seq<Record>) -> Seq<RecordView> {
    records.map_values(|r: Record| r@)
}

impl RecordHeader {
    /// Parse a header from the front of `buf`. `None` if `buf` is too short or
    /// does not start with [`RECORD_MAGIC`].
    pub fn from_bytes(buf: &[u8]) -> (header: Option<RecordHeader>)
        ensures
            header is Some <==> framed(buf@),
            header matches Some(h) ==> h@ == header_of(buf@),
    {
        if buf.len() < HEADER_LEN {
            return None;
        }
        let magic: u32 = u32_at(buf, 0);
        if magic != RECORD_MAGIC {
            return None;
        }
        let mut session_id: [u8; 16] = [0u8; 16];
        let mut i: usize = 0;
        while i < 16
            invariant
                i <= 16,
                buf@.len() >= HEADER_LEN,
                forall|j: int| 0 <= j < i ==> session_id@[j] == buf@[40 + j],
            decreases 16 - i,
        {
            session_id[i] = buf[40 + i];
            i = i + 1;
        }
        assert(session_id@ =~= buf@.subrange(40, 56));
        Some(
            RecordHeader {
                magic,
                schema_version: u32_at(buf, 4),
                length: u32_at(buf, 8),
                reserved: u32_at(buf, 12),
                ts_ns: u64_at(buf, 16),
                seq: u64_at(buf, 24),
                uid: u32_at(buf, 32),
                pid: u32_at(buf, 36),
                session_id,
            },
        )
    }

    /// Serialize this header to its [`HEADER_LEN`]-byte little-endian wire form.
    pub fn to_bytes(&self) -> (wire: [u8; HEADER_LEN])
        ensures
            wire@ == self@.wire(),
    {
        let mut bytes: Vec<u8> = Vec::with_capacity(HEADER_LEN);
        push_le(&mut bytes, self.magic as u64, 4);
        push_le(&mut bytes, self.schema_version as u64, 4);
        push_le(&mut bytes, self.length as u64, 4);
        push_le(&mut bytes, self.reserved as u64, 4);
        push_le(&mut bytes, self.ts_ns, 8);
        push_le(&mut bytes, self.seq, 8);
        push_le(&mut bytes, self.uid as u64, 4);
        push_le(&mut bytes, self.pid as u64, 4);
        let ghost fields = bytes@;
        let mut i: usize = 0;
        while i < 16
            invariant
                i <= 16,
                bytes@ == fields + self.session_id@.subrange(0, i as int),
            decreases 16 - i,
        {
            let ghost before = bytes@;
            bytes.push(self.session_id[i]);
            assert(bytes@ =~= fields + self.session_id@.subrange(0, i + 1));
            i = i + 1;
        }
        proof {
            lemma_wire_len(self@);
            assert(self.session_id@.subrange(0, 16) =~= self.session_id@);
            assert(bytes@ =~= self@.wire());
        }
        let mut wire: [u8; HEADER_LEN] = [0u8; HEADER_LEN];
        let mut k: usize = 0;
        while k < HEADER_LEN
            invariant
                k <= HEADER_LEN,
                bytes@.len() == HEADER_LEN,
                forall|j: int| 0 <= j < k ==> wire@[j] == bytes@[j],
            decreases HEADER_LEN - k,
        {
            wire[k] = bytes[k];
            k = k + 1;
        }
        assert(wire@ =~= bytes@);
        wire
    }
}

/// Parse a buffer of concatenated `<header><blob>` tuples. Gives the records
/// before the first truncated or mis-framed entry.
pub fn parse_records(buf: &[u8]) -> (records: Vec<Record>)
    ensures
        record_views(records@) == decode(buf@),
{
    let mut out: Vec<Record> = Vec::new();
    let mut pos: usize = 0;
    let mut more: bool = true;
    proof {
        assert(buf@.skip(0) =~= buf@);
        assert(record_views(out@) + decode(buf@) =~= decode(buf@));
    }
    while more
        invariant
            pos <= buf@.len(),
            record_views(out@) + decode(buf@.skip(pos as int)) == decode(buf@),
            !more ==> !starts_with_record(buf@.skip(pos as int)),
        decreases
            buf@.len() - pos + (if more {
                1int
            } else {
                0int
            }),
    {
        let rest = slice_subrange(buf, pos, buf.len());
        assert(rest@ =~= buf@.skip(pos as int));
        match RecordHeader::from_bytes(rest) {
            None => {
                more = false;
            },
            Some(header) => {
                let blob_len: usize = header.length as usize;
                if rest.len() - HEADER_LEN < blob_len {
                    more = false;
                } else {
                    let end: usize = HEADER_LEN + blob_len;
                    let ghost before = out@;
                    let record = Record {
                        header,
                        blob: slice_to_vec(slice_subrange(rest, HEADER_LEN, end)),
                    };
                    out.push(record);
                    pos = pos + end;
                    proof {
                        assert(record@ == first_record(rest@));
                        assert(rest@.skip(end as int) =~= buf@.skip(pos as int));
                        assert(record_views(out@) =~= record_views(before).push(record@));
                        assert(record_views(before) + (seq![record@] + decode(
                            buf@.skip(pos as int),
                        )) =~= record_views(out@) + decode(buf@.skip(pos as int)));
                    }
                }
            },
        }
    }
    assert(record_views(out@) + decode(buf@.skip(pos as int)) =~= record_views(out@));
    out
}

/// An argument that cannot be accepted, and why.
#[derive(Debug, PartialEq, Eq)]
pub struct InvalidInput {
    pub message: String,
}

/// A blob of `len` bytes can be recorded.
pub open spec fn blob_fits(len: nat) -> bool {
    len <= RECORD_MAX
}

/// What is said of a blob of `len` bytes, which is too long.
pub open spec fn too_long_text(len: nat) -> Seq<char> {
    "blob is "@ + crate::number::decimal(len) + " bytes; max is "@ + crate::number::decimal(
        RECORD_MAX as nat,
    )
}

/// Refuses a blob that is longer than [`RECORD_MAX`].
pub fn check_blob_len(len: usize) -> (checked: Result<(), InvalidInput>)
    ensures
        checked is Ok <==> len <= RECORD_MAX,
        checked matches Err(e) ==> e.message@ == "blob is "@ + crate::number::decimal(len as nat)
            + " bytes; max is "@ + crate::number::decimal(RECORD_MAX as nat),
        checked is Ok <==> blob_fits(len as nat),
        checked matches Err(e) ==> e.message@ == too_long_text(len as nat),
{
    if len > RECORD_MAX {
        let mut message: String = String::from_str("blob is ");
        append_decimal(&mut message, len as u64);
        message.append(" bytes; max is ");
        append_decimal(&mut message, RECORD_MAX as u64);
        return Err(InvalidInput { message });
    }
    Ok(())
}

/// A wire form is [`HEADER_LEN`] bytes long.
pub proof fn lemma_wire_len(header: HeaderView)
    requires
        header.session_id.len() == 16,
    ensures
        header.wire().len() == HEADER_LEN,
{
    crate::bytes::lemma_le_bytes_len(header.magic, 4);
    crate::bytes::lemma_le_bytes_len(header.schema_version, 4);
    crate::bytes::lemma_le_bytes_len(header.length, 4);
    crate::bytes::lemma_le_bytes_len(header.reserved, 4);
    crate::bytes::lemma_le_bytes_len(header.ts_ns, 8);
    crate::bytes::lemma_le_bytes_len(header.seq, 8);
    crate::bytes::lemma_le_bytes_len(header.uid, 4);
    crate::bytes::lemma_le_bytes_len(header.pid, 4);
}

/// A record that the device could have stored: framed, in bounds, and with a
/// header that announces exactly its blob.
pub open spec fn stored(record: RecordView) -> bool {
    &&& record.header.valid()
    &&& record.header.magic == RECORD_MAGIC
    &&& record.header.length == record.blob.len()
}

/// The bytes of a run of records, as the device hands them out.
pub open spec fn stream(records: Seq<RecordView>) -> Seq<u8>
    decreases records.len(),
{
    if records.len() == 0 {
        seq![]
    } else {
        records[0].header.wire() + records[0].blob + stream(records.drop_first())
    }
}

/// A header with the magic is read back from its wire form, whatever follows.
pub proof fn header_round_trips(header: HeaderView, tail: Seq<u8>)
    requires
        header.valid(),
        header.magic == RECORD_MAGIC,
    ensures
        framed(header.wire() + tail),
        header_of(header.wire() + tail) == header,
{
    lemma_wire_len(header);
    lemma_wire_fields(header, tail);
    crate::bytes::lemma_le_bounds();
    crate::bytes::lemma_le_value_of_bytes(header.magic, 4);
    crate::bytes::lemma_le_value_of_bytes(header.schema_version, 4);
    crate::bytes::lemma_le_value_of_bytes(header.length, 4);
    crate::bytes::lemma_le_value_of_bytes(header.reserved, 4);
    crate::bytes::lemma_le_value_of_bytes(header.ts_ns, 8);
    crate::bytes::lemma_le_value_of_bytes(header.seq, 8);
    crate::bytes::lemma_le_value_of_bytes(header.uid, 4);
    crate::bytes::lemma_le_value_of_bytes(header.pid, 4);
}

proof fn lemma_wire_fields(header: HeaderView, tail: Seq<u8>)
    requires
        header.session_id.len() == 16,
    ensures
        ({
            let buf = header.wire() + tail;
            &&& buf.subrange(0, 4) == crate::bytes::le_bytes(header.magic, 4)
            &&& buf.subrange(4, 8) == crate::bytes::le_bytes(header.schema_version, 4)
            &&& buf.subrange(8, 12) == crate::bytes::le_bytes(header.length, 4)
            &&& buf.subrange(12, 16) == crate::bytes::le_bytes(header.reserved, 4)
            &&& buf.subrange(16, 24) == crate::bytes::le_bytes(header.ts_ns, 8)
            &&& buf.subrange(24, 32) == crate::bytes::le_bytes(header.seq, 8)
            &&& buf.subrange(32, 36) == crate::bytes::le_bytes(header.uid, 4)
            &&& buf.subrange(36, 40) == crate::bytes::le_bytes(header.pid, 4)
            &&& buf.subrange(40, 56) == header.session_id
        }),
{
    crate::bytes::lemma_le_bytes_len(header.magic, 4);
    crate::bytes::lemma_le_bytes_len(header.schema_version, 4);
    crate::bytes::lemma_le_bytes_len(header.length, 4);
    crate::bytes::lemma_le_bytes_len(header.reserved, 4);
    crate::bytes::lemma_le_bytes_len(header.ts_ns, 8);
    crate::bytes::lemma_le_bytes_len(header.seq, 8);
    crate::bytes::lemma_le_bytes_len(header.uid, 4);
    crate::bytes::lemma_le_bytes_len(header.pid, 4);
    let buf = header.wire() + tail;
    assert(buf.subrange(0, 4) =~= crate::bytes::le_bytes(header.magic, 4));
    assert(buf.subrange(4, 8) =~= crate::bytes::le_bytes(header.schema_version, 4));
    assert(buf.subrange(8, 12) =~= crate::bytes::le_bytes(header.length, 4));
    assert(buf.subrange(12, 16) =~= crate::bytes::le_bytes(header.reserved, 4));
    assert(buf.subrange(16, 24) =~= crate::bytes::le_bytes(header.ts_ns, 8));
    assert(buf.subrange(24, 32) =~= crate::bytes::le_bytes(header.seq, 8));
    assert(buf.subrange(32, 36) =~= crate::bytes::le_bytes(header.uid, 4));
    assert(buf.subrange(36, 40) =~= crate::bytes::le_bytes(header.pid, 4));
    assert(buf.subrange(40, 56) =~= header.session_id);
}

/// Writing a parsed header out again gives the bytes that it was parsed from.
pub proof fn header_rewrites_its_bytes(buf: Seq<u8>)
    requires
        buf.len() >= HEADER_LEN,
    ensures
        header_of(buf).valid(),
        header_of(buf).wire() == buf.subrange(0, HEADER_LEN as int),
{
    crate::bytes::lemma_le_bounds();
    crate::bytes::lemma_le_bytes_of_value(buf.subrange(0, 4));
    crate::bytes::lemma_le_bytes_of_value(buf.subrange(4, 8));
    crate::bytes::lemma_le_bytes_of_value(buf.subrange(8, 12));
    crate::bytes::lemma_le_bytes_of_value(buf.subrange(12, 16));
    crate::bytes::lemma_le_bytes_of_value(buf.subrange(16, 24));
    crate::bytes::lemma_le_bytes_of_value(buf.subrange(24, 32));
    crate::bytes::lemma_le_bytes_of_value(buf.subrange(32, 36));
    crate::bytes::lemma_le_bytes_of_value(buf.subrange(36, 40));
    assert(header_of(buf).wire() =~= buf.subrange(0, HEADER_LEN as int));
}

proof fn lemma_first_record(record: RecordView, after: Seq<u8>)
    requires
        stored(record),
    ensures
        ({
            let buf = record.header.wire() + record.blob + after;
            &&& starts_with_record(buf)
            &&& first_record(buf) == record
            &&& buf.skip(record_end(buf)) == after
        }),
{
    let buf = record.header.wire() + record.blob + after;
    lemma_wire_len(record.header);
    header_round_trips(record.header, record.blob + after);
    assert(buf =~= record.header.wire() + (record.blob + after));
    assert(first_record(buf).blob =~= record.blob);
    assert(buf.skip(record_end(buf)) =~= after);
}

/// Records that were stored one after the other are all read back, in order
/// and unchanged, and reading goes on with whatever follows them.
#[verifier::spinoff_prover]
pub proof fn stream_round_trips(records: Seq<RecordView>, tail: Seq<u8>)
    requires
        forall|i: int| 0 <= i < records.len() ==> stored(#[trigger] records[i]),
    ensures
        decode(stream(records) + tail) == records + decode(tail),
    decreases records.len(),
{
    if records.len() == 0 {
        assert(stream(records) + tail =~= tail);
        assert(records + decode(tail) =~= decode(tail));
    } else {
        let first = records[0];
        let rest = records.drop_first();
        let buf = stream(records) + tail;
        assert(stored(records[0]));
        assert forall|i: int| 0 <= i < rest.len() implies stored(#[trigger] rest[i]) by {
            assert(rest[i] == records[i + 1]);
        }
        stream_round_trips(rest, tail);
        lemma_first_record(first, stream(rest) + tail);
        assert(buf =~= first.header.wire() + first.blob + (stream(rest) + tail));
        assert(records + decode(tail) =~= seq![first] + (rest + decode(tail)));
    }
}

/// Reading stops at bytes that do not carry the magic: garbage after the stored
/// records neither adds a record nor loses one.
pub proof fn garbage_ends_the_stream(records: Seq<RecordView>, garbage: Seq<u8>)
    requires
        forall|i: int| 0 <= i < records.len() ==> stored(#[trigger] records[i]),
        !framed(garbage),
    ensures
        decode(stream(records) + garbage) == records,
{
    stream_round_trips(records, garbage);
    assert(records + decode(garbage) =~= records);
}

proof fn lemma_record_bytes(buf: Seq<u8>)
    requires
        starts_with_record(buf),
    ensures
        stored(first_record(buf)),
        HEADER_LEN <= record_end(buf) <= buf.len(),
        first_record(buf).header.wire() + first_record(buf).blob == buf.subrange(
            0,
            record_end(buf),
        ),
{
    header_rewrites_its_bytes(buf);
    assert(buf.subrange(0, HEADER_LEN as int) + buf.subrange(HEADER_LEN as int, record_end(buf))
        =~= buf.subrange(0, record_end(buf)));
}

proof fn lemma_stream_first(first: RecordView, rest: Seq<RecordView>)
    ensures
        stream(seq![first] + rest) == first.header.wire() + first.blob + stream(rest),
{
    assert((seq![first] + rest).drop_first() =~= rest);
}

proof fn lemma_glue(buf: Seq<u8>, end: int, n: int)
    requires
        0 <= end <= buf.len(),
        0 <= n <= buf.len() - end,
    ensures
        buf.subrange(0, end) + buf.skip(end).subrange(0, n) == buf.subrange(0, end + n),
        buf.skip(end).skip(n) == buf.skip(end + n),
{
    assert(buf.subrange(0, end) + buf.skip(end).subrange(0, n) =~= buf.subrange(0, end + n));
    assert(buf.skip(end).skip(n) =~= buf.skip(end + n));
}

/// Whatever the buffer, the records read from it are stored ones, their bytes
/// are exactly the front of the buffer, and no further record starts there.
#[verifier::spinoff_prover]
pub proof fn decoded_records_are_the_front(buf: Seq<u8>)
    ensures
        forall|i: int| 0 <= i < decode(buf).len() ==> stored(#[trigger] decode(buf)[i]),
        stream(decode(buf)).len() <= buf.len(),
        buf.subrange(0, stream(decode(buf)).len() as int) == stream(decode(buf)),
        !starts_with_record(buf.skip(stream(decode(buf)).len() as int)),
    decreases buf.len(),
{
    if starts_with_record(buf) {
        lemma_record_bytes(buf);
        let end = record_end(buf);
        let rest = buf.skip(end);
        decoded_records_are_the_front(rest);
        let n = stream(decode(rest)).len() as int;
        lemma_stream_first(first_record(buf), decode(rest));
        lemma_glue(buf, end, n);
        assert forall|i: int| 0 <= i < decode(buf).len() implies stored(
            #[trigger] decode(buf)[i],
        ) by {
            if i > 0 {
                assert(decode(buf)[i] == decode(rest)[i - 1]);
            }
        }
    } else {
        assert(buf.skip(0) =~= buf);
        assert(buf.subrange(0, 0) =~= stream(decode(buf)));
    }
}

/// Cutting the buffer short loses records at its end only.
pub proof fn truncation_keeps_a_prefix(buf: Seq<u8>, cut: int)
    requires
        0 <= cut <= buf.len(),
    ensures
        decode(buf.subrange(0, cut)).is_prefix_of(decode(buf)),
    decreases buf.len(),
{
    let short = buf.subrange(0, cut);
    if starts_with_record(short) {
        lemma_front_decides(short, buf);
        let end = record_end(buf);
        truncation_keeps_a_prefix(buf.skip(end), cut - end);
        assert(buf.skip(end).subrange(0, cut - end) =~= short.skip(end));
        assert(first_record(short).blob =~= first_record(buf).blob);
        assert(decode(short).is_prefix_of(decode(buf)));
    }
}

proof fn lemma_front_decides(short: Seq<u8>, buf: Seq<u8>)
    requires
        HEADER_LEN <= short.len() <= buf.len(),
        short == buf.subrange(0, short.len() as int),
    ensures
        header_of(short) == header_of(buf),
{
    assert(short.subrange(0, 4) =~= buf.subrange(0, 4));
    assert(short.subrange(4, 8) =~= buf.subrange(4, 8));
    assert(short.subrange(8, 12) =~= buf.subrange(8, 12));
    assert(short.subrange(12, 16) =~= buf.subrange(12, 16));
    assert(short.subrange(16, 24) =~= buf.subrange(16, 24));
    assert(short.subrange(24, 32) =~= buf.subrange(24, 32));
    assert(short.subrange(32, 36) =~= buf.subrange(32, 36));
    assert(short.subrange(36, 40) =~= buf.subrange(36, 40));
    assert(short.subrange(40, 56) =~= buf.subrange(40, 56));
}

/// The number in the four bytes from `at` on, the first of which counts least.
pub open spec fn four_at(buf: Seq<u8>, at: int) -> int {
    buf[at] + 0x100 * buf[at + 1] + 0x1_0000 * buf[at + 2] + 0x100_0000 * buf[at + 3]
}

/// The number in the eight bytes from `at` on, the first of which counts least.
pub open spec fn eight_at(buf: Seq<u8>, at: int) -> int {
    four_at(buf, at) + 0x1_0000_0000 * four_at(buf, at + 4)
}

proof fn lemma_four_at(buf: Seq<u8>, at: int)
    requires
        0 <= at,
        at + 4 <= buf.len(),
    ensures
        crate::bytes::le_value(buf.subrange(at, at + 4)) == four_at(buf, at),
{
    crate::bytes::four_bytes_spell(buf.subrange(at, at + 4));
}

proof fn lemma_eight_at(buf: Seq<u8>, at: int)
    requires
        0 <= at,
        at + 8 <= buf.len(),
    ensures
        crate::bytes::le_value(buf.subrange(at, at + 8)) == eight_at(buf, at),
{
    crate::bytes::eight_bytes_spell(buf.subrange(at, at + 8));
}

/// A header starts where `GOLM` stands and 52 bytes follow, and nowhere else; each
/// of its fields stands at its offset.
pub proof fn header_fields_stand_at_their_offsets(buf: Seq<u8>)
    ensures
        framed(buf) <==> (buf.len() >= 56 && buf[0] == 0x47 && buf[1] == 0x4f && buf[2] == 0x4c
            && buf[3] == 0x4d),
        buf.len() >= 56 ==> {
            let header = header_of(buf);
            &&& header.magic == four_at(buf, 0)
            &&& header.schema_version == four_at(buf, 4)
            &&& header.length == four_at(buf, 8)
            &&& header.reserved == four_at(buf, 12)
            &&& header.ts_ns == eight_at(buf, 16)
            &&& header.seq == eight_at(buf, 24)
            &&& header.uid == four_at(buf, 32)
            &&& header.pid == four_at(buf, 36)
            &&& header.session_id == buf.subrange(40, 56)
        },
{
    if buf.len() >= 56 {
        lemma_four_at(buf, 0);
        lemma_four_at(buf, 4);
        lemma_four_at(buf, 8);
        lemma_four_at(buf, 12);
        lemma_eight_at(buf, 16);
        lemma_eight_at(buf, 24);
        lemma_four_at(buf, 32);
        lemma_four_at(buf, 36);
    }
}

/// The wire form of a header holds each of its fields at its offset.
pub proof fn wire_holds_the_fields(header: HeaderView)
    requires
        header.magic <= 0xffff_ffff,
        header.schema_version <= 0xffff_ffff,
        header.length <= 0xffff_ffff,
        header.reserved <= 0xffff_ffff,
        header.ts_ns <= 0xffff_ffff_ffff_ffff,
        header.seq <= 0xffff_ffff_ffff_ffff,
        header.uid <= 0xffff_ffff,
        header.pid <= 0xffff_ffff,
        header.session_id.len() == 16,
    ensures
        ({
            let wire = header.wire();
            &&& wire.len() == 56
            &&& four_at(wire, 0) == header.magic
            &&& four_at(wire, 4) == header.schema_version
            &&& four_at(wire, 8) == header.length
            &&& four_at(wire, 12) == header.reserved
            &&& eight_at(wire, 16) == header.ts_ns
            &&& eight_at(wire, 24) == header.seq
            &&& four_at(wire, 32) == header.uid
            &&& four_at(wire, 36) == header.pid
            &&& wire.subrange(40, 56) == header.session_id
        }),
{
    let wire = header.wire();
    lemma_wire_len(header);
    lemma_wire_fields(header, seq![]);
    assert(wire + Seq::<u8>::empty() =~= wire);
    crate::bytes::lemma_le_bounds();
    crate::bytes::lemma_le_value_of_bytes(header.magic, 4);
    crate::bytes::lemma_le_value_of_bytes(header.schema_version, 4);
    crate::bytes::lemma_le_value_of_bytes(header.length, 4);
    crate::bytes::lemma_le_value_of_bytes(header.reserved, 4);
    crate::bytes::lemma_le_value_of_bytes(header.ts_ns, 8);
    crate::bytes::lemma_le_value_of_bytes(header.seq, 8);
    crate::bytes::lemma_le_value_of_bytes(header.uid, 4);
    crate::bytes::lemma_le_value_of_bytes(header.pid, 4);
    lemma_four_at(wire, 0);
    lemma_four_at(wire, 4);
    lemma_four_at(wire, 8);
    lemma_four_at(wire, 12);
    lemma_eight_at(wire, 16);
    lemma_eight_at(wire, 24);
    lemma_four_at(wire, 32);
    lemma_four_at(wire, 36);
}

/// A buffer that starts with `GOLM`, 52 more bytes of header, and as many bytes of
/// blob as the header says, however many, gives a record of these, and then what the
/// bytes behind it give; any other buffer gives nothing.
pub proof fn records_are_read_one_after_the_other(buf: Seq<u8>)
    ensures
        ({
            let len = four_at(buf, 8);
            let whole = buf.len() >= 56 && buf[0] == 0x47 && buf[1] == 0x4f && buf[2] == 0x4c
                && buf[3] == 0x4d && buf.len() >= 56 + len;
            &&& !whole ==> decode(buf).len() == 0
            &&& whole ==> {
                &&& decode(buf).len() == 1 + decode(buf.skip(56 + len)).len()
                &&& decode(buf).skip(1) == decode(buf.skip(56 + len))
                &&& decode(buf)[0].blob == buf.subrange(56, 56 + len)
                &&& decode(buf)[0].header == header_of(buf)
            }
        }),
{
    header_fields_stand_at_their_offsets(buf);
    if starts_with_record(buf) {
        let rest = decode(buf.skip(record_end(buf)));
        assert((seq![first_record(buf)] + rest).skip(1) =~= rest);
    }
}

/// A blob that is no longer than one that can be recorded can be recorded too, and the
/// longest that can has 65536 bytes. What is said of one that is too long tells, in
/// digits, its length and that of the longest.
pub proof fn longest_blob_is_told(a: nat, b: nat) -> (digits: (Seq<char>, Seq<char>))
    ensures
        a <= b && blob_fits(b) ==> blob_fits(a),
        blob_fits(a) ==> a <= 0x1_0000,
        too_long_text(a) == "blob is "@ + digits.0 + " bytes; max is "@ + digits.1,
        crate::number::spells(digits.0, a),
        crate::number::spells(digits.1, 0x1_0000),
        blob_fits(crate::number::spelled(digits.1, 10)),
{
    crate::number::decimal_spells_its_number(a);
    crate::number::decimal_spells_its_number(0x1_0000);
    (crate::number::decimal(a), crate::number::decimal(0x1_0000))
}

} // verus!
