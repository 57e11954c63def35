//! Record headers and the records of a ring.

use libmemlog::{
    check_blob_len, parse_records, Record, RecordHeader, DEVICE_PATH, HEADER_LEN, MAJOR,
    RECORD_MAGIC, RECORD_MAX, SCHEMA_VERSION,
};

fn sample(length: u32, seq: u64) -> RecordHeader {
    RecordHeader {
        magic: RECORD_MAGIC,
        schema_version: SCHEMA_VERSION,
        length,
        reserved: 0,
        ts_ns: 77,
        seq,
        uid: 1000,
        pid: 4242,
        session_id: *b"session-a\0\0\0\0\0\0\0",
    }
}

fn framed(seq: u64, blob: &[u8]) -> Vec<u8> {
    let mut bytes = sample(blob.len() as u32, seq).to_bytes().to_vec();
    bytes.extend_from_slice(blob);
    bytes
}

#[test]
fn header_wire_size_matches_uapi() {
    // memlog_record_header is 56 packed bytes; our wire form must agree.
    assert_eq!(HEADER_LEN, 56);
    assert_eq!(std::mem::size_of::<RecordHeader>(), 56);
}

#[test]
fn header_roundtrips() {
    let h = RecordHeader {
        magic: RECORD_MAGIC,
        schema_version: SCHEMA_VERSION,
        length: 42,
        reserved: 0,
        ts_ns: 1_700_000_000_123_456_789,
        seq: 9001,
        uid: 1000,
        pid: 506601,
        session_id: *b"abcdef0123456789",
    };
    let bytes = h.to_bytes();
    assert_eq!(bytes.len(), HEADER_LEN);
    assert_eq!(RecordHeader::from_bytes(&bytes), Some(h));
}

#[test]
fn from_bytes_rejects_bad_magic_and_short_buf() {
    assert_eq!(RecordHeader::from_bytes(&[0u8; HEADER_LEN]), None);
    assert_eq!(RecordHeader::from_bytes(&[0u8; 10]), None);
}

#[test]
fn parse_records_decodes_tuples_and_stops_on_garbage() {
    let mk = |seq: u64, blob: &[u8]| {
        let h = RecordHeader {
            magic: RECORD_MAGIC,
            schema_version: SCHEMA_VERSION,
            length: blob.len() as u32,
            reserved: 0,
            ts_ns: 0,
            seq,
            uid: 1000,
            pid: 1,
            session_id: [0u8; 16],
        };
        let mut v = h.to_bytes().to_vec();
        v.extend_from_slice(blob);
        v
    };
    let mut stream = mk(1, b"hello");
    stream.extend_from_slice(&mk(2, b"world"));
    stream.extend_from_slice(b"\xff\xff garbage"); // mis-framed tail

    let recs = parse_records(&stream);
    assert_eq!(recs.len(), 2);
    assert_eq!(recs[0].blob, b"hello");
    assert_eq!(recs[1].header.seq, 2);
    assert_eq!(recs[1].blob, b"world");
}

#[test]
fn check_blob_len_enforces_max() {
    assert!(check_blob_len(0).is_ok());
    assert!(check_blob_len(RECORD_MAX).is_ok());
    assert!(check_blob_len(RECORD_MAX + 1).is_err());
}

#[test]
fn long_blob_is_refused_with_its_length() {
    let error = check_blob_len(65537).unwrap_err();
    assert_eq!(error.message, "blob is 65537 bytes; max is 65536");
    let error = check_blob_len(usize::MAX).unwrap_err();
    assert_eq!(error.message, format!("blob is {} bytes; max is 65536", usize::MAX));
}

#[test]
fn constants_are_those_of_the_device() {
    assert_eq!(DEVICE_PATH, "/dev/memlog");
    assert_eq!(MAJOR, 244);
    assert_eq!(RECORD_MAX, 65536);
    assert_eq!(SCHEMA_VERSION, 1);
    assert_eq!(RECORD_MAGIC.to_be_bytes(), *b"MLOG");
}

#[test]
fn header_is_little_endian() {
    let header = RecordHeader {
        magic: RECORD_MAGIC,
        schema_version: 0x0102_0304,
        length: 0x0506_0708,
        reserved: 0x090a_0b0c,
        ts_ns: 0x1112_1314_1516_1718,
        seq: 0x2122_2324_2526_2728,
        uid: 0x3132_3334,
        pid: 0x4142_4344,
        session_id: *b"0123456789abcdef",
    };
    let mut expected = Vec::new();
    expected.extend_from_slice(&RECORD_MAGIC.to_le_bytes());
    expected.extend_from_slice(&0x0102_0304u32.to_le_bytes());
    expected.extend_from_slice(&0x0506_0708u32.to_le_bytes());
    expected.extend_from_slice(&0x090a_0b0cu32.to_le_bytes());
    expected.extend_from_slice(&0x1112_1314_1516_1718u64.to_le_bytes());
    expected.extend_from_slice(&0x2122_2324_2526_2728u64.to_le_bytes());
    expected.extend_from_slice(&0x3132_3334u32.to_le_bytes());
    expected.extend_from_slice(&0x4142_4344u32.to_le_bytes());
    expected.extend_from_slice(b"0123456789abcdef");
    assert_eq!(header.to_bytes().to_vec(), expected);
}

#[test]
fn header_bytes_are_rewritten_as_they_were() {
    let mut bytes: Vec<u8> = (0..60u8).collect();
    bytes[0..4].copy_from_slice(&RECORD_MAGIC.to_le_bytes());
    let header = RecordHeader::from_bytes(&bytes).unwrap();
    assert_eq!(header.to_bytes().to_vec(), bytes[..56].to_vec());
}

#[test]
fn stream_of_records_is_read_back() {
    let mut stream = framed(7, b"");
    stream.extend_from_slice(&framed(8, &[0u8; 300]));
    let records = parse_records(&stream);
    assert_eq!(
        records,
        vec![
            Record { header: sample(0, 7), blob: Vec::new() },
            Record { header: sample(300, 8), blob: vec![0u8; 300] },
        ]
    );
}

#[test]
fn truncated_stream_gives_its_whole_records() {
    let mut stream = framed(1, b"hello");
    stream.extend_from_slice(&framed(2, b"world"));
    let whole = parse_records(&stream);
    assert_eq!(whole.len(), 2);
    for n in 0..stream.len() {
        let records = parse_records(&stream[..n]);
        let expected = if n >= 61 { 1 } else { 0 };
        assert_eq!(records.len(), expected);
        assert_eq!(records[..], whole[..expected]);
    }
}
