//! The names of sessions.

use libmemlog::session::{agent_session_path, derive_session_id, is_unnamed};

#[test]
fn name_in_the_header_is_the_session() {
    assert_eq!(derive_session_id(b"session-a\0\0\0\0\0\0\0", 1, Some("other")), "session-a");
    assert_eq!(derive_session_id(b"0123456789abcdef", 1, None), "0123456789abcdef");
    assert_eq!(derive_session_id(b"\0a\0b\0\0\0\0\0\0\0\0\0\0\0\0", 1, None), "\0a\0b");
    let mut bytes = [0u8; 16];
    bytes[..5].copy_from_slice("\u{20ac}ur".as_bytes());
    assert_eq!(derive_session_id(&bytes, 1, None), "\u{20ac}ur");
}

#[test]
fn header_that_is_no_text_is_written_in_hex() {
    let mut bytes = [0u8; 16];
    bytes[0] = 0xff;
    assert_eq!(derive_session_id(&bytes, 1, Some("x")), "ff000000000000000000000000000000");
    assert_eq!(derive_session_id(&[0x80u8; 16], 1, None), hex::encode([0x80u8; 16]));
    // a character that the header's end cuts off
    let mut bytes = [b'a'; 16];
    bytes[15] = 0xc3;
    assert_eq!(derive_session_id(&bytes, 1, None), hex::encode(bytes));
}

#[test]
fn header_without_a_name_leaves_it_to_the_process() {
    let none = [0u8; 16];
    assert!(is_unnamed(&none));
    assert!(!is_unnamed(b"\0\0\0\0\0\0\0\0\0\0\0\0\0\0\0a"));
    assert_eq!(derive_session_id(&none, 42, Some("  agent 7\t\n")), "agent 7");
    assert_eq!(derive_session_id(&none, 42, Some(" \u{3000}\n")), "comm:unknown:pid:42");
    assert_eq!(derive_session_id(&none, 42, None), "comm:unknown:pid:42");
    assert_eq!(agent_session_path(4294967295), "/proc/4294967295/agent_session");
}
