//! The name of the session that a record belongs to.

use vstd::prelude::*;
use vstd::string::*;

use crate::number::{append_decimal, hex_encode};
use crate::text::{chars_of, Span, Strip};

verus! {

broadcast use vstd::string::group_string_axioms;

/// Calls `std::str::from_utf8`. Claimed is that it gives a text just when the
/// bytes are valid UTF-8, and that it is then the text that they encode.
#[verifier::external_body]
pub(crate) fn utf8_text(bytes: &[u8]) -> (text: Option<&str>)
    ensures
        text is Some <==> vstd::utf8::valid_utf8(bytes@),
        text matches Some(t) ==> t@ == vstd::utf8::decode_utf8(bytes@),
{
    std::str::from_utf8(bytes).ok()
}

/// The header names no session.
pub open spec fn unnamed(bytes: Seq<u8>) -> bool {
    forall|i: int| 0 <= i < bytes.len() ==> bytes[i] == 0
}

/// The text in `bytes` without the zeros at its end; empty if it is no UTF-8.
pub open spec fn text_in(bytes: Seq<u8>) -> Seq<char> {
    if vstd::utf8::valid_utf8(bytes) {
        crate::text::strip_back(vstd::utf8::decode_utf8(bytes), Strip::Only('\0'))
    } else {
        seq![]
    }
}

/// The session that the header names: its text if it holds one, else its hex.
pub open spec fn named_session(bytes: Seq<u8>) -> Seq<char> {
    if text_in(bytes).len() > 0 {
        text_in(bytes)
    } else {
        crate::number::hex(bytes)
    }
}

/// The session of a process whose header names none: what its `agent_session`
/// file says, else one made of its process id.
pub open spec fn process_session(agent_session: Option<Seq<char>>, pid: nat) -> Seq<char> {
    match agent_session {
        Some(text) if crate::text::trim(text).len() > 0 => crate::text::trim(text),
        _ => "comm:unknown:pid:"@ + crate::number::decimal(pid),
    }
}

/// The session of a record, given what the process's file says.
pub open spec fn session_of(
    bytes: Seq<u8>,
    pid: nat,
    agent_session: Option<Seq<char>>,
) -> Seq<char> {
    if unnamed(bytes) {
        process_session(agent_session, pid)
    } else {
        named_session(bytes)
    }
}

/// The header names no session.
pub fn is_unnamed(bytes: &[u8; 16]) -> (yes: bool)
    ensures
        yes == unnamed(bytes@),
{
    let mut i: usize = 0;
    while i < 16
        invariant
            i <= 16,
            forall|j: int| 0 <= j < i ==> bytes@[j] == 0,
        decreases 16 - i,
    {
        if bytes[i] != 0 {
            return false;
        }
        i = i + 1;
    }
    true
}

fn stripped(text: &str, what: Strip, both_ends: bool) -> (rest: String)
    ensures
        rest@ == if both_ends {
            crate::text::strip_back(crate::text::strip_front(text@, what), what)
        } else {
            crate::text::strip_back(text@, what)
        },
{
    let chars: Vec<char> = chars_of(text);
    let mut span: Span = Span { start: 0, end: chars.len() };
    assert(span.of(chars@) =~= text@);
    if both_ends {
        span = span.strip_front(&chars, what);
    }
    span = span.strip_back(&chars, what);
    text.substring_char(span.start, span.end).to_owned()
}

/// The path of the file in which a running process states its session.
pub open spec fn agent_session_path_of(pid: nat) -> Seq<char> {
    "/proc/"@ + crate::number::decimal(pid) + "/agent_session"@
}

/// The path of the file in which a running process states its session.
pub fn agent_session_path(pid: u32) -> (path: String)
    ensures
        path@ == agent_session_path_of(pid as nat),
{
    let mut path: String = String::from_str("/proc/");
    append_decimal(&mut path, pid as u64);
    path.append("/agent_session");
    path
}

/// The session of a record whose header has these bytes and this process id.
/// `agent_session` is the text of the process's file, if it could be read; it
/// matters only where the header names no session.
pub fn derive_session_id(
    session_id_bytes: &[u8; 16],
    pid: u32,
    agent_session: Option<&str>,
) -> (id: String)
    ensures
        id@ == session_of(
            session_id_bytes@,
            pid as nat,
            match agent_session {
                Some(text) => Some(text@),
                None => None,
            },
        ),
{
    if !is_unnamed(session_id_bytes) {
        let bytes: &[u8] = session_id_bytes.as_slice();
        if let Some(text) = utf8_text(bytes) {
            let id: String = stripped(text, Strip::Only('\0'), false);
            if !id.as_str().is_empty() {
                return id;
            }
        }
        return hex_encode(bytes);
    }
    if let Some(text) = agent_session {
        let id: String = stripped(text, Strip::White, true);
        if !id.as_str().is_empty() {
            return id;
        }
    }
    let mut id: String = String::from_str("comm:unknown:pid:");
    append_decimal(&mut id, pid as u64);
    id
}

proof fn lemma_encode_parts(a: Seq<char>, b: Seq<char>)
    ensures
        vstd::utf8::encode_utf8(a + b) == vstd::utf8::encode_utf8(a) + vstd::utf8::encode_utf8(b),
    decreases a.len(),
{
    if a.len() == 0 {
        assert(a + b =~= b);
        assert(vstd::utf8::encode_utf8(a) =~= Seq::<u8>::empty());
        assert(vstd::utf8::encode_utf8(a) + vstd::utf8::encode_utf8(b)
            =~= vstd::utf8::encode_utf8(b));
    } else {
        lemma_encode_parts(a.drop_first(), b);
        assert((a + b).drop_first() =~= a.drop_first() + b);
        assert((a + b)[0] == a[0]);
        assert(vstd::utf8::encode_utf8(a + b) =~= vstd::utf8::encode_utf8(a)
            + vstd::utf8::encode_utf8(b));
    }
}

proof fn lemma_zeros_stripped(text: Seq<char>, zeros: int)
    requires
        text.len() > 0,
        text.last() != '\0',
    ensures
        crate::text::strip_back(text + crate::number::fill('\0', zeros), Strip::Only('\0')) == text,
    decreases zeros,
{
    let padded = text + crate::number::fill('\0', zeros);
    if zeros > 0 {
        lemma_zeros_stripped(text, zeros - 1);
        assert(padded.last() == '\0');
        assert(padded.drop_last() =~= text + crate::number::fill('\0', zeros - 1));
    } else {
        assert(padded =~= text);
    }
}

proof fn lemma_padding_is_zeros(name: Seq<char>, zeros: nat)
    ensures
        vstd::utf8::encode_utf8(name + crate::number::fill('\0', zeros as int))
            == vstd::utf8::encode_utf8(name) + Seq::new(zeros, |i: int| 0u8),
{
    let padding = crate::number::fill('\0', zeros as int);
    lemma_encode_parts(name, padding);
    assert(vstd::utf8::is_ascii_chars(padding));
    vstd::utf8::is_ascii_chars_encode_utf8(padding);
    let bytes = vstd::utf8::encode_utf8(padding);
    assert forall|i: int| 0 <= i < bytes.len() implies bytes[i] == 0 by {
        assert(padding[i] as u8 == bytes[i]);
    }
    assert(bytes =~= Seq::new(zeros, |i: int| 0u8));
}

/// A session whose name stands in a header, with zeros behind it, is the session
/// of the record, whatever its process may state.
pub proof fn session_name_round_trips(
    name: Seq<char>,
    zeros: nat,
    pid: nat,
    agent_session: Option<Seq<char>>,
)
    requires
        name.len() > 0,
        name.last() != '\0',
    ensures
        session_of(
            vstd::utf8::encode_utf8(name) + Seq::new(zeros, |i: int| 0u8),
            pid,
            agent_session,
        ) == name,
{
    let padded = name + crate::number::fill('\0', zeros as int);
    let bytes = vstd::utf8::encode_utf8(padded);
    lemma_padding_is_zeros(name, zeros);
    vstd::utf8::encode_utf8_valid_utf8(padded);
    vstd::utf8::encode_utf8_decode_utf8(padded);
    lemma_zeros_stripped(name, zeros as int);
    if unnamed(bytes) {
        lemma_padding_is_zeros(seq![], bytes.len());
        let blank = Seq::<char>::empty() + crate::number::fill('\0', bytes.len() as int);
        assert(vstd::utf8::encode_utf8(Seq::<char>::empty()) =~= Seq::<u8>::empty());
        assert(bytes =~= vstd::utf8::encode_utf8(blank));
        vstd::utf8::encode_utf8_decode_utf8(blank);
        assert(padded[name.len() - 1] == name.last());
    }
}

/// No record is without a session: its name is never empty.
pub proof fn session_name_is_never_empty(
    bytes: Seq<u8>,
    pid: nat,
    agent_session: Option<Seq<char>>,
)
    ensures
        session_of(bytes, pid, agent_session).len() > 0,
{
    reveal_strlit("comm:unknown:pid:");
    if !unnamed(bytes) {
        assert(bytes.len() > 0);
        assert(crate::number::hex(bytes).len() >= 2);
    }
}

/// Where the header names no session and the process states none, or nothing but
/// white space, the session is `comm:unknown:pid:` and digits that spell the process
/// id.
pub proof fn nameless_session_tells_the_process(
    bytes: Seq<u8>,
    pid: nat,
    agent_session: Option<Seq<char>>,
) -> (digits: Seq<char>)
    requires
        forall|i: int| 0 <= i < bytes.len() ==> bytes[i] == 0,
        agent_session matches Some(text) ==> forall|i: int|
            0 <= i < text.len() ==> crate::text::is_white(#[trigger] text[i]),
    ensures
        session_of(bytes, pid, agent_session) == "comm:unknown:pid:"@ + digits,
        crate::number::spells(digits, pid),
{
    crate::number::decimal_spells_its_number(pid);
    if let Some(text) = agent_session {
        let ends = crate::text::trimming_takes_white_space(text);
        let trimmed = crate::text::trim(text);
        if trimmed.len() > 0 {
            assert(text[ends.0.len() as int] == trimmed[0]);
        }
    }
    crate::number::decimal(pid)
}

/// Two processes with different ids share no session, where their headers name none
/// and they state none.
pub proof fn nameless_sessions_differ(a: Seq<u8>, b: Seq<u8>, pid: nat, other: nat)
    requires
        forall|i: int| 0 <= i < a.len() ==> a[i] == 0,
        forall|i: int| 0 <= i < b.len() ==> b[i] == 0,
        session_of(a, pid, None) == session_of(b, other, None),
    ensures
        pid == other,
{
    let x = nameless_session_tells_the_process(a, pid, None);
    let y = nameless_session_tells_the_process(b, other, None);
    let key = "comm:unknown:pid:"@;
    assert(x =~= (key + x).skip(key.len() as int));
    assert(y =~= (key + y).skip(key.len() as int));
}

/// Where the header names no session, a process that states one, with or without
/// white space around it, is in that session.
pub proof fn stated_session_is_the_session(
    bytes: Seq<u8>,
    pid: nat,
    before: Seq<char>,
    name: Seq<char>,
    after: Seq<char>,
)
    requires
        forall|i: int| 0 <= i < bytes.len() ==> bytes[i] == 0,
        forall|i: int| 0 <= i < before.len() ==> crate::text::is_white(#[trigger] before[i]),
        forall|i: int| 0 <= i < after.len() ==> crate::text::is_white(#[trigger] after[i]),
        name.len() > 0,
        !crate::text::is_white(name[0]),
        !crate::text::is_white(name.last()),
    ensures
        session_of(bytes, pid, Some(before + name + after)) == name,
{
    let text = before + name + after;
    let ends = crate::text::trimming_takes_white_space(text);
    let trimmed = crate::text::trim(text);
    let n = before.len() as int;
    let m = ends.0.len() as int;
    assert(text[n] == name[0]);
    assert(text[n + name.len() - 1] == name.last());
    if trimmed.len() == 0 {
        if n < m {
            assert(text[n] == ends.0[n]);
        } else {
            assert(text[n] == ends.1[n - m]);
        }
    }
    assert(text[m] == trimmed[0]);
    assert(text[m + trimmed.len() - 1] == trimmed.last());
    if m > n {
        assert(text[n] == ends.0[n]);
    }
    if m < n {
        assert(text[m] == before[m]);
    }
    let last = n + name.len() - 1;
    let end = m + trimmed.len() - 1;
    if end < last {
        assert(text[last] == ends.1[last - end - 1]);
    }
    if end > last {
        assert(text[end] == after[end - last - 1]);
    }
    assert(trimmed =~= text.subrange(n, last + 1));
    assert(name =~= text.subrange(n, last + 1));
}

/// A header that is no text is its own name in hex: two lower-case digits for each of
/// its bytes, which spell the byte. So two such headers that differ name different
/// sessions.
pub proof fn other_headers_are_named_in_hex(
    bytes: Seq<u8>,
    pid: nat,
    agent_session: Option<Seq<char>>,
)
    requires
        !vstd::utf8::valid_utf8(bytes),
    ensures
        ({
            let id = session_of(bytes, pid, agent_session);
            &&& id.len() == 2 * bytes.len()
            &&& forall|i: int|
                0 <= i < bytes.len() ==> crate::number::spells_byte(
                    id[2 * i],
                    id[2 * i + 1],
                    #[trigger] bytes[i],
                )
        }),
{
    crate::number::hex_spells_its_bytes(bytes);
    if unnamed(bytes) {
        lemma_padding_is_zeros(seq![], bytes.len());
        let blank = Seq::<char>::empty() + crate::number::fill('\0', bytes.len() as int);
        assert(vstd::utf8::encode_utf8(Seq::<char>::empty()) =~= Seq::<u8>::empty());
        assert(bytes =~= vstd::utf8::encode_utf8(blank));
        vstd::utf8::encode_utf8_valid_utf8(blank);
    }
}

/// The file in which a process states its session is in the directory whose name
/// spells its id.
pub proof fn agent_session_path_tells_the_process(pid: nat) -> (digits: Seq<char>)
    ensures
        agent_session_path_of(pid) == "/proc/"@ + digits + "/agent_session"@,
        crate::number::spells(digits, pid),
{
    crate::number::decimal_spells_its_number(pid);
    crate::number::decimal(pid)
}

} // verus!
