//! The command line of `memlog-witness`.
//!
//! ```text
//! memlog-witness daemon [--out <dir>] [--device <path>] [--quota <bytes>]
//! memlog-witness status [--out <dir>]
//! memlog-witness drain --session <id> [--out <dir>]
//! ```

use vstd::prelude::*;
use vstd::string::*;

use crate::number::{parse_number, NumberError};
use crate::path::join;
use crate::text::{chars_of, same_text, Span};
use crate::DEVICE_PATH;

verus! {

broadcast use vstd::string::group_string_axioms;

/// The quota of a session if none is given: 100 MiB.
pub const DEFAULT_QUOTA: u64 = 100 * 1024 * 1024;

/// What the command line asks for.
#[derive(Debug, PartialEq, Eq)]
pub enum Cmd {
    /// Drain `device` into snapshots under `out`.
    Daemon { out: String, device: String, quota: u64 },
    /// Report on the sessions under `out`.
    Status { out: String },
    /// Flush the directory of one session.
    Drain { out: String, session: String },
}

#[verifier::ext_equal]
pub enum CmdView {
    Daemon { out: Seq<char>, device: Seq<char>, quota: nat },
    Status { out: Seq<char> },
    Drain { out: Seq<char>, session: Seq<char> },
}

impl View for Cmd {
    type V = CmdView;

    open spec fn view(&self) -> CmdView {
        match self {
            Cmd::Daemon { out, device, quota } => CmdView::Daemon {
                out: out@,
                device: device@,
                quota: *quota as nat,
            },
            Cmd::Status { out } => CmdView::Status { out: out@ },
            Cmd::Drain { out, session } => CmdView::Drain { out: out@, session: session@ },
        }
    }
}

/// `memlog` in the directory `state_dir` of the home directory, or of the current
/// one without a home.
pub open spec fn default_out_of(home: Option<Seq<char>>, state_dir: Seq<char>) -> Seq<char> {
    crate::path::joined(
        crate::path::joined(
            match home {
                Some(dir) => dir,
                None => "."@,
            },
            state_dir,
        ),
        "memlog"@,
    )
}

/// Where snapshots go if the command line does not say.
pub fn default_out(home: Option<&str>, state_dir: &str) -> (out: String)
    ensures
        out@ == default_out_of(
            match home {
                Some(dir) => Some(dir@),
                None => None,
            },
            state_dir@,
        ),
{
    let base: &str = match home {
        Some(dir) => dir,
        None => ".",
    };
    join(join(base, state_dir).as_str(), "memlog")
}

/// The texts of the arguments.
pub open spec fn texts(args: Seq<String>) -> Seq<Seq<char>> {
    args.map_values(|a: String| a@)
}

/// What the flags of `daemon` make of the settings so far.
pub open spec fn daemon_flags(
    flags: Seq<Seq<char>>,
    out: Seq<char>,
    device: Seq<char>,
    quota: nat,
) -> Result<CmdView, Seq<char>>
    decreases flags.len(),
{
    if flags.len() == 0 {
        Ok(CmdView::Daemon { out, device, quota })
    } else if flags[0] == "--out"@ {
        if flags.len() == 1 {
            Err("--out requires a value"@)
        } else {
            daemon_flags(flags.skip(2), flags[1], device, quota)
        }
    } else if flags[0] == "--device"@ {
        if flags.len() == 1 {
            Err("--device requires a value"@)
        } else {
            daemon_flags(flags.skip(2), out, flags[1], quota)
        }
    } else if flags[0] == "--quota"@ {
        if flags.len() == 1 {
            Err("--quota requires a value"@)
        } else {
            match crate::number::number(flags[1], 10, u64::MAX as nat) {
                Ok(bytes) => daemon_flags(flags.skip(2), out, device, bytes),
                Err(e) => Err("--quota: "@ + e.words()),
            }
        }
    } else {
        Err("unknown flag: "@ + flags[0])
    }
}

/// What the flags of `drain` make of the settings so far.
pub open spec fn drain_flags(flags: Seq<Seq<char>>, out: Seq<char>, session: Seq<char>) -> Result<
    CmdView,
    Seq<char>,
>
    decreases flags.len(),
{
    if flags.len() == 0 {
        if session.len() == 0 {
            Err("drain requires --session <id>"@)
        } else {
            Ok(CmdView::Drain { out, session })
        }
    } else if flags[0] == "--session"@ {
        if flags.len() == 1 {
            Err("--session requires a value"@)
        } else {
            drain_flags(flags.skip(2), out, flags[1])
        }
    } else if flags[0] == "--out"@ {
        if flags.len() == 1 {
            Err("--out requires a value"@)
        } else {
            drain_flags(flags.skip(2), flags[1], session)
        }
    } else {
        Err("unknown flag: "@ + flags[0])
    }
}

/// The command in the arguments that follow the program's name.
pub open spec fn command(args: Seq<Seq<char>>, out: Seq<char>) -> Result<CmdView, Seq<char>> {
    if args.len() == 0 {
        Err("Usage: memlog-witness <daemon|status|drain> [options]"@)
    } else if args[0] == "daemon"@ {
        daemon_flags(args.skip(1), out, DEVICE_PATH@, DEFAULT_QUOTA as nat)
    } else if args[0] == "status"@ {
        if args.len() > 2 && args[1] == "--out"@ {
            Ok(CmdView::Status { out: args[2] })
        } else {
            Ok(CmdView::Status { out })
        }
    } else if args[0] == "drain"@ {
        drain_flags(args.skip(1), out, seq![])
    } else {
        Err("unknown command: "@ + args[0])
    }
}

/// `parsed` is the command `meant`, or the error with the same text.
pub open spec fn parses(parsed: Result<Cmd, String>, meant: Result<CmdView, Seq<char>>) -> bool {
    match (parsed, meant) {
        (Ok(cmd), Ok(view)) => cmd@ == view,
        (Err(error), Err(text)) => error@ == text,
        _ => false,
    }
}

fn parse_quota(text: &str) -> (read: Result<u64, NumberError>)
    ensures
        crate::number::reads(read, crate::number::number(text@, 10, u64::MAX as nat)),
{
    let chars: Vec<char> = chars_of(text);
    let whole: Span = Span { start: 0, end: chars.len() };
    assert(whole.of(chars@) =~= text@);
    parse_number(&chars, whole, 10, u64::MAX)
}

fn with_text(head: &str, tail: &str) -> (text: String)
    ensures
        text@ == head@ + tail@,
{
    let mut text: String = head.to_owned();
    text.append(tail);
    text
}

fn parse_daemon(args: &Vec<String>, default_out: &str) -> (cmd: Result<Cmd, String>)
    requires
        args@.len() > 0,
    ensures
        parses(
            cmd,
            daemon_flags(
                texts(args@).skip(1),
                default_out@,
                DEVICE_PATH@,
                DEFAULT_QUOTA as nat,
            ),
        ),
{
    let mut out: String = default_out.to_owned();
    let mut device: String = DEVICE_PATH.to_owned();
    let mut quota: u64 = DEFAULT_QUOTA;
    let ghost all = texts(args@);
    let ghost meant = daemon_flags(
        all.skip(1),
        default_out@,
        DEVICE_PATH@,
        DEFAULT_QUOTA as nat,
    );
    let mut i: usize = 1;
    while i < args.len()
        invariant
            1 <= i <= args@.len(),
            all == texts(args@),
            meant == daemon_flags(
                texts(args@).skip(1),
                default_out@,
                DEVICE_PATH@,
                DEFAULT_QUOTA as nat,
            ),
            meant == daemon_flags(all.skip(i as int), out@, device@, quota as nat),
        decreases args@.len() - i,
    {
        let flag: &str = args[i].as_str();
        proof {
            assert(all.skip(i as int)[0] == flag@);
            if i + 1 < args@.len() {
                assert(all.skip(i as int)[1] == args@[i + 1]@);
                assert(all.skip(i as int).skip(2) =~= all.skip(i + 2));
            }
        }
        if same_text(flag, "--out") {
            if i + 1 == args.len() {
                return Err("--out requires a value".to_owned());
            }
            out = args[i + 1].clone();
        } else if same_text(flag, "--device") {
            if i + 1 == args.len() {
                return Err("--device requires a value".to_owned());
            }
            device = args[i + 1].clone();
        } else if same_text(flag, "--quota") {
            if i + 1 == args.len() {
                return Err("--quota requires a value".to_owned());
            }
            match parse_quota(args[i + 1].as_str()) {
                Ok(bytes) => {
                    quota = bytes;
                },
                Err(e) => {
                    return Err(with_text("--quota: ", e.message()));
                },
            }
        } else {
            return Err(with_text("unknown flag: ", flag));
        }
        i = i + 2;
    }
    Ok(Cmd::Daemon { out, device, quota })
}

fn parse_drain(args: &Vec<String>, default_out: &str) -> (cmd: Result<Cmd, String>)
    requires
        args@.len() > 0,
    ensures
        parses(cmd, drain_flags(texts(args@).skip(1), default_out@, seq![])),
{
    let mut out: String = default_out.to_owned();
    let mut session: String = String::new();
    let ghost all = texts(args@);
    let ghost meant = drain_flags(all.skip(1), default_out@, seq![]);
    let mut i: usize = 1;
    while i < args.len()
        invariant
            1 <= i <= args@.len(),
            all == texts(args@),
            meant == drain_flags(texts(args@).skip(1), default_out@, seq![]),
            meant == drain_flags(all.skip(i as int), out@, session@),
        decreases args@.len() - i,
    {
        let flag: &str = args[i].as_str();
        proof {
            assert(all.skip(i as int)[0] == flag@);
            if i + 1 < args@.len() {
                assert(all.skip(i as int)[1] == args@[i + 1]@);
                assert(all.skip(i as int).skip(2) =~= all.skip(i + 2));
            }
        }
        if same_text(flag, "--session") {
            if i + 1 == args.len() {
                return Err("--session requires a value".to_owned());
            }
            session = args[i + 1].clone();
        } else if same_text(flag, "--out") {
            if i + 1 == args.len() {
                return Err("--out requires a value".to_owned());
            }
            out = args[i + 1].clone();
        } else {
            return Err(with_text("unknown flag: ", flag));
        }
        i = i + 2;
    }
    if session.as_str().is_empty() {
        return Err("drain requires --session <id>".to_owned());
    }
    Ok(Cmd::Drain { out, session })
}

/// The command in the arguments that follow the program's name. `default_out` is
/// where snapshots go if they do not say.
pub fn parse_args(args: &Vec<String>, default_out: &str) -> (cmd: Result<Cmd, String>)
    ensures
        parses(cmd, command(texts(args@), default_out@)),
{
    if args.len() == 0 {
        return Err("Usage: memlog-witness <daemon|status|drain> [options]".to_owned());
    }
    let name: &str = args[0].as_str();
    assert(texts(args@)[0] == name@);
    if same_text(name, "daemon") {
        parse_daemon(args, default_out)
    } else if same_text(name, "status") {
        if args.len() > 2 && same_text(args[1].as_str(), "--out") {
            Ok(Cmd::Status { out: args[2].clone() })
        } else {
            Ok(Cmd::Status { out: default_out.to_owned() })
        }
    } else if same_text(name, "drain") {
        parse_drain(args, default_out)
    } else {
        Err(with_text("unknown command: ", name))
    }
}

/// The value of the last flag `name` among `flags`, which stand in pairs of a flag
/// and its value.
pub open spec fn last_given(flags: Seq<Seq<char>>, name: Seq<char>) -> Option<Seq<char>>
    decreases flags.len(),
{
    if flags.len() < 2 {
        None
    } else if flags[flags.len() - 2] == name {
        Some(flags.last())
    } else {
        last_given(flags.take(flags.len() - 2), name)
    }
}

/// `given`, or `default` if there is nothing given.
pub open spec fn or_default(given: Option<Seq<char>>, default: Seq<char>) -> Seq<char> {
    match given {
        Some(value) => value,
        None => default,
    }
}

#[verifier::spinoff_prover]
proof fn lemma_last_given(flags: Seq<Seq<char>>, name: Seq<char>)
    requires
        flags.len() >= 2,
        flags.len() % 2 == 0,
    ensures
        last_given(flags, name) == match last_given(flags.skip(2), name) {
            Some(value) => Some(value),
            None => if flags[0] == name {
                Some(flags[1])
            } else {
                None
            },
        },
    decreases flags.len(),
{
    let n = flags.len() as int;
    let rest = flags.skip(2);
    if n == 2 {
        assert(flags.take(0).len() == 0);
        assert(rest.len() == 0);
    } else {
        assert(rest[rest.len() - 2] == flags[n - 2]);
        assert(rest.last() == flags.last());
        let front = flags.take(n - 2);
        assert(rest.take(rest.len() - 2) =~= front.skip(2));
        lemma_last_given(front, name);
        assert(front[0] == flags[0] && front[1] == flags[1]);
    }
}

/// Every other one of `flags`, from the first on, is a flag of `daemon`, and each has
/// its value behind it; a quota is a number of 64 bits.
pub open spec fn daemon_pairs(flags: Seq<Seq<char>>) -> bool {
    &&& flags.len() % 2 == 0
    &&& forall|i: int| #![trigger flags[i]]
        0 <= i < flags.len() && i % 2 == 0 ==> {
            ||| flags[i] == "--out"@
            ||| flags[i] == "--device"@
            ||| flags[i] == "--quota"@ && crate::number::number(
                flags[i + 1],
                10,
                0xffff_ffff_ffff_ffff,
            ) is Ok
        }
}

proof fn lemma_daemon_words()
    ensures
        "--out"@ != "--device"@,
        "--out"@ != "--quota"@,
        "--device"@ != "--quota"@,
{
    reveal_strlit("--out");
    reveal_strlit("--device");
    reveal_strlit("--quota");
    assert("--out"@.len() == 5 && "--device"@.len() == 8 && "--quota"@.len() == 7);
}

#[verifier::spinoff_prover]
proof fn lemma_daemon_rest(flags: Seq<Seq<char>>)
    requires
        daemon_pairs(flags),
        flags.len() > 0,
    ensures
        flags.len() >= 2,
        daemon_pairs(flags.skip(2)),
{
    let rest = flags.skip(2);
    assert forall|i: int| #![trigger rest[i]] 0 <= i < rest.len() && i % 2 == 0 implies {
        ||| rest[i] == "--out"@
        ||| rest[i] == "--device"@
        ||| rest[i] == "--quota"@ && crate::number::number(
            rest[i + 1],
            10,
            0xffff_ffff_ffff_ffff,
        ) is Ok
    } by {
        assert(rest[i] == flags[i + 2]);
        assert(rest[i + 1] == flags[i + 3]);
    }
}

/// The settings that pairs of flags leave.
spec fn daemon_settings(
    flags: Seq<Seq<char>>,
    out: Seq<char>,
    device: Seq<char>,
    quota: nat,
) -> (Seq<char>, Seq<char>, nat) {
    (
        or_default(last_given(flags, "--out"@), out),
        or_default(last_given(flags, "--device"@), device),
        match last_given(flags, "--quota"@) {
            Some(text) => crate::number::number(text, 10, 0xffff_ffff_ffff_ffff)->Ok_0,
            None => quota,
        },
    )
}

#[verifier::spinoff_prover]
proof fn lemma_daemon_pairs(
    flags: Seq<Seq<char>>,
    tail: Seq<Seq<char>>,
    out: Seq<char>,
    device: Seq<char>,
    quota: nat,
)
    requires
        daemon_pairs(flags),
    ensures
        ({
            let s = daemon_settings(flags, out, device, quota);
            daemon_flags(flags + tail, out, device, quota) == daemon_flags(tail, s.0, s.1, s.2)
        }),
    decreases flags.len(),
{
    if flags.len() == 0 {
        assert(flags + tail =~= tail);
    } else {
        lemma_daemon_words();
        lemma_daemon_rest(flags);
        lemma_last_given(flags, "--out"@);
        lemma_last_given(flags, "--device"@);
        lemma_last_given(flags, "--quota"@);
        let rest = flags.skip(2);
        let all = flags + tail;
        assert(all[0] == flags[0] && all[1] == flags[1]);
        assert(all.skip(2) =~= rest + tail);
        if flags[0] == "--out"@ {
            lemma_daemon_pairs(rest, tail, flags[1], device, quota);
        } else if flags[0] == "--device"@ {
            lemma_daemon_pairs(rest, tail, out, flags[1], quota);
        } else {
            let bytes = crate::number::number(flags[1], 10, 0xffff_ffff_ffff_ffff)->Ok_0;
            lemma_daemon_pairs(rest, tail, out, device, bytes);
        }
    }
}

/// `daemon` with pairs of flags and values takes, for each flag, the last value, and
/// where there is none the default: the given directory, `/dev/memlog` and 100 MiB.
pub proof fn daemon_takes_the_last_values(flags: Seq<Seq<char>>, out: Seq<char>)
    requires
        daemon_pairs(flags),
    ensures
        command(seq!["daemon"@] + flags, out) == Ok::<CmdView, Seq<char>>(
            CmdView::Daemon {
                out: or_default(last_given(flags, "--out"@), out),
                device: or_default(last_given(flags, "--device"@), "/dev/memlog"@),
                quota: match last_given(flags, "--quota"@) {
                    Some(text) => crate::number::number(text, 10, 0xffff_ffff_ffff_ffff)->Ok_0,
                    None => 104_857_600,
                },
            },
        ),
{
    let args = seq!["daemon"@] + flags;
    assert(args.skip(1) =~= flags);
    assert(flags + Seq::<Seq<char>>::empty() =~= flags);
    lemma_daemon_pairs(flags, seq![], out, DEVICE_PATH@, DEFAULT_QUOTA as nat);
}

/// Behind pairs of flags and values, `daemon` stops at the first thing that is wrong:
/// a word that is none of its flags, a flag with nothing behind it, or a quota that is
/// no number.
pub proof fn daemon_stops_at_the_first_mistake(
    flags: Seq<Seq<char>>,
    word: Seq<char>,
    value: Seq<char>,
    rest: Seq<Seq<char>>,
    out: Seq<char>,
)
    requires
        daemon_pairs(flags),
    ensures
        word != "--out"@ && word != "--device"@ && word != "--quota"@ ==> command(
            seq!["daemon"@] + flags + (seq![word] + rest),
            out,
        ) == Err::<CmdView, Seq<char>>("unknown flag: "@ + word),
        word == "--out"@ || word == "--device"@ || word == "--quota"@ ==> command(
            seq!["daemon"@] + flags + seq![word],
            out,
        ) == Err::<CmdView, Seq<char>>(word + " requires a value"@),
        crate::number::number(value, 10, 0xffff_ffff_ffff_ffff) matches Err(e) ==> command(
            seq!["daemon"@] + flags + (seq!["--quota"@, value] + rest),
            out,
        ) == Err::<CmdView, Seq<char>>("--quota: "@ + e.words()),
{
    lemma_daemon_words();
    lemma_value_texts();
    let a = seq![word] + rest;
    let b = seq![word];
    let c = seq!["--quota"@, value] + rest;
    assert((seq!["daemon"@] + flags + a).skip(1) =~= flags + a);
    assert((seq!["daemon"@] + flags + b).skip(1) =~= flags + b);
    assert((seq!["daemon"@] + flags + c).skip(1) =~= flags + c);
    assert((seq!["daemon"@] + flags + a)[0] == "daemon"@);
    assert((seq!["daemon"@] + flags + b)[0] == "daemon"@);
    assert((seq!["daemon"@] + flags + c)[0] == "daemon"@);
    lemma_daemon_pairs(flags, a, out, DEVICE_PATH@, DEFAULT_QUOTA as nat);
    lemma_daemon_pairs(flags, b, out, DEVICE_PATH@, DEFAULT_QUOTA as nat);
    lemma_daemon_pairs(flags, c, out, DEVICE_PATH@, DEFAULT_QUOTA as nat);
    assert(a[0] == word && b[0] == word && c[0] == "--quota"@ && c[1] == value);
}

proof fn lemma_value_texts()
    ensures
        "--out requires a value"@ == "--out"@ + " requires a value"@,
        "--device requires a value"@ == "--device"@ + " requires a value"@,
        "--quota requires a value"@ == "--quota"@ + " requires a value"@,
        "--session requires a value"@ == "--session"@ + " requires a value"@,
{
    reveal_strlit("--out requires a value");
    reveal_strlit("--device requires a value");
    reveal_strlit("--quota requires a value");
    reveal_strlit("--session requires a value");
    reveal_strlit("--out");
    reveal_strlit("--device");
    reveal_strlit("--quota");
    reveal_strlit("--session");
    reveal_strlit(" requires a value");
    assert("--out requires a value"@ =~= "--out"@ + " requires a value"@);
    assert("--device requires a value"@ =~= "--device"@ + " requires a value"@);
    assert("--quota requires a value"@ =~= "--quota"@ + " requires a value"@);
    assert("--session requires a value"@ =~= "--session"@ + " requires a value"@);
}

/// `status --out` with a directory behind it, and anything or nothing behind that, is
/// about that directory; without it, `status` is about the default one.
pub proof fn status_is_about_the_directory_asked_for(
    dir: Seq<char>,
    word: Seq<char>,
    rest: Seq<Seq<char>>,
    out: Seq<char>,
)
    ensures
        command(seq!["status"@, "--out"@, dir] + rest, out) == Ok::<CmdView, Seq<char>>(
            CmdView::Status { out: dir },
        ),
        command(seq!["status"@], out) == Ok::<CmdView, Seq<char>>(CmdView::Status { out }),
        command(seq!["status"@, "--out"@], out) == Ok::<CmdView, Seq<char>>(
            CmdView::Status { out },
        ),
        word != "--out"@ ==> command(seq!["status"@, word] + rest, out) == Ok::<
            CmdView,
            Seq<char>,
        >(CmdView::Status { out }),
{
    lemma_commands();
    let a = seq!["status"@, "--out"@, dir] + rest;
    let b = seq!["status"@, word] + rest;
    assert(a[0] == "status"@ && a[1] == "--out"@ && a[2] == dir);
    assert(b[0] == "status"@ && b[1] == word);
}

proof fn lemma_commands()
    ensures
        "status"@ != "daemon"@,
        "drain"@ != "daemon"@,
        "drain"@ != "status"@,
        "--session"@ != "--out"@,
{
    reveal_strlit("status");
    reveal_strlit("daemon");
    reveal_strlit("drain");
    reveal_strlit("--session");
    reveal_strlit("--out");
    assert("status"@[0] == 's' && "daemon"@[1] == 'a' && "drain"@[1] == 'r');
    assert("daemon"@[0] == 'd' && "drain"@[0] == 'd');
    assert("--session"@.len() == 9 && "--out"@.len() == 5);
}

/// Every other one of `flags`, from the first on, is a flag of `drain`, and each has
/// its value behind it.
pub open spec fn drain_pairs(flags: Seq<Seq<char>>) -> bool {
    &&& flags.len() % 2 == 0
    &&& forall|i: int| #![trigger flags[i]]
        0 <= i < flags.len() && i % 2 == 0 ==> flags[i] == "--session"@ || flags[i] == "--out"@
}

proof fn lemma_drain_pairs(
    flags: Seq<Seq<char>>,
    tail: Seq<Seq<char>>,
    out: Seq<char>,
    session: Seq<char>,
)
    requires
        drain_pairs(flags),
    ensures
        drain_flags(flags + tail, out, session) == drain_flags(
            tail,
            or_default(last_given(flags, "--out"@), out),
            or_default(last_given(flags, "--session"@), session),
        ),
    decreases flags.len(),
{
    if flags.len() == 0 {
        assert(flags + tail =~= tail);
    } else {
        lemma_commands();
        lemma_last_given(flags, "--out"@);
        lemma_last_given(flags, "--session"@);
        let rest = flags.skip(2);
        assert forall|i: int| #![trigger rest[i]]
            0 <= i < rest.len() && i % 2 == 0 implies rest[i] == "--session"@ || rest[i]
            == "--out"@ by {
            assert(rest[i] == flags[i + 2]);
        }
        let all = flags + tail;
        assert(all[0] == flags[0] && all[1] == flags[1]);
        assert(all.skip(2) =~= rest + tail);
        if flags[0] == "--out"@ {
            lemma_drain_pairs(rest, tail, flags[1], session);
        } else {
            assert(flags[0] == "--session"@);
            lemma_drain_pairs(rest, tail, out, flags[1]);
        }
    }
}

/// `drain` with pairs of flags and values takes, for each flag, the last value; it
/// needs a session that is not empty, and has a default for the directory only. It
/// stops at a word that is none of its flags, and at a flag with nothing behind it.
pub proof fn drain_takes_the_last_values(
    flags: Seq<Seq<char>>,
    word: Seq<char>,
    rest: Seq<Seq<char>>,
    out: Seq<char>,
)
    requires
        drain_pairs(flags),
    ensures
        ({
            let session = or_default(last_given(flags, "--session"@), seq![]);
            let meant = if session.len() > 0 {
                Ok::<CmdView, Seq<char>>(
                    CmdView::Drain { out: or_default(last_given(flags, "--out"@), out), session },
                )
            } else {
                Err("drain requires --session <id>"@)
            };
            command(seq!["drain"@] + flags, out) == meant
        }),
        word != "--session"@ && word != "--out"@ ==> command(
            seq!["drain"@] + flags + (seq![word] + rest),
            out,
        ) == Err::<CmdView, Seq<char>>("unknown flag: "@ + word),
        word == "--session"@ || word == "--out"@ ==> command(
            seq!["drain"@] + flags + seq![word],
            out,
        ) == Err::<CmdView, Seq<char>>(word + " requires a value"@),
{
    lemma_commands();
    lemma_value_texts();
    let a = seq![word] + rest;
    let b = seq![word];
    assert((seq!["drain"@] + flags).skip(1) =~= flags);
    assert((seq!["drain"@] + flags + a).skip(1) =~= flags + a);
    assert((seq!["drain"@] + flags + b).skip(1) =~= flags + b);
    assert((seq!["drain"@] + flags + a)[0] == "drain"@);
    assert((seq!["drain"@] + flags + b)[0] == "drain"@);
    assert(flags + Seq::<Seq<char>>::empty() =~= flags);
    lemma_drain_pairs(flags, seq![], out, seq![]);
    lemma_drain_pairs(flags, a, out, seq![]);
    lemma_drain_pairs(flags, b, out, seq![]);
    assert(a[0] == word && b[0] == word);
}

/// Without a command there is advice, and any other command is refused by its name.
pub proof fn other_commands_are_refused(name: Seq<char>, rest: Seq<Seq<char>>, out: Seq<char>)
    ensures
        command(seq![], out) == Err::<CmdView, Seq<char>>(
            "Usage: memlog-witness <daemon|status|drain> [options]"@,
        ),
        name != "daemon"@ && name != "status"@ && name != "drain"@ ==> command(
            seq![name] + rest,
            out,
        ) == Err::<CmdView, Seq<char>>("unknown command: "@ + name),
{
    assert((seq![name] + rest)[0] == name);
}

/// The default directory is `memlog` below the state directory below the home
/// directory, or below the current one.
pub proof fn default_directory_is_below_the_home(home: Seq<char>, state_dir: Seq<char>)
    requires
        home.len() > 0 && home.last() != '/',
        state_dir.len() > 0 && state_dir[0] != '/' && state_dir.last() != '/',
    ensures
        default_out_of(Some(home), state_dir) == home + "/"@ + state_dir + "/memlog"@,
        default_out_of(None, state_dir) == "./"@ + state_dir + "/memlog"@,
{
    reveal_strlit("/");
    reveal_strlit(".");
    reveal_strlit("./");
    reveal_strlit("memlog");
    reveal_strlit("/memlog");
    let a = home + "/"@ + state_dir;
    let b = "."@ + "/"@ + state_dir;
    assert(a.last() == state_dir.last());
    assert(b.last() == state_dir.last());
    assert(a + "/"@ + "memlog"@ =~= a + "/memlog"@);
    assert(b + "/"@ + "memlog"@ =~= "./"@ + state_dir + "/memlog"@);
}

} // verus!
