//! The command line.

use libmemlog::cli::{default_out, parse_args, Cmd, DEFAULT_QUOTA};

fn parse(args: &[&str]) -> Result<Cmd, String> {
    let args: Vec<String> = args.iter().map(|a| a.to_string()).collect();
    parse_args(&args, "/home/u/.state/memlog")
}

fn refused(args: &[&str]) -> String {
    parse(args).unwrap_err()
}

#[test]
fn daemon_has_defaults() {
    assert_eq!(
        parse(&["daemon"]),
        Ok(Cmd::Daemon {
            out: "/home/u/.state/memlog".to_string(),
            device: "/dev/memlog".to_string(),
            quota: 104857600,
        })
    );
    assert_eq!(DEFAULT_QUOTA, 100 * 1024 * 1024);
}

#[test]
fn daemon_takes_flags_in_any_order_and_the_last_one_counts() {
    assert_eq!(
        parse(&["daemon", "--quota", "+5", "--device", "--out", "--out", "a", "--out", "b"]),
        Ok(Cmd::Daemon { out: "b".to_string(), device: "--out".to_string(), quota: 5 })
    );
}

#[test]
fn status_takes_one_directory() {
    let default = Cmd::Status { out: "/home/u/.state/memlog".to_string() };
    assert_eq!(parse(&["status"]), Ok(default));
    assert_eq!(
        parse(&["status", "--out", "x", "more"]),
        Ok(Cmd::Status { out: "x".to_string() })
    );
    // anything else is passed over
    let default = Cmd::Status { out: "/home/u/.state/memlog".to_string() };
    assert_eq!(parse(&["status", "--out"]), Ok(default));
}

#[test]
fn drain_takes_a_session() {
    assert_eq!(
        parse(&["drain", "--session", "s", "--out", "x"]),
        Ok(Cmd::Drain { out: "x".to_string(), session: "s".to_string() })
    );
}

#[test]
fn mistakes_are_told() {
    assert_eq!(refused(&[]), "Usage: memlog-witness <daemon|status|drain> [options]");
    assert_eq!(refused(&["run"]), "unknown command: run");
    assert_eq!(refused(&["daemon", "-v"]), "unknown flag: -v");
    assert_eq!(refused(&["daemon", "--out"]), "--out requires a value");
    assert_eq!(refused(&["daemon", "--device"]), "--device requires a value");
    assert_eq!(refused(&["daemon", "--quota"]), "--quota requires a value");
    assert_eq!(refused(&["daemon", "--quota", ""]), "--quota: cannot parse integer from empty string");
    assert_eq!(refused(&["daemon", "--quota", "1k"]), "--quota: invalid digit found in string");
    assert_eq!(
        refused(&["daemon", "--quota", "18446744073709551616"]),
        "--quota: number too large to fit in target type"
    );
    assert_eq!(refused(&["drain"]), "drain requires --session <id>");
    assert_eq!(refused(&["drain", "--session", ""]), "drain requires --session <id>");
    assert_eq!(refused(&["drain", "--session"]), "--session requires a value");
    assert_eq!(refused(&["drain", "--out"]), "--out requires a value");
    assert_eq!(refused(&["drain", "--session", "s", "x"]), "unknown flag: x");
}

#[test]
fn snapshots_go_below_the_home_directory() {
    assert_eq!(default_out(Some("/home/u"), ".state"), "/home/u/.state/memlog");
    assert_eq!(default_out(Some(""), ".state"), ".state/memlog");
    assert_eq!(default_out(None, ".state"), "./.state/memlog");
}
