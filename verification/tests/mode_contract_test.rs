//! The mode of the device, as the driver, the README and the udev rule state it.

use libmemlog::mode_contract::{
    in_tree_rule_path, parse_driver_mode, parse_error, parse_udev_rule_mode, resolve_udev_rule_path,
    ModeSource, RuleProbe, INSTALLED_RULE_PATH,
};
use libmemlog::number::NumberError;

fn nothing_found() -> RuleProbe {
    RuleProbe {
        override_path: None,
        override_exists: false,
        in_tree_exists: false,
        in_tree_canonical: None,
        installed_exists: false,
    }
}

#[test]
fn test_parse_driver_mode_0660() {
    let src = "    .mode = 0660,\n    .fops = &memlog_fops,";
    assert_eq!(parse_driver_mode(src).unwrap(), 0o660);
}

#[test]
fn test_parse_udev_rule_mode_0660() {
    let src = r#"KERNEL=="memlog", GROUP="memlog", MODE="0660""#;
    assert_eq!(parse_udev_rule_mode(src).unwrap(), 0o660);
}

#[test]
fn test_parse_udev_rule_mode_0640() {
    let src = r#"KERNEL=="memlog", GROUP="memlog", MODE="0640""#;
    assert_eq!(parse_udev_rule_mode(src).unwrap(), 0o640);
}

#[test]
fn test_contract_pass_all_agree_0660() {
    let driver_mode = parse_driver_mode("    .mode = 0660,").unwrap();
    let readme_mode =
        parse_udev_rule_mode(r#"KERNEL=="memlog", GROUP="memlog", MODE="0660""#).unwrap();
    let rule_mode =
        parse_udev_rule_mode(r#"KERNEL=="memlog", GROUP="memlog", MODE="0660""#).unwrap();
    assert_eq!(driver_mode, 0o660);
    assert_eq!(readme_mode, 0o660);
    assert_eq!(rule_mode, 0o660);
    // all agree and have group-write
    assert_eq!(driver_mode, readme_mode);
    assert_eq!(readme_mode, rule_mode);
    assert!(rule_mode & 0o020 != 0, "group-write required");
}

#[test]
fn test_contract_fail_udev_rule_0640_vs_0660() {
    let driver_mode = parse_driver_mode("    .mode = 0660,").unwrap();
    let rule_mode =
        parse_udev_rule_mode(r#"KERNEL=="memlog", GROUP="memlog", MODE="0640""#).unwrap();
    assert_ne!(driver_mode, rule_mode, "contract violation: driver=0660 but udev rule=0640");
}

#[test]
fn test_contract_fail_consistent_but_no_group_write() {
    // all three agree on 0640: consistent but wrong
    let mode = parse_udev_rule_mode(r#"KERNEL=="memlog", GROUP="memlog", MODE="0640""#).unwrap();
    assert_eq!(mode, 0o640);
    assert!(mode & 0o020 == 0, "expected 0640 lacks group-write");
}

#[test]
fn test_env_override_resolution() {
    // the override in the environment takes priority
    let probe = RuleProbe {
        override_path: Some("/tmp/test-memlog.rules".to_string()),
        override_exists: true,
        in_tree_exists: true,
        in_tree_canonical: Some("/src/linux-wintermute-memlog.rules".to_string()),
        installed_exists: true,
    };
    let (path, source) = resolve_udev_rule_path("/repo", probe).unwrap();
    assert_eq!(source, "env:MEMLOG_UDEV_RULE_PATH");
    assert_eq!(path, "/tmp/test-memlog.rules");
    let content = r#"KERNEL=="memlog", GROUP="memlog", MODE="0660""#;
    assert_eq!(parse_udev_rule_mode(content).unwrap(), 0o660);
}

#[test]
fn rule_in_the_tree_comes_before_the_installed_one() {
    let mut probe = nothing_found();
    probe.override_path = Some("/nowhere".to_string());
    probe.in_tree_exists = true;
    probe.in_tree_canonical = Some("/src/x.rules".to_string());
    probe.installed_exists = true;
    let found = resolve_udev_rule_path("/repo", probe);
    assert_eq!(found, Some(("/src/x.rules".to_string(), "in-tree")));
}

#[test]
fn rule_in_the_tree_that_cannot_be_resolved_keeps_its_path() {
    let mut probe = nothing_found();
    probe.in_tree_exists = true;
    let path = "/repo/../wintermute-kernel/pkg/linux-wintermute-memlog.rules";
    assert_eq!(in_tree_rule_path("/repo"), path);
    assert_eq!(resolve_udev_rule_path("/repo", probe), Some((path.to_string(), "in-tree")));
}

#[test]
fn installed_rule_is_the_last_resort() {
    let mut probe = nothing_found();
    probe.installed_exists = true;
    assert_eq!(INSTALLED_RULE_PATH, "/usr/lib/udev/rules.d/70-linux-wintermute-memlog.rules");
    assert_eq!(
        resolve_udev_rule_path("/repo", probe),
        Some((INSTALLED_RULE_PATH.to_string(), "installed"))
    );
    assert_eq!(resolve_udev_rule_path("/repo", nothing_found()), None);
}

#[test]
fn source_without_a_mode_is_refused() {
    assert_eq!(parse_driver_mode("int main(void);\n.mode 0660,\n").unwrap_err(), "no .mode = line found");
    assert_eq!(parse_driver_mode("").unwrap_err(), "no .mode = line found");
    assert_eq!(
        parse_udev_rule_mode("KERNEL==\"memlog\", GROUP=\"memlog\"\nMODE=\"0660\"").unwrap_err(),
        "no MODE= found in memlog udev rule line"
    );
    assert_eq!(
        parse_udev_rule_mode("KERNEL==\"memlog\", MODE=0660").unwrap_err(),
        "no MODE= found in memlog udev rule line"
    );
}

#[test]
fn first_line_that_assigns_the_mode_decides() {
    assert_eq!(parse_driver_mode("\t.mode=0640,\r\n.mode = 0660,").unwrap(), 0o640);
    assert_eq!(parse_driver_mode(".model = 7").unwrap(), 0o7);
    assert_eq!(parse_driver_mode(".mode = 0660 , = x").unwrap(), 0o660);
    assert_eq!(parse_driver_mode(".mode = +17,,,").unwrap(), 0o17);
}

#[test]
fn first_rule_that_sets_the_mode_decides() {
    let src = "# KERNEL==\"memlog\"\nMODE=\"0777\"\nKERNEL==\"memlog\" MODE=\n\
        x, MODE=\"0600\", KERNEL==\"memlog\"\nKERNEL==\"memlog\",MODE=\"0660\"";
    assert_eq!(parse_udev_rule_mode(src).unwrap(), 0o600);
}

#[test]
fn rule_of_another_device_is_passed_over() {
    let src = "KERNEL==\"tty0\", GROUP=\"memlog\", MODE=\"0640\"\n\
        KERNEL==\"memlog\", GROUP=\"memlog\", MODE=\"0660\"";
    assert_eq!(parse_udev_rule_mode(src), Ok(0o660));
    assert_eq!(
        parse_udev_rule_mode("KERNEL==\"memlog0\", GROUP=\"memlog\", MODE=\"0640\"").unwrap_err(),
        "no MODE= found in memlog udev rule line"
    );
}

#[test]
fn mode_of_zeros_is_zero() {
    let rule = r#"KERNEL=="memlog", GROUP="memlog", MODE="0000""#;
    assert_eq!(parse_udev_rule_mode(rule), Ok(0));
    assert_eq!(parse_driver_mode("    .mode = 0000,"), Ok(0));
    assert_eq!(parse_driver_mode(".mode = 0"), Ok(0));
}

#[test]
fn mode_that_is_no_octal_number_is_refused() {
    for val in ["0668", "", "00+", "rw-rw----", "040000000000", "say \"hi\"", "\u{e9}\\"] {
        let rule = format!("KERNEL==\"memlog\", MODE=\"{val}\"");
        let expected = u32::from_str_radix(val.trim_start_matches('0'), 8)
            .map_err(|e| format!("parse error on {:?}: {}", val, e));
        assert!(expected.is_err());
        assert_eq!(parse_udev_rule_mode(&rule), expected);
        let driver = format!("  .mode = {val},");
        assert_eq!(parse_driver_mode(&driver), expected);
    }
}

#[test]
fn octal_literals_are_read_back() {
    for mode in [0u32, 1, 0o7, 0o10, 0o660, 0o640, 0o7777, u32::MAX] {
        assert_eq!(parse_driver_mode(&format!(".mode = 0{mode:o},")), Ok(mode));
        assert_eq!(parse_driver_mode(&format!("    .mode = 0{mode:o},\n    .x = 1,")), Ok(mode));
        let rule = format!("KERNEL==\"memlog\", GROUP=\"memlog\", MODE=\"0{mode:o}\"\n# end");
        assert_eq!(parse_udev_rule_mode(&rule), Ok(mode));
        assert_eq!(parse_udev_rule_mode(&format!("KERNEL==\"memlog\", MODE=\"0{mode:o}\"")), Ok(mode));
    }
}

#[test]
fn mode_sources_are_compared_field_by_field() {
    let a = ModeSource { name: "driver", path: "driver/memlog.c".to_string(), mode: 0o660 };
    let b = ModeSource { name: "driver", path: "driver/memlog.c".to_string(), mode: 0o640 };
    assert_ne!(a, b);
}

#[test]
fn error_on_a_value_quotes_it() {
    assert_eq!(
        parse_error("<q>", NumberError::InvalidDigit),
        "parse error on <q>: invalid digit found in string"
    );
}
