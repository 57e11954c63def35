//! Cross-source contract: driver, README and packaged udev rule must agree on
//! the mode of the device.

use vstd::prelude::*;
use vstd::string::*;

use crate::number::{parse_number, NumberError};
use crate::path::join;
use crate::quote::quoted;
use crate::text::{chars_of, line_spans, Span, Strip};

verus! {

broadcast use vstd::string::group_string_axioms;

/// One place that states the mode of the device.
#[derive(Debug, PartialEq)]
pub struct ModeSource {
    pub name: &'static str,
    pub path: String,
    pub mode: u32,
}

/// `read` is the mode `meant`, or the error with the same text.
pub open spec fn reads_mode(read: Result<u32, String>, meant: Result<nat, Seq<char>>) -> bool {
    match (read, meant) {
        (Ok(mode), Ok(n)) => mode as nat == n,
        (Err(error), Err(text)) => error@ == text,
        _ => false,
    }
}

/// The error on a value that is no number, given the value in quotes.
pub open spec fn parse_error_text(quoted_val: Seq<char>, e: NumberError) -> Seq<char> {
    "parse error on "@ + quoted_val + ": "@ + e.words()
}

/// The error on a value that is no number, given the value in quotes.
pub fn parse_error(quoted_val: &str, e: NumberError) -> (error: String)
    ensures
        error@ == parse_error_text(quoted_val@, e),
{
    let mut error: String = String::from_str("parse error on ");
    error.append(quoted_val);
    error.append(": ");
    error.append(e.message());
    error
}

/// The mode that `val` spells as an octal literal, with any number of zeros
/// before its digits.
pub open spec fn octal_mode(val: Seq<char>) -> Result<nat, Seq<char>> {
    let digits = crate::text::strip_front(val, Strip::Only('0'));
    if val.len() > 0 && digits.len() == 0 {
        Ok(0)
    } else {
        match crate::number::number(digits, 8, u32::MAX as nat) {
            Ok(mode) => Ok(mode),
            Err(e) => Err(parse_error_text(crate::quote::debug_text(val), e)),
        }
    }
}

/// A trimmed line of the driver that assigns the mode.
pub open spec fn assigns_mode(line: Seq<char>) -> bool {
    ".mode"@.is_prefix_of(line) && line.contains('=')
}

/// What a line assigns: the text between its first equals sign and the next,
/// without the commas and the white space around it.
pub open spec fn assigned(line: Seq<char>) -> Seq<char> {
    crate::text::trim(
        crate::text::strip_back(
            crate::text::trim(crate::text::split(line, '=')[1]),
            Strip::Only(','),
        ),
    )
}

/// What the first line that assigns the mode assigns.
pub open spec fn driver_value(lines: Seq<Seq<char>>) -> Option<Seq<char>>
    decreases lines.len(),
{
    if lines.len() == 0 {
        None
    } else if assigns_mode(crate::text::trim(lines[0])) {
        Some(assigned(crate::text::trim(lines[0])))
    } else {
        driver_value(lines.drop_first())
    }
}

/// The mode in the source text of the driver.
pub open spec fn driver_mode(src: Seq<char>) -> Result<nat, Seq<char>> {
    match driver_value(crate::text::lines(src)) {
        Some(val) => octal_mode(val),
        None => Err("no .mode = line found"@),
    }
}

/// A line that is the rule of the device and sets a mode.
pub open spec fn is_rule(line: Seq<char>) -> bool {
    crate::text::holds(line, "KERNEL==\"memlog\""@) && crate::text::holds(line, "MODE="@)
}

/// A trimmed part of a rule of the form `MODE="..."`.
pub open spec fn sets_mode(part: Seq<char>) -> bool {
    "MODE=\""@.is_prefix_of(part) && part.len() > 6 && part.last() == '"'
}

/// What such a part has between its quotes.
pub open spec fn set_value(part: Seq<char>) -> Seq<char> {
    part.subrange(6, part.len() - 1)
}

/// What the first of the comma-separated `parts` that sets the mode sets.
pub open spec fn part_value(parts: Seq<Seq<char>>) -> Option<Seq<char>>
    decreases parts.len(),
{
    if parts.len() == 0 {
        None
    } else if sets_mode(crate::text::trim(parts[0])) {
        Some(set_value(crate::text::trim(parts[0])))
    } else {
        part_value(parts.drop_first())
    }
}

/// What the first rule among `lines` that sets the mode sets.
pub open spec fn rule_value(lines: Seq<Seq<char>>) -> Option<Seq<char>>
    decreases lines.len(),
{
    if lines.len() == 0 {
        None
    } else if is_rule(lines[0]) && part_value(crate::text::split(lines[0], ',')) is Some {
        part_value(crate::text::split(lines[0], ','))
    } else {
        rule_value(lines.drop_first())
    }
}

/// The mode in a text that holds a udev rule.
pub open spec fn rule_mode(src: Seq<char>) -> Result<nat, Seq<char>> {
    match rule_value(crate::text::lines(src)) {
        Some(val) => octal_mode(val),
        None => Err("no MODE= found in memlog udev rule line"@),
    }
}

/// `n` in octal, without leading zeros.
pub open spec fn octal(n: nat) -> Seq<char>
    decreases n,
{
    if n < 8 {
        seq![crate::number::digit_char(n)]
    } else {
        octal(n / 8).push(crate::number::digit_char(n % 8))
    }
}

proof fn lemma_octal(n: nat)
    requires
        n <= u32::MAX,
    ensures
        octal(n).len() >= 1,
        n > 0 ==> '1' <= octal(n)[0] <= '7',
        forall|i: int| 0 <= i < octal(n).len() ==> '0' <= #[trigger] octal(n)[i] <= '7',
        crate::number::digits_value(octal(n), 8, u32::MAX as nat) == Ok::<nat, NumberError>(n),
    decreases n,
{
    let s = octal(n);
    if n < 8 {
        assert(s.drop_last() =~= Seq::<char>::empty());
        assert(crate::number::digits_value(s.drop_last(), 8, u32::MAX as nat) == Ok::<
            nat,
            NumberError,
        >(0));
    } else {
        lemma_octal(n / 8);
        assert(s.drop_last() =~= octal(n / 8));
        assert(s[0] == octal(n / 8)[0]);
    }
}

/// A mode that is written as an octal literal is read back.
pub proof fn octal_mode_round_trips(mode: nat)
    requires
        mode <= u32::MAX,
    ensures
        octal_mode("0"@ + octal(mode)) == Ok::<nat, Seq<char>>(mode),
{
    reveal_strlit("0");
    lemma_octal(mode);
    let literal = "0"@ + octal(mode);
    assert(literal.drop_first() =~= octal(mode));
    if mode > 0 {
        assert(crate::text::strip_front(octal(mode), Strip::Only('0')) == octal(mode));
        assert(crate::text::strip_front(literal, Strip::Only('0')) == octal(mode));
    } else {
        let none = octal(mode).drop_first();
        assert(none.len() == 0);
        assert(crate::text::strip_front(none, Strip::Only('0')) == none);
        assert(crate::text::strip_front(octal(mode), Strip::Only('0')) == none);
        assert(crate::text::strip_front(literal, Strip::Only('0')) == none);
    }
}

/// A line of a driver that states `mode` as an octal literal.
pub open spec fn driver_line(indent: nat, mode: nat) -> Seq<char> {
    crate::number::fill(' ', indent as int) + (".mode = 0"@ + octal(mode) + ","@)
}

/// The rule of the device, for the group `group`, with `mode` as an octal literal.
pub open spec fn rule_line(group: Seq<char>, mode: nat) -> Seq<char> {
    "KERNEL==\"memlog\", GROUP=\""@ + group + "\", MODE=\"0"@ + octal(mode) + "\""@
}

/// The text ends there, or goes on with another line.
pub open spec fn ends_line(rest: Seq<char>) -> bool {
    rest.len() == 0 || rest[0] == '\n'
}

/// The mode that the first line of a driver states is read.
pub proof fn driver_line_is_read(indent: nat, mode: nat, rest: Seq<char>)
    requires
        mode <= u32::MAX,
        ends_line(rest),
    ensures
        driver_mode(driver_line(indent, mode) + rest) == Ok::<nat, Seq<char>>(mode),
{
    reveal_strlit(".mode = 0");
    reveal_strlit(".mode");
    reveal_strlit(",");
    reveal_strlit("0");
    lemma_octal(mode);
    octal_mode_round_trips(mode);
    let digits = octal(mode);
    let literal = "0"@ + digits;
    let bare = ".mode = 0"@ + digits + ","@;
    let line = driver_line(indent, mode);
    assert(forall|i: int| 0 <= i < digits.len() ==> bare[i + 9] == #[trigger] digits[i]);
    assert forall|i: int| 0 <= i < line.len() implies line[i] != '\n' by {
        if indent <= i {
            assert(line[i] == bare[i - indent]);
            if 9 <= i - indent < 9 + digits.len() {
                assert(bare[i - indent - 9 + 9] == digits[i - indent - 9]);
            }
        }
    }
    assert(line.last() == ',');
    crate::text::lemma_first_line(line, rest);
    assert(bare.last() == ',' && bare[0] == '.');
    crate::text::lemma_trim_spaces(indent, bare);
    assert(".mode"@ =~= bare.subrange(0, 5));
    assert(bare[6] == '=');
    assert(bare.contains('='));
    let head = bare.take(6);
    let tail = bare.skip(7);
    assert(bare =~= head.push('=') + tail);
    crate::text::lemma_split_first(head, '=', tail);
    assert forall|i: int| 0 <= i < tail.len() implies tail[i] != '=' by {
        assert(tail[i] == bare[i + 7]);
        if 2 <= i < 2 + digits.len() {
            assert(bare[i - 2 + 9] == digits[i - 2]);
        }
    }
    crate::text::lemma_split_none(tail, '=');
    assert(crate::text::split(bare, '=')[1] == tail);
    let listed = literal.push(',');
    assert(tail =~= crate::number::fill(' ', 1) + listed);
    crate::text::lemma_trim_spaces(1, listed);
    assert(listed.drop_last() =~= literal);
    assert(literal.last() == digits.last());
    assert('0' <= digits[digits.len() - 1] <= '7');
    assert(crate::text::strip_back(literal, Strip::Only(',')) == literal);
    assert(crate::text::strip_back(listed, Strip::Only(',')) == literal);
    assert(crate::number::fill(' ', 0) + literal =~= literal);
    crate::text::lemma_trim_spaces(0, literal);
    assert(assigned(bare) == literal);
    let all = crate::text::lines(line + rest);
    assert(driver_value(all) == Some(literal));
}

/// `s` holds neither a comma nor a line feed.
pub open spec fn is_one_part(s: Seq<char>) -> bool {
    forall|i: int| 0 <= i < s.len() ==> s[i] != ',' && s[i] != '\n'
}

spec fn group_part(group: Seq<char>) -> Seq<char> {
    "GROUP=\""@ + group + "\""@
}

spec fn mode_part(mode: nat) -> Seq<char> {
    "MODE=\"0"@ + octal(mode) + "\""@
}

spec fn spaced(part: Seq<char>) -> Seq<char> {
    crate::number::fill(' ', 1) + part
}

proof fn lemma_kernel_part()
    ensures
        is_one_part("KERNEL==\"memlog\""@),
        "KERNEL==\"memlog\""@.len() == 16,
        "KERNEL==\"memlog\""@[0] == 'K',
        crate::text::trim("KERNEL==\"memlog\""@) == "KERNEL==\"memlog\""@,
{
    reveal_strlit("KERNEL==\"memlog\"");
    let part = "KERNEL==\"memlog\""@;
    assert(crate::number::fill(' ', 0) + part =~= part);
    crate::text::lemma_trim_spaces(0, part);
}

proof fn lemma_group_part(group: Seq<char>)
    requires
        is_one_part(group),
    ensures
        is_one_part(spaced(group_part(group))),
        group_part(group).len() > 0,
        group_part(group)[0] == 'G',
        crate::text::trim(spaced(group_part(group))) == group_part(group),
{
    reveal_strlit("GROUP=\"");
    reveal_strlit("\"");
    let part = group_part(group);
    let padded = spaced(part);
    assert forall|i: int| 0 <= i < padded.len() implies padded[i] != ',' && padded[i] != '\n' by {
        if 8 <= i < 8 + group.len() {
            assert(padded[i] == group[i - 8]);
        }
    }
    crate::text::lemma_trim_spaces(1, part);
}

proof fn lemma_mode_part(mode: nat)
    requires
        mode <= u32::MAX,
    ensures
        is_one_part(spaced(mode_part(mode))),
        sets_mode(mode_part(mode)),
        set_value(mode_part(mode)) == "0"@ + octal(mode),
        crate::text::trim(spaced(mode_part(mode))) == mode_part(mode),
        crate::text::holds(mode_part(mode), "MODE="@),
{
    reveal_strlit("MODE=\"0");
    reveal_strlit("MODE=\"");
    reveal_strlit("MODE=");
    reveal_strlit("\"");
    reveal_strlit("0");
    lemma_octal(mode);
    let digits = octal(mode);
    let part = mode_part(mode);
    let padded = spaced(part);
    assert forall|i: int| 0 <= i < padded.len() implies padded[i] != ',' && padded[i] != '\n' by {
        if 8 <= i < 8 + digits.len() {
            assert(padded[i] == digits[i - 8]);
        }
    }
    crate::text::lemma_trim_spaces(1, part);
    assert("MODE=\""@ =~= part.subrange(0, 6));
    assert(part.subrange(0, 0int + "MODE="@.len()) =~= "MODE="@);
    assert(set_value(part) =~= "0"@ + digits);
}

proof fn lemma_rule_parts(group: Seq<char>, mode: nat)
    ensures
        rule_line(group, mode) == "KERNEL==\"memlog\""@.push(',') + (spaced(
            group_part(group),
        ).push(',') + spaced(mode_part(mode))),
{
    reveal_strlit("KERNEL==\"memlog\", GROUP=\"");
    reveal_strlit("KERNEL==\"memlog\"");
    reveal_strlit("\", MODE=\"0");
    reveal_strlit("GROUP=\"");
    reveal_strlit("MODE=\"0");
    reveal_strlit("\"");
    let head = "KERNEL==\"memlog\""@.push(',') + (crate::number::fill(' ', 1) + "GROUP=\""@);
    assert("KERNEL==\"memlog\", GROUP=\""@ =~= head);
    let middle = "\""@.push(',') + (crate::number::fill(' ', 1) + "MODE=\"0"@);
    assert("\", MODE=\"0"@ =~= middle);
    assert(rule_line(group, mode) =~= "KERNEL==\"memlog\""@.push(',') + (spaced(
        group_part(group),
    ).push(',') + spaced(mode_part(mode))));
}

proof fn lemma_holds_later(head: Seq<char>, s: Seq<char>, part: Seq<char>)
    requires
        crate::text::holds(s, part),
    ensures
        crate::text::holds(head + s, part),
{
    let i = choose|i: int|
        0 <= i && i + part.len() <= s.len() && #[trigger] s.subrange(i, i + part.len()) == part;
    let at = head.len() + i;
    assert((head + s).subrange(at, at + part.len()) =~= part);
}

/// The mode that the first line sets, if it is the rule of the device, is read.
pub proof fn rule_line_is_read(group: Seq<char>, mode: nat, rest: Seq<char>)
    requires
        mode <= u32::MAX,
        is_one_part(group),
        ends_line(rest),
    ensures
        rule_mode(rule_line(group, mode) + rest) == Ok::<nat, Seq<char>>(mode),
{
    let kernel = "KERNEL==\"memlog\""@;
    let second = spaced(group_part(group));
    let third = spaced(mode_part(mode));
    let line = rule_line(group, mode);
    octal_mode_round_trips(mode);
    lemma_kernel_part();
    lemma_group_part(group);
    lemma_mode_part(mode);
    lemma_rule_parts(group, mode);
    crate::text::lemma_split_first(kernel, ',', second.push(',') + third);
    crate::text::lemma_split_first(second, ',', third);
    crate::text::lemma_split_none(third, ',');
    assert(crate::text::split(line, ',') =~= seq![kernel, second, third]);
    lemma_part_value(kernel, second, third, kernel, group_part(group), mode_part(mode));
    assert(line.subrange(0, 0int + kernel.len()) =~= kernel);
    assert(crate::text::holds(line, kernel));
    lemma_holds_later(crate::number::fill(' ', 1), mode_part(mode), "MODE="@);
    lemma_holds_later(second.push(','), third, "MODE="@);
    lemma_holds_later(kernel.push(','), second.push(',') + third, "MODE="@);
    assert(is_rule(line));
    assert forall|i: int| 0 <= i < line.len() implies line[i] != '\n' by {
        let tail = second.push(',') + third;
        if i > 16 {
            assert(line[i] == tail[i - 17]);
            if i - 17 > second.len() {
                assert(tail[i - 17] == third[i - 17 - second.len() - 1]);
            } else if i - 17 < second.len() {
                assert(tail[i - 17] == second[i - 17]);
            }
        } else if i < 16 {
            assert(line[i] == kernel[i]);
        }
    }
    assert(line.last() == mode_part(mode).last());
    crate::text::lemma_first_line(line, rest);
    assert(rule_value(crate::text::lines(line + rest)) == Some("0"@ + octal(mode)));
}

proof fn lemma_part_value(
    first: Seq<char>,
    second: Seq<char>,
    third: Seq<char>,
    kernel: Seq<char>,
    named: Seq<char>,
    set: Seq<char>,
)
    requires
        crate::text::trim(first) == kernel,
        crate::text::trim(second) == named,
        crate::text::trim(third) == set,
        kernel.len() > 0 && kernel[0] == 'K',
        named.len() > 0 && named[0] == 'G',
        sets_mode(set),
    ensures
        part_value(seq![first, second, third]) == Some(set_value(set)),
{
    reveal_strlit("MODE=\"");
    let parts = seq![first, second, third];
    if "MODE=\""@.is_prefix_of(kernel) {
        assert("MODE=\""@[0] == kernel.subrange(0, 6)[0]);
    }
    if "MODE=\""@.is_prefix_of(named) {
        assert("MODE=\""@[0] == named.subrange(0, 6)[0]);
    }
    assert(parts.drop_first() =~= seq![second, third]);
    assert(parts.drop_first().drop_first() =~= seq![third]);
    assert(part_value(seq![third]) == Some(set_value(set)));
    assert(part_value(seq![second, third]) == Some(set_value(set)));
}

/// A driver and a rule are read as agreeing just when the modes that they write are
/// one.
pub proof fn modes_agree_when_they_are_one(
    indent: nat,
    driver_states: nat,
    driver_rest: Seq<char>,
    group: Seq<char>,
    rule_states: nat,
    rule_rest: Seq<char>,
)
    requires
        driver_states <= u32::MAX,
        rule_states <= u32::MAX,
        is_one_part(group),
        ends_line(driver_rest),
        ends_line(rule_rest),
    ensures
        driver_mode(driver_line(indent, driver_states) + driver_rest) == rule_mode(
            rule_line(group, rule_states) + rule_rest,
        ) <==> driver_states == rule_states,
{
    driver_line_is_read(indent, driver_states, driver_rest);
    rule_line_is_read(group, rule_states, rule_rest);
}

fn parse_octal(src: &str, chars: &Vec<char>, val: Span) -> (read: Result<u32, String>)
    requires
        chars@ == src@,
        val.within(chars@),
    ensures
        reads_mode(read, octal_mode(val.of(chars@))),
{
    let digits: Span = val.strip_front(chars, Strip::Only('0'));
    if val.start < val.end && digits.start == digits.end {
        return Ok(0);
    }
    match parse_number(chars, digits, 8, u32::MAX as u64) {
        Ok(mode) => {
            proof {
                crate::number::lemma_number_max(digits.of(chars@), 8, u32::MAX as nat);
            }
            Ok(mode as u32)
        },
        Err(e) => {
            let text: String = quoted(src.substring_char(val.start, val.end));
            Err(parse_error(text.as_str(), e))
        },
    }
}

/// The mode on the first `.mode = 0NNN` line of the driver's source.
pub fn parse_driver_mode(src: &str) -> (read: Result<u32, String>)
    ensures
        reads_mode(read, driver_mode(src@)),
{
    let chars: Vec<char> = chars_of(src);
    let lines: Vec<Span> = line_spans(&chars);
    let ghost all = crate::text::lines(src@);
    let mut i: usize = 0;
    assert(all.skip(0) =~= all);
    while i < lines.len()
        invariant
            i <= lines@.len(),
            chars@ == src@,
            all == crate::text::lines(src@),
            crate::text::spans_are(lines@, chars@, all),
            driver_value(all) == driver_value(all.skip(i as int)),
        decreases lines@.len() - i,
    {
        let line: Span = lines[i].trim(&chars);
        let equals: usize = line.find(&chars, '=');
        proof {
            crate::text::lemma_find(line.of(chars@), '=');
            assert(all.skip(i as int)[0] == all[i as int]);
            assert(all.skip(i as int).drop_first() =~= all.skip(i + 1));
        }
        if line.starts_with(&chars, ".mode") && equals < line.end - line.start {
            let parts: Vec<Span> = line.split(&chars, '=');
            proof {
                crate::text::lemma_split_pieces(line.of(chars@), '=');
            }
            let val: Span = parts[1].trim(&chars).strip_back(&chars, Strip::Only(',')).trim(&chars);
            return parse_octal(src, &chars, val);
        }
        i = i + 1;
    }
    Err("no .mode = line found".to_owned())
}

/// The mode in `MODE="NNNN"` of the first line in `src` that holds
/// `KERNEL=="memlog"` and sets one.
pub fn parse_udev_rule_mode(src: &str) -> (read: Result<u32, String>)
    ensures
        reads_mode(read, rule_mode(src@)),
{
    let chars: Vec<char> = chars_of(src);
    let lines: Vec<Span> = line_spans(&chars);
    let ghost all = crate::text::lines(src@);
    let mut i: usize = 0;
    assert(all.skip(0) =~= all);
    while i < lines.len()
        invariant
            i <= lines@.len(),
            chars@ == src@,
            all == crate::text::lines(src@),
            crate::text::spans_are(lines@, chars@, all),
            rule_value(all) == rule_value(all.skip(i as int)),
        decreases lines@.len() - i,
    {
        let line: Span = lines[i];
        proof {
            assert(all.skip(i as int)[0] == all[i as int]);
            assert(all.skip(i as int).drop_first() =~= all.skip(i + 1));
        }
        if line.holds(&chars, "KERNEL==\"memlog\"") && line.holds(&chars, "MODE=") {
            if let Some(val) = find_set_value(&chars, line) {
                return parse_octal(src, &chars, val);
            }
        }
        i = i + 1;
    }
    Err("no MODE= found in memlog udev rule line".to_owned())
}

fn find_set_value(chars: &Vec<char>, line: Span) -> (val: Option<Span>)
    requires
        line.within(chars@),
    ensures
        match (val, part_value(crate::text::split(line.of(chars@), ','))) {
            (Some(span), Some(text)) => span.within(chars@) && span.of(chars@) == text,
            (None, None) => true,
            _ => false,
        },
{
    let parts: Vec<Span> = line.split(chars, ',');
    let ghost all = crate::text::split(line.of(chars@), ',');
    let mut i: usize = 0;
    assert(all.skip(0) =~= all);
    while i < parts.len()
        invariant
            i <= parts@.len(),
            all == crate::text::split(line.of(chars@), ','),
            crate::text::spans_are(parts@, chars@, all),
            part_value(all) == part_value(all.skip(i as int)),
        decreases parts@.len() - i,
    {
        let part: Span = parts[i].trim(chars);
        proof {
            assert(all.skip(i as int)[0] == all[i as int]);
            assert(all.skip(i as int).drop_first() =~= all.skip(i + 1));
            reveal_strlit("MODE=\"");
        }
        if part.starts_with(chars, "MODE=\"") && part.end - part.start > 6 && chars[part.end - 1]
            == '"' {
            let val: Span = Span { start: part.start + 6, end: part.end - 1 };
            assert(val.of(chars@) =~= set_value(part.of(chars@)));
            return Some(val);
        }
        i = i + 1;
    }
    None
}

/// What looking for the packaged rule found.
pub struct RuleProbe {
    /// The path in the environment variable `MEMLOG_UDEV_RULE_PATH`, if it is set.
    pub override_path: Option<String>,
    /// That path exists.
    pub override_exists: bool,
    /// The path of [`in_tree_rule_path`] exists.
    pub in_tree_exists: bool,
    /// That path with all links resolved, if it could be resolved.
    pub in_tree_canonical: Option<String>,
    /// [`INSTALLED_RULE_PATH`] exists.
    pub installed_exists: bool,
}

/// Where the kernel package installs the rule.
pub const INSTALLED_RULE_PATH: &'static str = "/usr/lib/udev/rules.d/70-linux-wintermute-memlog.rules";

/// The path of the rule in a checkout of the kernel package beside `repo_root`.
pub open spec fn in_tree_path(repo_root: Seq<char>) -> Seq<char> {
    crate::path::joined(repo_root, "../wintermute-kernel/pkg/linux-wintermute-memlog.rules"@)
}

/// The path of the rule in a checkout of the kernel package beside `repo_root`.
pub fn in_tree_rule_path(repo_root: &str) -> (path: String)
    ensures
        path@ == in_tree_path(repo_root@),
{
    join(repo_root, "../wintermute-kernel/pkg/linux-wintermute-memlog.rules")
}

/// The path of the packaged rule and the name of its source: the environment's
/// override if it exists, else the rule in the tree, else the installed one.
pub fn resolve_udev_rule_path(repo_root: &str, probe: RuleProbe) -> (found: Option<
    (String, &'static str),
>)
    ensures
        match found {
            Some((path, source)) => {
                if probe.override_path is Some && probe.override_exists {
                    &&& path@ == probe.override_path->0@
                    &&& source@ == "env:MEMLOG_UDEV_RULE_PATH"@
                } else if probe.in_tree_exists {
                    &&& path@ == match probe.in_tree_canonical {
                        Some(canonical) => canonical@,
                        None => in_tree_path(repo_root@),
                    }
                    &&& source@ == "in-tree"@
                } else {
                    &&& probe.installed_exists
                    &&& path@ == INSTALLED_RULE_PATH@
                    &&& source@ == "installed"@
                }
            },
            None => {
                &&& !(probe.override_path is Some && probe.override_exists)
                &&& !probe.in_tree_exists
                &&& !probe.installed_exists
            },
        },
        first_place(
            match found {
                Some((path, source)) => Some((path@, source@)),
                None => None,
            },
            rule_places(repo_root@, probe),
        ),
{
    let ghost places = rule_places(repo_root@, probe);
    if let Some(path) = probe.override_path {
        if probe.override_exists {
            assert(places[0] is Some);
            return Some((path, "env:MEMLOG_UDEV_RULE_PATH"));
        }
    }
    if probe.in_tree_exists {
        let path: String = match probe.in_tree_canonical {
            Some(canonical) => canonical,
            None => in_tree_rule_path(repo_root),
        };
        assert(places[0] is None && places[1] is Some);
        return Some((path, "in-tree"));
    }
    if probe.installed_exists {
        assert(places[0] is None && places[1] is None && places[2] is Some);
        return Some((INSTALLED_RULE_PATH.to_owned(), "installed"));
    }
    None
}

/// A value of octal digits is the number that they spell, if that is one of 32 bits;
/// if it is not, or if the value is empty, the error quotes the value.
pub proof fn octal_digits_are_read(val: Seq<char>)
    requires
        crate::number::digits_in(val, 8),
    ensures
        ({
            let quoted = crate::quote::debug_text(val);
            let n = crate::number::spelled(val, 8);
            &&& val.len() > 0 && n <= 0xffff_ffff ==> octal_mode(val) == Ok::<nat, Seq<char>>(n)
            &&& n > 0xffff_ffff ==> octal_mode(val) == Err::<nat, Seq<char>>(
                "parse error on "@ + quoted + ": "@ + "number too large to fit in target type"@,
            )
            &&& val.len() == 0 ==> octal_mode(val) == Err::<nat, Seq<char>>(
                "parse error on "@ + quoted + ": "@ + "cannot parse integer from empty string"@,
            )
        }),
{
    let zeros = crate::text::lemma_strip_front(val, Strip::Only('0'));
    let digits = crate::text::strip_front(val, Strip::Only('0'));
    assert(zeros =~= crate::number::fill('0', zeros.len() as int));
    crate::number::leading_zeros_count_nothing(zeros.len() as int, digits, 8);
    assert forall|i: int| 0 <= i < digits.len() implies '0' <= #[trigger] digits[i] && (digits[i]
        as int - '0' as int) < 8 by {
        assert(digits[i] == val[i + zeros.len()]);
    }
    if digits.len() > 0 {
        crate::number::digits_are_read(digits, 8, u32::MAX as nat);
    }
}

/// A value with a character that is no octal digit, other than a plus sign that only
/// zeros come before, is an error that quotes the value.
pub proof fn other_values_are_refused(head: Seq<char>, c: char, rest: Seq<char>)
    requires
        crate::number::digits_in(head, 8),
        !('0' <= c <= '7'),
        c != '+' || crate::number::spelled(head, 8) > 0,
        crate::number::spelled(head, 8) <= 0xffff_ffff,
    ensures
        octal_mode(head.push(c) + rest) == Err::<nat, Seq<char>>(
            "parse error on "@ + crate::quote::debug_text(head.push(c) + rest) + ": "@
                + "invalid digit found in string"@,
        ),
{
    let val = head.push(c) + rest;
    let zeros = crate::text::lemma_strip_front(head, Strip::Only('0'));
    let digits = crate::text::strip_front(head, Strip::Only('0'));
    assert(zeros =~= crate::number::fill('0', zeros.len() as int));
    crate::number::leading_zeros_count_nothing(zeros.len() as int, digits, 8);
    assert forall|i: int| 0 <= i < digits.len() implies '0' <= #[trigger] digits[i] && (digits[i]
        as int - '0' as int) < 8 by {
        assert(digits[i] == head[i + zeros.len()]);
    }
    let tail = digits.push(c) + rest;
    assert(val =~= zeros + tail);
    if digits.len() > 0 {
        assert(tail[0] == digits[0]);
    } else {
        assert(tail[0] == c);
    }
    lemma_strip_zeros(zeros, tail);
    crate::number::other_texts_are_refused(digits, c, rest, 8, u32::MAX as nat);
}

proof fn lemma_strip_zeros(zeros: Seq<char>, tail: Seq<char>)
    requires
        forall|i: int| 0 <= i < zeros.len() ==> #[trigger] zeros[i] == '0',
        tail.len() > 0,
        tail[0] != '0',
    ensures
        crate::text::strip_front(zeros + tail, Strip::Only('0')) == tail,
    decreases zeros.len(),
{
    let val = zeros + tail;
    if zeros.len() > 0 {
        let rest = zeros.drop_first();
        assert forall|i: int| 0 <= i < rest.len() implies #[trigger] rest[i] == '0' by {
            assert(rest[i] == zeros[i + 1]);
        }
        lemma_strip_zeros(rest, tail);
        assert(val[0] == zeros[0]);
        assert(val.drop_first() =~= rest + tail);
    } else {
        assert(val =~= tail);
    }
}

/// The line, without the white space around it, starts with `.mode` and holds an
/// equals sign.
pub open spec fn may_assign(line: Seq<char>) -> bool {
    let bare = crate::text::trim(line);
    ".mode"@.is_prefix_of(bare) && bare.contains('=')
}

proof fn lemma_driver_skips(before: Seq<Seq<char>>, lines: Seq<Seq<char>>)
    requires
        forall|i: int| 0 <= i < before.len() ==> !may_assign(#[trigger] before[i]),
    ensures
        driver_value(before + lines) == driver_value(lines),
    decreases before.len(),
{
    if before.len() == 0 {
        assert(before + lines =~= lines);
    } else {
        let rest = before.drop_first();
        assert forall|i: int| 0 <= i < rest.len() implies !may_assign(#[trigger] rest[i]) by {
            assert(rest[i] == before[i + 1]);
        }
        lemma_driver_skips(rest, lines);
        assert(!may_assign(before[0]));
        assert((before + lines)[0] == before[0]);
        assert((before + lines).drop_first() =~= rest + lines);
    }
}

/// Whatever lines come before it that assign no mode, and whatever follows, the first
/// line that does decides: the mode is what stands between its first equals sign and
/// the next one, without commas at its end and without white space.
pub proof fn first_assignment_decides(
    before: Seq<char>,
    line: Seq<char>,
    key: Seq<char>,
    val: Seq<char>,
    more: Seq<char>,
    rest: Seq<char>,
)
    requires
        before.len() == 0 || before.last() == '\n',
        forall|i: int|
            0 <= i < crate::text::lines(before).len() ==> !may_assign(
                #[trigger] crate::text::lines(before)[i],
            ),
        line.len() > 0 && line.last() != '\r',
        forall|i: int| 0 <= i < line.len() ==> line[i] != '\n',
        crate::text::trim(line) == ".mode"@ + key + "="@ + val + more,
        forall|i: int| 0 <= i < key.len() ==> key[i] != '=',
        forall|i: int| 0 <= i < val.len() ==> val[i] != '=',
        more.len() == 0 || more[0] == '=',
        ends_line(rest),
    ensures
        driver_mode(before + (line + rest)) == octal_mode(
            crate::text::trim(
                crate::text::strip_back(crate::text::trim(val), Strip::Only(',')),
            ),
        ),
{
    reveal_strlit(".mode");
    reveal_strlit("=");
    crate::text::lines_follow_lines(before, line + rest);
    lemma_driver_skips(crate::text::lines(before), crate::text::lines(line + rest));
    crate::text::lemma_first_line(line, rest);
    let bare = crate::text::trim(line);
    let head = ".mode"@ + key;
    let tail = val + more;
    assert(bare =~= head.push('=') + tail);
    assert(bare[head.len() as int] == '=');
    assert(".mode"@ =~= bare.subrange(0, 5));
    assert forall|i: int| 0 <= i < head.len() implies head[i] != '=' by {
        if i >= 5 {
            assert(head[i] == key[i - 5]);
        }
    }
    crate::text::lemma_split_first(head, '=', tail);
    if more.len() == 0 {
        assert(tail =~= val);
        crate::text::lemma_split_none(val, '=');
    } else {
        assert(tail =~= val.push('=') + more.drop_first());
        crate::text::lemma_split_first(val, '=', more.drop_first());
    }
    assert(crate::text::split(bare, '=')[1] == val);
}

/// A source none of whose lines assigns a mode is refused.
pub proof fn source_without_assignment_is_refused(src: Seq<char>)
    requires
        forall|i: int|
            0 <= i < crate::text::lines(src).len() ==> !may_assign(
                #[trigger] crate::text::lines(src)[i],
            ),
    ensures
        driver_mode(src) == Err::<nat, Seq<char>>("no .mode = line found"@),
{
    lemma_driver_skips(crate::text::lines(src), seq![]);
    assert(crate::text::lines(src) + Seq::<Seq<char>>::empty() =~= crate::text::lines(src));
}

/// A line that states the mode as an octal literal is read, at whatever place it
/// stands, if no line before it assigns a mode.
pub proof fn driver_line_is_read_at_any_place(
    before: Seq<char>,
    indent: nat,
    mode: nat,
    rest: Seq<char>,
)
    requires
        before.len() == 0 || before.last() == '\n',
        forall|i: int|
            0 <= i < crate::text::lines(before).len() ==> !may_assign(
                #[trigger] crate::text::lines(before)[i],
            ),
        mode <= 0xffff_ffff,
        ends_line(rest),
    ensures
        driver_mode(before + (driver_line(indent, mode) + rest)) == Ok::<nat, Seq<char>>(mode),
{
    let line = driver_line(indent, mode);
    driver_line_is_read(indent, mode, rest);
    crate::text::lines_follow_lines(before, line + rest);
    lemma_driver_skips(crate::text::lines(before), crate::text::lines(line + rest));
}

/// `part` is of the form `MODE="..."` with `val` between the quotes.
pub open spec fn sets_to(part: Seq<char>, val: Seq<char>) -> bool {
    part == "MODE=\""@ + val + "\""@
}

proof fn lemma_sets(part: Seq<char>, val: Seq<char>)
    ensures
        sets_to(part, val) ==> sets_mode(part) && set_value(part) == val,
        sets_mode(part) ==> sets_to(part, set_value(part)),
{
    reveal_strlit("MODE=\"");
    reveal_strlit("\"");
    if sets_to(part, val) {
        assert("MODE=\""@ =~= part.subrange(0, 6));
        assert(set_value(part) =~= val);
    }
    if sets_mode(part) {
        assert(part =~= part.subrange(0, 6) + set_value(part) + "\""@);
    }
}

proof fn lemma_part_at(parts: Seq<Seq<char>>, at: int, val: Seq<char>)
    requires
        0 <= at < parts.len(),
        sets_to(crate::text::trim(parts[at]), val),
        forall|j: int, v: Seq<char>|
            0 <= j < at ==> !#[trigger] sets_to(crate::text::trim(parts[j]), v),
    ensures
        part_value(parts) == Some(val),
    decreases at,
{
    let first = crate::text::trim(parts[0]);
    lemma_sets(first, val);
    if at > 0 {
        assert(!sets_to(crate::text::trim(parts[0]), set_value(first)));
        let rest = parts.drop_first();
        assert forall|j: int, v: Seq<char>| 0 <= j < at - 1 implies !#[trigger] sets_to(
            crate::text::trim(rest[j]),
            v,
        ) by {
            assert(!sets_to(crate::text::trim(parts[j + 1]), v));
        }
        lemma_part_at(rest, at - 1, val);
    }
}

/// The line sets no mode of the device: it does not hold `KERNEL=="memlog"` and
/// `MODE=`, or none of its parts between commas is of the form `MODE="..."`.
pub open spec fn sets_none(line: Seq<char>) -> bool {
    ||| !crate::text::holds(line, "KERNEL==\"memlog\""@)
    ||| !crate::text::holds(line, "MODE="@)
    ||| forall|j: int, v: Seq<char>|
        0 <= j < crate::text::split(line, ',').len() ==> !#[trigger] sets_to(
            crate::text::trim(crate::text::split(line, ',')[j]),
            v,
        )
}

proof fn lemma_no_part(parts: Seq<Seq<char>>)
    requires
        forall|j: int, v: Seq<char>|
            0 <= j < parts.len() ==> !#[trigger] sets_to(crate::text::trim(parts[j]), v),
    ensures
        part_value(parts) is None,
    decreases parts.len(),
{
    if parts.len() > 0 {
        let first = crate::text::trim(parts[0]);
        lemma_sets(first, seq![]);
        assert(!sets_to(crate::text::trim(parts[0]), set_value(first)));
        let rest = parts.drop_first();
        assert forall|j: int, v: Seq<char>| 0 <= j < rest.len() implies !#[trigger] sets_to(
            crate::text::trim(rest[j]),
            v,
        ) by {
            assert(!sets_to(crate::text::trim(parts[j + 1]), v));
        }
        lemma_no_part(rest);
    }
}

proof fn lemma_rule_skips(before: Seq<Seq<char>>, lines: Seq<Seq<char>>)
    requires
        forall|i: int| 0 <= i < before.len() ==> sets_none(#[trigger] before[i]),
    ensures
        rule_value(before + lines) == rule_value(lines),
    decreases before.len(),
{
    if before.len() == 0 {
        assert(before + lines =~= lines);
    } else {
        let rest = before.drop_first();
        assert forall|i: int| 0 <= i < rest.len() implies sets_none(#[trigger] rest[i]) by {
            assert(rest[i] == before[i + 1]);
        }
        lemma_rule_skips(rest, lines);
        assert(sets_none(before[0]));
        if is_rule(before[0]) {
            lemma_no_part(crate::text::split(before[0], ','));
        }
        assert((before + lines)[0] == before[0]);
        assert((before + lines).drop_first() =~= rest + lines);
    }
}

/// Whatever lines come before it that set no mode of the device, and whatever
/// follows, the first line that holds `KERNEL=="memlog"` and `MODE=` and sets one
/// decides, and in it the first of its parts between commas that is of the form
/// `MODE="..."`.
pub proof fn first_rule_decides(
    before: Seq<char>,
    line: Seq<char>,
    at: int,
    val: Seq<char>,
    rest: Seq<char>,
)
    requires
        before.len() == 0 || before.last() == '\n',
        forall|i: int|
            0 <= i < crate::text::lines(before).len() ==> sets_none(
                #[trigger] crate::text::lines(before)[i],
            ),
        line.len() > 0 && line.last() != '\r',
        forall|i: int| 0 <= i < line.len() ==> line[i] != '\n',
        crate::text::holds(line, "KERNEL==\"memlog\""@),
        crate::text::holds(line, "MODE="@),
        0 <= at < crate::text::split(line, ',').len(),
        sets_to(crate::text::trim(crate::text::split(line, ',')[at]), val),
        forall|j: int, v: Seq<char>|
            0 <= j < at ==> !#[trigger] sets_to(
                crate::text::trim(crate::text::split(line, ',')[j]),
                v,
            ),
        ends_line(rest),
    ensures
        rule_mode(before + (line + rest)) == octal_mode(val),
{
    crate::text::lines_follow_lines(before, line + rest);
    lemma_rule_skips(crate::text::lines(before), crate::text::lines(line + rest));
    crate::text::lemma_first_line(line, rest);
    lemma_part_at(crate::text::split(line, ','), at, val);
}

/// A text none of whose lines sets a mode of the device is refused.
pub proof fn text_without_a_rule_is_refused(src: Seq<char>)
    requires
        forall|i: int|
            0 <= i < crate::text::lines(src).len() ==> sets_none(
                #[trigger] crate::text::lines(src)[i],
            ),
    ensures
        rule_mode(src) == Err::<nat, Seq<char>>("no MODE= found in memlog udev rule line"@),
{
    lemma_rule_skips(crate::text::lines(src), seq![]);
    assert(crate::text::lines(src) + Seq::<Seq<char>>::empty() =~= crate::text::lines(src));
}

/// The rule of the device is read, at whatever place it stands, if no line before it
/// sets a mode of the device.
pub proof fn rule_line_is_read_at_any_place(
    before: Seq<char>,
    group: Seq<char>,
    mode: nat,
    rest: Seq<char>,
)
    requires
        before.len() == 0 || before.last() == '\n',
        forall|i: int|
            0 <= i < crate::text::lines(before).len() ==> sets_none(
                #[trigger] crate::text::lines(before)[i],
            ),
        mode <= 0xffff_ffff,
        forall|i: int| 0 <= i < group.len() ==> group[i] != ',' && group[i] != '\n',
        ends_line(rest),
    ensures
        rule_mode(before + (rule_line(group, mode) + rest)) == Ok::<nat, Seq<char>>(mode),
{
    let line = rule_line(group, mode);
    rule_line_is_read(group, mode, rest);
    crate::text::lines_follow_lines(before, line + rest);
    lemma_rule_skips(crate::text::lines(before), crate::text::lines(line + rest));
}

/// A mode in octal is spelled in octal digits.
pub proof fn octal_spells_its_mode(mode: nat)
    ensures
        crate::number::digits_in(octal(mode), 8),
        crate::number::spelled(octal(mode), 8) == mode,
        octal(mode).len() >= 1,
    decreases mode,
{
    let s = octal(mode);
    if mode < 8 {
        assert(s.drop_last() =~= Seq::<char>::empty());
        assert(crate::number::spelled(s.drop_last(), 8) == 0);
    } else {
        octal_spells_its_mode(mode / 8);
        assert(s.drop_last() =~= octal(mode / 8));
        assert forall|i: int| 0 <= i < s.len() implies '0' <= #[trigger] s[i] && (s[i] as int
            - '0' as int) < 8 by {
            if i < s.len() - 1 {
                assert(s[i] == octal(mode / 8)[i]);
            }
        }
    }
}

/// Beside a checkout, the rule is in the directory of the kernel package next to it.
pub proof fn rule_in_the_tree_is_beside_the_checkout(repo_root: Seq<char>)
    requires
        repo_root.len() > 0 && repo_root.last() != '/',
    ensures
        in_tree_path(repo_root) == repo_root
            + "/../wintermute-kernel/pkg/linux-wintermute-memlog.rules"@,
{
    let below = "../wintermute-kernel/pkg/linux-wintermute-memlog.rules"@;
    reveal_strlit("/");
    reveal_strlit("../wintermute-kernel/pkg/linux-wintermute-memlog.rules");
    reveal_strlit("/../wintermute-kernel/pkg/linux-wintermute-memlog.rules");
    assert("/"@ + below =~= "/../wintermute-kernel/pkg/linux-wintermute-memlog.rules"@);
    assert(repo_root + "/"@ + below =~= repo_root + ("/"@ + below));
}

/// The places of the rule that were found, in the order in which they are tried, each
/// with the name of its source.
pub open spec fn rule_places(repo_root: Seq<char>, probe: RuleProbe) -> Seq<
    Option<(Seq<char>, Seq<char>)>,
> {
    seq![
        match probe.override_path {
            Some(path) if probe.override_exists => Some((path@, "env:MEMLOG_UDEV_RULE_PATH"@)),
            _ => None,
        },
        match probe.in_tree_canonical {
            Some(path) if probe.in_tree_exists => Some((path@, "in-tree"@)),
            None if probe.in_tree_exists => Some((in_tree_path(repo_root), "in-tree"@)),
            _ => None,
        },
        if probe.installed_exists {
            Some(("/usr/lib/udev/rules.d/70-linux-wintermute-memlog.rules"@, "installed"@))
        } else {
            None
        },
    ]
}

/// `found` is the first of `places` at which there is something.
pub open spec fn first_place(
    found: Option<(Seq<char>, Seq<char>)>,
    places: Seq<Option<(Seq<char>, Seq<char>)>>,
) -> bool {
    ||| exists|i: int| #![trigger places[i]]
        {
            &&& 0 <= i < places.len()
            &&& found is Some
            &&& places[i] == found
            &&& forall|j: int| 0 <= j < i ==> #[trigger] places[j] is None
        }
    ||| found is None && forall|j: int| 0 <= j < places.len() ==> #[trigger] places[j] is None
}

} // verus!
