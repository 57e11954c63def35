//! Numbers as text: reading them in a radix, and writing them in decimal and hex.

use vstd::prelude::*;
use vstd::string::*;

use crate::text::Span;

verus! {

broadcast use vstd::string::group_string_axioms;

/// Why a text is not a number.
#[derive(Clone, Copy, Debug, PartialEq, Eq)]
pub enum NumberError {
    /// There is nothing to read.
    Empty,
    /// A character that is no digit of the radix, or a sign alone.
    InvalidDigit,
    /// The number is larger than the type can hold.
    Overflow,
}

impl NumberError {
    /// The error in words.
    pub open spec fn words(self) -> Seq<char> {
        match self {
            NumberError::Empty => "cannot parse integer from empty string"@,
            NumberError::InvalidDigit => "invalid digit found in string"@,
            NumberError::Overflow => "number too large to fit in target type"@,
        }
    }

    /// The error in words.
    pub fn message(&self) -> (message: &'static str)
        ensures
            message@ == self.words(),
    {
        match self {
            NumberError::Empty => "cannot parse integer from empty string",
            NumberError::InvalidDigit => "invalid digit found in string",
            NumberError::Overflow => "number too large to fit in target type",
        }
    }
}

/// The value of `c` as a digit of a radix up to ten.
pub open spec fn digit_value(c: char, radix: nat) -> Option<nat> {
    if '0' <= c && (c as int - '0' as int) < radix {
        Some((c as int - '0' as int) as nat)
    } else {
        None
    }
}

/// The number that the digits `s` spell, or what is wrong with the first digit
/// at which they stop spelling a number of at most `max`.
pub open spec fn digits_value(s: Seq<char>, radix: nat, max: nat) -> Result<nat, NumberError>
    decreases s.len(),
{
    if s.len() == 0 {
        Ok(0)
    } else {
        match digits_value(s.drop_last(), radix, max) {
            Err(e) => Err(e),
            Ok(high) => match digit_value(s.last(), radix) {
                None => Err(NumberError::InvalidDigit),
                Some(low) => if high * radix + low > max {
                    Err(NumberError::Overflow)
                } else {
                    Ok(high * radix + low)
                },
            },
        }
    }
}

/// The unsigned number in `s`: an optional plus sign, then at least one digit.
pub open spec fn number(s: Seq<char>, radix: nat, max: nat) -> Result<nat, NumberError> {
    if s.len() == 0 {
        Err(NumberError::Empty)
    } else if s[0] == '+' {
        if s.len() == 1 {
            Err(NumberError::InvalidDigit)
        } else {
            digits_value(s.drop_first(), radix, max)
        }
    } else {
        digits_value(s, radix, max)
    }
}

/// `read` is the number `meant`, or the same error.
pub open spec fn reads(read: Result<u64, NumberError>, meant: Result<nat, NumberError>) -> bool {
    match (read, meant) {
        (Ok(value), Ok(n)) => value as nat == n,
        (Err(e), Err(f)) => e == f,
        _ => false,
    }
}

proof fn lemma_error_stays(s: Seq<char>, radix: nat, max: nat, n: int)
    requires
        0 <= n <= s.len(),
        digits_value(s.take(n), radix, max) is Err,
    ensures
        digits_value(s, radix, max) == digits_value(s.take(n), radix, max),
    decreases s.len() - n,
{
    if n < s.len() {
        assert(s.take(n + 1).drop_last() =~= s.take(n));
        lemma_error_stays(s, radix, max, n + 1);
    } else {
        assert(s.take(n) =~= s);
    }
}

/// A number that was read is at most `max`.
pub proof fn lemma_number_max(s: Seq<char>, radix: nat, max: nat)
    ensures
        number(s, radix, max) matches Ok(n) ==> n <= max,
{
}

/// Read the digits in `span`.
fn parse_digits(chars: &Vec<char>, span: Span, radix: u64, max: u64) -> (read: Result<
    u64,
    NumberError,
>)
    requires
        span.within(chars@),
        2 <= radix <= 10,
    ensures
        reads(read, digits_value(span.of(chars@), radix as nat, max as nat)),
{
    let ghost s = span.of(chars@);
    let mut value: u64 = 0;
    let mut i: usize = span.start;
    while i < span.end
        invariant
            span.within(chars@),
            span.start <= i <= span.end,
            2 <= radix <= 10,
            s == span.of(chars@),
            digits_value(s.take(i - span.start), radix as nat, max as nat) == Ok::<
                nat,
                NumberError,
            >(value as nat),
            value <= max,
        decreases span.end - i,
    {
        let c: char = chars[i];
        proof {
            let next = s.take(i - span.start + 1);
            assert(next.drop_last() =~= s.take(i - span.start));
            assert(next.last() == c);
            if digits_value(next, radix as nat, max as nat) is Err {
                lemma_error_stays(s, radix as nat, max as nat, i - span.start + 1);
            }
        }
        if c < '0' || c > '9' {
            return Err(NumberError::InvalidDigit);
        }
        let digit: u64 = (c as u32 - '0' as u32) as u64;
        if digit >= radix {
            return Err(NumberError::InvalidDigit);
        }
        assert(0 <= value * radix <= u64::MAX * 10) by (nonlinear_arith)
            requires
                0 <= value <= u64::MAX,
                2 <= radix <= 10,
        ;
        let next: u128 = value as u128 * radix as u128 + digit as u128;
        if next > max as u128 {
            return Err(NumberError::Overflow);
        }
        value = next as u64;
        i = i + 1;
    }
    assert(s.take(s.len() as int) =~= s);
    Ok(value)
}

/// Read the unsigned number in `span`: an optional plus sign, then digits.
pub fn parse_number(chars: &Vec<char>, span: Span, radix: u64, max: u64) -> (read: Result<
    u64,
    NumberError,
>)
    requires
        span.within(chars@),
        2 <= radix <= 10,
    ensures
        reads(read, number(span.of(chars@), radix as nat, max as nat)),
{
    if span.start == span.end {
        return Err(NumberError::Empty);
    }
    if chars[span.start] == '+' {
        if span.end - span.start == 1 {
            return Err(NumberError::InvalidDigit);
        }
        let digits: Span = Span { start: span.start + 1, end: span.end };
        assert(digits.of(chars@) =~= span.of(chars@).drop_first());
        return parse_digits(chars, digits, radix, max);
    }
    parse_digits(chars, span, radix, max)
}

/// The digit `n`, in lower-case hex from ten on.
pub open spec fn digit_char(n: nat) -> char {
    if n < 10 {
        ('0' as int + n) as char
    } else {
        ('a' as int + n - 10) as char
    }
}

/// `n` in decimal, without leading zeros.
pub open spec fn decimal(n: nat) -> Seq<char>
    decreases n,
{
    if n < 10 {
        seq![digit_char(n)]
    } else {
        decimal(n / 10).push(digit_char(n % 10))
    }
}

/// `n` in decimal, with zeros before it up to `width` digits.
pub open spec fn decimal_padded(n: nat, width: nat) -> Seq<char> {
    fill('0', width - decimal(n).len()) + decimal(n)
}

/// `n` times the character `c`; nothing if `n` is negative.
pub open spec fn fill(c: char, n: int) -> Seq<char> {
    Seq::new(
        if n > 0 {
            n as nat
        } else {
            0
        },
        |i: int| c,
    )
}

/// The two hex digits of a byte.
pub open spec fn hex_byte(b: u8) -> Seq<char> {
    seq![digit_char((b / 16) as nat), digit_char((b % 16) as nat)]
}

/// The hex digits of `bytes`, two for each.
pub open spec fn hex(bytes: Seq<u8>) -> Seq<char>
    decreases bytes.len(),
{
    if bytes.len() == 0 {
        seq![]
    } else {
        hex(bytes.drop_last()) + hex_byte(bytes.last())
    }
}

fn digit_str(n: u64) -> (digit: &'static str)
    requires
        n < 16,
    ensures
        digit@ == seq![digit_char(n as nat)],
{
    proof {
        reveal_strlit("0");
        reveal_strlit("1");
        reveal_strlit("2");
        reveal_strlit("3");
        reveal_strlit("4");
        reveal_strlit("5");
        reveal_strlit("6");
        reveal_strlit("7");
        reveal_strlit("8");
        reveal_strlit("9");
        reveal_strlit("a");
        reveal_strlit("b");
        reveal_strlit("c");
        reveal_strlit("d");
        reveal_strlit("e");
        reveal_strlit("f");
    }
    match n {
        0 => "0",
        1 => "1",
        2 => "2",
        3 => "3",
        4 => "4",
        5 => "5",
        6 => "6",
        7 => "7",
        8 => "8",
        9 => "9",
        10 => "a",
        11 => "b",
        12 => "c",
        13 => "d",
        14 => "e",
        _ => "f",
    }
}

/// Append `n` in decimal.
pub fn append_decimal(out: &mut String, n: u64)
    ensures
        final(out)@ == old(out)@ + decimal(n as nat),
    decreases n,
{
    let ghost before = out@;
    if n >= 10 {
        append_decimal(out, n / 10);
    }
    out.append(digit_str(n % 10));
    assert(out@ =~= before + decimal(n as nat));
}

/// `n` in decimal.
pub fn decimal_string(n: u64) -> (text: String)
    ensures
        text@ == decimal(n as nat),
{
    let mut text: String = String::new();
    append_decimal(&mut text, n);
    assert(text@ =~= decimal(n as nat));
    text
}

/// Append `count` times the one-character string `unit`.
pub fn append_fill(out: &mut String, unit: &str, count: usize)
    requires
        unit@.len() == 1,
    ensures
        final(out)@ == old(out)@ + fill(unit@[0], count as int),
{
    let mut i: usize = 0;
    assert(out@ =~= old(out)@ + fill(unit@[0], 0));
    while i < count
        invariant
            i <= count,
            unit@.len() == 1,
            out@ == old(out)@ + fill(unit@[0], i as int),
        decreases count - i,
    {
        out.append(unit);
        i = i + 1;
        assert(out@ =~= old(out)@ + fill(unit@[0], i as int));
    }
}

/// Append `n` in decimal, with zeros before it up to `width` digits.
pub fn append_decimal_padded(out: &mut String, n: u64, width: usize)
    ensures
        final(out)@ == old(out)@ + decimal_padded(n as nat, width as nat),
{
    let ghost before = out@;
    let digits: String = decimal_string(n);
    let len: usize = digits.as_str().unicode_len();
    if len < width {
        proof {
            reveal_strlit("0");
        }
        append_fill(out, "0", width - len);
    }
    out.append(digits.as_str());
    assert(out@ =~= before + decimal_padded(n as nat, width as nat));
}

/// The lower-case hex digits of `b`.
pub fn hex_encode(b: &[u8]) -> (text: String)
    ensures
        text@ == hex(b@),
{
    let mut text: String = String::new();
    let mut i: usize = 0;
    assert(text@ =~= hex(b@.take(0)));
    while i < b.len()
        invariant
            i <= b@.len(),
            text@ == hex(b@.take(i as int)),
        decreases b@.len() - i,
    {
        let ghost before = text@;
        let byte: u8 = b[i];
        text.append(digit_str((byte / 16) as u64));
        text.append(digit_str((byte % 16) as u64));
        i = i + 1;
        proof {
            assert(b@.take(i as int).drop_last() =~= b@.take(i - 1));
            assert(text@ =~= before + hex_byte(byte));
        }
    }
    assert(b@.take(b@.len() as int) =~= b@);
    text
}

proof fn lemma_digit(n: nat)
    requires
        n < 10,
    ensures
        digit_value(digit_char(n), 10) == Some(n),
        digit_char(n) != '+',
{
}

/// Decimal text is never empty, and holds digits only.
pub proof fn lemma_decimal_digits(n: nat)
    ensures
        decimal(n).len() >= 1,
        forall|i: int| 0 <= i < decimal(n).len() ==> '0' <= #[trigger] decimal(n)[i] <= '9',
    decreases n,
{
    if n >= 10 {
        lemma_decimal_digits(n / 10);
    }
}

/// A number written in decimal, with zeros before it or not, is read back.
pub proof fn decimal_round_trips(n: nat, width: nat, max: nat)
    requires
        n <= max,
    ensures
        number(decimal(n), 10, max) == Ok::<nat, NumberError>(n),
        number(decimal_padded(n, width), 10, max) == Ok::<nat, NumberError>(n),
{
    lemma_decimal_digits(n);
    lemma_zeros_then_decimal(0, n, max);
    assert(fill('0', 0) + decimal(n) =~= decimal(n));
    let zeros = width - decimal(n).len();
    lemma_zeros_then_decimal(zeros, n, max);
    assert(decimal_padded(n, width)[0] != '+');
}

proof fn lemma_zeros_then_decimal(zeros: int, n: nat, max: nat)
    requires
        n <= max,
    ensures
        digits_value(fill('0', zeros) + decimal(n), 10, max) == Ok::<nat, NumberError>(n),
    decreases n,
{
    let s = fill('0', zeros) + decimal(n);
    lemma_digit(n % 10);
    if n < 10 {
        assert(s.drop_last() =~= fill('0', zeros));
        lemma_zeros(zeros, max);
    } else {
        lemma_zeros_then_decimal(zeros, n / 10, max);
        assert(s.drop_last() =~= fill('0', zeros) + decimal(n / 10));
    }
}

proof fn lemma_zeros(zeros: int, max: nat)
    ensures
        digits_value(fill('0', zeros), 10, max) == Ok::<nat, NumberError>(0),
    decreases zeros,
{
    if zeros > 0 {
        lemma_digit(0);
        assert(fill('0', zeros).drop_last() =~= fill('0', zeros - 1));
        lemma_zeros(zeros - 1, max);
    }
}

/// Every character of `s` is a decimal digit.
pub open spec fn all_digits(s: Seq<char>) -> bool {
    forall|i: int| 0 <= i < s.len() ==> '0' <= #[trigger] s[i] <= '9'
}

/// A padded number is spelled in digits, and has at least the digits asked for.
pub proof fn lemma_padded(n: nat, width: nat)
    ensures
        all_digits(decimal_padded(n, width)),
        decimal_padded(n, width).len() >= width,
{
    lemma_decimal_digits(n);
}

/// The number that `s` spells in `radix`: each character counts as many as it is
/// above `'0'`.
pub open spec fn spelled(s: Seq<char>, radix: nat) -> nat
    decreases s.len(),
{
    if s.len() == 0 {
        0
    } else {
        spelled(s.drop_last(), radix) * radix + (s.last() as int - '0' as int) as nat
    }
}

/// `s` is decimal digits that spell `n`, without a leading zero.
pub open spec fn spells(s: Seq<char>, n: nat) -> bool {
    &&& s.len() > 0
    &&& forall|i: int| 0 <= i < s.len() ==> '0' <= #[trigger] s[i] <= '9'
    &&& spelled(s, 10) == n
    &&& s.len() > 1 ==> s[0] != '0'
}

/// Every character of `s` is a digit of `radix`, which is at most ten.
pub open spec fn digits_in(s: Seq<char>, radix: nat) -> bool {
    forall|i: int| 0 <= i < s.len() ==> '0' <= #[trigger] s[i] && (s[i] as int - '0' as int) < radix
}

/// A number in decimal is spelled in digits, without a leading zero.
pub proof fn decimal_spells_its_number(n: nat)
    ensures
        all_digits(decimal(n)),
        spelled(decimal(n), 10) == n,
        decimal(n).len() >= 1,
        decimal(n).len() > 1 ==> decimal(n)[0] != '0',
    decreases n,
{
    lemma_decimal_digits(n);
    let s = decimal(n);
    if n < 10 {
        assert(s.drop_last() =~= Seq::<char>::empty());
        assert(spelled(s.drop_last(), 10) == 0);
    } else {
        decimal_spells_its_number(n / 10);
        assert(s.drop_last() =~= decimal(n / 10));
        assert(s[0] == decimal(n / 10)[0]);
        if decimal(n / 10).len() == 1 {
            lemma_one_digit(n / 10);
        }
    }
}

proof fn lemma_one_digit(n: nat)
    requires
        n > 0,
        decimal(n).len() == 1,
    ensures
        decimal(n)[0] != '0',
{
    if n >= 10 {
        lemma_decimal_digits(n / 10);
    }
}

/// Zeros before digits do not change the number.
pub proof fn leading_zeros_count_nothing(zeros: int, s: Seq<char>, radix: nat)
    ensures
        spelled(fill('0', zeros) + s, radix) == spelled(s, radix),
    decreases s.len(), zeros,
{
    let padded = fill('0', zeros) + s;
    if s.len() > 0 {
        leading_zeros_count_nothing(zeros, s.drop_last(), radix);
        assert(padded.drop_last() =~= fill('0', zeros) + s.drop_last());
    } else if zeros > 0 {
        leading_zeros_count_nothing(zeros - 1, s, radix);
        assert(padded.drop_last() =~= fill('0', zeros - 1) + s);
        assert(spelled(padded, radix) == 0 * radix);
    } else {
        assert(padded =~= s);
    }
}

/// A padded number is spelled in digits, at least `width` of them, and in more only
/// where there is no leading zero.
pub proof fn padded_spells_its_number(n: nat, width: nat)
    ensures
        all_digits(decimal_padded(n, width)),
        spelled(decimal_padded(n, width), 10) == n,
        decimal_padded(n, width).len() >= width,
        decimal_padded(n, width).len() > width ==> decimal_padded(n, width).len() == 1
            || decimal_padded(n, width)[0] != '0',
{
    decimal_spells_its_number(n);
    let zeros = width - decimal(n).len();
    leading_zeros_count_nothing(zeros, decimal(n), 10);
    if zeros <= 0 {
        assert(decimal_padded(n, width) =~= decimal(n));
    }
}

/// Two numbers with one decimal text are one.
pub proof fn decimals_differ(a: nat, b: nat)
    requires
        decimal(a) == decimal(b),
    ensures
        a == b,
{
    decimal_spells_its_number(a);
    decimal_spells_its_number(b);
}

proof fn lemma_digits_spell(s: Seq<char>, radix: nat, max: nat)
    requires
        digits_in(s, radix),
        1 <= radix,
    ensures
        digits_value(s, radix, max) == if spelled(s, radix) <= max {
            Ok::<nat, NumberError>(spelled(s, radix))
        } else {
            Err(NumberError::Overflow)
        },
    decreases s.len(),
{
    if s.len() > 0 {
        let front = s.drop_last();
        assert forall|i: int| 0 <= i < front.len() implies '0' <= #[trigger] front[i] && (front[i]
            as int - '0' as int) < radix by {
            assert(front[i] == s[i]);
        }
        lemma_digits_spell(front, radix, max);
        let high = spelled(front, radix);
        assert('0' <= s[s.len() - 1] && (s[s.len() - 1] as int - '0' as int) < radix);
        assert(high * radix >= high) by (nonlinear_arith)
            requires
                1 <= radix,
                high >= 0,
        ;
    }
}

/// A text of digits, with or without a plus sign before them, is the number that
/// they spell, unless that is above `max`.
pub proof fn digits_are_read(s: Seq<char>, radix: nat, max: nat)
    requires
        1 <= radix <= 10,
        s.len() > 0,
        digits_in(s, radix),
    ensures
        ({
            let meant = if spelled(s, radix) <= max {
                Ok::<nat, NumberError>(spelled(s, radix))
            } else {
                Err(NumberError::Overflow)
            };
            &&& number(s, radix, max) == meant
            &&& number(seq!['+'] + s, radix, max) == meant
        }),
{
    lemma_digits_spell(s, radix, max);
    assert('0' <= s[0]);
    let signed = seq!['+'] + s;
    assert(signed.drop_first() =~= s);
}

/// A text is no number if it is empty, a sign alone, or holds, behind the sign that
/// it may have, a character that is no digit; such a character is what is wrong with
/// it unless the digits before it spell too much already.
pub proof fn other_texts_are_refused(head: Seq<char>, c: char, rest: Seq<char>, radix: nat, max: nat)
    requires
        1 <= radix <= 10,
        digits_in(head, radix),
        !('0' <= c && (c as int - '0' as int) < radix),
    ensures
        ({
            let s = head.push(c) + rest;
            let wrong = if spelled(head, radix) <= max {
                Err::<nat, NumberError>(NumberError::InvalidDigit)
            } else {
                Err(NumberError::Overflow)
            };
            &&& head.len() > 0 || c != '+' ==> number(s, radix, max) == wrong
            &&& number(seq!['+'] + s, radix, max) == wrong
        }),
        number(seq![], radix, max) == Err::<nat, NumberError>(NumberError::Empty),
        number(seq!['+'], radix, max) == Err::<nat, NumberError>(NumberError::InvalidDigit),
{
    let s = head.push(c) + rest;
    let n = head.len() as int;
    lemma_digits_spell(head, radix, max);
    assert(s.take(n + 1) =~= head.push(c));
    assert(s.take(n + 1).drop_last() =~= head);
    assert(digits_value(s.take(n + 1), radix, max) is Err);
    lemma_error_stays(s, radix, max, n + 1);
    let signed = seq!['+'] + s;
    assert(signed.drop_first() =~= s);
    if n > 0 {
        assert('0' <= head[0]);
        assert(s[0] == head[0]);
    } else {
        assert(s[0] == c);
    }
}

/// The value of a hex digit.
pub open spec fn hex_value(c: char) -> int {
    if c <= '9' {
        c as int - '0' as int
    } else {
        c as int - 'a' as int + 10
    }
}

/// Two lower-case hex digits that spell `byte`.
pub open spec fn spells_byte(high: char, low: char, byte: u8) -> bool {
    &&& ('0' <= high <= '9' || 'a' <= high <= 'f')
    &&& ('0' <= low <= '9' || 'a' <= low <= 'f')
    &&& hex_value(high) * 16 + hex_value(low) == byte
}

/// Bytes in hex have two lower-case digits each, which spell the byte.
pub proof fn hex_spells_its_bytes(bytes: Seq<u8>)
    ensures
        hex(bytes).len() == 2 * bytes.len(),
        forall|i: int|
            0 <= i < bytes.len() ==> spells_byte(
                hex(bytes)[2 * i],
                hex(bytes)[2 * i + 1],
                #[trigger] bytes[i],
            ),
    decreases bytes.len(),
{
    if bytes.len() > 0 {
        let front = bytes.drop_last();
        hex_spells_its_bytes(front);
        assert forall|i: int| 0 <= i < bytes.len() implies spells_byte(
            hex(bytes)[2 * i],
            hex(bytes)[2 * i + 1],
            #[trigger] bytes[i],
        ) by {
            if i < front.len() {
                assert(front[i] == bytes[i]);
                assert(hex(bytes)[2 * i] == hex(front)[2 * i]);
                assert(hex(bytes)[2 * i + 1] == hex(front)[2 * i + 1]);
            } else {
                let b = bytes[i];
                assert(hex(bytes)[2 * i] == hex_byte(b)[0]);
                assert(hex(bytes)[2 * i + 1] == hex_byte(b)[1]);
                assert(b / 16 < 16 && b == (b / 16) * 16 + b % 16);
            }
        }
    }
}

/// Bytes with one hex text are the same.
pub proof fn hex_texts_differ(a: Seq<u8>, b: Seq<u8>)
    requires
        hex(a) == hex(b),
    ensures
        a == b,
{
    hex_spells_its_bytes(a);
    hex_spells_its_bytes(b);
    assert forall|i: int| 0 <= i < a.len() implies a[i] == b[i] by {
        assert(spells_byte(hex(a)[2 * i], hex(a)[2 * i + 1], a[i]));
        assert(spells_byte(hex(b)[2 * i], hex(b)[2 * i + 1], b[i]));
    }
    assert(a =~= b);
}

} // verus!
